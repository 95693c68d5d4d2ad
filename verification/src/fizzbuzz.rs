//! The counting game: the numbers from 1 up, with multiples of 3 and 5 marked.

use crate::text::{decimal, decimal_string};
use vstd::prelude::*;
use vstd::string::*;

verus! {

/// The line for the number `i`: `FizzBuzz` for a multiple of both 3 and 5,
/// the numeral followed by `Fizz` for a multiple of 3, by `Buzz` for a
/// multiple of 5, and the bare numeral otherwise.
pub open spec fn fizzbuzz_line(i: nat) -> Seq<char> {
    if i % 3 == 0 && i % 5 == 0 {
        "FizzBuzz"@
    } else if i % 3 == 0 {
        decimal(i) + "Fizz"@
    } else if i % 5 == 0 {
        decimal(i) + "Buzz"@
    } else {
        decimal(i)
    }
}

/// Writes the line for one positive number.
pub fn line_for(i: u32) -> (line: String)
    ensures
        line@ == fizzbuzz_line(i as nat),
{
    if i % 3 == 0 && i % 5 == 0 {
        String::from_str("FizzBuzz")
    } else if i % 3 == 0 {
        let mut line = decimal_string(i as u64);
        line.append("Fizz");
        line
    } else if i % 5 == 0 {
        let mut line = decimal_string(i as u64);
        line.append("Buzz");
        line
    } else {
        decimal_string(i as u64)
    }
}

/// The lines for 1 to `n`, in order; none when `n` is below 1.
pub fn question1(n: i32) -> (lines: Vec<String>)
    ensures
        lines@.len() == if n < 1 {
            0
        } else {
            n as int
        },
        forall|k: int| 0 <= k < lines@.len() ==> (#[trigger] lines@[k])@ == fizzbuzz_line((k + 1) as nat),
{
    let mut lines: Vec<String> = Vec::new();
    let mut i: i32 = 0;
    while i < n
        invariant
            0 <= i,
            i <= n || i == 0,
            lines@.len() == i,
            forall|k: int|
                0 <= k < lines@.len() ==> (#[trigger] lines@[k])@ == fizzbuzz_line((k + 1) as nat),
        decreases n - i,
    {
        i += 1;
        let line = line_for(i as u32);
        lines.push(line);
    }
    lines
}

} // verus!
