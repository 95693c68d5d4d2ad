//! The result aggregator: collects the records of all workers, orders them
//! and renders the report.

use crate::record::{views, MatchRecord, RecordView};
use crate::sort::{is_report_of, sort_records};
use crate::text::{decimal, decimal_string, str_trim, trimmed};
use vstd::prelude::*;
use vstd::string::*;

verus! {

/// The text of one report line: path, line number and the content without
/// surrounding whitespace.
pub open spec fn report_line(r: RecordView) -> Seq<char> {
    r.file_path + seq![':'] + decimal(r.line_number) + seq![':', ' '] + trimmed(r.content)
}

/// The lines of a report, one for each record, in order.
pub open spec fn report_lines(records: Seq<RecordView>) -> Seq<Seq<char>> {
    records.map_values(|r: RecordView| report_line(r))
}

/// The texts of a vector of strings, in order.
pub open spec fn texts(lines: Seq<String>) -> Seq<Seq<char>> {
    lines.map_values(|l: String| l@)
}

/// Renders one record as `path:line: content`.
pub fn render_line(record: &MatchRecord) -> (line: String)
    ensures
        line@ == report_line(record@),
{
    proof {
        reveal_strlit(":");
        reveal_strlit(": ");
    }
    let mut line = record.file_path.clone();
    line.append(":");
    let number = decimal_string(record.line_number as u64);
    line.append(number.as_str());
    line.append(": ");
    line.append(str_trim(record.content.as_str()));
    assert(":"@ =~= seq![':']);
    assert(": "@ =~= seq![':', ' ']);
    line
}

/// Renders the records, one line each, in the order given.
pub fn render(records: &Vec<MatchRecord>) -> (lines: Vec<String>)
    ensures
        texts(lines@) == report_lines(views(records@)),
{
    let mut lines: Vec<String> = Vec::new();
    let mut i: usize = 0;
    assert(texts(lines@) =~= report_lines(views(records@).take(0)));
    while i < records.len()
        invariant
            i <= records.len(),
            texts(lines@) == report_lines(views(records@).take(i as int)),
        decreases records.len() - i,
    {
        let ghost before = texts(lines@);
        let line = render_line(&records[i]);
        lines.push(line);
        i += 1;
        assert(texts(lines@) =~= before.push(line@));
        assert(texts(lines@) =~= report_lines(views(records@).take(i as int)));
    }
    assert(views(records@).take(i as int) =~= views(records@));
    lines
}

/// The outcome of a search: the ordered matches and the files left out.
pub struct Report {
    /// The matches, ordered by path and, within a path, by arrival.
    pub matches: Vec<MatchRecord>,
    /// The paths of the files that could not be read, in order of arrival.
    pub skipped: Vec<String>,
}

/// The single collection point of a search. Records arrive in any order
/// across files; nothing is ordered or rendered before `finish`.
pub struct Aggregator {
    arrived: Vec<MatchRecord>,
    skipped: Vec<String>,
}

impl Aggregator {
    /// The records collected so far, in order of arrival.
    pub closed spec fn arrived(self) -> Seq<RecordView> {
        views(self.arrived@)
    }

    /// The paths reported unreadable so far, in order of arrival.
    pub closed spec fn skipped(self) -> Seq<Seq<char>> {
        texts(self.skipped@)
    }

    /// An aggregator that has received nothing.
    pub fn new() -> (a: Aggregator)
        ensures
            a.arrived() == Seq::<RecordView>::empty(),
            a.skipped() == Seq::<Seq<char>>::empty(),
    {
        let a = Aggregator { arrived: Vec::new(), skipped: Vec::new() };
        assert(a.arrived() =~= Seq::<RecordView>::empty());
        assert(a.skipped() =~= Seq::<Seq<char>>::empty());
        a
    }

    /// Receives one record.
    pub fn collect(&mut self, record: MatchRecord)
        ensures
            final(self).arrived() == old(self).arrived().push(record@),
            final(self).skipped() == old(self).skipped(),
    {
        self.arrived.push(record);
        assert(views(self.arrived@) =~= views(old(self).arrived@).push(record@));
    }

    /// Receives all the records of one worker, in their order.
    pub fn collect_all(&mut self, records: Vec<MatchRecord>)
        ensures
            final(self).arrived() == old(self).arrived() + views(records@),
            final(self).skipped() == old(self).skipped(),
    {
        let ghost incoming = views(records@);
        let mut records = records;
        self.arrived.append(&mut records);
        assert(views(self.arrived@) =~= views(old(self).arrived@) + incoming);
    }

    /// Notes that the file at `path` could not be read. It contributes no
    /// record, and the records of other files are untouched.
    pub fn skip(&mut self, path: &str)
        ensures
            final(self).arrived() == old(self).arrived(),
            final(self).skipped() == old(self).skipped().push(path@),
    {
        let owned = path.to_owned();
        self.skipped.push(owned);
        assert(texts(self.skipped@) =~= texts(old(self).skipped@).push(path@));
    }

    /// Ends collection: orders everything that arrived.
    pub fn finish(self) -> (report: Report)
        ensures
            is_report_of(views(report.matches@), self.arrived()),
            texts(report.skipped@) == self.skipped(),
    {
        Report { matches: sort_records(self.arrived), skipped: self.skipped }
    }
}

} // verus!
