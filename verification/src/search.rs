//! The search worker: scans the lines of one file against a configuration.

use crate::config::{ConfigView, Configuration};
use crate::record::{views, MatchRecord, RecordView};
use vstd::prelude::*;
use vstd::string::*;

verus! {

/// The texts of a vector of lines, in order.
pub open spec fn line_texts(lines: Seq<String>) -> Seq<Seq<char>> {
    lines.map_values(|l: String| l@)
}

/// The record for line `number` of `path`, holding `content`.
pub open spec fn record_at(path: Seq<char>, number: nat, content: Seq<char>) -> RecordView {
    RecordView { file_path: path, line_number: number, content }
}

/// The records that a scan of `lines` produces: one for each line that the
/// configuration accepts, numbered from 1, in line order, holding the line
/// as it stands.
pub open spec fn file_matches(cfg: ConfigView, path: Seq<char>, lines: Seq<Seq<char>>) -> Seq<
    RecordView,
>
    decreases lines.len(),
{
    if lines.len() == 0 {
        Seq::empty()
    } else {
        let before = file_matches(cfg, path, lines.drop_last());
        if cfg.accepts(lines.last()) {
            before.push(record_at(path, lines.len(), lines.last()))
        } else {
            before
        }
    }
}

/// Nothing spurious: every record of a scan names the scanned path and a line
/// of the file that the configuration accepts, with that line as content.
pub proof fn lemma_matches_sound(cfg: ConfigView, path: Seq<char>, lines: Seq<Seq<char>>, k: int)
    requires
        0 <= k < file_matches(cfg, path, lines).len(),
    ensures
        ({
            let r = file_matches(cfg, path, lines)[k];
            &&& r.file_path == path
            &&& 1 <= r.line_number <= lines.len()
            &&& r.content == lines[r.line_number - 1]
            &&& cfg.accepts(r.content)
        }),
    decreases lines.len(),
{
    let before = file_matches(cfg, path, lines.drop_last());
    if k < before.len() {
        lemma_matches_sound(cfg, path, lines.drop_last(), k);
    }
}

/// Nothing missing: every accepted line has its record in the scan.
pub proof fn lemma_matches_complete(
    cfg: ConfigView,
    path: Seq<char>,
    lines: Seq<Seq<char>>,
    i: int,
)
    requires
        0 <= i < lines.len(),
        cfg.accepts(lines[i]),
    ensures
        file_matches(cfg, path, lines).contains(record_at(path, (i + 1) as nat, lines[i])),
    decreases lines.len(),
{
    let all = file_matches(cfg, path, lines);
    let before = file_matches(cfg, path, lines.drop_last());
    if i == lines.len() - 1 {
        assert(all[all.len() - 1] == record_at(path, (i + 1) as nat, lines[i]));
    } else {
        lemma_matches_complete(cfg, path, lines.drop_last(), i);
        let r = record_at(path, (i + 1) as nat, lines[i]);
        let k = choose|k: int| 0 <= k < before.len() && before[k] == r;
        assert(all[k] == r);
    }
}

/// Nothing twice: the records of a scan come in strictly rising line order.
pub proof fn lemma_matches_ascending(
    cfg: ConfigView,
    path: Seq<char>,
    lines: Seq<Seq<char>>,
    j: int,
    k: int,
)
    requires
        0 <= j < k < file_matches(cfg, path, lines).len(),
    ensures
        file_matches(cfg, path, lines)[j].line_number < file_matches(
            cfg,
            path,
            lines,
        )[k].line_number,
    decreases lines.len(),
{
    let before = file_matches(cfg, path, lines.drop_last());
    if k < before.len() {
        lemma_matches_ascending(cfg, path, lines.drop_last(), j, k);
    } else {
        lemma_matches_sound(cfg, path, lines.drop_last(), j);
    }
}

/// A scan in progress over the lines of one file. Lines are fed one at a
/// time, so a file need not be held in memory.
pub struct FileScanner {
    path: String,
    count: usize,
    found: Vec<MatchRecord>,
}

impl FileScanner {
    /// The path of the file being scanned.
    pub closed spec fn path(self) -> Seq<char> {
        self.path@
    }

    /// The number of lines fed so far.
    pub closed spec fn lines_seen(self) -> nat {
        self.count as nat
    }

    /// The records found so far.
    pub closed spec fn found(self) -> Seq<RecordView> {
        views(self.found@)
    }

    /// A scan of `path` that has seen no line yet.
    pub fn new(path: &str) -> (s: FileScanner)
        ensures
            s.path() == path@,
            s.lines_seen() == 0,
            s.found() == Seq::<RecordView>::empty(),
    {
        let s = FileScanner { path: path.to_owned(), count: 0, found: Vec::new() };
        assert(s.found() =~= Seq::<RecordView>::empty());
        s
    }

    /// The number of lines fed so far.
    pub fn line_count(&self) -> (n: usize)
        ensures
            n == self.lines_seen(),
    {
        self.count
    }

    /// Feeds the next line. Returns whether it matched; when it did, its
    /// record, numbered one more than the lines seen before, joins the
    /// records found.
    pub fn feed(&mut self, cfg: &Configuration, line: String) -> (matched: bool)
        requires
            old(self).lines_seen() < usize::MAX,
        ensures
            final(self).path() == old(self).path(),
            final(self).lines_seen() == old(self).lines_seen() + 1,
            matched == cfg@.accepts(line@),
            final(self).found() == if matched {
                old(self).found().push(
                    record_at(old(self).path(), old(self).lines_seen() + 1, line@),
                )
            } else {
                old(self).found()
            },
    {
        let matched = cfg.matches(line.as_str());
        let number = self.count + 1;
        self.count = number;
        if matched {
            let ghost before = self.found@;
            let record = MatchRecord::new(self.path.clone(), number, line);
            self.found.push(record);
            assert(views(self.found@) =~= views(before).push(record@));
        }
        matched
    }

    /// Ends the scan and hands over the records found.
    pub fn finish(self) -> (records: Vec<MatchRecord>)
        ensures
            views(records@) == self.found(),
    {
        self.found
    }
}

/// The records of a file with one more line: those of the lines before, and
/// the record of the new line when it is accepted.
pub proof fn lemma_feed_extends(cfg: ConfigView, path: Seq<char>, seen: Seq<Seq<char>>, line: Seq<char>)
    ensures
        file_matches(cfg, path, seen.push(line)) == if cfg.accepts(line) {
            file_matches(cfg, path, seen).push(record_at(path, seen.len() + 1, line))
        } else {
            file_matches(cfg, path, seen)
        },
{
    assert(seen.push(line).drop_last() =~= seen);
}

/// Scans the lines of one file: the records of the accepted lines, in line
/// order, each numbered from 1 and holding its line unchanged.
pub fn search_file(path: &str, lines: Vec<String>, cfg: &Configuration) -> (records: Vec<
    MatchRecord,
>)
    ensures
        views(records@) == file_matches(cfg@, path@, line_texts(lines@)),
{
    let ghost texts = line_texts(lines@);
    let mut scanner = FileScanner::new(path);
    let total = lines.len();
    let mut n: usize = 0;
    for line in it: lines
        invariant
            n == it.index(),
            it.seq() == lines@,
            total == lines@.len(),
            texts == line_texts(lines@),
            scanner.path() == path@,
            scanner.lines_seen() == n,
            scanner.found() == file_matches(cfg@, path@, texts.take(n as int)),
    {
        proof {
            lemma_feed_extends(cfg@, path@, texts.take(n as int), line@);
            assert(texts.take(n as int).push(line@) =~= texts.take(n + 1));
        }
        scanner.feed(cfg, line);
        n += 1;
    }
    assert(texts.take(n as int) =~= texts);
    scanner.finish()
}

} // verus!
