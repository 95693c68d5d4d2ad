//! A whole search in one call: every file is scanned, the records are
//! collected, and the report is ordered once all files are done.

use crate::config::{ConfigView, Configuration};
use crate::record::{views, RecordView};
use crate::report::{texts, Aggregator, Report};
use crate::search::{file_matches, line_texts, search_file};
use crate::sort::is_report_of;
use vstd::prelude::*;
use vstd::string::*;

verus! {

/// A file found under the root: its path and, where it could be read as
/// text, its lines.
pub struct SourceFile {
    pub path: String,
    pub lines: Option<Vec<String>>,
}

/// The mathematical value of a [`SourceFile`].
pub struct SourceView {
    pub path: Seq<char>,
    pub lines: Option<Seq<Seq<char>>>,
}

impl View for SourceFile {
    type V = SourceView;

    open spec fn view(&self) -> SourceView {
        SourceView {
            path: self.path@,
            lines: match self.lines {
                Some(ls) => Some(line_texts(ls@)),
                None => None,
            },
        }
    }
}

/// The views of a vector of files, in order.
pub open spec fn source_views(files: Seq<SourceFile>) -> Seq<SourceView> {
    files.map_values(|f: SourceFile| f@)
}

/// The records that one file contributes: those of its scan, or none when
/// it could not be read.
pub open spec fn contribution(cfg: ConfigView, file: SourceView) -> Seq<RecordView> {
    match file.lines {
        Some(ls) => file_matches(cfg, file.path, ls),
        None => Seq::empty(),
    }
}

/// The records of all files, file after file.
pub open spec fn arrivals(cfg: ConfigView, files: Seq<SourceView>) -> Seq<RecordView>
    decreases files.len(),
{
    if files.len() == 0 {
        Seq::empty()
    } else {
        arrivals(cfg, files.drop_last()) + contribution(cfg, files.last())
    }
}

/// The paths of the files that could not be read, in order.
pub open spec fn unreadable(files: Seq<SourceView>) -> Seq<Seq<char>>
    decreases files.len(),
{
    if files.len() == 0 {
        Seq::empty()
    } else if files.last().lines is None {
        unreadable(files.drop_last()).push(files.last().path)
    } else {
        unreadable(files.drop_last())
    }
}

/// Searches every file and reports the matches in path order. A file that
/// could not be read is listed as skipped and contributes nothing; the
/// other files contribute all their matches.
pub fn search_files(cfg: &Configuration, files: Vec<SourceFile>) -> (report: Report)
    ensures
        is_report_of(views(report.matches@), arrivals(cfg@, source_views(files@))),
        texts(report.skipped@) == unreadable(source_views(files@)),
{
    let ghost all = source_views(files@);
    let mut aggregator = Aggregator::new();
    let total = files.len();
    let mut n: usize = 0;
    for file in it: files
        invariant
            n == it.index(),
            it.seq() == files@,
            total == files@.len(),
            all == source_views(files@),
            aggregator.arrived() == arrivals(cfg@, all.take(n as int)),
            aggregator.skipped() == unreadable(all.take(n as int)),
    {
        proof {
            assert(all.take(n + 1).drop_last() =~= all.take(n as int));
            assert(all.take(n + 1).last() == file@);
        }
        let SourceFile { path, lines } = file;
        match lines {
            Some(ls) => {
                let found = search_file(path.as_str(), ls, cfg);
                aggregator.collect_all(found);
            },
            None => {
                aggregator.skip(path.as_str());
                assert(aggregator.arrived() + Seq::<RecordView>::empty()
                    =~= aggregator.arrived());
            },
        }
        n += 1;
    }
    assert(all.take(n as int) =~= all);
    aggregator.finish()
}

} // verus!
