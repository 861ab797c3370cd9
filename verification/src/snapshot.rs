//! One sample of a repository: the source files of one month, and the rows that
//! the analyses report for them.
//!
//! The rows of a snapshot are gathered in a [`Batch`] before any of them is
//! stored, so that the snapshot and its rows can be stored in one transaction.
//! A file that could not be read or parsed is noted and passed over; files that
//! belong to tests are left out.

use crate::stats::{
    all_logged,
    collect_file,
    file_occurrences,
    is_well_formed,
    lemma_occurrences_logged,
    lemma_occurrences_well_formed,
    runners,
    occurrence_views,
    runner_findings,
    Logger,
    LoggerView,
    Occurrence,
    OccurrenceView,
    Runner,
};
use crate::syntax::{NodeView, SyntaxNode};
use vstd::prelude::*;

verus! {

/// A sample of one repository in one month.
#[derive(Clone, Debug, PartialEq, Eq)]
pub struct Snapshot {
    pub id: u128,
    pub crate_name: String,
    pub bucket: u64,
}

/// [`Snapshot`] as a mathematical value.
pub struct SnapshotView {
    pub id: u128,
    pub crate_name: Seq<char>,
    pub bucket: u64,
}

impl View for Snapshot {
    type V = SnapshotView;

    open spec fn view(&self) -> SnapshotView {
        SnapshotView { id: self.id, crate_name: self.crate_name@, bucket: self.bucket }
    }
}

/// What reading and parsing a source file gave.
#[derive(Debug)]
pub enum Source {
    /// The file could not be read.
    Unreadable,
    /// The file is not valid source text; the parser stopped at this place.
    Unparsable { line: usize, column: usize },
    /// The syntax tree of the file.
    Parsed(SyntaxNode),
}

/// [`Source`] as a mathematical value.
pub enum SourceView {
    Unreadable,
    Unparsable { line: usize, column: usize },
    Parsed(NodeView),
}

impl View for Source {
    type V = SourceView;

    open spec fn view(&self) -> SourceView {
        match *self {
            Source::Unreadable => SourceView::Unreadable,
            Source::Unparsable { line, column } => SourceView::Unparsable { line, column },
            Source::Parsed(tree) => SourceView::Parsed(tree@),
        }
    }
}

/// A source file of a snapshot: its path below the root of the repository, as
/// it is shown and by its components, and what reading and parsing it gave.
#[derive(Debug)]
pub struct SourceFile {
    pub file_name: String,
    pub components: Vec<String>,
    pub source: Source,
}

/// [`SourceFile`] as a mathematical value.
pub struct SourceFileView {
    pub file_name: Seq<char>,
    pub components: Seq<Seq<char>>,
    pub source: SourceView,
}

/// The views of a sequence of strings.
pub open spec fn string_views(names: Seq<String>) -> Seq<Seq<char>> {
    Seq::new(names.len(), |i: int| names[i]@)
}

impl View for SourceFile {
    type V = SourceFileView;

    open spec fn view(&self) -> SourceFileView {
        SourceFileView {
            file_name: self.file_name@,
            components: string_views(self.components@),
            source: self.source@,
        }
    }
}

/// The views of a sequence of source files.
pub open spec fn file_views(files: Seq<SourceFile>) -> Seq<SourceFileView> {
    Seq::new(files.len(), |i: int| files[i]@)
}

/// A file that was passed over, and why.
#[derive(Clone, Debug, PartialEq, Eq)]
pub enum FileError {
    /// The file could not be read.
    Read { file_name: String },
    /// The file could not be parsed; the parser stopped at this place.
    Parse { file_name: String, line: usize, column: usize },
}

/// [`FileError`] as a mathematical value.
pub enum FileErrorView {
    Read { file_name: Seq<char> },
    Parse { file_name: Seq<char>, line: usize, column: usize },
}

impl View for FileError {
    type V = FileErrorView;

    open spec fn view(&self) -> FileErrorView {
        match *self {
            FileError::Read { file_name } => FileErrorView::Read { file_name: file_name@ },
            FileError::Parse { file_name, line, column } => FileErrorView::Parse {
                file_name: file_name@,
                line,
                column,
            },
        }
    }
}

/// The views of a sequence of file errors.
pub open spec fn error_views(errors: Seq<FileError>) -> Seq<FileErrorView> {
    Seq::new(errors.len(), |i: int| errors[i]@)
}

/// The rows of one snapshot, and the files that were passed over.
#[derive(Debug)]
pub struct Batch {
    pub snapshot: Snapshot,
    pub occurrences: Vec<Occurrence>,
    pub errors: Vec<FileError>,
}

/// The extension of a source file.
pub open spec fn extension() -> Seq<char> {
    seq!['.', 'r', 's']
}

/// Whether `name` ends with `suffix`.
pub open spec fn ends_with(name: Seq<char>, suffix: Seq<char>) -> bool {
    name.len() >= suffix.len() && name.subrange(name.len() - suffix.len(), name.len() as int)
        == suffix
}

/// A name without the extensions at its end, however many there are.
pub open spec fn stem(name: Seq<char>) -> Seq<char>
    decreases name.len(),
{
    if ends_with(name, extension()) {
        stem(name.subrange(0, name.len() - 3))
    } else {
        name
    }
}

/// Whether a file or directory of this name holds tests.
pub open spec fn is_test_name(name: Seq<char>) -> bool {
    stem(name) == "test"@ || stem(name) == "tests"@ || stem(name) == "test_data"@
}

/// Whether a path leads through a file or directory that holds tests.
pub open spec fn is_test_path(components: Seq<Seq<char>>) -> bool {
    exists|i: int| 0 <= i < components.len() && is_test_name(components[i])
}

/// The rows of one file of a snapshot: those of all analyses, if the file does
/// not belong to tests and was parsed.
pub open spec fn source_occurrences(version_id: u128, file: SourceFileView) -> Seq<OccurrenceView> {
    if is_test_path(file.components) {
        Seq::empty()
    } else {
        match file.source {
            SourceView::Parsed(tree) => file_occurrences(
                LoggerView { file_name: file.file_name, version_id },
                tree,
            ),
            _ => Seq::empty(),
        }
    }
}

/// The error of one file of a snapshot, if the file does not belong to tests and
/// could not be read or parsed.
pub open spec fn source_errors(file: SourceFileView) -> Seq<FileErrorView> {
    if is_test_path(file.components) {
        Seq::empty()
    } else {
        match file.source {
            SourceView::Unreadable => seq![FileErrorView::Read { file_name: file.file_name }],
            SourceView::Unparsable { line, column } => seq![
                FileErrorView::Parse { file_name: file.file_name, line, column },
            ],
            SourceView::Parsed(_) => Seq::empty(),
        }
    }
}

/// The rows of the first `n` files of a snapshot, file after file.
pub open spec fn version_occurrences(version_id: u128, files: Seq<SourceFileView>, n: int) -> Seq<
    OccurrenceView,
>
    decreases n,
{
    if n <= 0 {
        Seq::empty()
    } else {
        version_occurrences(version_id, files, n - 1) + source_occurrences(
            version_id,
            files[n - 1],
        )
    }
}

/// The errors of the first `n` files of a snapshot, file after file.
pub open spec fn version_errors(files: Seq<SourceFileView>, n: int) -> Seq<FileErrorView>
    decreases n,
{
    if n <= 0 {
        Seq::empty()
    } else {
        version_errors(files, n - 1) + source_errors(files[n - 1])
    }
}

/// Whether a batch is that of the snapshot `id` of a repository in a month,
/// with the given source files.
pub open spec fn is_batch_of(
    batch: Batch,
    id: u128,
    crate_name: Seq<char>,
    bucket: u64,
    files: Seq<SourceFileView>,
) -> bool {
    &&& batch.snapshot@ == SnapshotView { id, crate_name, bucket }
    &&& occurrence_views(batch.occurrences@) == version_occurrences(id, files, files.len() as int)
    &&& error_views(batch.errors@) == version_errors(files, files.len() as int)
}

/// Every row of a snapshot belongs to that snapshot, and is well formed.
pub proof fn lemma_rows_belong_to_snapshot(id: u128, files: Seq<SourceFileView>, n: int)
    requires
        n <= files.len(),
    ensures
        forall|i: int|
            0 <= i < version_occurrences(id, files, n).len() ==> {
                let occurrence = #[trigger] version_occurrences(id, files, n)[i];
                occurrence.version_id == id && is_well_formed(occurrence)
            },
    decreases n,
{
    if n > 0 {
        lemma_rows_belong_to_snapshot(id, files, n - 1);
        let done = version_occurrences(id, files, n - 1);
        let step = source_occurrences(id, files[n - 1]);
        assert forall|i: int| 0 <= i < step.len() implies {
            let occurrence = #[trigger] step[i];
            occurrence.version_id == id && is_well_formed(occurrence)
        } by {
            match files[n - 1].source {
                SourceView::Parsed(tree) => {
                    let log = LoggerView { file_name: files[n - 1].file_name, version_id: id };
                    lemma_occurrences_logged(log, tree, runners().len() as int);
                    lemma_occurrences_well_formed(log, tree, i);
                },
                _ => {},
            }
        }
        assert forall|i: int| 0 <= i < (done + step).len() implies {
            let occurrence = #[trigger] (done + step)[i];
            occurrence.version_id == id && is_well_formed(occurrence)
        } by {
            if i >= done.len() {
                assert((done + step)[i] == step[i - done.len()]);
            }
        }
    }
}

/// How many characters of a name are left without the extensions at its end.
fn stem_len(name: &str) -> (n: usize)
    ensures
        n <= name@.len(),
        name@.subrange(0, n as int) == stem(name@),
{
    let mut n = name.unicode_len();
    proof {
        assert(name@.subrange(0, n as int) =~= name@);
    }
    loop
        invariant
            n <= name@.len(),
            stem(name@.subrange(0, n as int)) == stem(name@),
        ensures
            name@.subrange(0, n as int) == stem(name@),
        decreases n,
    {
        let ghost head = name@.subrange(0, n as int);
        if n < 3 {
            break ;
        }
        let a = name.get_char(n - 3);
        let b = name.get_char(n - 2);
        let c = name.get_char(n - 1);
        if a != '.' || b != 'r' || c != 's' {
            proof {
                let tail = head.subrange(head.len() - 3, head.len() as int);
                assert(tail[0] == a && tail[1] == b && tail[2] == c);
                assert(extension()[0] == '.' && extension()[1] == 'r' && extension()[2] == 's');
            }
            break ;
        }
        proof {
            assert(head.subrange(head.len() - 3, head.len() as int) =~= extension());
            assert(head.subrange(0, head.len() - 3) =~= name@.subrange(0, n - 3));
        }
        n = n - 3;
    }
    n
}

/// Whether a file or directory of this name holds tests: whether the name
/// without its extensions is `test`, `tests` or `test_data`.
pub fn is_test_component(name: &str) -> (b: bool)
    ensures
        b == is_test_name(name@),
{
    let n = stem_len(name);
    let stem = String::from_str(name.substring_char(0, n));
    stem == String::from_str("test") || stem == String::from_str("tests") || stem
        == String::from_str("test_data")
}

/// Whether a path leads through a file or directory that holds tests.
pub fn is_test_file(components: &Vec<String>) -> (b: bool)
    ensures
        b == is_test_path(string_views(components@)),
{
    let mut i: usize = 0;
    while i < components.len()
        invariant
            0 <= i <= components.len(),
            forall|j: int| 0 <= j < i ==> !is_test_name(#[trigger] string_views(components@)[j]),
        decreases components.len() - i,
    {
        if is_test_component(components[i].as_str()) {
            proof {
                assert(is_test_name(string_views(components@)[i as int]));
            }
            return true;
        }
        i = i + 1;
    }
    false
}

/// Trusted: calls uuid's `Uuid::new_v4` and hands back the value of the new
/// identifier as a number (`Uuid::as_u128`). The identifier is random, so nothing
/// is stated of it. uuid stops the program if the system has no random bytes
/// to give.
#[verifier::external_body]
fn fresh_version_id() -> (id: u128) {
    uuid::Uuid::new_v4().as_u128()
}

/// The batch of the snapshot `id` of a repository in a month: the rows of every
/// source file that was parsed and does not belong to tests, file after file,
/// and a note of every other such file that could not be read or parsed.
pub fn sample_version(id: u128, crate_name: &str, bucket: u64, files: &Vec<SourceFile>) -> (batch:
    Batch)
    ensures
        is_batch_of(batch, id, crate_name@, bucket, file_views(files@)),
{
    let ghost all = file_views(files@);
    let mut occurrences: Vec<Occurrence> = Vec::new();
    let mut errors: Vec<FileError> = Vec::new();
    let mut i: usize = 0;
    proof {
        assert(occurrence_views(occurrences@) =~= version_occurrences(id, all, 0));
        assert(error_views(errors@) =~= version_errors(all, 0));
    }
    while i < files.len()
        invariant
            0 <= i <= files.len(),
            all == file_views(files@),
            occurrence_views(occurrences@) == version_occurrences(id, all, i as int),
            error_views(errors@) == version_errors(all, i as int),
        decreases files.len() - i,
    {
        let file = &files[i];
        let ghost rows = occurrence_views(occurrences@);
        let ghost notes = error_views(errors@);
        proof {
            assert(all[i as int] == file@);
            assert(rows + Seq::<OccurrenceView>::empty() =~= rows);
            assert(notes + Seq::<FileErrorView>::empty() =~= notes);
        }
        if !is_test_file(&file.components) {
            match &file.source {
                Source::Unreadable => {
                    let error = FileError::Read { file_name: file.file_name.clone() };
                    errors.push(error);
                    proof {
                        assert(error_views(errors@) =~= notes + seq![error@]);
                    }
                },
                Source::Unparsable { line, column } => {
                    let error = FileError::Parse {
                        file_name: file.file_name.clone(),
                        line: *line,
                        column: *column,
                    };
                    errors.push(error);
                    proof {
                        assert(error_views(errors@) =~= notes + seq![error@]);
                    }
                },
                Source::Parsed(tree) => {
                    let log = Logger { file_name: file.file_name.clone(), version_id: id };
                    collect_file(tree, &log, &mut occurrences);
                },
            }
        }
        i = i + 1;
    }
    Batch {
        snapshot: Snapshot { id, crate_name: String::from_str(crate_name), bucket },
        occurrences,
        errors,
    }
}

/// Samples a repository in a month under a new identifier: the batch of
/// [`sample_version`] for an identifier that is made up on the spot.
pub fn run_version(crate_name: &str, bucket: u64, files: &Vec<SourceFile>) -> (batch: Batch)
    ensures
        is_batch_of(batch, batch.snapshot.id, crate_name@, bucket, file_views(files@)),
{
    sample_version(fresh_version_id(), crate_name, bucket, files)
}

impl Runner {
    /// Runs the analysis on what reading and parsing a source file gave:
    /// the rows of the file if it was parsed, `None` if it was not.
    pub fn collect_path(&self, source: &Source, log: &Logger) -> (rows: Option<Vec<Occurrence>>)
        ensures
            match source@ {
                SourceView::Parsed(tree) => rows is Some && occurrence_views(rows.unwrap()@)
                    == all_logged(log@, runner_findings(*self, tree)),
                _ => rows is None,
            },
    {
        match source {
            Source::Parsed(tree) => Some(self.collect_syntax(tree, log)),
            _ => None,
        }
    }
}

} // verus!
