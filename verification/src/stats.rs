//! The analyses and what they report.
//!
//! Every analysis walks the syntax tree of one source file on its own and
//! reports [`Finding`]s: rows without the file and the snapshot they belong to.
//! A [`Logger`] names that file and snapshot and turns findings into
//! [`Occurrence`]s. The analyses are listed once, in [`all_runners`]; none of
//! them reads what another one reports.

use crate::syntax::{NodeView, SyntaxNode};
use vstd::prelude::*;

pub mod closures;
pub mod regions;
pub mod traits;

verus! {

/// What a finding says, by the analysis that made it.
#[derive(Clone, Debug, PartialEq, Eq)]
pub enum Detail {
    /// A trait declaration or a use of a trait.
    Trait(traits::Row),
    /// A closure expression.
    Closure(closures::Row),
    /// An `unsafe` block or an `unsafe` function.
    Unsafe(regions::Row),
    /// An `async` block or an `async` function.
    Async(regions::Row),
    /// A call of `transmute` or `transmute_copy`.
    Transmute(regions::Transmute),
}

/// [`Detail`] as a mathematical value.
pub enum DetailView {
    Trait(traits::RowView),
    Closure(closures::Row),
    Unsafe(regions::RowView),
    Async(regions::RowView),
    Transmute(regions::TransmuteView),
}

impl View for Detail {
    type V = DetailView;

    open spec fn view(&self) -> DetailView {
        match *self {
            Detail::Trait(r) => DetailView::Trait(r@),
            Detail::Closure(r) => DetailView::Closure(r),
            Detail::Unsafe(r) => DetailView::Unsafe(r@),
            Detail::Async(r) => DetailView::Async(r@),
            Detail::Transmute(r) => DetailView::Transmute(r@),
        }
    }
}

/// One classified construct of a source file: the line it stands on and what
/// was found there.
#[derive(Clone, Debug, PartialEq, Eq)]
pub struct Finding {
    pub line: usize,
    pub detail: Detail,
}

/// [`Finding`] as a mathematical value.
pub struct FindingView {
    pub line: usize,
    pub detail: DetailView,
}

impl View for Finding {
    type V = FindingView;

    open spec fn view(&self) -> FindingView {
        FindingView { line: self.line, detail: self.detail@ }
    }
}

impl Detail {
    /// A detail that says the same.
    pub fn duplicate(&self) -> (detail: Detail)
        ensures
            detail@ == self@,
    {
        match self {
            Detail::Trait(row) => Detail::Trait(row.duplicate()),
            Detail::Closure(row) => Detail::Closure(*row),
            Detail::Unsafe(row) => Detail::Unsafe(*row),
            Detail::Async(row) => Detail::Async(*row),
            Detail::Transmute(row) => Detail::Transmute(row.duplicate()),
        }
    }
}

impl Finding {
    /// A finding that says the same.
    pub fn duplicate(&self) -> (finding: Finding)
        ensures
            finding@ == self@,
    {
        Finding { line: self.line, detail: self.detail.duplicate() }
    }
}

/// The findings of a sequence as mathematical values.
pub open spec fn finding_views(findings: Seq<Finding>) -> Seq<FindingView> {
    Seq::new(findings.len(), |i: int| findings[i]@)
}

/// The views of findings are as many as the findings, each the view of the
/// finding at its place.
pub proof fn lemma_finding_views_index(findings: Seq<Finding>)
    ensures
        finding_views(findings).len() == findings.len(),
        forall|i: int| 0 <= i < findings.len() ==> finding_views(findings)[i] == (
        #[trigger] findings[i])@,
{
}

/// Appending a finding appends its view.
pub proof fn lemma_finding_views_push(findings: Seq<Finding>, finding: Finding)
    ensures
        finding_views(findings.push(finding)) == finding_views(findings).push(finding@),
        finding_views(findings.push(finding)) == finding_views(findings) + seq![finding@],
{
    assert(finding_views(findings.push(finding)) =~= finding_views(findings).push(finding@));
    assert(finding_views(findings).push(finding@) =~= finding_views(findings) + seq![finding@]);
}

/// The kinds of occurrences.
#[derive(Clone, Copy, Debug, PartialEq, Eq, Structural)]
pub enum Category {
    TraitDefinition,
    ImplementationFor,
    PositionalImplTrait,
    PositionalDynTrait,
    WhereClausePredicate,
    ClosureExpression,
    UnsafeRegion,
    AsyncRegion,
    TransmuteCall,
}

/// The kind of occurrence that a detail describes.
pub open spec fn category_of(detail: DetailView) -> Category {
    match detail {
        DetailView::Trait(row) => match row.syntax {
            traits::SyntaxType::TraitDef => Category::TraitDefinition,
            traits::SyntaxType::ImplFor => Category::ImplementationFor,
            traits::SyntaxType::TypeImpl => Category::PositionalImplTrait,
            traits::SyntaxType::TypeDyn => Category::PositionalDynTrait,
            traits::SyntaxType::WhereClause => Category::WhereClausePredicate,
        },
        DetailView::Closure(_) => Category::ClosureExpression,
        DetailView::Unsafe(_) => Category::UnsafeRegion,
        DetailView::Async(_) => Category::AsyncRegion,
        DetailView::Transmute(_) => Category::TransmuteCall,
    }
}

impl Detail {
    /// The kind of occurrence that the detail describes.
    pub fn category(&self) -> (c: Category)
        ensures
            c == category_of(self@),
    {
        match self {
            Detail::Trait(row) => match row.syntax {
                traits::SyntaxType::TraitDef => Category::TraitDefinition,
                traits::SyntaxType::ImplFor => Category::ImplementationFor,
                traits::SyntaxType::TypeImpl => Category::PositionalImplTrait,
                traits::SyntaxType::TypeDyn => Category::PositionalDynTrait,
                traits::SyntaxType::WhereClause => Category::WhereClausePredicate,
            },
            Detail::Closure(_) => Category::ClosureExpression,
            Detail::Unsafe(_) => Category::UnsafeRegion,
            Detail::Async(_) => Category::AsyncRegion,
            Detail::Transmute(_) => Category::TransmuteCall,
        }
    }
}

/// One classified construct in the source tree of a snapshot.
#[derive(Clone, Debug, PartialEq, Eq)]
pub struct Occurrence {
    pub version_id: u128,
    pub file_name: String,
    pub line: usize,
    pub detail: Detail,
}

/// [`Occurrence`] as a mathematical value.
pub struct OccurrenceView {
    pub version_id: u128,
    pub file_name: Seq<char>,
    pub line: usize,
    pub detail: DetailView,
}

impl View for Occurrence {
    type V = OccurrenceView;

    open spec fn view(&self) -> OccurrenceView {
        OccurrenceView {
            version_id: self.version_id,
            file_name: self.file_name@,
            line: self.line,
            detail: self.detail@,
        }
    }
}

/// The occurrences of a sequence as mathematical values.
pub open spec fn occurrence_views(occurrences: Seq<Occurrence>) -> Seq<OccurrenceView> {
    Seq::new(occurrences.len(), |i: int| occurrences[i]@)
}

/// The snapshot and the file that findings belong to.
#[derive(Clone, Debug, PartialEq, Eq)]
pub struct Logger {
    pub file_name: String,
    pub version_id: u128,
}

/// [`Logger`] as a mathematical value.
pub struct LoggerView {
    pub file_name: Seq<char>,
    pub version_id: u128,
}

impl View for Logger {
    type V = LoggerView;

    open spec fn view(&self) -> LoggerView {
        LoggerView { file_name: self.file_name@, version_id: self.version_id }
    }
}

/// A finding as an occurrence in the file and the snapshot of a logger.
pub open spec fn logged(log: LoggerView, finding: FindingView) -> OccurrenceView {
    OccurrenceView {
        version_id: log.version_id,
        file_name: log.file_name,
        line: finding.line,
        detail: finding.detail,
    }
}

/// Findings as occurrences in the file and the snapshot of a logger.
pub open spec fn all_logged(log: LoggerView, findings: Seq<FindingView>) -> Seq<OccurrenceView> {
    Seq::new(findings.len(), |i: int| logged(log, findings[i]))
}

impl Logger {
    /// A logger for the same file and snapshot.
    pub fn fork(&self) -> (log: Logger)
        ensures
            log@ == self@,
    {
        Logger { file_name: self.file_name.clone(), version_id: self.version_id }
    }

    /// The occurrence that a finding is in this file and snapshot.
    pub fn log(&self, finding: &Finding) -> (occurrence: Occurrence)
        ensures
            occurrence@ == logged(self@, finding@),
    {
        Occurrence {
            version_id: self.version_id,
            file_name: self.file_name.clone(),
            line: finding.line,
            detail: finding.detail.duplicate(),
        }
    }

    /// Appends the occurrences that the findings are in this file and snapshot.
    pub fn log_all(&self, findings: &Vec<Finding>, out: &mut Vec<Occurrence>)
        ensures
            occurrence_views(final(out)@) == occurrence_views(old(out)@) + all_logged(
                self@,
                finding_views(findings@),
            ),
    {
        let ghost all = all_logged(self@, finding_views(findings@));
        let mut i: usize = 0;
        proof {
            assert(occurrence_views(out@) + all.take(0) =~= occurrence_views(out@));
        }
        while i < findings.len()
            invariant
                0 <= i <= findings.len(),
                all == all_logged(self@, finding_views(findings@)),
                occurrence_views(out@) == occurrence_views(old(out)@) + all.take(i as int),
            decreases findings.len() - i,
        {
            let occurrence = self.log(&findings[i]);
            let ghost before = out@;
            out.push(occurrence);
            proof {
                assert(occurrence_views(out@) =~= occurrence_views(before).push(occurrence@));
                assert(all.take(i as int + 1) =~= all.take(i as int).push(all[i as int]));
                assert((occurrence_views(old(out)@) + all.take(i as int)).push(all[i as int])
                    =~= occurrence_views(old(out)@) + all.take(i as int + 1));
            }
            i = i + 1;
        }
        proof {
            assert(all.take(i as int) =~= all);
        }
    }
}

/// An analysis.
#[derive(Clone, Copy, Debug, PartialEq, Eq, Structural)]
pub enum Runner {
    Traits,
    Closures,
    UnsafeCode,
    AsyncCode,
}

/// The analyses in the order in which they are run.
pub open spec fn runners() -> Seq<Runner> {
    seq![Runner::Traits, Runner::Closures, Runner::UnsafeCode, Runner::AsyncCode]
}

/// The analyses in the order in which they are run.
pub fn all_runners() -> (all: Vec<Runner>)
    ensures
        all@ == runners(),
{
    let mut all: Vec<Runner> = Vec::new();
    all.push(Runner::Traits);
    all.push(Runner::Closures);
    all.push(Runner::UnsafeCode);
    all.push(Runner::AsyncCode);
    proof {
        assert(all@ =~= runners());
    }
    all
}

/// What an analysis finds in a source file.
pub open spec fn runner_findings(runner: Runner, file: NodeView) -> Seq<FindingView> {
    match runner {
        Runner::Traits => traits::node_rows(file, None),
        Runner::Closures => closures::node_rows(file, false),
        Runner::UnsafeCode => regions::node_rows(file, regions::Qualifier::Unsafe, false),
        Runner::AsyncCode => regions::node_rows(file, regions::Qualifier::Async, false),
    }
}

/// What the first `n` analyses find in a source file, as occurrences.
pub open spec fn file_occurrences_upto(log: LoggerView, file: NodeView, n: int) -> Seq<
    OccurrenceView,
>
    decreases n,
{
    if n <= 0 {
        Seq::empty()
    } else {
        file_occurrences_upto(log, file, n - 1) + all_logged(
            log,
            runner_findings(runners()[n - 1], file),
        )
    }
}

/// What all analyses find in a source file, as occurrences: the rows of the
/// first analysis, then those of the second, and so on.
pub open spec fn file_occurrences(log: LoggerView, file: NodeView) -> Seq<OccurrenceView> {
    file_occurrences_upto(log, file, runners().len() as int)
}

/// What holds of every occurrence: a trait row carries a position exactly when
/// it describes an `impl Trait` or `dyn Trait` type, and names no marker trait;
/// a region row carries a count exactly when it is the row of a function.
pub open spec fn is_well_formed(occurrence: OccurrenceView) -> bool {
    match occurrence.detail {
        DetailView::Trait(row) => {
            &&& row.position is Some <==> (category_of(occurrence.detail)
                == Category::PositionalImplTrait || category_of(occurrence.detail)
                == Category::PositionalDynTrait)
            &&& !traits::is_marker(row.trait_name)
        },
        DetailView::Closure(_) => true,
        DetailView::Unsafe(row) => row.block_count is Some <==> row.ty
            == regions::RegionType::Function,
        DetailView::Async(row) => row.block_count is Some <==> row.ty
            == regions::RegionType::Function,
        DetailView::Transmute(_) => true,
    }
}

/// What one analysis finds in a source file is well formed.
proof fn lemma_runner_findings_well_formed(log: LoggerView, runner: Runner, file: NodeView)
    ensures
        forall|i: int|
            0 <= i < runner_findings(runner, file).len() ==> is_well_formed(
                #[trigger] all_logged(log, runner_findings(runner, file))[i],
            ),
{
    let findings = runner_findings(runner, file);
    match runner {
        Runner::Traits => {
            traits::lemma_node_rows_lawful(file, None);
            assert forall|i: int| 0 <= i < findings.len() implies is_well_formed(
                #[trigger] all_logged(log, findings)[i],
            ) by {
                assert(traits::is_lawful(findings[i]));
            }
        },
        Runner::Closures => {
            closures::lemma_rows_are_closures(file, false);
            assert forall|i: int| 0 <= i < findings.len() implies is_well_formed(
                #[trigger] all_logged(log, findings)[i],
            ) by {
                assert(findings[i].detail is Closure);
            }
        },
        Runner::UnsafeCode => {
            regions::lemma_rows_shaped(file, regions::Qualifier::Unsafe, false);
            assert forall|i: int| 0 <= i < findings.len() implies is_well_formed(
                #[trigger] all_logged(log, findings)[i],
            ) by {
                assert(regions::is_shaped(regions::Qualifier::Unsafe, findings[i]));
            }
        },
        Runner::AsyncCode => {
            regions::lemma_rows_shaped(file, regions::Qualifier::Async, false);
            assert forall|i: int| 0 <= i < findings.len() implies is_well_formed(
                #[trigger] all_logged(log, findings)[i],
            ) by {
                assert(regions::is_shaped(regions::Qualifier::Async, findings[i]));
            }
        },
    }
}

/// What the first `n` analyses find in a source file is well formed.
proof fn lemma_occurrences_upto_well_formed(log: LoggerView, file: NodeView, n: int)
    requires
        n <= runners().len(),
    ensures
        forall|i: int|
            0 <= i < file_occurrences_upto(log, file, n).len() ==> is_well_formed(
                #[trigger] file_occurrences_upto(log, file, n)[i],
            ),
    decreases n,
{
    if n > 0 {
        lemma_occurrences_upto_well_formed(log, file, n - 1);
        lemma_runner_findings_well_formed(log, runners()[n - 1], file);
        let done = file_occurrences_upto(log, file, n - 1);
        let step = all_logged(log, runner_findings(runners()[n - 1], file));
        assert(step.len() == runner_findings(runners()[n - 1], file).len());
        assert forall|i: int| 0 <= i < (done + step).len() implies is_well_formed(
            #[trigger] (done + step)[i],
        ) by {
            if i >= done.len() {
                assert((done + step)[i] == step[i - done.len()]);
            }
        }
    }
}

/// No position leakage and no marker traits, whatever the analysis: of the
/// occurrences of a source file, those that describe an `impl Trait` or `dyn
/// Trait` type carry a position and no other does, none names a marker trait,
/// and those that describe a function are the ones that carry a count.
pub proof fn lemma_occurrences_well_formed(log: LoggerView, file: NodeView, i: int)
    requires
        0 <= i < file_occurrences(log, file).len(),
    ensures
        is_well_formed(file_occurrences(log, file)[i]),
{
    lemma_occurrences_upto_well_formed(log, file, runners().len() as int);
}

/// Every occurrence of a source file names the file and the snapshot of the
/// logger.
pub proof fn lemma_occurrences_logged(log: LoggerView, file: NodeView, n: int)
    requires
        n <= runners().len(),
    ensures
        forall|i: int|
            0 <= i < file_occurrences_upto(log, file, n).len() ==> {
                let occurrence = #[trigger] file_occurrences_upto(log, file, n)[i];
                occurrence.version_id == log.version_id && occurrence.file_name == log.file_name
            },
    decreases n,
{
    if n > 0 {
        lemma_occurrences_logged(log, file, n - 1);
        let done = file_occurrences_upto(log, file, n - 1);
        let step = all_logged(log, runner_findings(runners()[n - 1], file));
        assert forall|i: int| 0 <= i < (done + step).len() implies {
            let occurrence = #[trigger] (done + step)[i];
            occurrence.version_id == log.version_id && occurrence.file_name == log.file_name
        } by {
            if i >= done.len() {
                assert((done + step)[i] == step[i - done.len()]);
            }
        }
    }
}

impl Runner {
    /// What the analysis finds in a source file.
    pub fn collect(&self, file: &SyntaxNode) -> (findings: Vec<Finding>)
        ensures
            finding_views(findings@) == runner_findings(*self, file@),
            findings@.len() == runner_findings(*self, file@).len(),
            forall|i: int|
                0 <= i < findings@.len() ==> (#[trigger] findings@[i])@ == runner_findings(
                    *self,
                    file@,
                )[i],
    {
        match self {
            Runner::Traits => traits::collect(file),
            Runner::Closures => closures::collect(file),
            Runner::UnsafeCode => regions::collect_unsafe(file),
            Runner::AsyncCode => regions::collect_async(file),
        }
    }

    /// What the analysis finds in a source file, as occurrences in the file and
    /// the snapshot of the logger.
    pub fn collect_syntax(&self, file: &SyntaxNode, log: &Logger) -> (occurrences: Vec<Occurrence>)
        ensures
            occurrence_views(occurrences@) == all_logged(log@, runner_findings(*self, file@)),
    {
        let mut occurrences: Vec<Occurrence> = Vec::new();
        let findings = self.collect(file);
        log.log_all(&findings, &mut occurrences);
        proof {
            let all = all_logged(log@, runner_findings(*self, file@));
            assert(occurrence_views(Seq::<Occurrence>::empty()) + all =~= all);
        }
        occurrences
    }
}

/// Runs every analysis on a source file and appends what they find.
pub fn collect_file(file: &SyntaxNode, log: &Logger, out: &mut Vec<Occurrence>)
    ensures
        occurrence_views(final(out)@) == occurrence_views(old(out)@) + file_occurrences(
            log@,
            file@,
        ),
{
    let all = all_runners();
    let mut i: usize = 0;
    proof {
        assert(occurrence_views(out@) + file_occurrences_upto(log@, file@, 0) =~= occurrence_views(
            out@,
        ));
    }
    while i < all.len()
        invariant
            0 <= i <= all.len(),
            all@ == runners(),
            occurrence_views(out@) == occurrence_views(old(out)@) + file_occurrences_upto(
                log@,
                file@,
                i as int,
            ),
        decreases all.len() - i,
    {
        let findings = all[i].collect(file);
        log.log_all(&findings, out);
        proof {
            let done = file_occurrences_upto(log@, file@, i as int);
            let step = all_logged(log@, runner_findings(runners()[i as int], file@));
            assert((occurrence_views(old(out)@) + done) + step =~= occurrence_views(old(out)@) + (
            done + step));
        }
        i = i + 1;
    }
}

/// How far the setting up of the store has come: the tables of every analysis
/// are set up once, in the order of [`runners`], before any file is analysed.
#[derive(Debug)]
pub struct Bootstrap {
    done: usize,
}

impl Bootstrap {
    #[verifier::type_invariant]
    spec fn valid(self) -> bool {
        self.done <= runners().len()
    }

    /// How many analyses have their tables.
    pub closed spec fn done(self) -> nat {
        self.done as nat
    }

    /// Nothing is set up yet.
    pub fn new() -> (b: Bootstrap)
        ensures
            b.done() == 0,
    {
        Bootstrap { done: 0 }
    }

    /// The analysis whose tables are to be set up next; `None` when every
    /// analysis has its tables.
    pub fn next(&self) -> (runner: Option<Runner>)
        ensures
            self.done() <= runners().len(),
            runner == if self.done() < runners().len() {
                Some(runners()[self.done() as int])
            } else {
                None
            },
    {
        proof {
            use_type_invariant(self);
        }
        let all = all_runners();
        if self.done < all.len() {
            Some(all[self.done])
        } else {
            None
        }
    }

    /// Takes note that the tables of the analysis that was to be set up next
    /// are there.
    pub fn advance(&mut self)
        ensures
            final(self).done() == if old(self).done() < runners().len() {
                old(self).done() + 1
            } else {
                old(self).done()
            },
    {
        proof {
            use_type_invariant(&*self);
        }
        if self.done < 4 {
            self.done = self.done + 1;
        }
    }

    /// Whether every analysis has its tables, so that files can be analysed.
    pub fn is_ready(&self) -> (ready: bool)
        ensures
            ready == (self.done() == runners().len()),
    {
        proof {
            use_type_invariant(self);
        }
        self.done == 4
    }
}

} // verus!
