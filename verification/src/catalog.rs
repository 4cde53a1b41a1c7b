//! Published commits, ordered by WAL sequence.
use vstd::prelude::*;
use crate::commit;
use crate::commit::{same_commit_files, Commit, CommitView};
use crate::text;
use crate::text::{push_decimal, same_text};

verus! {

/// Why a commit cannot join the catalog.
#[allow(inconsistent_fields)]
#[derive(Clone, Copy, Debug, PartialEq, Eq, Structural)]
pub enum CatalogError {
    /// The range overlaps a commit that is already published.
    Overlap {
        /// Inclusive first sequence of the rejected commit.
        first_sequence: u64,
        /// Exclusive next sequence of the rejected commit.
        next_sequence: u64,
    },
    /// The range does not continue from the published high-water mark.
    Gap {
        /// Exclusive sequence the catalog expected next.
        expected: u64,
        /// Inclusive first sequence that was offered.
        actual: u64,
    },
    /// The same range was offered with a different fingerprint or file list.
    Conflict {
        /// Inclusive first sequence of the conflicting range.
        first_sequence: u64,
        /// Exclusive next sequence of the conflicting range.
        next_sequence: u64,
    },
}

impl CatalogError {
    pub open spec fn text(self) -> Seq<char> {
        match self {
            CatalogError::Overlap { first_sequence, next_sequence } => "commit "@
                + text::decimal_text(first_sequence as nat) + "-"@ + text::decimal_text(
                next_sequence as nat,
            ) + " overlaps a published range"@,
            CatalogError::Gap { expected, actual } => "commit starting at "@ + text::decimal_text(
                actual as nat,
            ) + " does not continue from "@ + text::decimal_text(expected as nat),
            CatalogError::Conflict { first_sequence, next_sequence } => "commit "@
                + text::decimal_text(first_sequence as nat) + "-"@ + text::decimal_text(
                next_sequence as nat,
            ) + " does not match the published descriptor"@,
        }
    }

    /// The message of this error.
    pub fn message(&self) -> (message: String)
        ensures
            message@ == self.text(),
    {
        match self {
            CatalogError::Overlap { first_sequence, next_sequence } => {
                let mut message = "commit ".to_owned();
                push_decimal(&mut message, *first_sequence);
                message.append("-");
                push_decimal(&mut message, *next_sequence);
                message.append(" overlaps a published range");
                message
            },
            CatalogError::Gap { expected, actual } => {
                let mut message = "commit starting at ".to_owned();
                push_decimal(&mut message, *actual);
                message.append(" does not continue from ");
                push_decimal(&mut message, *expected);
                message
            },
            CatalogError::Conflict { first_sequence, next_sequence } => {
                let mut message = "commit ".to_owned();
                push_decimal(&mut message, *first_sequence);
                message.append("-");
                push_decimal(&mut message, *next_sequence);
                message.append(" does not match the published descriptor");
                message
            },
        }
    }
}

/// Whether two half-open sequence ranges share a sequence.
pub open spec fn ranges_overlap(left: CommitView, right: CommitView) -> bool {
    left.first_sequence < right.next_sequence && right.first_sequence < left.next_sequence
}

/// Whether the ranges adjoin, each starting where the one before it ends.
pub open spec fn contiguous(commits: Seq<CommitView>) -> bool {
    forall|i: int, j: int|
        0 <= i < commits.len() && j == i + 1 && j < commits.len() ==> (
        #[trigger] commits[i]).next_sequence == (#[trigger] commits[j]).first_sequence
}

/// Whether a commit names this path.
pub open spec fn names_path(commits: Seq<CommitView>, path: Seq<char>) -> bool {
    exists|c: int, f: int|
        0 <= c < commits.len() && 0 <= f < commits[c].files.len() && (
        #[trigger] commits[c].files[f]).relative_path == path
}

/// The range of a commit.
pub open spec fn range_of(commit: CommitView) -> (u64, u64) {
    (commit.first_sequence, commit.next_sequence)
}

/// Exclusive end of the published prefix.
pub open spec fn high_water(commits: Seq<CommitView>) -> Option<u64> {
    if commits.len() == 0 {
        None
    } else {
        Some(commits.last().next_sequence)
    }
}

/// Why a commit with a new range cannot follow `commits`.
pub open spec fn new_fault(commits: Seq<CommitView>, commit: CommitView) -> Option<CatalogError> {
    if exists|i: int| 0 <= i < commits.len() && ranges_overlap(commit, #[trigger] commits[i]) {
        Some(
            CatalogError::Overlap {
                first_sequence: commit.first_sequence,
                next_sequence: commit.next_sequence,
            },
        )
    } else if commits.len() > 0 && commit.first_sequence != commits.last().next_sequence {
        Some(
            CatalogError::Gap {
                expected: commits.last().next_sequence,
                actual: commit.first_sequence,
            },
        )
    } else {
        None
    }
}

/// The first commit with this range.
pub open spec fn with_range(commits: Seq<CommitView>, commit: CommitView) -> Option<CommitView>
    decreases commits.len(),
{
    if commits.len() == 0 {
        None
    } else if commits[0].first_sequence == commit.first_sequence && commits[0].next_sequence
        == commit.next_sequence {
        Some(commits[0])
    } else {
        with_range(commits.drop_first(), commit)
    }
}

/// Whether two commits of one range publish the same fingerprint, rows and files.
pub open spec fn same_publication(left: CommitView, right: CommitView) -> bool {
    &&& left.fingerprint == right.fingerprint
    &&& left.rows == right.rows
    &&& commit::commit_files_equal(left.files, right.files)
}

/// What inserting a commit does: whether it was new, and the commits after it.
pub open spec fn insertion(commits: Seq<CommitView>, commit: CommitView) -> Result<
    (bool, Seq<CommitView>),
    CatalogError,
> {
    match with_range(commits, commit) {
        Some(existing) => if same_publication(existing, commit) {
            Ok((false, commits))
        } else {
            Err(
                CatalogError::Conflict {
                    first_sequence: commit.first_sequence,
                    next_sequence: commit.next_sequence,
                },
            )
        },
        None => match new_fault(commits, commit) {
            Some(error) => Err(error),
            None => Ok((true, commits.push(commit))),
        },
    }
}

/// Whether one commit stands before another: by first, then by next sequence.
pub open spec fn range_le(left: CommitView, right: CommitView) -> bool {
    left.first_sequence < right.first_sequence || (left.first_sequence == right.first_sequence
        && left.next_sequence <= right.next_sequence)
}

/// One more commit at its place by range; behind those of the same range.
pub open spec fn insert_by_range(commits: Seq<CommitView>, commit: CommitView) -> Seq<CommitView>
    decreases commits.len(),
{
    if commits.len() == 0 {
        seq![commit]
    } else if range_le(commits.last(), commit) {
        commits.push(commit)
    } else {
        insert_by_range(commits.drop_last(), commit).push(commits.last())
    }
}

/// The commits by range. Those of one range stay in their order.
pub open spec fn sorted_by_range(commits: Seq<CommitView>) -> Seq<CommitView>
    decreases commits.len(),
{
    if commits.len() == 0 {
        Seq::empty()
    } else {
        insert_by_range(sorted_by_range(commits.drop_last()), commits.last())
    }
}

/// The commits taken over one by one, or why one cannot follow.
pub open spec fn loaded(commits: Seq<CommitView>) -> Result<Seq<CommitView>, CatalogError>
    decreases commits.len(),
{
    if commits.len() == 0 {
        Ok(Seq::empty())
    } else {
        match loaded(commits.drop_last()) {
            Err(error) => Err(error),
            Ok(before) => match new_fault(before, commits.last()) {
                Some(error) => Err(error),
                None => Ok(before.push(commits.last())),
            },
        }
    }
}

/// A file that a commit names is named after another commit came.
pub proof fn lemma_still_named(commits: Seq<CommitView>, commit: CommitView, path: Seq<char>)
    requires
        names_path(commits, path),
    ensures
        names_path(commits.push(commit), path),
{
    let (c, f) = choose|c: int, f: int|
        0 <= c < commits.len() && 0 <= f < commits[c].files.len() && (
        #[trigger] commits[c].files[f]).relative_path == path;
    assert(commits.push(commit)[c].files[f].relative_path == path);
}

/// A catalog that loads holds every commit it was loaded from, and their ranges adjoin.
pub proof fn lemma_loaded_all(commits: Seq<CommitView>)
    requires
        loaded(commits) is Ok,
    ensures
        loaded(commits)->Ok_0 == commits,
        contiguous(commits),
    decreases commits.len(),
{
    if commits.len() > 0 {
        let front = commits.drop_last();
        lemma_loaded_all(front);
        assert(front.push(commits.last()) =~= commits);
        assert forall|i: int, j: int|
            0 <= i < commits.len() && j == i + 1 && j < commits.len() implies (
        #[trigger] commits[i]).next_sequence == (#[trigger] commits[j]).first_sequence by {
            assert(commits[i] == front[i]);
            if j < front.len() {
                assert(commits[j] == front[j]);
            }
        }
    } else {
        assert(commits =~= Seq::empty());
    }
}

proof fn lemma_loaded_fail(commits: Seq<CommitView>, count: int)
    requires
        0 <= count <= commits.len(),
        loaded(commits.take(count)) is Err,
    ensures
        loaded(commits) == loaded(commits.take(count)),
    decreases commits.len() - count,
{
    if count < commits.len() {
        assert(commits.take(count + 1).drop_last() =~= commits.take(count));
        lemma_loaded_fail(commits, count + 1);
    } else {
        assert(commits.take(count) =~= commits);
    }
}

/// Taking over a commit keeps the ranges contiguous.
pub proof fn a_new_commit_adjoins(commits: Seq<CommitView>, commit: CommitView)
    requires
        contiguous(commits),
        new_fault(commits, commit) is None,
    ensures
        contiguous(commits.push(commit)),
{
    let after = commits.push(commit);
    assert forall|i: int, j: int|
        0 <= i < after.len() && j == i + 1 && j < after.len() implies (
    #[trigger] after[i]).next_sequence == (#[trigger] after[j]).first_sequence by {
        assert(after[i] == commits[i]);
        if j < commits.len() {
            assert(after[j] == commits[j]);
        } else {
            assert(commits.last() == commits[i]);
        }
    }
}

/// What was inserted can be inserted again, which changes nothing.
pub proof fn inserting_again_changes_nothing(commits: Seq<CommitView>, commit: CommitView)
    requires
        insertion(commits, commit) == Ok::<(bool, Seq<CommitView>), CatalogError>(
            (true, commits.push(commit)),
        ),
        same_publication(commit, commit),
    ensures
        insertion(commits.push(commit), commit) == Ok::<(bool, Seq<CommitView>), CatalogError>(
            (false, commits.push(commit)),
        ),
{
    lemma_with_range_push(commits, commit);
}

proof fn lemma_with_range_push(commits: Seq<CommitView>, commit: CommitView)
    requires
        with_range(commits, commit) is None,
    ensures
        with_range(commits.push(commit), commit) == Some(commit),
    decreases commits.len(),
{
    if commits.len() > 0 {
        lemma_with_range_push(commits.drop_first(), commit);
        assert(commits.push(commit).drop_first() =~= commits.drop_first().push(commit));
    }
}

proof fn lemma_insert_by_range_at(commits: Seq<CommitView>, commit: CommitView, at: int)
    requires
        0 <= at <= commits.len(),
        at > 0 ==> range_le(commits[at - 1], commit),
        forall|i: int| at <= i < commits.len() ==> !range_le(#[trigger] commits[i], commit),
    ensures
        insert_by_range(commits, commit) == commits.insert(at, commit),
    decreases commits.len(),
{
    if at == commits.len() {
        assert(commits.insert(at, commit) =~= commits.push(commit));
        if at == 0 {
            assert(commits.push(commit) =~= seq![commit]);
        }
    } else {
        assert(!range_le(commits[commits.len() - 1], commit));
        let front = commits.drop_last();
        assert forall|i: int| at <= i < front.len() implies !range_le(
            #[trigger] front[i],
            commit,
        ) by {
            assert(front[i] == commits[i]);
        }
        lemma_insert_by_range_at(front, commit, at);
        assert(commits.insert(at, commit) =~= front.insert(at, commit).push(commits.last()));
    }
}

/// Sorts commits by range.
fn sort_by_range(commits: Vec<Commit>) -> (sorted: Vec<Commit>)
    ensures
        sorted.deep_view() == sorted_by_range(commits.deep_view()),
{
    let ghost all = commits.deep_view();
    let mut sorted: Vec<Commit> = Vec::new();
    let mut i: usize = 0;
    assert(all.take(0) =~= Seq::empty());
    assert(sorted.deep_view() =~= Seq::empty());
    while i < commits.len()
        invariant
            i <= commits.len(),
            all == commits.deep_view(),
            sorted.deep_view() == sorted_by_range(all.take(i as int)),
        decreases commits.len() - i,
    {
        assert(all.take(i + 1).drop_last() =~= all.take(i as int));
        assert(all[i as int] == commits@[i as int].deep_view());
        let commit = commits[i].clone();
        let ghost view = commit.deep_view();
        let ghost before = sorted.deep_view();
        let mut at: usize = sorted.len();
        while at > 0
            invariant
                at <= sorted.len(),
                before == sorted.deep_view(),
                view == commit.deep_view(),
                forall|k: int| at <= k < before.len() ==> !range_le(#[trigger] before[k], view),
            ensures
                at <= sorted.len(),
                at > 0 ==> range_le(before[at - 1], view),
                forall|k: int| at <= k < before.len() ==> !range_le(#[trigger] before[k], view),
            decreases at,
        {
            let other = &sorted[at - 1];
            assert(before[at - 1] == other.deep_view());
            if other.first_sequence < commit.first_sequence || (other.first_sequence
                == commit.first_sequence && other.next_sequence <= commit.next_sequence) {
                break;
            }
            at = at - 1;
        }
        proof {
            lemma_insert_by_range_at(before, view, at as int);
        }
        sorted.insert(at, commit);
        assert(sorted.deep_view() =~= before.insert(at as int, view));
        i = i + 1;
    }
    assert(all.take(i as int) =~= all);
    sorted
}

// Loading what was published.

/// Whether every commit publishes at least one sequence.
pub open spec fn ranges_filled(commits: Seq<CommitView>) -> bool {
    forall|i: int|
        0 <= i < commits.len() ==> (#[trigger] commits[i]).first_sequence < commits[i].next_sequence
}

proof fn lemma_ranges_ascend(commits: Seq<CommitView>, i: int, j: int)
    requires
        contiguous(commits),
        ranges_filled(commits),
        0 <= i < j < commits.len(),
    ensures
        commits[i].next_sequence <= commits[j].first_sequence,
    decreases j - i,
{
    assert(commits[j - 1].next_sequence == commits[j].first_sequence);
    if i < j - 1 {
        lemma_ranges_ascend(commits, i, j - 1);
        assert(commits[j - 1].first_sequence < commits[j - 1].next_sequence);
    }
}

proof fn lemma_loaded_whole(commits: Seq<CommitView>)
    requires
        contiguous(commits),
        ranges_filled(commits),
    ensures
        loaded(commits) == Ok::<Seq<CommitView>, CatalogError>(commits),
    decreases commits.len(),
{
    if commits.len() > 0 {
        let front = commits.drop_last();
        let last = commits.len() - 1;
        assert forall|i: int, j: int|
            0 <= i < front.len() && j == i + 1 && j < front.len() implies (
        #[trigger] front[i]).next_sequence == (#[trigger] front[j]).first_sequence by {
            assert(commits[i].next_sequence == commits[j].first_sequence);
        }
        assert forall|i: int| 0 <= i < front.len() implies (#[trigger] front[i]).first_sequence
            < front[i].next_sequence by {
            assert(commits[i].first_sequence < commits[i].next_sequence);
        }
        lemma_loaded_whole(front);
        assert forall|i: int| 0 <= i < front.len() implies !ranges_overlap(
            commits.last(),
            #[trigger] front[i],
        ) by {
            lemma_ranges_ascend(commits, i, last);
        }
        if front.len() > 0 {
            assert(commits[last - 1].next_sequence == commits[last].first_sequence);
        }
        assert(front.push(commits.last()) =~= commits);
    } else {
        assert(commits =~= Seq::empty());
    }
}

/// Whether the commits stand by range.
pub open spec fn range_sorted(commits: Seq<CommitView>) -> bool {
    forall|i: int, j: int|
        0 <= i < j < commits.len() ==> range_le(#[trigger] commits[i], #[trigger] commits[j])
}

proof fn lemma_insert_by_range(commits: Seq<CommitView>, commit: CommitView)
    requires
        range_sorted(commits),
    ensures
        range_sorted(insert_by_range(commits, commit)),
        insert_by_range(commits, commit).to_multiset() == commits.to_multiset().insert(commit),
    decreases commits.len(),
{
    broadcast use vstd::seq_lib::group_to_multiset_ensures;

    let result = insert_by_range(commits, commit);
    if commits.len() == 0 {
        assert(commits =~= Seq::empty());
        assert(result =~= commits.push(commit));
    } else if range_le(commits.last(), commit) {
        assert forall|i: int, j: int| 0 <= i < j < result.len() implies range_le(
            #[trigger] result[i],
            #[trigger] result[j],
        ) by {
            if j == commits.len() && i < commits.len() - 1 {
                assert(range_le(commits[i], commits[commits.len() - 1]));
            }
        }
    } else {
        let front = commits.drop_last();
        let inner = insert_by_range(front, commit);
        assert forall|i: int, j: int| 0 <= i < j < front.len() implies range_le(
            #[trigger] front[i],
            #[trigger] front[j],
        ) by {
            assert(range_le(commits[i], commits[j]));
        }
        lemma_insert_by_range(front, commit);
        assert(front.push(commits.last()) =~= commits);
        assert(commits.to_multiset() == front.to_multiset().insert(commits.last()));
        assert(result.to_multiset() =~= commits.to_multiset().insert(commit));
        assert forall|i: int, j: int| 0 <= i < j < result.len() implies range_le(
            #[trigger] result[i],
            #[trigger] result[j],
        ) by {
            if j == inner.len() {
                assert(inner.to_multiset().count(inner[i]) > 0);
                if inner[i] != commit {
                    assert(front.to_multiset().count(inner[i]) > 0);
                    assert(front.contains(inner[i]));
                    let k = choose|k: int| 0 <= k < front.len() && front[k] == inner[i];
                    assert(range_le(commits[k], commits[commits.len() - 1]));
                }
            } else {
                assert(range_le(inner[i], inner[j]));
            }
        }
    }
}

pub proof fn lemma_sorted_by_range(commits: Seq<CommitView>)
    ensures
        range_sorted(sorted_by_range(commits)),
        sorted_by_range(commits).to_multiset() == commits.to_multiset(),
    decreases commits.len(),
{
    broadcast use vstd::seq_lib::group_to_multiset_ensures;

    if commits.len() > 0 {
        let front = commits.drop_last();
        lemma_sorted_by_range(front);
        lemma_insert_by_range(sorted_by_range(front), commits.last());
        assert(front.push(commits.last()) =~= commits);
    } else {
        assert(commits =~= Seq::empty());
    }
}

/// Adjoining ranges that are not empty are all different.
pub proof fn lemma_ranges_differ(commits: Seq<CommitView>)
    requires
        contiguous(commits),
        ranges_filled(commits),
    ensures
        commits.map_values(|commit: CommitView| range_of(commit)).no_duplicates(),
{
    let ranges = commits.map_values(|commit: CommitView| range_of(commit));
    assert forall|i: int, j: int| 0 <= i < j < ranges.len() implies ranges[i] != ranges[j] by {
        lemma_ranges_ascend(commits, i, j);
        assert(commits[i].first_sequence < commits[i].next_sequence);
    }
}

pub proof fn lemma_one_order(found: Seq<CommitView>, published: Seq<CommitView>)
    requires
        range_sorted(found),
        contiguous(published),
        ranges_filled(published),
        found.to_multiset() == published.to_multiset(),
    ensures
        found == published,
    decreases published.len(),
{
    broadcast use vstd::seq_lib::group_to_multiset_ensures;

    assert(found.to_multiset().len() == found.len());
    assert(published.to_multiset().len() == published.len());
    if published.len() > 0 {
        let last = published.len() - 1;
        assert(found.to_multiset().count(found[last]) > 0);
        assert(published.contains(found[last]));
        let i = choose|i: int| 0 <= i < published.len() && published[i] == found[last];
        assert(published.to_multiset().count(published[last]) > 0);
        assert(found.contains(published[last]));
        let j = choose|j: int| 0 <= j < found.len() && found[j] == published[last];
        if i < last {
            lemma_ranges_ascend(published, i, last);
            assert(published[i].first_sequence < published[i].next_sequence);
            if j < last {
                assert(range_le(found[j], found[last]));
            }
        }
        assert(found[last] == published[last]);
        let shorter = found.drop_last();
        let front = published.drop_last();
        assert(shorter.push(found[last]) =~= found);
        assert(front.push(published[last]) =~= published);
        assert(shorter.to_multiset() =~= front.to_multiset()) by {
            assert(found.to_multiset() == shorter.to_multiset().insert(found[last]));
            assert(published.to_multiset() == front.to_multiset().insert(found[last]));
            assert(shorter.to_multiset() =~= found.to_multiset().remove(found[last]));
            assert(front.to_multiset() =~= found.to_multiset().remove(found[last]));
        }
        assert forall|i: int, j: int| 0 <= i < j < shorter.len() implies range_le(
            #[trigger] shorter[i],
            #[trigger] shorter[j],
        ) by {
            assert(range_le(found[i], found[j]));
        }
        assert forall|i: int, j: int|
            0 <= i < front.len() && j == i + 1 && j < front.len() implies (
        #[trigger] front[i]).next_sequence == (#[trigger] front[j]).first_sequence by {
            assert(published[i].next_sequence == published[j].first_sequence);
        }
        assert forall|i: int| 0 <= i < front.len() implies (#[trigger] front[i]).first_sequence
            < front[i].next_sequence by {
            assert(published[i].first_sequence < published[i].next_sequence);
        }
        lemma_one_order(shorter, front);
    } else {
        assert(found =~= published);
    }
}

/// Loading the commits of a catalog gives that catalog back, in whatever order they are found.
pub proof fn loading_restores_the_catalog(found: Seq<CommitView>, published: Seq<CommitView>)
    requires
        contiguous(published),
        ranges_filled(published),
        found.to_multiset() == published.to_multiset(),
    ensures
        loaded(sorted_by_range(found)) == Ok::<Seq<CommitView>, CatalogError>(published),
{
    lemma_sorted_by_range(found);
    lemma_one_order(sorted_by_range(found), published);
    lemma_loaded_whole(published);
}

/// Published commits for one tenant, oldest range first.
#[derive(Debug)]
pub struct Catalog {
    commits: Vec<Commit>,
}

impl View for Catalog {
    type V = Seq<CommitView>;

    closed spec fn view(&self) -> Seq<CommitView> {
        self.commits.deep_view()
    }
}

impl Catalog {
    /// The published ranges adjoin.
    pub open spec fn wf(&self) -> bool {
        contiguous(self@)
    }

    /// A catalog without commits.
    pub fn new() -> (catalog: Self)
        ensures
            catalog@ == Seq::<CommitView>::empty(),
            catalog.wf(),
    {
        let catalog = Catalog { commits: Vec::new() };
        assert(catalog@ =~= Seq::empty());
        catalog
    }

    /// Load commits that must already be contiguous and non-overlapping.
    ///
    /// # Errors
    ///
    /// Returns [`CatalogError`] when the ranges have a gap, overlap, or duplicate.
    pub fn load(commits: Vec<Commit>) -> (result: Result<Self, CatalogError>)
        ensures
            match result {
                Ok(catalog) => catalog.wf() && loaded(sorted_by_range(commits.deep_view()))
                    == Ok::<Seq<CommitView>, CatalogError>(catalog@) && catalog@
                    == sorted_by_range(commits.deep_view()),
                Err(error) => loaded(sorted_by_range(commits.deep_view())) == Err::<
                    Seq<CommitView>,
                    CatalogError,
                >(error),
            },
    {
        let ghost offered = commits.deep_view();
        let sorted = sort_by_range(commits);
        let ghost all = sorted.deep_view();
        let mut catalog = Catalog::new();
        let mut i: usize = 0;
        assert(all.take(0) =~= Seq::empty());
        while i < sorted.len()
            invariant
                i <= sorted.len(),
                all == sorted.deep_view(),
                all == sorted_by_range(offered),
                offered == commits.deep_view(),
                catalog.wf(),
                catalog@ == all.take(i as int),
                loaded(all.take(i as int)) == Ok::<Seq<CommitView>, CatalogError>(catalog@),
            decreases sorted.len() - i,
        {
            assert(all.take(i + 1).drop_last() =~= all.take(i as int));
            assert(all[i as int] == sorted@[i as int].deep_view());
            match catalog.push_new(sorted[i].clone()) {
                Ok(()) => {
                    assert(all.take(i as int).push(all[i as int]) =~= all.take(i + 1));
                },
                Err(error) => {
                    proof {
                        lemma_loaded_fail(all, i + 1);
                    }
                    return Err(error);
                },
            }
            i = i + 1;
        }
        assert(all.take(i as int) =~= all);
        Ok(catalog)
    }

    /// Published commits, oldest range first.
    #[must_use]
    pub fn commits(&self) -> (commits: &Vec<Commit>)
        ensures
            commits.deep_view() == self@,
    {
        &self.commits
    }

    /// Exclusive end of the contiguous published prefix.
    #[must_use]
    pub fn durable_sequence(&self) -> (sequence: Option<u64>)
        ensures
            sequence == high_water(self@),
    {
        let count = self.commits.len();
        if count == 0 {
            None
        } else {
            assert(self@.last() == self.commits@[count - 1].deep_view());
            Some(self.commits[count - 1].next_sequence)
        }
    }

    /// Record `commit`, or accept an identical descriptor for the same range.
    ///
    /// # Errors
    ///
    /// Returns [`CatalogError`] when the range overlaps, leaves a gap, or disagrees with an
    /// existing descriptor. The catalog is then unchanged.
    pub fn insert(&mut self, commit: Commit) -> (result: Result<bool, CatalogError>)
        requires
            old(self).wf(),
        ensures
            final(self).wf(),
            match result {
                Ok(inserted) => insertion(old(self)@, commit.deep_view()) == Ok::<
                    (bool, Seq<CommitView>),
                    CatalogError,
                >((inserted, final(self)@)),
                Err(error) => final(self)@ == old(self)@ && insertion(
                    old(self)@,
                    commit.deep_view(),
                ) == Err::<(bool, Seq<CommitView>), CatalogError>(error),
            },
    {
        let ghost all = self@;
        let ghost view = commit.deep_view();
        let mut i: usize = 0;
        assert(all.skip(0) =~= all);
        while i < self.commits.len()
            invariant
                i <= self.commits.len(),
                self.wf(),
                all == self@,
                all == old(self)@,
                view == commit.deep_view(),
                with_range(all, view) == with_range(all.skip(i as int), view),
            decreases self.commits.len() - i,
        {
            let existing = &self.commits[i];
            assert(all[i as int] == existing.deep_view());
            if existing.first_sequence == commit.first_sequence && existing.next_sequence
                == commit.next_sequence {
                if !same_text(&existing.fingerprint, &commit.fingerprint) || existing.rows
                    != commit.rows || !same_commit_files(&existing.files, &commit.files) {
                    return Err(
                        CatalogError::Conflict {
                            first_sequence: commit.first_sequence,
                            next_sequence: commit.next_sequence,
                        },
                    );
                }
                return Ok(false);
            }
            assert(all.skip(i as int).drop_first() =~= all.skip(i + 1));
            i = i + 1;
        }
        self.push_new(commit)?;
        Ok(true)
    }

    fn push_new(&mut self, commit: Commit) -> (result: Result<(), CatalogError>)
        requires
            old(self).wf(),
        ensures
            final(self).wf(),
            match result {
                Ok(_) => new_fault(old(self)@, commit.deep_view()) is None && final(self)@
                    == old(self)@.push(commit.deep_view()),
                Err(error) => final(self)@ == old(self)@ && new_fault(
                    old(self)@,
                    commit.deep_view(),
                ) == Some(error),
            },
    {
        let ghost all = self@;
        let ghost view = commit.deep_view();
        let mut i: usize = 0;
        while i < self.commits.len()
            invariant
                i <= self.commits.len(),
                self.wf(),
                all == self@,
                all == old(self)@,
                view == commit.deep_view(),
                forall|k: int| 0 <= k < i ==> !ranges_overlap(view, #[trigger] all[k]),
            decreases self.commits.len() - i,
        {
            let existing = &self.commits[i];
            assert(all[i as int] == existing.deep_view());
            if commit.first_sequence < existing.next_sequence && existing.first_sequence
                < commit.next_sequence {
                assert(ranges_overlap(view, all[i as int]));
                return Err(
                    CatalogError::Overlap {
                        first_sequence: commit.first_sequence,
                        next_sequence: commit.next_sequence,
                    },
                );
            }
            i = i + 1;
        }
        match self.durable_sequence() {
            Some(expected) => {
                if commit.first_sequence != expected {
                    return Err(
                        CatalogError::Gap { expected, actual: commit.first_sequence },
                    );
                }
            },
            None => {},
        }
        proof {
            a_new_commit_adjoins(all, view);
        }
        self.commits.push(commit);
        assert(self@ =~= all.push(view));
        Ok(())
    }
}

impl Clone for Catalog {
    fn clone(&self) -> (copy: Self)
        ensures
            copy@ == self@,
    {
        let ghost all = self@;
        let mut commits: Vec<Commit> = Vec::new();
        let mut i: usize = 0;
        while i < self.commits.len()
            invariant
                i <= self.commits.len(),
                all == self.commits.deep_view(),
                commits.deep_view() =~= all.take(i as int),
            decreases self.commits.len() - i,
        {
            let ghost before = commits.deep_view();
            commits.push(self.commits[i].clone());
            assert(commits.deep_view() =~= before.push(all[i as int]));
            i = i + 1;
        }
        assert(commits.deep_view() =~= all);
        Catalog { commits }
    }
}

/// Whether a commit of the catalog publishes this range.
pub open spec fn is_published(commits: Seq<CommitView>, commit: CommitView, i: int) -> bool {
    &&& 0 <= i < commits.len()
    &&& commits[i].first_sequence == commit.first_sequence
    &&& commits[i].next_sequence == commit.next_sequence
}

proof fn lemma_with_range(commits: Seq<CommitView>, commit: CommitView)
    ensures
        with_range(commits, commit) is Some <==> exists|i: int| #[trigger]
            is_published(commits, commit, i),
        with_range(commits, commit) is Some ==> exists|i: int| #[trigger]
            is_published(commits, commit, i) && commits[i] == with_range(commits, commit)->0,
    decreases commits.len(),
{
    if commits.len() > 0 {
        if commits[0].first_sequence == commit.first_sequence && commits[0].next_sequence
            == commit.next_sequence {
            assert(is_published(commits, commit, 0));
        } else {
            let rest = commits.drop_first();
            lemma_with_range(rest, commit);
            if with_range(rest, commit) is Some {
                let i = choose|i: int| #[trigger]
                    is_published(rest, commit, i) && rest[i] == with_range(rest, commit)->0;
                assert(is_published(commits, commit, i + 1));
            }
            if exists|i: int| #[trigger] is_published(commits, commit, i) {
                let i = choose|i: int| #[trigger] is_published(commits, commit, i);
                assert(is_published(rest, commit, i - 1));
            }
        }
    }
}

/// A catalog takes a range that is not published exactly where it starts at the end of what is
/// published, or nothing is. A range that starts before that end is an overlap where it shares a
/// sequence with a published one, and every other range leaves a gap.
pub proof fn only_the_next_range_is_taken(commits: Seq<CommitView>, commit: CommitView)
    requires
        contiguous(commits),
        ranges_filled(commits),
        commit.first_sequence < commit.next_sequence,
        forall|i: int| !#[trigger] is_published(commits, commit, i),
    ensures
        insertion(commits, commit) is Ok <==> commits.len() == 0 || commit.first_sequence
            == commits[commits.len() - 1].next_sequence,
        insertion(commits, commit) is Ok ==> insertion(commits, commit)->Ok_0 == (
            true,
            commits.push(commit),
        ),
        insertion(commits, commit) is Err ==> match insertion(commits, commit)->Err_0 {
            CatalogError::Overlap { first_sequence, next_sequence } => {
                &&& first_sequence == commit.first_sequence
                &&& next_sequence == commit.next_sequence
                &&& exists|sequence: int, i: int| #[trigger]
                    publishes(commits, sequence, i) && commit.first_sequence <= sequence
                        < commit.next_sequence
            },
            CatalogError::Gap { expected, actual } => {
                &&& actual == commit.first_sequence
                &&& expected == commits[commits.len() - 1].next_sequence
                &&& forall|sequence: int, i: int| #[trigger]
                    publishes(commits, sequence, i) ==> !(commit.first_sequence <= sequence
                        < commit.next_sequence)
            },
            _ => false,
        },
{
    lemma_with_range(commits, commit);
    if commits.len() > 0 {
        let end = commits.len() - 1;
        assert(commits.last() == commits[end]);
        if commit.first_sequence == commits[end].next_sequence {
            assert forall|i: int| 0 <= i < commits.len() implies !ranges_overlap(
                commit,
                #[trigger] commits[i],
            ) by {
                if i < end {
                    lemma_ranges_ascend(commits, i, end);
                    assert(commits[end].first_sequence < commits[end].next_sequence);
                }
            }
        }
    }
    if insertion(commits, commit) is Err {
        if exists|i: int| 0 <= i < commits.len() && ranges_overlap(commit, #[trigger] commits[i]) {
            let i = choose|i: int|
                0 <= i < commits.len() && ranges_overlap(commit, #[trigger] commits[i]);
            let sequence = if commit.first_sequence < commits[i].first_sequence {
                commits[i].first_sequence as int
            } else {
                commit.first_sequence as int
            };
            assert(commits[i].first_sequence < commits[i].next_sequence);
            assert(publishes(commits, sequence, i));
        } else {
            assert forall|sequence: int, i: int| #[trigger]
                publishes(commits, sequence, i) implies !(commit.first_sequence <= sequence
                < commit.next_sequence) by {
                assert(!ranges_overlap(commit, commits[i]));
            }
        }
    }
}

/// Whether the commit at this place publishes this sequence.
pub open spec fn publishes(commits: Seq<CommitView>, sequence: int, i: int) -> bool {
    0 <= i < commits.len() && commits[i].first_sequence <= sequence < commits[i].next_sequence
}

/// A published range is taken again only as the same publication: with the same fingerprint, rows and
/// files, of which each has the same hour, path and rows. That changes nothing, and anything else is a
/// conflict.
pub proof fn published_ranges_are_fixed(commits: Seq<CommitView>, commit: CommitView, i: int)
    requires
        contiguous(commits),
        ranges_filled(commits),
        is_published(commits, commit, i),
    ensures
        insertion(commits, commit) is Ok ==> {
            &&& insertion(commits, commit)->Ok_0 == (false, commits)
            &&& commits[i].fingerprint == commit.fingerprint
            &&& commits[i].rows == commit.rows
            &&& commits[i].files.len() == commit.files.len()
            &&& forall|f: int|
                0 <= f < commit.files.len() ==> {
                    &&& (#[trigger] commit.files[f]).hour == commits[i].files[f].hour
                    &&& commit.files[f].relative_path == commits[i].files[f].relative_path
                    &&& commit.files[f].rows == commits[i].files[f].rows
                    &&& commit.files[f].statistics is Some
                        == commits[i].files[f].statistics is Some
                }
        },
        insertion(commits, commit) is Err ==> insertion(commits, commit)->Err_0 is Conflict,
        same_publication(commits[i], commit) ==> insertion(commits, commit) is Ok,
{
    lemma_with_range(commits, commit);
    let k = choose|k: int| #[trigger]
        is_published(commits, commit, k) && commits[k] == with_range(commits, commit)->0;
    if k < i {
        lemma_ranges_ascend(commits, k, i);
        assert(commits[i].first_sequence < commits[i].next_sequence);
    } else if i < k {
        lemma_ranges_ascend(commits, i, k);
        assert(commits[k].first_sequence < commits[k].next_sequence);
    }
    if insertion(commits, commit) is Ok {
        assert forall|f: int| 0 <= f < commit.files.len() implies {
            &&& (#[trigger] commit.files[f]).hour == commits[i].files[f].hour
            &&& commit.files[f].relative_path == commits[i].files[f].relative_path
            &&& commit.files[f].rows == commits[i].files[f].rows
            &&& commit.files[f].statistics is Some == commits[i].files[f].statistics is Some
        } by {
            assert(commit::commit_file_equal(commits[i].files[f], commit.files[f]));
        }
    }
}

/// Commits with sequences load exactly where, by range, each starts where the one before it ends; and they
/// load as they are.
pub proof fn catalogs_load_where_ranges_adjoin(commits: Seq<CommitView>)
    requires
        ranges_filled(commits),
    ensures
        loaded(commits) is Ok <==> forall|i: int, j: int|
            0 <= i < commits.len() && j == i + 1 && j < commits.len() ==> (
            #[trigger] commits[i]).next_sequence == (#[trigger] commits[j]).first_sequence,
        loaded(commits) is Ok ==> loaded(commits)->Ok_0 == commits,
{
    if loaded(commits) is Ok {
        lemma_loaded_all(commits);
    }
    if contiguous(commits) {
        lemma_loaded_whole(commits);
    }
}

} // verus!
