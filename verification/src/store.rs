//! Memtable plus the durable catalog for one tenant.
//!
//! Publication writes every hour file, then the commit descriptor, and only then adds the commit to
//! the catalog and drops the frozen generation in one step. A snapshot therefore sees the
//! generation in memory or in the catalog, and a scan reads each row once.
use std::sync::Arc;
use vstd::prelude::*;
use crate::align::{MemtableError, MemtableErrorView};
use crate::catalog;
use crate::catalog::{Catalog, CatalogError};
use crate::clock::Clock;
use crate::commit::{Commit, CommitFileView, CommitView, CommitWriteOptions};
use crate::decode::DecodedLogs;
use crate::generation;
use crate::generation::{Generation, GenerationView};
use crate::layout;
use crate::memtable;
use crate::memtable::{Appended, Measured, Memtable, MemtableConfig, MemtableView};
use crate::parquet::ParquetWriteOptions;
use crate::paths;
use crate::paths::{PathCounts, PathSet};
use crate::recovery;
use crate::recovery::{Recovered, RecoveredView};
use crate::retirement::Retirement;
use crate::scan;
use crate::text;
use crate::scan::{
    hour_sources, HourSources, PublishFault, Scan, StoreError, StoreSnapshot, StoreSnapshotView,
};

verus! {

/// Durability faults injected around one publication.
#[derive(Clone, Copy, Debug)]
pub struct PublishOptions {
    /// Fault injected while writing Parquet files.
    pub parquet: ParquetWriteOptions,
    /// Fault injected while writing the commit descriptor.
    pub commit: CommitWriteOptions,
    /// Fault injected after both writes have succeeded.
    pub fault: Option<PublishFault>,
}

impl Default for PublishOptions {
    fn default() -> (options: Self)
        ensures
            options.parquet.fault is None,
            options.commit.fault is None,
            options.fault is None,
    {
        PublishOptions {
            parquet: ParquetWriteOptions { fault: None },
            commit: CommitWriteOptions { fault: None },
            fault: None,
        }
    }
}

/// Stops a publication whose descriptor is durable, where `options` ask for it.
pub fn stop_before_swap(options: &PublishOptions) -> (result: Result<(), StoreError>)
    ensures
        result is Err <==> options.fault is Some,
        result is Err ==> result->Err_0 == StoreError::Fault(PublishFault::Swap),
{
    match options.fault {
        Some(PublishFault::Swap) => Err(StoreError::Fault(PublishFault::Swap)),
        None => Ok(()),
    }
}

#[verifier::ext_equal]
pub struct StoreView {
    pub root: Seq<char>,
    pub tenant: Seq<char>,
    pub memtable: MemtableView,
    pub catalog: Seq<CommitView>,
    pub retired: Set<Seq<char>>,
    pub leases: Map<Seq<char>, u64>,
    pub collectible: Set<Seq<char>>,
    pub epoch: u64,
}

/// Whether memory continues where the published commits end.
pub open spec fn adjoins(catalog: Seq<CommitView>, table: MemtableView) -> bool {
    catalog::high_water(catalog) is Some ==> memtable::memory_start(table) == catalog::high_water(catalog)
}

/// What every operation keeps: a published commit names every retired file, only retired files are
/// collectible, and a leased file is never collectible.
pub open spec fn store_ok(store: StoreView) -> bool {
    &&& memtable::table_ok(store.memtable)
    &&& catalog::contiguous(store.catalog)
    &&& forall|path: Seq<char>|
        #[trigger] store.retired.contains(path) ==> catalog::names_path(store.catalog, path)
    &&& forall|path: Seq<char>|
        #[trigger] store.leases.dom().contains(path) ==> store.leases[path] > 0
    &&& forall|path: Seq<char>|
        #[trigger] store.collectible.contains(path) ==> store.retired.contains(path)
            && !store.leases.dom().contains(path)
}

/// A snapshot that pins the visible Parquet files.
#[derive(Debug)]
pub struct SnapshotLease {
    paths: PathSet,
}

impl View for SnapshotLease {
    type V = Set<Seq<char>>;

    closed spec fn view(&self) -> Set<Seq<char>> {
        self.paths@
    }
}

impl SnapshotLease {
    /// The leased paths in ascending order.
    pub fn paths(&self) -> (paths: Vec<String>)
        ensures
            paths::texts_ascend(paths.deep_view()),
            paths.deep_view().to_set() == self@,
    {
        self.paths.paths()
    }
}

/// Snapshot whose visible Parquet files stay leased until the lease is released.
#[derive(Debug)]
pub struct PinnedSnapshot {
    pub snapshot: StoreSnapshot,
    pub lease: SnapshotLease,
}

/// Whether a published commit names this path and no retirement hides it.
pub open spec fn is_visible(
    commits: Seq<CommitView>,
    retired: Set<Seq<char>>,
    path: Seq<char>,
) -> bool {
    !retired.contains(path) && catalog::names_path(commits, path)
}

fn visible_paths(commits: &Vec<Commit>, retired: &PathSet) -> (paths: PathSet)
    ensures
        forall|path: Seq<char>|
            #[trigger] paths@.contains(path) <==> is_visible(commits.deep_view(), retired@, path),
{
    let ghost all = commits.deep_view();
    let mut paths = PathSet::new();
    let mut c: usize = 0;
    while c < commits.len()
        invariant
            c <= commits.len(),
            all == commits.deep_view(),
            forall|path: Seq<char>| #[trigger]
                paths@.contains(path) <==> is_visible(all.take(c as int), retired@, path),
        decreases commits.len() - c,
    {
        let commit = &commits[c];
        assert(all[c as int] == commit.deep_view());
        let ghost start = paths@;
        let ghost here = all[c as int].files;
        let mut f: usize = 0;
        while f < commit.files.len()
            invariant
                f <= commit.files.len(),
                here == commit.files.deep_view(),
                forall|path: Seq<char>| #[trigger]
                    paths@.contains(path) <==> start.contains(path) || (!retired@.contains(path)
                        && lists_path(here, f as int, path)),
            decreases commit.files.len() - f,
        {
            let ghost before = paths@;
            assert(here[f as int] == commit.files@[f as int].deep_view());
            let path = &commit.files[f].relative_path;
            if !retired.contains(path) {
                paths.insert(path);
            }
            proof {
                assert forall|p: Seq<char>| #[trigger]
                    paths@.contains(p) <==> start.contains(p) || (!retired@.contains(p)
                        && lists_path(here, f + 1, p)) by {
                    assert(before.contains(p) <==> start.contains(p) || (!retired@.contains(p)
                        && lists_path(here, f as int, p)));
                    if p == path@ {
                        assert(here[f as int].relative_path == p);
                    }
                    if lists_path(here, f as int, p) {
                        let k = choose|k: int|
                            0 <= k < f && (#[trigger] here[k]).relative_path == p;
                        assert(here[k].relative_path == p);
                    }
                }
            }
            f = f + 1;
        }
        proof {
            let head = all.take(c + 1);
            let tail = all.take(c as int);
            assert forall|p: Seq<char>| #[trigger]
                paths@.contains(p) <==> is_visible(head, retired@, p) by {
                assert(start.contains(p) <==> is_visible(tail, retired@, p));
                if catalog::names_path(tail, p) {
                    let (x, y) = choose|x: int, y: int|
                        0 <= x < tail.len() && 0 <= y < tail[x].files.len() && (
                        #[trigger] tail[x].files[y]).relative_path == p;
                    assert(head[x].files[y] == tail[x].files[y]);
                }
                if lists_path(here, here.len() as int, p) {
                    let k = choose|k: int|
                        0 <= k < here.len() && (#[trigger] here[k]).relative_path == p;
                    assert(head[c as int].files[k] == here[k]);
                }
                if catalog::names_path(head, p) {
                    let (x, y) = choose|x: int, y: int|
                        0 <= x < head.len() && 0 <= y < head[x].files.len() && (
                        #[trigger] head[x].files[y]).relative_path == p;
                    if x < c {
                        assert(tail[x].files[y] == head[x].files[y]);
                    } else {
                        assert(here[y] == head[x].files[y]);
                    }
                }
            }
        }
        c = c + 1;
    }
    assert(all.take(c as int) =~= all);
    paths
}

/// Whether commits name each of these paths.
pub open spec fn all_named(commits: Seq<CommitView>, paths: Seq<Seq<char>>) -> bool {
    forall|i: int| 0 <= i < paths.len() ==> catalog::names_path(commits, #[trigger] paths[i])
}

/// Whether one of the first `count` files has this path.
pub open spec fn lists_path(files: Seq<CommitFileView>, count: int, path: Seq<char>) -> bool {
    exists|k: int| 0 <= k < count && (#[trigger] files[k]).relative_path == path
}

/// Why the oldest frozen range is not the next to be published.
pub open spec fn publish_fault(commits: Seq<CommitView>, first: u64, next: u64) -> Option<
    CatalogError,
> {
    if has_range(commits, first, next) {
        None
    } else {
        match catalog::high_water(commits) {
            None => None,
            Some(expected) => if first < expected {
                Some(CatalogError::Overlap { first_sequence: first, next_sequence: next })
            } else if first > expected {
                Some(CatalogError::Gap { expected, actual: first })
            } else {
                None
            },
        }
    }
}

/// Whether a commit has this range.
pub open spec fn has_range(commits: Seq<CommitView>, first: u64, next: u64) -> bool {
    exists|i: int|
        0 <= i < commits.len() && (#[trigger] commits[i]).first_sequence == first
            && commits[i].next_sequence == next
}

/// Accepts the next range to be published, or one that is published already.
///
/// # Errors
///
/// Returns [`CatalogError`] when the range overlaps what is published or leaves a gap.
pub fn ensure_publishable(catalog: &Catalog, first: u64, next: u64) -> (result: Result<
    (),
    CatalogError,
>)
    ensures
        match result {
            Ok(_) => publish_fault(catalog@, first, next) is None,
            Err(error) => publish_fault(catalog@, first, next) == Some(error),
        },
{
    let commits = catalog.commits();
    let ghost all = catalog@;
    let mut i: usize = 0;
    while i < commits.len()
        invariant
            i <= commits.len(),
            all == commits.deep_view(),
            all == catalog@,
            forall|k: int|
                0 <= k < i ==> !((#[trigger] all[k]).first_sequence == first
                    && all[k].next_sequence == next),
        decreases commits.len() - i,
    {
        assert(all[i as int] == commits@[i as int].deep_view());
        if commits[i].first_sequence == first && commits[i].next_sequence == next {
            assert(all[i as int].first_sequence == first);
            return Ok(());
        }
        i = i + 1;
    }
    match catalog.durable_sequence() {
        Some(expected) => if first < expected {
            Err(CatalogError::Overlap { first_sequence: first, next_sequence: next })
        } else if first > expected {
            Err(CatalogError::Gap { expected, actual: first })
        } else {
            Ok(())
        },
        None => Ok(()),
    }
}

/// The paths that retirements hide.
fn hide_all(retirements: &Vec<Retirement>) -> (hidden: PathSet)
    ensures
        hidden@ == recovery::hidden_paths(retirements.deep_view()),
{
    let ghost all = retirements.deep_view();
    let mut hidden = PathSet::new();
    let mut i: usize = 0;
    assert(all.take(0) =~= Seq::empty());
    while i < retirements.len()
        invariant
            i <= retirements.len(),
            all == retirements.deep_view(),
            hidden@ == recovery::hidden_paths(all.take(i as int)),
        decreases retirements.len() - i,
    {
        assert(all.take(i + 1).drop_last() =~= all.take(i as int));
        let files = &retirements[i].files;
        assert(all[i as int] == retirements@[i as int].deep_view());
        let ghost start = hidden@;
        let ghost here = files.deep_view();
        let mut f: usize = 0;
        assert(here.take(0) =~= Seq::empty());
        assert(start.union(recovery::file_paths(here.take(0))) =~= start);
        while f < files.len()
            invariant
                f <= files.len(),
                here == files.deep_view(),
                hidden@ == start.union(recovery::file_paths(here.take(f as int))),
            decreases files.len() - f,
        {
            assert(here.take(f + 1).drop_last() =~= here.take(f as int));
            assert(here[f as int] == files@[f as int].deep_view());
            hidden.insert(&files[f].relative_path);
            assert(hidden@ =~= start.union(recovery::file_paths(here.take(f + 1))));
            f = f + 1;
        }
        assert(here.take(f as int) =~= here);
        i = i + 1;
    }
    assert(all.take(i as int) =~= all);
    hidden
}

/// The table after a generation that was published left memory.
pub open spec fn released_table(table: MemtableView, first: u64, next: u64) -> MemtableView {
    if table.frozen.len() > 0 && table.frozen[0].first_sequence == first
        && table.frozen[0].next_sequence == next {
        memtable::next_epoch(MemtableView { frozen: table.frozen.drop_first(), ..table })
    } else {
        table
    }
}

/// What completing a publication does.
pub open spec fn publication_outcome(store: StoreView, first: u64, next: u64, commit: CommitView) -> Result<
    StoreView,
    CatalogError,
> {
    match catalog::insertion(store.catalog, commit) {
        Err(error) => Err(error),
        Ok((_, commits)) => Ok(
            StoreView {
                catalog: commits,
                memtable: released_table(store.memtable, first, next),
                epoch: generation::clamped(store.epoch + 1),
                ..store
            },
        ),
    }
}

/// Rows that published commits hold.
pub open spec fn published_rows(commits: Seq<CommitView>) -> int
    decreases commits.len(),
{
    if commits.len() == 0 {
        0
    } else {
        published_rows(commits.drop_last()) + commits.last().rows
    }
}

/// Publishing the oldest frozen generation moves its row count from memory to the catalog: the rows
/// of memory and catalog together stay the same in number. Memory continues where the published
/// commits end.
pub proof fn publication_moves_row_count(store: StoreView, commit: CommitView)
    requires
        store_ok(store),
        adjoins(store.catalog, store.memtable),
        store.memtable.frozen.len() > 0,
        commit.first_sequence == store.memtable.frozen[0].first_sequence,
        commit.next_sequence == store.memtable.frozen[0].next_sequence,
        commit.rows == generation::partition_rows(store.memtable.frozen[0].partitions),
        catalog::insertion(store.catalog, commit) == Ok::<(bool, Seq<CommitView>), CatalogError>(
            (true, store.catalog.push(commit)),
        ),
    ensures
        ({
            let after = publication_outcome(
                store,
                commit.first_sequence,
                commit.next_sequence,
                commit,
            )->Ok_0;
            &&& adjoins(after.catalog, after.memtable)
            &&& published_rows(after.catalog) + memtable::table_rows(after.memtable)
                == published_rows(store.catalog) + memtable::table_rows(store.memtable)
            &&& memtable::table_rows(after.memtable) + commit.rows == memtable::table_rows(
                store.memtable,
            )
        }),
{
    let frozen = store.memtable.frozen;
    lemma_drop_first_rows(frozen);
    lemma_released_start(store.memtable);
    assert(store.catalog.push(commit).drop_last() =~= store.catalog);
}

/// Publishing the same commit again publishes nothing twice: the catalog and memory stay as they are.
/// So a publication that failed after its commit was durable can be repeated.
pub proof fn publishing_again_changes_nothing(store: StoreView, commit: CommitView)
    requires
        store_ok(store),
        store.memtable.frozen.len() > 0,
        commit.first_sequence == store.memtable.frozen[0].first_sequence,
        commit.next_sequence == store.memtable.frozen[0].next_sequence,
        catalog::insertion(store.catalog, commit) == Ok::<(bool, Seq<CommitView>), CatalogError>(
            (true, store.catalog.push(commit)),
        ),
        catalog::same_publication(commit, commit),
    ensures
        ({
            let once = publication_outcome(
                store,
                commit.first_sequence,
                commit.next_sequence,
                commit,
            )->Ok_0;
            publication_outcome(once, commit.first_sequence, commit.next_sequence, commit) == Ok::<
                StoreView,
                CatalogError,
            >(StoreView { epoch: generation::clamped(once.epoch + 1), ..once })
        }),
{
    lemma_released_twice(store.memtable);
    catalog::inserting_again_changes_nothing(store.catalog, commit);
}

/// Releasing the range of a generation that left changes nothing.
proof fn lemma_released_twice(table: MemtableView)
    requires
        memtable::table_ok(table),
        table.frozen.len() > 0,
    ensures
        ({
            let first = table.frozen[0].first_sequence;
            let next = table.frozen[0].next_sequence;
            let once = released_table(table, first, next);
            released_table(once, first, next) == once
        }),
{
    let frozen = table.frozen;
    let rest = frozen.drop_first();
    assert(memtable::frozen_ok(frozen[0]));
    if rest.len() > 0 {
        assert(rest[0] == frozen[1]);
        assert(frozen[0].next_sequence == frozen[1].first_sequence);
    }
}

proof fn lemma_drop_first_rows(frozen: Seq<GenerationView>)
    requires
        frozen.len() > 0,
    ensures
        memtable::frozen_rows(frozen) == generation::partition_rows(frozen[0].partitions)
            + memtable::frozen_rows(frozen.drop_first()),
    decreases frozen.len(),
{
    if frozen.len() > 1 {
        lemma_drop_first_rows(frozen.drop_last());
        assert(frozen.drop_last().drop_first() =~= frozen.drop_first().drop_last());
        assert(frozen.drop_first().last() == frozen.last());
    } else {
        assert(frozen.drop_last() =~= Seq::empty());
        assert(frozen.drop_first() =~= Seq::empty());
    }
}

/// Once the oldest frozen generation left, memory starts where that generation ended.
proof fn lemma_released_start(table: MemtableView)
    requires
        memtable::table_ok(table),
        table.frozen.len() > 0,
    ensures
        memtable::memory_start(
            released_table(
                table,
                table.frozen[0].first_sequence,
                table.frozen[0].next_sequence,
            ),
        ) == Some(table.frozen[0].next_sequence),
{
    let rest = table.frozen.drop_first();
    if rest.len() > 0 {
        assert(rest[0] == table.frozen[1]);
        assert(table.frozen[0].next_sequence == table.frozen[1].first_sequence);
    } else {
        assert(table.frozen.last() == table.frozen[0]);
    }
}

/// Memtable plus the durable catalog for one tenant.
pub struct Store {
    root: String,
    tenant: String,
    memtable: Memtable,
    catalog: Catalog,
    retired: PathSet,
    leases: PathCounts,
    collectible: PathSet,
    epoch: u64,
}

impl View for Store {
    type V = StoreView;

    closed spec fn view(&self) -> StoreView {
        StoreView {
            root: self.root@,
            tenant: self.tenant@,
            memtable: self.memtable@,
            catalog: self.catalog@,
            retired: self.retired@,
            leases: self.leases@,
            collectible: self.collectible@,
            epoch: self.epoch,
        }
    }
}

/// Whether `lease` holds every visible file of `before`, and `after` counts one more pin of each.
pub open spec fn pins(before: StoreView, after: StoreView, lease: Set<Seq<char>>) -> bool {
    &&& forall|path: Seq<char>|
        #[trigger] lease.contains(path) <==> is_visible(before.catalog, before.retired, path)
    &&& forall|path: Seq<char>|
        #[trigger] paths::count_of(after.leases, path) == if lease.contains(path) {
            generation::clamped(paths::count_of(before.leases, path) + 1)
        } else {
            paths::count_of(before.leases, path)
        }
    &&& after == (StoreView { leases: after.leases, ..before })
}

/// Whether `after` counts one pin less of each file of `lease`, and offers for collection those
/// retired files that nothing else pins.
pub open spec fn releases(before: StoreView, after: StoreView, lease: Set<Seq<char>>) -> bool {
    &&& forall|path: Seq<char>|
        #[trigger] paths::count_of(after.leases, path) == if lease.contains(path)
            && paths::count_of(before.leases, path) > 0 {
            (paths::count_of(before.leases, path) - 1) as u64
        } else {
            paths::count_of(before.leases, path)
        }
    &&& forall|path: Seq<char>|
        #[trigger] after.collectible.contains(path) <==> before.collectible.contains(path) || (
        lease.contains(path) && paths::count_of(before.leases, path) == 1
            && before.retired.contains(path))
    &&& after == (StoreView { leases: after.leases, collectible: after.collectible, ..before })
}

/// Whether `after` no longer offers `unlinked` for collection, and is `before` otherwise.
pub open spec fn collects(before: StoreView, after: StoreView, unlinked: Seq<Seq<char>>) -> bool {
    &&& forall|path: Seq<char>|
        #[trigger] after.collectible.contains(path) <==> before.collectible.contains(path)
            && !unlinked.contains(path)
    &&& after == (StoreView { collectible: after.collectible, ..before })
}

/// Whether `after` hides `retired` too, and offers those of them for collection that nothing pins.
pub open spec fn hides(before: StoreView, after: StoreView, retired: Seq<Seq<char>>) -> bool {
    &&& forall|path: Seq<char>|
        #[trigger] after.retired.contains(path) <==> before.retired.contains(path)
            || retired.contains(path)
    &&& forall|path: Seq<char>|
        #[trigger] after.collectible.contains(path) <==> before.collectible.contains(path) || (
        retired.contains(path) && paths::count_of(before.leases, path) == 0)
    &&& after == (StoreView {
        retired: after.retired,
        collectible: after.collectible,
        epoch: generation::clamped(before.epoch + 1),
        ..before
    })
}

/// A retired file is collected as soon as nothing reads it. Where no snapshot pins it, it is offered when
/// it is retired; where a snapshot does, it is kept, and offered once the last such snapshot is released.
/// From then on no new snapshot pins it.
pub proof fn retired_files_are_collected_after_the_last_reader(
    before: StoreView,
    hidden: StoreView,
    released: StoreView,
    pinned: StoreView,
    retired: Seq<Seq<char>>,
    lease: Set<Seq<char>>,
    next_lease: Set<Seq<char>>,
    path: Seq<char>,
)
    requires
        hides(before, hidden, retired),
        retired.contains(path),
        releases(hidden, released, lease),
        pins(released, pinned, next_lease),
    ensures
        hidden.retired.contains(path),
        paths::count_of(before.leases, path) == 0 ==> hidden.collectible.contains(path),
        paths::count_of(before.leases, path) > 0 && !before.collectible.contains(path)
            ==> !hidden.collectible.contains(path),
        lease.contains(path) && paths::count_of(before.leases, path) == 1
            ==> released.collectible.contains(path) && paths::count_of(released.leases, path) == 0,
        lease.contains(path) && paths::count_of(before.leases, path) > 1
            && !before.collectible.contains(path) ==> !released.collectible.contains(path),
        !next_lease.contains(path),
{
    assert(hidden.retired.contains(path));
    assert(paths::count_of(released.leases, path) == if lease.contains(path) && paths::count_of(
        hidden.leases,
        path,
    ) > 0 {
        (paths::count_of(hidden.leases, path) - 1) as u64
    } else {
        paths::count_of(hidden.leases, path)
    });
    assert(!is_visible(released.catalog, released.retired, path));
}

/// A snapshot pins exactly the files that a published commit names and no retirement hides.
pub proof fn snapshots_pin_the_visible_files(
    before: StoreView,
    after: StoreView,
    lease: Set<Seq<char>>,
    path: Seq<char>,
)
    requires
        pins(before, after, lease),
    ensures
        lease.contains(path) <==> !before.retired.contains(path) && exists|c: int, f: int|
            0 <= c < before.catalog.len() && 0 <= f < before.catalog[c].files.len() && (
            #[trigger] before.catalog[c].files[f]).relative_path == path,
        after.catalog == before.catalog,
        after.retired == before.retired,
        after.memtable == before.memtable,
{
}

/// The oldest frozen generation can be published exactly where its range is published already, nothing
/// is published, or it starts where the published ranges end.
pub proof fn publishable_ranges_continue(
    commits: Seq<CommitView>,
    first: u64,
    next: u64,
)
    ensures
        publish_fault(commits, first, next) is None <==> commits.len() == 0 || first
            == commits[commits.len() - 1].next_sequence || exists|i: int|
            0 <= i < commits.len() && (#[trigger] commits[i]).first_sequence == first
                && commits[i].next_sequence == next,
        publish_fault(commits, first, next) is Some ==> match publish_fault(commits, first, next)->0 {
            CatalogError::Overlap { first_sequence, next_sequence } => first_sequence == first
                && next_sequence == next && first < commits[commits.len() - 1].next_sequence,
            CatalogError::Gap { expected, actual } => actual == first && expected
                == commits[commits.len() - 1].next_sequence && first > expected,
            _ => false,
        },
{
}

/// Publishing takes the generation of the range out of memory exactly where it is the oldest that is
/// frozen, and leaves the others as they are.
pub proof fn publishing_releases_the_oldest_generation(
    store: StoreView,
    first: u64,
    next: u64,
    commit: CommitView,
    i: int,
)
    requires
        publication_outcome(store, first, next, commit) is Ok,
        store.memtable.frozen.len() > 0,
    ensures
        ({
            let after = publication_outcome(store, first, next, commit)->Ok_0;
            let oldest = store.memtable.frozen[0];
            &&& after.memtable.active == store.memtable.active
            &&& after.memtable.next_sequence == store.memtable.next_sequence
            &&& oldest.first_sequence == first && oldest.next_sequence == next
                ==> after.memtable.frozen.len() == store.memtable.frozen.len() - 1 && (0 <= i
                < after.memtable.frozen.len() ==> after.memtable.frozen[i]
                == store.memtable.frozen[i + 1])
            &&& !(oldest.first_sequence == first && oldest.next_sequence == next)
                ==> after.memtable.frozen == store.memtable.frozen
            &&& after.retired == store.retired
            &&& after.leases == store.leases
            &&& after.collectible == store.collectible
        }),
{
}

/// A store that is opened continues where the published commits end, hides every file that a retirement
/// lists, and offers all of them for collection. It holds nothing in memory.
pub proof fn opened_stores_continue(
    root: Seq<char>,
    tenant: Seq<char>,
    config: MemtableConfig,
    recovered: RecoveredView,
    path: Seq<char>,
)
    ensures
        ({
            let store = opened_store(root, tenant, config, recovered);
            &&& recovered.catalog.len() > 0 ==> store.memtable.next_sequence == Some(
                recovered.catalog[recovered.catalog.len() - 1].next_sequence,
            )
            &&& recovered.catalog.len() == 0 ==> store.memtable.next_sequence is None
            &&& store.memtable.frozen.len() == 0
            &&& !store.memtable.active.generation.has_frames()
            &&& store.memtable.tenant_id == tenant
            &&& store.catalog == recovered.catalog
            &&& paths::count_of(store.leases, path) == 0
            &&& store.retired.contains(path) <==> recovery::some_retirement_lists(
                recovered.retirements,
                path,
            )
            &&& store.collectible.contains(path) <==> recovery::some_retirement_lists(
                recovered.retirements,
                path,
            )
        }),
{
    recovery::retirements_hide_what_they_list(recovered.retirements, path);
}

/// Collecting everything that is offered touches no file that a snapshot leases, hides the files
/// still, and leaves nothing to offer.
pub proof fn collecting_everything_leaves_nothing(
    before: StoreView,
    after: StoreView,
    unlinked: Seq<Seq<char>>,
)
    requires
        store_ok(before),
        unlinked.to_set() == before.collectible,
        collects(before, after, unlinked),
    ensures
        after == (StoreView { collectible: Set::empty(), ..before }),
        forall|i: int|
            0 <= i < unlinked.len() ==> before.retired.contains(#[trigger] unlinked[i])
                && paths::count_of(before.leases, unlinked[i]) == 0,
{
    assert forall|path: Seq<char>| !after.collectible.contains(path) by {
        if before.collectible.contains(path) {
            assert(unlinked.to_set().contains(path));
        }
    }
    assert(after.collectible =~= Set::empty());
    assert forall|i: int| 0 <= i < unlinked.len() implies before.retired.contains(
        #[trigger] unlinked[i],
    ) && paths::count_of(before.leases, unlinked[i]) == 0 by {
        assert(unlinked.contains(unlinked[i]));
        assert(unlinked.to_set().contains(unlinked[i]));
        only_unleased_files_are_collected(before, unlinked[i]);
    }
}

/// A file that is offered for collection is retired, and no snapshot leases it.
pub proof fn only_unleased_files_are_collected(store: StoreView, path: Seq<char>)
    requires
        store_ok(store),
        store.collectible.contains(path),
    ensures
        store.retired.contains(path),
        paths::count_of(store.leases, path) == 0,
{
}

/// A file that a snapshot has just pinned is not offered for collection.
pub proof fn pinned_files_are_kept(
    before: StoreView,
    after: StoreView,
    lease: Set<Seq<char>>,
    path: Seq<char>,
)
    requires
        pins(before, after, lease),
        store_ok(after),
        lease.contains(path),
    ensures
        paths::count_of(after.leases, path) > 0,
        !after.collectible.contains(path),
{
    assert(paths::count_of(after.leases, path) > 0);
}

/// Releasing a snapshot undoes its pin.
pub proof fn releasing_undoes_pinning(
    before: StoreView,
    pinned: StoreView,
    after: StoreView,
    lease: Set<Seq<char>>,
)
    requires
        pins(before, pinned, lease),
        releases(pinned, after, lease),
        forall|path: Seq<char>| #[trigger] paths::count_of(before.leases, path) < u64::MAX,
    ensures
        forall|path: Seq<char>|
            #[trigger] paths::count_of(after.leases, path) == paths::count_of(before.leases, path),
        after.collectible == before.collectible,
        after == (StoreView { leases: after.leases, ..before }),
{
    assert forall|path: Seq<char>|
        #[trigger] paths::count_of(after.leases, path) == paths::count_of(
            before.leases,
            path,
        ) by {
        assert(paths::count_of(pinned.leases, path) == if lease.contains(path) {
            generation::clamped(paths::count_of(before.leases, path) + 1)
        } else {
            paths::count_of(before.leases, path)
        });
    }
    assert(after.collectible =~= before.collectible);
}

/// A store that has accepted nothing since it was opened. Every file that recovery found retired is
/// waiting to be collected.
pub open spec fn opened_store(
    root: Seq<char>,
    tenant: Seq<char>,
    config: MemtableConfig,
    recovered: RecoveredView,
) -> StoreView {
    StoreView {
        root,
        tenant,
        memtable: MemtableView {
            next_sequence: catalog::high_water(recovered.catalog),
            ..memtable::empty_table(tenant, config)
        },
        catalog: recovered.catalog,
        retired: recovery::hidden_paths(recovered.retirements),
        leases: Map::empty(),
        collectible: recovery::hidden_paths(recovered.retirements),
        epoch: 0,
    }
}

impl Store {
    /// What every operation keeps.
    pub open spec fn wf(&self) -> bool {
        store_ok(self@)
    }

    /// Open an empty memtable positioned at the durable sequence of what recovery found.
    ///
    /// # Errors
    ///
    /// Returns [`StoreError::Memtable`] when the memtable cannot be opened.
    pub fn open(
        root: &str,
        tenant: &str,
        config: MemtableConfig,
        clock: Arc<dyn Clock>,
        recovered: Recovered,
    ) -> (result: Result<Self, StoreError>)
        requires
            recovered.catalog.wf(),
            recovery::retirements_named(recovered.deep_view()),
        ensures
            match result {
                Ok(store) => {
                    &&& config.max_frozen != 0
                    &&& store.wf()
                    &&& store@ == opened_store(root@, tenant@, config, recovered.deep_view())
                    &&& adjoins(store@.catalog, store@.memtable)
                },
                Err(error) => config.max_frozen == 0 && error == StoreError::Memtable(
                    MemtableError::FrozenLimitZero,
                ),
            },
    {
        let ghost found = recovered.deep_view();
        let clock = Box::new(clock);
        let mut memtable = match Memtable::with_clock(tenant, config, clock) {
            Ok(memtable) => memtable,
            Err(error) => {
                return Err(StoreError::Memtable(error));
            },
        };
        match recovered.catalog.durable_sequence() {
            Some(sequence) => {
                match memtable.resume(sequence) {
                    Ok(()) => {},
                    Err(error) => {
                        return Err(StoreError::Memtable(error));
                    },
                }
            },
            None => {},
        }
        let retired = hide_all(&recovered.retirements);
        let collectible = retired.clone();
        let Recovered {
            catalog,
            removed_temporary: _,
            removed_corrupt: _,
            removed_orphans: _,
            retirements: _,
        } = recovered;
        let store = Store {
            root: root.to_owned(),
            tenant: tenant.to_owned(),
            memtable,
            catalog,
            retired,
            leases: PathCounts::new(),
            collectible,
            epoch: 0,
        };
        assert(store@ =~= opened_store(root@, tenant@, config, found));
        Ok(store)
    }

    /// Directory under which this store keeps its files.
    pub fn root(&self) -> (root: &str)
        ensures
            root@ == self@.root,
    {
        &self.root
    }

    /// Tenant whose rows this store holds.
    pub fn tenant(&self) -> (tenant: &str)
        ensures
            tenant@ == self@.tenant,
    {
        &self.tenant
    }

    /// Exclusive end of the contiguous published prefix.
    pub fn durable_sequence(&self) -> (sequence: Option<u64>)
        ensures
            sequence == catalog::high_water(self@.catalog),
    {
        self.catalog.durable_sequence()
    }

    /// Published commits, oldest range first.
    pub fn commits(&self) -> (commits: &Vec<Commit>)
        ensures
            commits.deep_view() == self@.catalog,
    {
        self.catalog.commits()
    }

    /// Paths hidden by durable retirement descriptors.
    pub fn retired(&self) -> (retired: &PathSet)
        ensures
            retired@ == self@.retired,
    {
        &self.retired
    }

    /// Store one decoded frame.
    ///
    /// # Errors
    ///
    /// Returns [`StoreError::Memtable`] when the memtable rejects the frame. The store is then
    /// unchanged.
    pub fn append(&mut self, logs: &DecodedLogs) -> (result: Result<Appended, StoreError>)
        requires
            old(self).wf(),
        ensures
            final(self).wf(),
            adjoins(old(self)@.catalog, old(self)@.memtable) ==> adjoins(
                final(self)@.catalog,
                final(self)@.memtable,
            ),
            match result {
                Ok(appended) => {
                    &&& exists|now: u64, measured: Measured, inner: Appended|
                        {
                            &&& memtable::can_measure(
                                old(self)@.memtable,
                                logs.deep_view(),
                                now,
                                measured,
                            )
                            &&& #[trigger] memtable::append_outcome(
                                old(self)@.memtable,
                                logs.deep_view(),
                                now,
                                measured,
                            ) == Ok::<(MemtableView, Appended), MemtableErrorView>(
                                (final(self)@.memtable, inner),
                            )
                            &&& #[trigger] at_epoch(inner, final(self)@.epoch) == appended
                        }
                    &&& final(self)@ == (StoreView {
                        memtable: final(self)@.memtable,
                        epoch: generation::clamped(old(self)@.epoch + 1),
                        ..old(self)@
                    })
                    &&& memtable::table_rows(final(self)@.memtable) == memtable::table_rows(
                        old(self)@.memtable,
                    ) + generation::frame_rows(logs.deep_view().partitions)
                    &&& memtable::within_limits(final(self)@.memtable)
                },
                Err(StoreError::Memtable(error)) => {
                    &&& final(self)@ == old(self)@
                    &&& exists|now: u64, measured: Measured|
                        memtable::can_measure(
                            old(self)@.memtable,
                            logs.deep_view(),
                            now,
                            measured,
                        ) && #[trigger] memtable::append_outcome(
                            old(self)@.memtable,
                            logs.deep_view(),
                            now,
                            measured,
                        ) == Err::<(MemtableView, Appended), MemtableErrorView>(
                            error.deep_view(),
                        )
                },
                Err(_) => false,
            },
    {
        let ghost before = self@;
        match self.memtable.append(logs) {
            Ok(inner) => {
                self.epoch = self.epoch.saturating_add(1);
                let appended = Appended {
                    epoch: self.epoch,
                    generation_id: inner.generation_id,
                    sealed: inner.sealed,
                };
                proof {
                    let (now, measured) = choose|now: u64, measured: Measured|
                        memtable::can_measure(
                            before.memtable,
                            logs.deep_view(),
                            now,
                            measured,
                        ) && #[trigger] memtable::append_outcome(
                            before.memtable,
                            logs.deep_view(),
                            now,
                            measured,
                        ) == Ok::<(MemtableView, Appended), MemtableErrorView>(
                            (self@.memtable, inner),
                        );
                    assert(at_epoch(inner, self@.epoch) == appended);
                    if memtable::memory_start(before.memtable) is Some {
                        memtable::append_keeps_start(
                            before.memtable,
                            logs.deep_view(),
                            now,
                            measured,
                        );
                    }
                    assert(self@ =~= (StoreView {
                        memtable: self@.memtable,
                        epoch: generation::clamped(before.epoch + 1),
                        ..before
                    }));
                }
                Ok(appended)
            },
            Err(error) => {
                assert(self@ =~= before);
                Err(StoreError::Memtable(error))
            },
        }
    }

    /// Freeze the active generation.
    ///
    /// # Errors
    ///
    /// Returns [`StoreError::Memtable`] when the frozen queue is full.
    pub fn rotate(&mut self) -> (result: Result<Option<u64>, StoreError>)
        requires
            old(self).wf(),
        ensures
            final(self).wf(),
            adjoins(old(self)@.catalog, old(self)@.memtable) ==> adjoins(
                final(self)@.catalog,
                final(self)@.memtable,
            ),
            match result {
                Ok(None) => !old(self)@.memtable.active.generation.has_frames() && final(self)@
                    == old(self)@,
                Ok(Some(id)) => {
                    &&& old(self)@.memtable.active.generation.has_frames()
                    &&& old(self)@.memtable.frozen.len() < old(self)@.memtable.config.max_frozen
                    &&& id == old(self)@.memtable.active.generation.id
                    &&& exists|bytes: u64|
                        memtable::frozen_size(
                            old(self)@.memtable.active.generation,
                            bytes,
                        ) && final(self)@ == (StoreView {
                            memtable: memtable::next_epoch(
                                #[trigger] memtable::sealed_table(old(self)@.memtable, bytes),
                            ),
                            epoch: generation::clamped(old(self)@.epoch + 1),
                            ..old(self)@
                        })
                },
                Err(error) => {
                    &&& old(self)@.memtable.active.generation.has_frames()
                    &&& old(self)@.memtable.frozen.len() >= old(self)@.memtable.config.max_frozen
                    &&& error == StoreError::Memtable(MemtableError::FrozenLimit)
                    &&& final(self)@ == old(self)@
                },
            },
    {
        let ghost before = self@;
        match self.memtable.rotate() {
            Ok(Some(id)) => {
                self.epoch = self.epoch.saturating_add(1);
                proof {
                    let bytes = choose|bytes: u64|
                        memtable::frozen_size(
                            before.memtable.active.generation,
                            bytes,
                        ) && self@.memtable == memtable::next_epoch(
                            #[trigger] memtable::sealed_table(before.memtable, bytes),
                        );
                    memtable::sealing_keeps_start(before.memtable, bytes);
                    assert(self@ =~= (StoreView {
                        memtable: memtable::next_epoch(
                            memtable::sealed_table(before.memtable, bytes),
                        ),
                        epoch: generation::clamped(before.epoch + 1),
                        ..before
                    }));
                }
                Ok(Some(id))
            },
            Ok(None) => {
                assert(self@ =~= before);
                Ok(None)
            },
            Err(error) => {
                assert(self@ =~= before);
                Err(StoreError::Memtable(error))
            },
        }
    }

    /// The oldest frozen generation, which is the next to be published.
    ///
    /// # Errors
    ///
    /// Returns [`StoreError::Catalog`] when the generation is not the next range.
    pub fn next_publication(&self) -> (result: Result<Option<Generation>, StoreError>)
        ensures
            match result {
                Ok(None) => self@.memtable.frozen.len() == 0,
                Ok(Some(generation)) => {
                    &&& self@.memtable.frozen.len() > 0
                    &&& generation.deep_view() == self@.memtable.frozen[0]
                    &&& publish_fault(
                        self@.catalog,
                        generation.first_sequence,
                        generation.next_sequence,
                    ) is None
                },
                Err(StoreError::Catalog(error)) => {
                    &&& self@.memtable.frozen.len() > 0
                    &&& publish_fault(
                        self@.catalog,
                        self@.memtable.frozen[0].first_sequence,
                        self@.memtable.frozen[0].next_sequence,
                    ) == Some(error)
                },
                Err(_) => false,
            },
    {
        match self.memtable.oldest_frozen() {
            None => Ok(None),
            Some(generation) => match ensure_publishable(
                &self.catalog,
                generation.first_sequence,
                generation.next_sequence,
            ) {
                Ok(()) => Ok(Some(generation)),
                Err(error) => Err(StoreError::Catalog(error)),
            },
        }
    }

    /// Record a durable commit and release the frozen generation of the range, in one step.
    ///
    /// # Errors
    ///
    /// Returns [`StoreError::Catalog`] when the descriptor does not match an existing commit for
    /// that range, or does not continue the published ranges. The store is then unchanged.
    pub fn complete_publication(
        &mut self,
        first_sequence: u64,
        next_sequence: u64,
        commit: Commit,
    ) -> (result: Result<(), StoreError>)
        requires
            old(self).wf(),
        ensures
            final(self).wf(),
            match result {
                Ok(_) => publication_outcome(
                    old(self)@,
                    first_sequence,
                    next_sequence,
                    commit.deep_view(),
                ) == Ok::<StoreView, CatalogError>(final(self)@),
                Err(StoreError::Catalog(error)) => final(self)@ == old(self)@
                    && publication_outcome(
                    old(self)@,
                    first_sequence,
                    next_sequence,
                    commit.deep_view(),
                ) == Err::<StoreView, CatalogError>(error),
                Err(_) => false,
            },
    {
        let ghost before = self@;
        match self.catalog.insert(commit) {
            Ok(_) => {},
            Err(error) => {
                assert(self@ =~= before);
                return Err(StoreError::Catalog(error));
            },
        }
        let matches = match self.memtable.oldest_frozen() {
            Some(oldest) => oldest.first_sequence == first_sequence && oldest.next_sequence
                == next_sequence,
            None => false,
        };
        if matches {
            let _released = self.memtable.release_oldest_frozen();
        }
        self.epoch = self.epoch.saturating_add(1);
        assert(self@ =~= publication_outcome(
            before,
            first_sequence,
            next_sequence,
            commit.deep_view(),
        )->Ok_0);
        proof {
            assert forall|path: Seq<char>| #[trigger] self@.retired.contains(path) implies
            catalog::names_path(self@.catalog, path) by {
                assert(before.retired.contains(path));
                catalog::lemma_still_named(before.catalog, commit.deep_view(), path);
            }
        }
        Ok(())
    }

    /// Pin the visible generations and the Parquet files a scan of them can read.
    ///
    /// Retired files are omitted and are not leased. Each leased path's count increases by one.
    pub fn pin(&mut self) -> (pinned: PinnedSnapshot)
        requires
            old(self).wf(),
        ensures
            final(self).wf(),
            pinned.snapshot.deep_view() == snapshot_of(old(self)@),
            pins(old(self)@, final(self)@, pinned.lease@),
    {
        let ghost before = self@;
        let memory = self.memtable.snapshot();
        let retired = self.retired.clone();
        let visible = visible_paths(self.catalog.commits(), &self.retired);
        let leased = visible.paths();
        let ghost all = leased.deep_view();
        let mut i: usize = 0;
        while i < leased.len()
            invariant
                i <= leased.len(),
                all == leased.deep_view(),
                paths::texts_ascend(all),
                all.to_set() == visible@,
                store_ok(before),
                forall|path: Seq<char>|
                    #[trigger] visible@.contains(path) <==> is_visible(
                        before.catalog,
                        before.retired,
                        path,
                    ),
                self@ == (StoreView { leases: self@.leases, ..before }),
                forall|path: Seq<char>| #[trigger]
                    self@.leases.dom().contains(path) ==> self@.leases[path] > 0,
                forall|path: Seq<char>| #[trigger]
                    self@.leases.dom().contains(path) ==> before.leases.dom().contains(path)
                        || visible@.contains(path),
                forall|path: Seq<char>|
                    #[trigger] paths::count_of(self@.leases, path) == if among(
                        all,
                        i as int,
                        path,
                    ) {
                        generation::clamped(paths::count_of(before.leases, path) + 1)
                    } else {
                        paths::count_of(before.leases, path)
                    },
            decreases leased.len() - i,
        {
            let path = &leased[i];
            let ghost now = self@.leases;
            assert(all[i as int] == path@);
            proof {
                lemma_not_among(all, i as int);
                assert(all.to_set().contains(all[i as int]));
            }
            let count = self.leases.count(path);
            self.leases.set(path, count.saturating_add(1));
            self.collectible.remove(path);
            proof {
                assert(is_visible(before.catalog, before.retired, path@));
                assert(!before.collectible.contains(path@));
                assert(self@.collectible =~= before.collectible);
                assert(self@ =~= (StoreView { leases: self@.leases, ..before }));
                assert forall|p: Seq<char>| #[trigger]
                    paths::count_of(self@.leases, p) == if among(all, i + 1, p) {
                        generation::clamped(paths::count_of(before.leases, p) + 1)
                    } else {
                        paths::count_of(before.leases, p)
                    } by {
                    lemma_among_step(all, i as int, p);
                    assert(paths::count_of(now, p) == if among(all, i as int, p) {
                        generation::clamped(paths::count_of(before.leases, p) + 1)
                    } else {
                        paths::count_of(before.leases, p)
                    });
                }
            }
            i = i + 1;
        }
        proof {
            assert forall|path: Seq<char>| among(all, i as int, path) <==> visible@.contains(
                path,
            ) by {
                assert(all.to_set().contains(path) <==> all.contains(path));
            }
            assert forall|path: Seq<char>| #[trigger]
                self@.collectible.contains(path) implies !self@.leases.dom().contains(path) by {
                assert(!before.leases.dom().contains(path));
                assert(!is_visible(before.catalog, before.retired, path));
                assert(!visible@.contains(path));
            }
        }
        PinnedSnapshot {
            snapshot: StoreSnapshot {
                epoch: self.epoch,
                active: memory.active,
                frozen: memory.frozen,
                published: copy_commits(self.catalog.commits()),
                retired,
            },
            lease: SnapshotLease { paths: visible },
        }
    }

    /// Drop a lease. A retired path that no snapshot leases any more becomes collectible.
    pub fn release(&mut self, lease: SnapshotLease)
        requires
            old(self).wf(),
        ensures
            final(self).wf(),
            releases(old(self)@, final(self)@, lease@),
    {
        let ghost before = self@;
        let leased = lease.paths();
        let ghost all = leased.deep_view();
        let mut i: usize = 0;
        while i < leased.len()
            invariant
                i <= leased.len(),
                all == leased.deep_view(),
                paths::texts_ascend(all),
                store_ok(before),
                store_ok(self@),
                self@ == (StoreView {
                    leases: self@.leases,
                    collectible: self@.collectible,
                    ..before
                }),
                forall|path: Seq<char>|
                    #[trigger] paths::count_of(self@.leases, path) == if among(
                        all,
                        i as int,
                        path,
                    ) && paths::count_of(before.leases, path) > 0 {
                        (paths::count_of(before.leases, path) - 1) as u64
                    } else {
                        paths::count_of(before.leases, path)
                    },
                forall|path: Seq<char>|
                    #[trigger] self@.collectible.contains(path) <==> before.collectible.contains(
                        path,
                    ) || (among(all, i as int, path) && paths::count_of(before.leases, path) == 1
                        && before.retired.contains(path)),
            decreases leased.len() - i,
        {
            let path = &leased[i];
            let ghost now = self@;
            assert(all[i as int] == path@);
            proof {
                lemma_not_among(all, i as int);
            }
            let count = self.leases.count(path);
            assert(count == paths::count_of(before.leases, path@));
            if count > 1 {
                self.leases.set(path, count - 1);
            } else if count == 1 {
                self.leases.remove(path);
                if self.retired.contains(path) {
                    self.collectible.insert(path);
                }
            }
            proof {
                assert(self@ =~= (StoreView {
                    leases: self@.leases,
                    collectible: self@.collectible,
                    ..before
                }));
                assert forall|p: Seq<char>| #[trigger]
                    paths::count_of(self@.leases, p) == if among(all, i + 1, p)
                        && paths::count_of(before.leases, p) > 0 {
                        (paths::count_of(before.leases, p) - 1) as u64
                    } else {
                        paths::count_of(before.leases, p)
                    } by {
                    lemma_among_step(all, i as int, p);
                    assert(paths::count_of(now.leases, p) == if among(all, i as int, p)
                        && paths::count_of(before.leases, p) > 0 {
                        (paths::count_of(before.leases, p) - 1) as u64
                    } else {
                        paths::count_of(before.leases, p)
                    });
                }
                assert forall|p: Seq<char>| #[trigger]
                    self@.collectible.contains(p) <==> before.collectible.contains(p) || (among(
                        all,
                        i + 1,
                        p,
                    ) && paths::count_of(before.leases, p) == 1 && before.retired.contains(
                        p,
                    )) by {
                    lemma_among_step(all, i as int, p);
                    assert(now.collectible.contains(p) <==> before.collectible.contains(p) || (
                    among(all, i as int, p) && paths::count_of(before.leases, p) == 1
                        && before.retired.contains(p)));
                }
                assert forall|p: Seq<char>| #[trigger]
                    self@.leases.dom().contains(p) implies self@.leases[p] > 0 by {
                    assert(now.leases.dom().contains(p));
                }
                assert forall|p: Seq<char>| #[trigger]
                    self@.collectible.contains(p) implies self@.retired.contains(p)
                    && !self@.leases.dom().contains(p) by {
                    if now.collectible.contains(p) {
                        assert(!now.leases.dom().contains(p));
                        if p == path@ {
                            assert(count == paths::count_of(now.leases, p));
                        }
                    }
                }
            }
            i = i + 1;
        }
        proof {
            assert forall|path: Seq<char>| among(all, i as int, path) <==> lease@.contains(
                path,
            ) by {
                assert(all.to_set().contains(path) <==> all.contains(path));
            }
        }
    }

    /// Relative paths retired and held by no snapshot lease, in ascending order.
    pub fn collectible(&self) -> (paths: Vec<String>)
        ensures
            paths::texts_ascend(paths.deep_view()),
            paths.deep_view().to_set() == self@.collectible,
    {
        self.collectible.paths()
    }

    /// Relative Parquet paths pinned by at least one snapshot, with their pin counts, in ascending
    /// order.
    pub fn leased_paths(&self) -> (entries: Vec<(String, u64)>)
        ensures
            paths::texts_ascend(
                entries.deep_view().map_values(|entry: (Seq<char>, u64)| entry.0),
            ),
            forall|path: Seq<char>, count: u64|
                #[trigger] entries.deep_view().contains((path, count))
                    <==> self@.leases.dom().contains(path) && self@.leases[path] == count,
    {
        self.leases.entries()
    }

    /// Whether published commits name all of `relative_paths`.
    pub fn publishes(&self, relative_paths: &Vec<String>) -> (all: bool)
        ensures
            all <==> all_named(self@.catalog, relative_paths.deep_view()),
    {
        let none = PathSet::new();
        let named = visible_paths(self.catalog.commits(), &none);
        let ghost commits = self@.catalog;
        let ghost paths = relative_paths.deep_view();
        let mut i: usize = 0;
        while i < relative_paths.len()
            invariant
                i <= relative_paths.len(),
                paths == relative_paths.deep_view(),
                commits == self@.catalog,
                none@ == Set::<Seq<char>>::empty(),
                forall|path: Seq<char>|
                    #[trigger] named@.contains(path) <==> is_visible(commits, none@, path),
                forall|k: int|
                    0 <= k < i ==> catalog::names_path(commits, #[trigger] paths[k]),
            decreases relative_paths.len() - i,
        {
            assert(paths[i as int] == relative_paths@[i as int]@);
            if !named.contains(&relative_paths[i]) {
                assert(!catalog::names_path(commits, paths[i as int]));
                return false;
            }
            i = i + 1;
        }
        true
    }

    /// Hide `relative_paths` from new pins. A path with no lease becomes collectible.
    pub fn install(&mut self, relative_paths: &Vec<String>)
        requires
            old(self).wf(),
            all_named(old(self)@.catalog, relative_paths.deep_view()),
        ensures
            final(self).wf(),
            hides(old(self)@, final(self)@, relative_paths.deep_view()),
    {
        let ghost before = self@;
        let ghost all = relative_paths.deep_view();
        let mut i: usize = 0;
        while i < relative_paths.len()
            invariant
                i <= relative_paths.len(),
                all == relative_paths.deep_view(),
                all_named(before.catalog, all),
                store_ok(before),
                store_ok(self@),
                self@ == (StoreView {
                    retired: self@.retired,
                    collectible: self@.collectible,
                    ..before
                }),
                forall|path: Seq<char>|
                    #[trigger] self@.retired.contains(path) <==> before.retired.contains(path)
                        || among(all, i as int, path),
                forall|path: Seq<char>|
                    #[trigger] self@.collectible.contains(path) <==> before.collectible.contains(
                        path,
                    ) || (among(all, i as int, path) && paths::count_of(before.leases, path)
                        == 0),
            decreases relative_paths.len() - i,
        {
            let path = &relative_paths[i];
            let ghost now = self@;
            assert(all[i as int] == path@);
            assert(catalog::names_path(before.catalog, all[i as int]));
            self.retired.insert(path);
            if self.leases.count(path) == 0 {
                self.collectible.insert(path);
            }
            proof {
                assert(self@ =~= (StoreView {
                    retired: self@.retired,
                    collectible: self@.collectible,
                    ..before
                }));
                assert forall|p: Seq<char>| #[trigger]
                    self@.retired.contains(p) <==> before.retired.contains(p) || among(
                        all,
                        i + 1,
                        p,
                    ) by {
                    lemma_among_step(all, i as int, p);
                    assert(now.retired.contains(p) <==> before.retired.contains(p) || among(
                        all,
                        i as int,
                        p,
                    ));
                }
                assert forall|p: Seq<char>| #[trigger]
                    self@.collectible.contains(p) <==> before.collectible.contains(p) || (among(
                        all,
                        i + 1,
                        p,
                    ) && paths::count_of(before.leases, p) == 0) by {
                    lemma_among_step(all, i as int, p);
                    assert(now.collectible.contains(p) <==> before.collectible.contains(p) || (
                    among(all, i as int, p) && paths::count_of(before.leases, p) == 0));
                }
            }
            i = i + 1;
        }
        self.epoch = self.epoch.saturating_add(1);
        proof {
            assert forall|p: Seq<char>| among(all, i as int, p) <==> all.contains(p) by {}
            assert(self@ =~= (StoreView {
                retired: self@.retired,
                collectible: self@.collectible,
                epoch: generation::clamped(before.epoch + 1),
                ..before
            }));
        }
    }

    /// Take note that `relative_paths` were unlinked.
    pub fn collected(&mut self, relative_paths: &Vec<String>)
        requires
            old(self).wf(),
        ensures
            final(self).wf(),
            collects(old(self)@, final(self)@, relative_paths.deep_view()),
    {
        let ghost before = self@;
        let ghost all = relative_paths.deep_view();
        let mut i: usize = 0;
        while i < relative_paths.len()
            invariant
                i <= relative_paths.len(),
                all == relative_paths.deep_view(),
                store_ok(before),
                self@ == (StoreView { collectible: self@.collectible, ..before }),
                forall|path: Seq<char>|
                    #[trigger] self@.collectible.contains(path) <==> before.collectible.contains(
                        path,
                    ) && !among(all, i as int, path),
            decreases relative_paths.len() - i,
        {
            let ghost now = self@;
            assert(all[i as int] == relative_paths@[i as int]@);
            self.collectible.remove(&relative_paths[i]);
            proof {
                assert(self@ =~= (StoreView { collectible: self@.collectible, ..before }));
                assert forall|p: Seq<char>| #[trigger]
                    self@.collectible.contains(p) <==> before.collectible.contains(p) && !among(
                        all,
                        i + 1,
                        p,
                    ) by {
                    lemma_among_step(all, i as int, p);
                    assert(now.collectible.contains(p) <==> before.collectible.contains(p)
                        && !among(all, i as int, p));
                }
            }
            i = i + 1;
        }
        assert forall|p: Seq<char>| among(all, i as int, p) <==> all.contains(p) by {}
    }

    /// Hour-grouped memory batches and commit-referenced Parquet paths in `snapshot`.
    ///
    /// Hours outside `scan` are omitted. Paths are absolute and come only from published commits.
    #[must_use]
    pub fn sources(&self, snapshot: &PinnedSnapshot, scan: &Scan) -> (hours: Vec<HourSources>)
        ensures
            hours.deep_view() == scan::sources_by_hour(
                layout::tenant_dir(self@.root, self@.tenant),
                scan::visible(snapshot.snapshot.deep_view(), scan),
            ),
            scan::source_hours_ascend(hours.deep_view()),
    {
        hour_sources(&self.root, &self.tenant, &snapshot.snapshot, scan)
    }
}

/// Whether one of the first `count` paths is `path`.
pub open spec fn among(all: Seq<Seq<char>>, count: int, path: Seq<char>) -> bool {
    exists|k: int| 0 <= k < count && #[trigger] all[k] == path
}

proof fn lemma_among_step(all: Seq<Seq<char>>, count: int, path: Seq<char>)
    requires
        0 <= count < all.len(),
    ensures
        among(all, count + 1, path) <==> among(all, count, path) || all[count] == path,
{
    if among(all, count, path) {
        let k = choose|k: int| 0 <= k < count && #[trigger] all[k] == path;
        assert(all[k] == path);
    }
    if all[count] == path {
        assert(0 <= count < count + 1 && all[count] == path);
    }
}

proof fn lemma_not_among(all: Seq<Seq<char>>, count: int)
    requires
        paths::texts_ascend(all),
        0 <= count < all.len(),
    ensures
        !among(all, count, all[count]),
{
    if among(all, count, all[count]) {
        let k = choose|k: int| 0 <= k < count && #[trigger] all[k] == all[count];
        assert(text::text_lt(all[k], all[count]));
        text::lemma_text_lt_irreflexive(all[count]);
    }
}

/// What a store shows.
pub open spec fn snapshot_of(store: StoreView) -> StoreSnapshotView {
    StoreSnapshotView {
        epoch: store.epoch,
        active: if store.memtable.active.generation.has_frames() {
            Some(store.memtable.active.generation)
        } else {
            None
        },
        frozen: store.memtable.frozen,
        published: store.catalog,
        retired: store.retired,
    }
}

fn copy_commits(commits: &Vec<Commit>) -> (copy: Vec<Commit>)
    ensures
        copy.deep_view() == commits.deep_view(),
{
    let ghost all = commits.deep_view();
    let mut copy: Vec<Commit> = Vec::new();
    let mut i: usize = 0;
    while i < commits.len()
        invariant
            i <= commits.len(),
            all == commits.deep_view(),
            copy.deep_view() =~= all.take(i as int),
        decreases commits.len() - i,
    {
        let ghost before = copy.deep_view();
        copy.push(commits[i].clone());
        assert(copy.deep_view() =~= before.push(all[i as int]));
        i = i + 1;
    }
    assert(copy.deep_view() =~= all);
    copy
}

/// The outcome of an append at the epoch of the store.
pub open spec fn at_epoch(appended: Appended, epoch: u64) -> Appended {
    Appended { epoch, ..appended }
}

} // verus!
