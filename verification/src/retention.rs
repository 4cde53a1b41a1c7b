//! Receive-time retirement and lease-aware garbage collection.
//!
//! A cumulative descriptor is written before files are hidden. A retired file is unlinked only when
//! no snapshot still leases it.
use vstd::prelude::*;
use crate::commit::{Commit, CommitFile, CommitFileView, CommitView};
use crate::generation;
use crate::layout;
use crate::layout::strip_prefix;
use crate::paths::PathSet;
use crate::recovery;
use crate::retirement::{
    RetiredFile, RetiredFileView, Retirement, RetirementView, RetirementWriteOptions,
};
use crate::scan::{CollectError, CollectFault};
use crate::sorted;
use crate::sorted::TextMap;
use crate::statistics;
use crate::statistics::eligible_for_received_retention;
use crate::text::same_text;

verus! {

/// Descriptor-write options for one retirement pass.
#[derive(Clone, Copy, Debug)]
pub struct RetireOptions {
    /// Durability fault injected while writing a descriptor.
    pub write: RetirementWriteOptions,
}

impl Default for RetireOptions {
    fn default() -> (options: Self)
        ensures
            options.write.fault is None,
    {
        RetireOptions { write: RetirementWriteOptions { fault: None } }
    }
}

/// Options for one garbage-collection pass.
#[derive(Clone, Copy, Debug)]
pub struct CollectOptions {
    /// Stop at this durability boundary.
    pub fault: Option<CollectFault>,
}

impl Default for CollectOptions {
    fn default() -> (options: Self)
        ensures
            options.fault is None,
    {
        CollectOptions { fault: None }
    }
}

/// Retired files unlinked by one collection.
#[derive(Debug)]
pub struct CollectReport {
    /// Tenant-relative paths removed, including ones that were already absent.
    pub removed: Vec<String>,
}

/// Fails at the durability boundary that `options` name.
pub fn fail(options: &CollectOptions, step: CollectFault) -> (result: Result<(), CollectError>)
    ensures
        result is Err <==> options.fault == Some(step),
        result is Err ==> result->Err_0 == CollectError::Fault(step),
{
    match options.fault {
        Some(fault) => if fault == step {
            Err(CollectError::Fault(step))
        } else {
            Ok(())
        },
        None => Ok(()),
    }
}

// Selection.

/// What one pass over a commit has chosen.
#[verifier::ext_equal]
pub struct ChoiceView {
    /// Files of the cumulative descriptor, by path.
    pub files: Seq<(Seq<char>, u64)>,
    /// Files that become eligible now, in commit order.
    pub paths: Seq<Seq<char>>,
    /// Rows of the files that become eligible now.
    pub rows: u64,
}

/// Files of an existing descriptor, by path.
pub open spec fn known_files(files: Seq<RetiredFileView>) -> Seq<(Seq<char>, u64)>
    decreases files.len(),
{
    if files.len() == 0 {
        Seq::empty()
    } else {
        sorted::put(
            known_files(files.drop_last()),
            files.last().relative_path,
            files.last().rows,
        )
    }
}

/// Whether the receive times of a file allow its retirement.
pub open spec fn eligible(commit: CommitView, file: CommitFileView, cutoff: u64) -> bool {
    statistics::retired_by_receipt(
        file.statistics,
        commit.schema.fields,
        file.rows,
        file.hour,
        commit.first_sequence,
        commit.next_sequence,
        cutoff,
    )
}

/// Recorded size of a file.
pub open spec fn recorded_size(file: CommitFileView) -> u64 {
    match file.statistics {
        Some(statistics) => statistics.size_bytes,
        None => 0,
    }
}

/// The choice after one more file.
pub open spec fn choose_file(
    choice: ChoiceView,
    commit: CommitView,
    file: CommitFileView,
    retired: Set<Seq<char>>,
    cutoff: u64,
) -> ChoiceView {
    if retired.contains(file.relative_path) || sorted::lookup(
        choice.files,
        file.relative_path,
    ) is Some || !eligible(commit, file, cutoff) {
        choice
    } else {
        ChoiceView {
            files: sorted::put(choice.files, file.relative_path, file.rows),
            paths: choice.paths.push(file.relative_path),
            rows: generation::clamped(choice.rows + file.rows),
        }
    }
}

/// The choice after all files of a commit.
pub open spec fn choose_files(
    start: ChoiceView,
    commit: CommitView,
    files: Seq<CommitFileView>,
    retired: Set<Seq<char>>,
    cutoff: u64,
) -> ChoiceView
    decreases files.len(),
{
    if files.len() == 0 {
        start
    } else {
        choose_file(
            choose_files(start, commit, files.drop_last(), retired, cutoff),
            commit,
            files.last(),
            retired,
            cutoff,
        )
    }
}

/// The paths to hide: those chosen now, then those of the descriptor that are not hidden yet.
pub open spec fn paths_to_hide(
    chosen: Seq<Seq<char>>,
    files: Seq<(Seq<char>, u64)>,
    retired: Set<Seq<char>>,
) -> Seq<Seq<char>>
    decreases files.len(),
{
    if files.len() == 0 {
        chosen
    } else {
        let before = paths_to_hide(chosen, files.drop_last(), retired);
        let path = files.last().0;
        if !retired.contains(path) && !before.contains(path) {
            before.push(path)
        } else {
            before
        }
    }
}

/// Rows of the files at some paths, as the cumulative descriptor counts them.
pub open spec fn hidden_rows(files: Seq<(Seq<char>, u64)>, paths: Seq<Seq<char>>) -> u64
    decreases paths.len(),
{
    if paths.len() == 0 {
        0
    } else {
        let before = hidden_rows(files, paths.drop_last());
        match sorted::lookup(files, paths.last()) {
            Some(rows) => generation::clamped(before + rows),
            None => before,
        }
    }
}

/// Recorded size of the file that a commit keeps at a path. Zero where it keeps none there.
pub open spec fn size_at(files: Seq<CommitFileView>, path: Seq<char>) -> u64
    decreases files.len(),
{
    if files.len() == 0 {
        0
    } else if files.last().relative_path == path {
        recorded_size(files.last())
    } else {
        size_at(files.drop_last(), path)
    }
}

/// Recorded size of the files that a commit keeps at some paths.
pub open spec fn hidden_bytes(files: Seq<CommitFileView>, paths: Seq<Seq<char>>) -> u64
    decreases paths.len(),
{
    if paths.len() == 0 {
        0
    } else {
        generation::clamped(hidden_bytes(files, paths.drop_last()) + size_at(files, paths.last()))
    }
}

/// Where the choice starts: at what an existing descriptor hides.
pub open spec fn choice_start(existing: Option<RetirementView>) -> ChoiceView {
    ChoiceView {
        files: match existing {
            Some(retirement) => known_files(retirement.files),
            None => Seq::empty(),
        },
        paths: Seq::empty(),
        rows: 0,
    }
}

/// The instant of the cumulative descriptor.
pub open spec fn received_before(existing: Option<RetirementView>, cutoff: u64) -> u64 {
    match existing {
        Some(retirement) => if retirement.received_before_unix_nano > cutoff {
            retirement.received_before_unix_nano
        } else {
            cutoff
        },
        None => cutoff,
    }
}

/// What is hidden of one commit: the paths, and the rows and bytes of the files at all of them.
#[verifier::ext_equal]
pub struct SelectedView {
    pub retirement: Option<RetirementView>,
    pub paths: Seq<Seq<char>>,
    pub rows: u64,
    pub bytes: u64,
}

/// What is hidden of one commit, if anything is.
pub open spec fn selection(
    tenant: Seq<char>,
    commit: CommitView,
    retired: Set<Seq<char>>,
    existing: Option<RetirementView>,
    cutoff: u64,
) -> Option<SelectedView> {
    let choice = choose_files(choice_start(existing), commit, commit.files, retired, cutoff);
    let paths = paths_to_hide(choice.paths, choice.files, retired);
    if paths.len() == 0 {
        None
    } else {
        Some(
            SelectedView {
                retirement: if choice.rows > 0 {
                    Some(
                        RetirementView {
                            tenant,
                            first_sequence: commit.first_sequence,
                            next_sequence: commit.next_sequence,
                            received_before_unix_nano: received_before(existing, cutoff),
                            files: choice.files.map_values(
                                |entry: (Seq<char>, u64)|
                                    RetiredFileView { relative_path: entry.0, rows: entry.1 },
                            ),
                        },
                    )
                } else {
                    None
                },
                paths,
                rows: hidden_rows(choice.files, paths),
                bytes: hidden_bytes(commit.files, paths),
            },
        )
    }
}

/// What is hidden of one commit.
#[derive(Debug)]
pub struct Selected {
    /// Cumulative descriptor to write first. Absent where nothing new is retired.
    pub retirement: Option<Retirement>,
    /// Tenant-relative paths to hide.
    pub paths: Vec<String>,
    /// Rows in the files at those paths.
    pub rows: u64,
    /// Byte length recorded for those files.
    pub bytes: u64,
}

impl DeepView for Selected {
    type V = SelectedView;

    open spec fn deep_view(&self) -> SelectedView {
        SelectedView {
            retirement: self.retirement.deep_view(),
            paths: self.paths.deep_view(),
            rows: self.rows,
            bytes: self.bytes,
        }
    }
}

fn contains_text(texts: &Vec<String>, value: &str) -> (found: bool)
    ensures
        found == texts.deep_view().contains(value@),
{
    let ghost all = texts.deep_view();
    let mut i: usize = 0;
    while i < texts.len()
        invariant
            i <= texts.len(),
            all == texts.deep_view(),
            forall|k: int| 0 <= k < i ==> #[trigger] all[k] != value@,
        decreases texts.len() - i,
    {
        assert(all[i as int] == texts@[i as int]@);
        if same_text(&texts[i], value) {
            return true;
        }
        i = i + 1;
    }
    false
}

fn start_files(existing: &Option<Retirement>) -> (files: TextMap<u64>)
    ensures
        files@ == choice_start(existing.deep_view()).files,
{
    let mut files: TextMap<u64> = TextMap::new();
    match existing {
        Some(retirement) => {
            let ghost all = retirement.files.deep_view();
            let mut i: usize = 0;
            assert(all.take(0) =~= Seq::empty());
            while i < retirement.files.len()
                invariant
                    i <= retirement.files.len(),
                    all == retirement.files.deep_view(),
                    files@ == known_files(all.take(i as int)),
                decreases retirement.files.len() - i,
            {
                assert(all.take(i + 1).drop_last() =~= all.take(i as int));
                assert(all[i as int] == retirement.files@[i as int].deep_view());
                let file = &retirement.files[i];
                files.insert(file.relative_path.clone(), file.rows);
                i = i + 1;
            }
            assert(all.take(i as int) =~= all);
        },
        None => {},
    }
    files
}

fn sum_rows(files: &TextMap<u64>, paths: &Vec<String>) -> (rows: u64)
    ensures
        rows == hidden_rows(files@, paths.deep_view()),
{
    let ghost all = paths.deep_view();
    let mut rows: u64 = 0;
    let mut i: usize = 0;
    assert(all.take(0) =~= Seq::empty());
    while i < paths.len()
        invariant
            i <= paths.len(),
            all == paths.deep_view(),
            rows == hidden_rows(files@, all.take(i as int)),
        decreases paths.len() - i,
    {
        assert(all.take(i + 1).drop_last() =~= all.take(i as int));
        assert(all[i as int] == paths@[i as int]@);
        match files.get(&paths[i]) {
            Some(more) => {
                rows = rows.saturating_add(*more);
            },
            None => {},
        }
        i = i + 1;
    }
    assert(all.take(i as int) =~= all);
    rows
}

fn find_size(files: &Vec<CommitFile>, path: &str) -> (size: u64)
    ensures
        size == size_at(files.deep_view(), path@),
{
    let ghost all = files.deep_view();
    let mut size: u64 = 0;
    let mut i: usize = 0;
    assert(all.take(0) =~= Seq::empty());
    while i < files.len()
        invariant
            i <= files.len(),
            all == files.deep_view(),
            size == size_at(all.take(i as int), path@),
        decreases files.len() - i,
    {
        assert(all.take(i + 1).drop_last() =~= all.take(i as int));
        let file = &files[i];
        assert(all[i as int] == file.deep_view());
        if same_text(&file.relative_path, path) {
            size = match &file.statistics {
                Some(statistics) => statistics.size_bytes,
                None => 0,
            };
        }
        i = i + 1;
    }
    assert(all.take(i as int) =~= all);
    size
}

fn sum_bytes(files: &Vec<CommitFile>, paths: &Vec<String>) -> (bytes: u64)
    ensures
        bytes == hidden_bytes(files.deep_view(), paths.deep_view()),
{
    let ghost all = paths.deep_view();
    let mut bytes: u64 = 0;
    let mut i: usize = 0;
    assert(all.take(0) =~= Seq::empty());
    while i < paths.len()
        invariant
            i <= paths.len(),
            all == paths.deep_view(),
            bytes == hidden_bytes(files.deep_view(), all.take(i as int)),
        decreases paths.len() - i,
    {
        assert(all.take(i + 1).drop_last() =~= all.take(i as int));
        assert(all[i as int] == paths@[i as int]@);
        bytes = bytes.saturating_add(find_size(files, &paths[i]));
        i = i + 1;
    }
    assert(all.take(i as int) =~= all);
    bytes
}

/// Chooses what to hide of one commit, given the descriptor that exists for its range.
///
/// Every file that no descriptor hides yet is chosen when its usable receive-time maximum is
/// strictly before the cutoff. Files of the existing descriptor stay in the cumulative one, and
/// those of them that are not hidden yet are hidden and counted with the others.
#[must_use]
pub fn select_commit(
    tenant: &str,
    commit: &Commit,
    retired: &PathSet,
    existing: &Option<Retirement>,
    cutoff_unix_nano: u64,
) -> (selected: Option<Selected>)
    ensures
        selected.deep_view() == selection(
            tenant@,
            commit.deep_view(),
            retired@,
            existing.deep_view(),
            cutoff_unix_nano,
        ),
{
    let ghost view = commit.deep_view();
    let ghost all = view.files;
    let ghost start = choice_start(existing.deep_view());
    let mut received_before_unix_nano: u64 = cutoff_unix_nano;
    match existing {
        Some(retirement) => {
            if retirement.received_before_unix_nano > cutoff_unix_nano {
                received_before_unix_nano = retirement.received_before_unix_nano;
            }
        },
        None => {},
    }
    let mut files = start_files(existing);
    let mut paths: Vec<String> = Vec::new();
    let mut chosen_rows: u64 = 0;
    let mut i: usize = 0;
    assert(all.take(0) =~= Seq::empty());
    assert(paths.deep_view() =~= Seq::empty());
    while i < commit.files.len()
        invariant
            i <= commit.files.len(),
            view == commit.deep_view(),
            all == view.files,
            (ChoiceView { files: files@, paths: paths.deep_view(), rows: chosen_rows })
                == choose_files(
                start,
                view,
                all.take(i as int),
                retired@,
                cutoff_unix_nano,
            ),
        decreases commit.files.len() - i,
    {
        assert(all.take(i + 1).drop_last() =~= all.take(i as int));
        let file = &commit.files[i];
        assert(all[i as int] == file.deep_view());
        let hidden = retired.contains(&file.relative_path) || files.get(
            &file.relative_path,
        ).is_some();
        if !hidden && eligible_for_received_retention(
            file.statistics.as_ref(),
            &commit.schema,
            file.rows,
            file.hour,
            commit.first_sequence,
            commit.next_sequence,
            cutoff_unix_nano,
        ) {
            let ghost before = paths.deep_view();
            files.insert(file.relative_path.clone(), file.rows);
            paths.push(file.relative_path.clone());
            assert(paths.deep_view() =~= before.push(file.relative_path@));
            chosen_rows = chosen_rows.saturating_add(file.rows);
        }
        i = i + 1;
    }
    assert(all.take(i as int) =~= all);
    let ghost chosen = paths.deep_view();
    let ghost entries = files@;
    let mut retired_files: Vec<RetiredFile> = Vec::new();
    let ghost listed = entries.map_values(
        |entry: (Seq<char>, u64)| RetiredFileView { relative_path: entry.0, rows: entry.1 },
    );
    let mut k: usize = 0;
    assert(entries.take(0) =~= Seq::empty());
    while k < files.len()
        invariant
            k <= files@.len(),
            entries == files@,
            listed == entries.map_values(
                |entry: (Seq<char>, u64)| RetiredFileView { relative_path: entry.0, rows: entry.1 },
            ),
            retired_files.deep_view() =~= listed.take(k as int),
            paths.deep_view() == paths_to_hide(chosen, entries.take(k as int), retired@),
        decreases files@.len() - k,
    {
        assert(entries.take(k + 1).drop_last() =~= entries.take(k as int));
        let path = files.key_at(k);
        let ghost before = paths.deep_view();
        if !retired.contains(path) && !contains_text(&paths, path) {
            paths.push(path.clone());
            assert(paths.deep_view() =~= before.push(path@));
        }
        let ghost known = retired_files.deep_view();
        retired_files.push(RetiredFile { relative_path: path.clone(), rows: *files.value_at(k) });
        assert(retired_files.deep_view() =~= known.push(listed[k as int]));
        k = k + 1;
    }
    assert(entries.take(k as int) =~= entries);
    assert(retired_files.deep_view() =~= listed);
    if paths.len() == 0 {
        return None;
    }
    let rows = sum_rows(&files, &paths);
    let bytes = sum_bytes(&commit.files, &paths);
    let retirement = if chosen_rows > 0 {
        Some(
            Retirement {
                tenant: tenant.to_owned(),
                first_sequence: commit.first_sequence,
                next_sequence: commit.next_sequence,
                received_before_unix_nano,
                files: retired_files,
            },
        )
    } else {
        None
    };
    Some(Selected { retirement, paths, rows, bytes })
}

/// Files newly hidden by one retirement pass.
#[derive(Debug)]
pub struct RetentionReport {
    /// Tenant-relative paths hidden by this pass.
    pub paths: Vec<String>,
    /// Rows in those files.
    pub rows: u64,
    /// Byte length recorded for those files.
    pub bytes: u64,
}

impl RetentionReport {
    /// Nothing was hidden.
    pub fn new() -> (report: Self)
        ensures
            report.paths.deep_view() == Seq::<Seq<char>>::empty(),
            report.rows == 0,
            report.bytes == 0,
    {
        let report = RetentionReport { paths: Vec::new(), rows: 0, bytes: 0 };
        assert(report.paths.deep_view() =~= Seq::empty());
        report
    }

    /// Adds what was hidden of one commit.
    pub fn add_selected(&mut self, selected: Selected)
        ensures
            final(self).paths.deep_view() == old(self).paths.deep_view()
                + selected.paths.deep_view(),
            final(self).rows == generation::clamped(old(self).rows + selected.rows),
            final(self).bytes == generation::clamped(old(self).bytes + selected.bytes),
    {
        let ghost before = self.paths.deep_view();
        let ghost more = selected.paths.deep_view();
        let mut paths = selected.paths;
        self.paths.append(&mut paths);
        assert(self.paths.deep_view() =~= before + more);
        self.rows = self.rows.saturating_add(selected.rows);
        self.bytes = self.bytes.saturating_add(selected.bytes);
    }
}

// Laws.

/// A path stays chosen, and a file that could be chosen is hidden, known or chosen afterwards.
proof fn lemma_choose_files(
    start: ChoiceView,
    commit: CommitView,
    files: Seq<CommitFileView>,
    retired: Set<Seq<char>>,
    cutoff: u64,
)
    ensures
        ({
            let after = choose_files(start, commit, files, retired, cutoff);
            &&& forall|path: Seq<char>|
                #[trigger] sorted::lookup(start.files, path) is Some ==> sorted::lookup(
                    after.files,
                    path,
                ) is Some
            &&& forall|i: int|
                0 <= i < files.len() && eligible(commit, #[trigger] files[i], cutoff)
                    && !retired.contains(files[i].relative_path) ==> sorted::lookup(
                    after.files,
                    files[i].relative_path,
                ) is Some
        }),
    decreases files.len(),
{
    if files.len() > 0 {
        let front = files.drop_last();
        lemma_choose_files(start, commit, front, retired, cutoff);
        let before = choose_files(start, commit, front, retired, cutoff);
        let after = choose_files(start, commit, files, retired, cutoff);
        let last = files[files.len() - 1];
        assert forall|path: Seq<char>|
            #[trigger] sorted::lookup(before.files, path) is Some implies sorted::lookup(
            after.files,
            path,
        ) is Some by {
            sorted::lemma_lookup_put(before.files, last.relative_path, last.rows, path);
        }
        sorted::lemma_lookup_put(before.files, last.relative_path, last.rows, last.relative_path);
        assert forall|i: int|
            0 <= i < files.len() && eligible(commit, #[trigger] files[i], cutoff)
                && !retired.contains(files[i].relative_path) implies sorted::lookup(
            after.files,
            files[i].relative_path,
        ) is Some by {
            if i < front.len() {
                assert(front[i] == files[i]);
                assert(sorted::lookup(before.files, files[i].relative_path) is Some);
            }
        }
    }
}

/// Every file of the descriptor is hidden already or is among the paths to hide.
proof fn lemma_paths_to_hide(
    chosen: Seq<Seq<char>>,
    files: Seq<(Seq<char>, u64)>,
    retired: Set<Seq<char>>,
)
    ensures
        forall|i: int|
            0 <= i < files.len() ==> retired.contains((#[trigger] files[i]).0) || paths_to_hide(
                chosen,
                files,
                retired,
            ).contains(files[i].0),
        forall|path: Seq<char>| #[trigger]
            chosen.contains(path) ==> paths_to_hide(chosen, files, retired).contains(path),
    decreases files.len(),
{
    if files.len() > 0 {
        let front = files.drop_last();
        lemma_paths_to_hide(chosen, front, retired);
        let before = paths_to_hide(chosen, front, retired);
        let after = paths_to_hide(chosen, files, retired);
        let last = files[files.len() - 1];
        assert forall|path: Seq<char>| #[trigger] before.contains(path) implies after.contains(
            path,
        ) by {
            let k = choose|k: int| 0 <= k < before.len() && before[k] == path;
            assert(after[k] == path);
        }
        assert forall|i: int| 0 <= i < files.len() implies retired.contains(
            (#[trigger] files[i]).0,
        ) || after.contains(files[i].0) by {
            if i < front.len() {
                assert(front[i] == files[i]);
                assert(before.contains(files[i].0) ==> after.contains(files[i].0));
            } else if !retired.contains(last.0) && !before.contains(last.0) {
                assert(after[after.len() - 1] == last.0);
            }
        }
    }
}

/// Nothing is chosen where every eligible file is hidden or known.
proof fn lemma_nothing_chosen(
    start: ChoiceView,
    commit: CommitView,
    files: Seq<CommitFileView>,
    retired: Set<Seq<char>>,
    cutoff: u64,
)
    requires
        forall|i: int|
            0 <= i < files.len() && eligible(commit, #[trigger] files[i], cutoff)
                ==> retired.contains(files[i].relative_path) || sorted::lookup(
                start.files,
                files[i].relative_path,
            ) is Some,
    ensures
        choose_files(start, commit, files, retired, cutoff) == start,
    decreases files.len(),
{
    if files.len() > 0 {
        let front = files.drop_last();
        assert forall|i: int|
            0 <= i < front.len() && eligible(commit, #[trigger] front[i], cutoff) implies
        retired.contains(front[i].relative_path) || sorted::lookup(
            start.files,
            front[i].relative_path,
        ) is Some by {
            assert(front[i] == files[i]);
        }
        lemma_nothing_chosen(start, commit, front, retired, cutoff);
        let last = files[files.len() - 1];
        assert(eligible(commit, last, cutoff) ==> retired.contains(last.relative_path)
            || sorted::lookup(start.files, last.relative_path) is Some);
    }
}

proof fn lemma_nothing_to_hide(files: Seq<(Seq<char>, u64)>, retired: Set<Seq<char>>)
    requires
        forall|i: int| 0 <= i < files.len() ==> retired.contains((#[trigger] files[i]).0),
    ensures
        paths_to_hide(Seq::empty(), files, retired) == Seq::<Seq<char>>::empty(),
    decreases files.len(),
{
    if files.len() > 0 {
        let front = files.drop_last();
        assert forall|i: int| 0 <= i < front.len() implies retired.contains(
            (#[trigger] front[i]).0,
        ) by {
            assert(front[i] == files[i]);
        }
        lemma_nothing_to_hide(front, retired);
        assert(retired.contains(files[files.len() - 1].0));
    }
}

/// The descriptor read back lists what was chosen.
proof fn lemma_known_again(files: Seq<(Seq<char>, u64)>, path: Seq<char>)
    requires
        sorted::lookup(files, path) is Some,
    ensures
        sorted::lookup(
            known_files(
                files.map_values(
                    |entry: (Seq<char>, u64)|
                        RetiredFileView { relative_path: entry.0, rows: entry.1 },
                ),
            ),
            path,
        ) is Some,
    decreases files.len(),
{
    let view = |entry: (Seq<char>, u64)|
        RetiredFileView { relative_path: entry.0, rows: entry.1 };
    sorted::lemma_lookup_absent(files, path);
    let at = choose|i: int| 0 <= i < files.len() && #[trigger] files[i].0 == path;
    let mapped = files.map_values(view);
    let front = files.drop_last();
    assert(mapped.drop_last() =~= front.map_values(view));
    let last = files.last();
    sorted::lemma_lookup_put(known_files(mapped.drop_last()), last.0, last.1, path);
    if last.0 != path {
        assert(front[at].0 == path);
        sorted::lemma_lookup_absent(front, path);
        lemma_known_again(front, path);
    }
}

/// Every file that a descriptor lists is one of those it was made from.
proof fn lemma_known_members(files: Seq<RetiredFileView>, at: int) -> (from: int)
    requires
        0 <= at < known_files(files).len(),
    ensures
        0 <= from < files.len(),
        files[from].relative_path == known_files(files)[at].0,
    decreases files.len(),
{
    let front = files.drop_last();
    let last = files.last();
    let path = known_files(files)[at].0;
    sorted::lemma_lookup_absent(known_files(files), path);
    sorted::lemma_lookup_put(known_files(front), last.relative_path, last.rows, path);
    if path == last.relative_path {
        files.len() - 1
    } else {
        sorted::lemma_lookup_absent(known_files(front), path);
        let k = choose|k: int|
            0 <= k < known_files(front).len() && #[trigger] known_files(front)[k].0 == path;
        lemma_known_members(front, k)
    }
}

/// The chosen paths are visible files, each named once and each in the cumulative descriptor.
proof fn lemma_chosen_paths(
    start: ChoiceView,
    commit: CommitView,
    files: Seq<CommitFileView>,
    retired: Set<Seq<char>>,
    cutoff: u64,
)
    requires
        start.paths.len() == 0,
    ensures
        ({
            let after = choose_files(start, commit, files, retired, cutoff);
            &&& after.paths.no_duplicates()
            &&& forall|i: int|
                0 <= i < after.paths.len() ==> !retired.contains(#[trigger] after.paths[i])
                    && sorted::lookup(after.files, after.paths[i]) is Some
        }),
    decreases files.len(),
{
    if files.len() > 0 {
        let front = files.drop_last();
        let last = files.last();
        lemma_chosen_paths(start, commit, front, retired, cutoff);
        let before = choose_files(start, commit, front, retired, cutoff);
        let after = choose_files(start, commit, files, retired, cutoff);
        assert forall|i: int| 0 <= i < after.paths.len() implies !retired.contains(
            #[trigger] after.paths[i],
        ) && sorted::lookup(after.files, after.paths[i]) is Some by {
            if i < before.paths.len() {
                assert(after.paths[i] == before.paths[i]);
            }
            sorted::lemma_lookup_put(
                before.files,
                last.relative_path,
                last.rows,
                after.paths[i],
            );
        }
        assert(after.paths.no_duplicates()) by {
            assert forall|i: int, j: int|
                0 <= i < j < after.paths.len() implies after.paths[i] != after.paths[j] by {
                assert(sorted::lookup(before.files, before.paths[i]) is Some);
            }
        }
    }
}

/// A pass hides only files that were visible, and names each once.
pub proof fn selections_hide_visible_files(
    tenant: Seq<char>,
    commit: CommitView,
    retired: Set<Seq<char>>,
    existing: Option<RetirementView>,
    cutoff: u64,
)
    ensures
        match selection(tenant, commit, retired, existing, cutoff) {
            Some(selected) => {
                &&& selected.paths.len() > 0
                &&& selected.paths.no_duplicates()
                &&& forall|i: int|
                    0 <= i < selected.paths.len() ==> !retired.contains(
                        #[trigger] selected.paths[i],
                    )
            },
            None => true,
        },
{
    let choice = choose_files(choice_start(existing), commit, commit.files, retired, cutoff);
    lemma_chosen_paths(choice_start(existing), commit, commit.files, retired, cutoff);
    lemma_hidden_once(choice.paths, choice.files, retired);
}

/// Whether one of these files has this path.
pub open spec fn keeps_path(files: Seq<CommitFileView>, path: Seq<char>) -> bool {
    exists|k: int| 0 <= k < files.len() && (#[trigger] files[k]).relative_path == path
}

/// What is chosen was known, or is a file of the commit.
proof fn lemma_chosen_origin(
    start: ChoiceView,
    commit: CommitView,
    files: Seq<CommitFileView>,
    retired: Set<Seq<char>>,
    cutoff: u64,
    path: Seq<char>,
)
    requires
        sorted::lookup(
            choose_files(start, commit, files, retired, cutoff).files,
            path,
        ) is Some,
    ensures
        sorted::lookup(start.files, path) is Some || keeps_path(files, path),
    decreases files.len(),
{
    if files.len() > 0 {
        let front = files.drop_last();
        let last = files[files.len() - 1];
        let before = choose_files(start, commit, front, retired, cutoff);
        sorted::lemma_lookup_put(before.files, last.relative_path, last.rows, path);
        if last.relative_path != path {
            lemma_chosen_origin(start, commit, front, retired, cutoff, path);
            if keeps_path(front, path) {
                let k = choose|k: int|
                    0 <= k < front.len() && (#[trigger] front[k]).relative_path == path;
                assert(files[k].relative_path == path);
            }
        }
    }
}

/// A path to hide is one of those chosen or one of the descriptor.
proof fn lemma_hidden_origin(
    chosen: Seq<Seq<char>>,
    files: Seq<(Seq<char>, u64)>,
    retired: Set<Seq<char>>,
    at: int,
)
    requires
        0 <= at < paths_to_hide(chosen, files, retired).len(),
    ensures
        chosen.contains(paths_to_hide(chosen, files, retired)[at]) || exists|k: int|
            0 <= k < files.len() && #[trigger] files[k].0 == paths_to_hide(
                chosen,
                files,
                retired,
            )[at],
    decreases files.len(),
{
    if files.len() > 0 {
        let front = files.drop_last();
        let before = paths_to_hide(chosen, front, retired);
        let path = paths_to_hide(chosen, files, retired)[at];
        if at < before.len() {
            lemma_hidden_origin(chosen, front, retired, at);
            if !chosen.contains(path) {
                let k = choose|k: int| 0 <= k < front.len() && #[trigger] front[k].0 == path;
                assert(files[k].0 == path);
            }
        } else {
            assert(files[files.len() - 1].0 == path);
        }
    }
}

/// A pass hides only files of the commit, where the descriptor that it continues lists only those.
pub proof fn selections_hide_files_of_the_commit(
    tenant: Seq<char>,
    commit: CommitView,
    retired: Set<Seq<char>>,
    existing: Option<RetirementView>,
    cutoff: u64,
)
    requires
        existing matches Some(retirement) ==> forall|k: int|
            0 <= k < retirement.files.len() ==> keeps_path(
                commit.files,
                (#[trigger] retirement.files[k]).relative_path,
            ),
    ensures
        match selection(tenant, commit, retired, existing, cutoff) {
            Some(selected) => forall|i: int|
                0 <= i < selected.paths.len() ==> keeps_path(
                    commit.files,
                    #[trigger] selected.paths[i],
                ),
            None => true,
        },
{
    let start = choice_start(existing);
    let choice = choose_files(start, commit, commit.files, retired, cutoff);
    let paths = paths_to_hide(choice.paths, choice.files, retired);
    lemma_chosen_paths(start, commit, commit.files, retired, cutoff);
    assert forall|i: int| 0 <= i < paths.len() implies keeps_path(
        commit.files,
        #[trigger] paths[i],
    ) by {
        let path = paths[i];
        lemma_hidden_origin(choice.paths, choice.files, retired, i);
        if choice.paths.contains(path) {
            let k = choose|k: int| 0 <= k < choice.paths.len() && choice.paths[k] == path;
            assert(sorted::lookup(choice.files, choice.paths[k]) is Some);
        } else {
            sorted::lemma_lookup_absent(choice.files, path);
        }
        lemma_chosen_origin(start, commit, commit.files, retired, cutoff, path);
        if sorted::lookup(start.files, path) is Some {
            sorted::lemma_lookup_absent(start.files, path);
            if existing is Some {
                let known = known_files(existing->0.files);
                let k = choose|k: int| 0 <= k < known.len() && #[trigger] known[k].0 == path;
                let from = lemma_known_members(existing->0.files, k);
                assert(keeps_path(commit.files, existing->0.files[from].relative_path));
            }
        }
    }
}

proof fn lemma_hidden_once(
    chosen: Seq<Seq<char>>,
    files: Seq<(Seq<char>, u64)>,
    retired: Set<Seq<char>>,
)
    requires
        chosen.no_duplicates(),
        forall|i: int| 0 <= i < chosen.len() ==> !retired.contains(#[trigger] chosen[i]),
    ensures
        paths_to_hide(chosen, files, retired).no_duplicates(),
        forall|i: int|
            0 <= i < paths_to_hide(chosen, files, retired).len() ==> !retired.contains(
                #[trigger] paths_to_hide(chosen, files, retired)[i],
            ),
    decreases files.len(),
{
    if files.len() > 0 {
        lemma_hidden_once(chosen, files.drop_last(), retired);
        let before = paths_to_hide(chosen, files.drop_last(), retired);
        let after = paths_to_hide(chosen, files, retired);
        assert forall|i: int, j: int| 0 <= i < j < after.len() implies after[i] != after[j] by {
            if j == before.len() {
                assert(before.contains(before[i]));
            }
        }
    }
}

/// Retiring reaches every old file of a commit: where a file has usable statistics and its greatest
/// receive time lies before the cutoff, it is hidden already or the pass hides it.
pub proof fn retiring_reaches_every_old_file(
    tenant: Seq<char>,
    commit: CommitView,
    retired: Set<Seq<char>>,
    existing: Option<RetirementView>,
    cutoff: u64,
    at: int,
)
    requires
        0 <= at < commit.files.len(),
        commit.files[at].statistics is Some,
        statistics::usable(
            commit.files[at].statistics->0,
            commit.schema.fields,
            commit.files[at].rows,
            commit.files[at].hour,
            layout::hour_end(commit.files[at].hour),
            commit.first_sequence,
            commit.next_sequence,
        ),
        commit.files[at].statistics->0.received_time_max < cutoff,
    ensures
        retired.contains(commit.files[at].relative_path) || (selection(
            tenant,
            commit,
            retired,
            existing,
            cutoff,
        ) is Some && selection(
            tenant,
            commit,
            retired,
            existing,
            cutoff,
        )->0.paths.contains(commit.files[at].relative_path)),
{
    let start = choice_start(existing);
    let choice = choose_files(start, commit, commit.files, retired, cutoff);
    let path = commit.files[at].relative_path;
    let paths = paths_to_hide(choice.paths, choice.files, retired);
    statistics::retention_goes_by_the_latest_receipt(
        commit.files[at].statistics->0,
        commit.schema.fields,
        commit.files[at].rows,
        commit.files[at].hour,
        commit.first_sequence,
        commit.next_sequence,
        cutoff,
    );
    lemma_choose_files(start, commit, commit.files, retired, cutoff);
    lemma_paths_to_hide(choice.paths, choice.files, retired);
    if !retired.contains(path) {
        assert(eligible(commit, commit.files[at], cutoff));
        assert(sorted::lookup(choice.files, path) is Some);
        sorted::lemma_lookup_absent(choice.files, path);
        let k = choose|k: int| 0 <= k < choice.files.len() && #[trigger] choice.files[k].0 == path;
        assert(paths.contains(choice.files[k].0));
        let m = choose|m: int| 0 <= m < paths.len() && paths[m] == path;
        assert(paths.len() > 0);
    }
}

/// What is chosen was known, or is a file whose receive times allow it.
proof fn lemma_chosen_eligible(
    start: ChoiceView,
    commit: CommitView,
    files: Seq<CommitFileView>,
    retired: Set<Seq<char>>,
    cutoff: u64,
    path: Seq<char>,
)
    requires
        sorted::lookup(
            choose_files(start, commit, files, retired, cutoff).files,
            path,
        ) is Some,
    ensures
        sorted::lookup(start.files, path) is Some || exists|k: int|
            0 <= k < files.len() && (#[trigger] files[k]).relative_path == path && eligible(
                commit,
                files[k],
                cutoff,
            ),
    decreases files.len(),
{
    if files.len() > 0 {
        let front = files.drop_last();
        let last = files[files.len() - 1];
        let before = choose_files(start, commit, front, retired, cutoff);
        sorted::lemma_lookup_put(before.files, last.relative_path, last.rows, path);
        if sorted::lookup(before.files, path) is Some {
            lemma_chosen_eligible(start, commit, front, retired, cutoff, path);
            if sorted::lookup(start.files, path) is None {
                let k = choose|k: int|
                    0 <= k < front.len() && (#[trigger] front[k]).relative_path == path && eligible(
                        commit,
                        front[k],
                        cutoff,
                    );
                assert(files[k].relative_path == path);
            }
        } else {
            assert(files[files.len() - 1].relative_path == path);
        }
    }
}

/// Retiring spares every newer file: a path that a pass hides is one that the descriptor lists
/// already, or that of a file with statistics whose greatest receive time lies before the cutoff.
pub proof fn retiring_spares_newer_files(
    tenant: Seq<char>,
    commit: CommitView,
    retired: Set<Seq<char>>,
    existing: Option<RetirementView>,
    cutoff: u64,
    i: int,
)
    requires
        selection(tenant, commit, retired, existing, cutoff) is Some,
        0 <= i < selection(tenant, commit, retired, existing, cutoff)->0.paths.len(),
    ensures
        ({
            let path = selection(tenant, commit, retired, existing, cutoff)->0.paths[i];
            ||| existing is Some && exists|k: int|
                0 <= k < existing->0.files.len() && (
                #[trigger] existing->0.files[k]).relative_path == path
            ||| exists|k: int|
                0 <= k < commit.files.len() && (#[trigger] commit.files[k]).relative_path == path
                    && commit.files[k].statistics is Some
                    && commit.files[k].statistics->0.received_time_max < cutoff
        }),
{
    let start = choice_start(existing);
    let choice = choose_files(start, commit, commit.files, retired, cutoff);
    let paths = paths_to_hide(choice.paths, choice.files, retired);
    let path = paths[i];
    lemma_chosen_paths(start, commit, commit.files, retired, cutoff);
    lemma_hidden_origin(choice.paths, choice.files, retired, i);
    if choice.paths.contains(path) {
        let k = choose|k: int| 0 <= k < choice.paths.len() && choice.paths[k] == path;
        assert(sorted::lookup(choice.files, choice.paths[k]) is Some);
    } else {
        sorted::lemma_lookup_absent(choice.files, path);
    }
    lemma_chosen_eligible(start, commit, commit.files, retired, cutoff, path);
    if sorted::lookup(start.files, path) is Some {
        sorted::lemma_lookup_absent(start.files, path);
        if existing is Some {
            let known = known_files(existing->0.files);
            let k = choose|k: int| 0 <= k < known.len() && #[trigger] known[k].0 == path;
            let from = lemma_known_members(existing->0.files, k);
            assert(existing->0.files[from].relative_path == path);
        }
    } else {
        let k = choose|k: int|
            0 <= k < commit.files.len() && (#[trigger] commit.files[k]).relative_path == path
                && eligible(commit, commit.files[k], cutoff);
        assert(commit.files[k].statistics is Some);
        assert(commit.files[k].relative_path == path);
    }
}

/// A pass records what it hides: its descriptor, where there is one, lists every file that the earlier
/// one listed and every path that it hides, and no instant of it goes back.
pub proof fn retirement_descriptors_accumulate(
    tenant: Seq<char>,
    commit: CommitView,
    retired: Set<Seq<char>>,
    existing: Option<RetirementView>,
    cutoff: u64,
)
    requires
        selection(tenant, commit, retired, existing, cutoff) is Some,
        selection(tenant, commit, retired, existing, cutoff)->0.retirement is Some,
    ensures
        ({
            let selected = selection(tenant, commit, retired, existing, cutoff)->0;
            let written = selected.retirement->0;
            &&& written.tenant == tenant
            &&& written.first_sequence == commit.first_sequence
            &&& written.next_sequence == commit.next_sequence
            &&& written.received_before_unix_nano >= cutoff
            &&& existing is Some ==> written.received_before_unix_nano
                >= existing->0.received_before_unix_nano
            &&& written.received_before_unix_nano == cutoff || (existing is Some
                && written.received_before_unix_nano == existing->0.received_before_unix_nano)
            &&& forall|i: int|
                0 <= i < selected.paths.len() ==> lists_file(
                    written.files,
                    #[trigger] selected.paths[i],
                )
            &&& existing is Some ==> forall|k: int|
                0 <= k < existing->0.files.len() ==> lists_file(
                    written.files,
                    (#[trigger] existing->0.files[k]).relative_path,
                )
        }),
{
    let start = choice_start(existing);
    let choice = choose_files(start, commit, commit.files, retired, cutoff);
    let paths = paths_to_hide(choice.paths, choice.files, retired);
    let written = selection(tenant, commit, retired, existing, cutoff)->0.retirement->0;
    lemma_chosen_paths(start, commit, commit.files, retired, cutoff);
    lemma_choose_files(start, commit, commit.files, retired, cutoff);
    assert forall|path: Seq<char>|
        sorted::lookup(choice.files, path) is Some implies #[trigger] lists_file(
        written.files,
        path,
    ) by {
        sorted::lemma_lookup_absent(choice.files, path);
        let k = choose|k: int| 0 <= k < choice.files.len() && #[trigger] choice.files[k].0 == path;
        assert(written.files[k].relative_path == path);
    }
    assert forall|i: int| 0 <= i < paths.len() implies lists_file(
        written.files,
        #[trigger] paths[i],
    ) by {
        lemma_hidden_origin(choice.paths, choice.files, retired, i);
        if choice.paths.contains(paths[i]) {
            let k = choose|k: int| 0 <= k < choice.paths.len() && choice.paths[k] == paths[i];
            assert(sorted::lookup(choice.files, choice.paths[k]) is Some);
        } else {
            sorted::lemma_lookup_absent(choice.files, paths[i]);
        }
    }
    if existing is Some {
        assert forall|k: int| 0 <= k < existing->0.files.len() implies lists_file(
            written.files,
            (#[trigger] existing->0.files[k]).relative_path,
        ) by {
            lemma_file_known(existing->0.files, k);
            assert(sorted::lookup(start.files, existing->0.files[k].relative_path) is Some);
        }
    }
}

/// Whether a descriptor lists a path.
pub open spec fn lists_file(files: Seq<RetiredFileView>, path: Seq<char>) -> bool {
    exists|k: int| 0 <= k < files.len() && (#[trigger] files[k]).relative_path == path
}

proof fn lemma_file_known(files: Seq<RetiredFileView>, k: int)
    requires
        0 <= k < files.len(),
    ensures
        sorted::lookup(known_files(files), files[k].relative_path) is Some,
    decreases files.len(),
{
    let front = files.drop_last();
    let last = files.last();
    sorted::lemma_lookup_put(
        known_files(front),
        last.relative_path,
        last.rows,
        files[k].relative_path,
    );
    if k < front.len() {
        assert(front[k] == files[k]);
        lemma_file_known(front, k);
    }
}

/// Retiring is idempotent: once the paths of a selection are hidden and its descriptor is written,
/// the same cutoff selects nothing more of that commit.
pub proof fn retiring_again_selects_nothing(
    tenant: Seq<char>,
    commit: CommitView,
    retired: Set<Seq<char>>,
    existing: Option<RetirementView>,
    cutoff: u64,
    selected: SelectedView,
    hidden: Set<Seq<char>>,
)
    requires
        selection(tenant, commit, retired, existing, cutoff) == Some(selected),
        selected.retirement is Some,
        forall|path: Seq<char>|
            #[trigger] hidden.contains(path) <==> retired.contains(path)
                || selected.paths.contains(path),
    ensures
        selection(tenant, commit, hidden, selected.retirement, cutoff) is None,
{
    let start = choice_start(existing);
    let choice = choose_files(start, commit, commit.files, retired, cutoff);
    lemma_choose_files(start, commit, commit.files, retired, cutoff);
    lemma_paths_to_hide(choice.paths, choice.files, retired);
    let again = choice_start(selected.retirement);
    let view = |entry: (Seq<char>, u64)|
        RetiredFileView { relative_path: entry.0, rows: entry.1 };
    assert(selected.retirement->0.files == choice.files.map_values(view));
    assert forall|i: int|
        0 <= i < commit.files.len() && eligible(commit, #[trigger] commit.files[i], cutoff) implies
    hidden.contains(commit.files[i].relative_path) || sorted::lookup(
        again.files,
        commit.files[i].relative_path,
    ) is Some by {
        let path = commit.files[i].relative_path;
        if !retired.contains(path) {
            assert(sorted::lookup(choice.files, path) is Some);
            lemma_known_again(choice.files, path);
        }
    }
    lemma_nothing_chosen(again, commit, commit.files, hidden, cutoff);
    assert forall|i: int| 0 <= i < again.files.len() implies hidden.contains(
        (#[trigger] again.files[i]).0,
    ) by {
        let from = lemma_known_members(selected.retirement->0.files, i);
        assert(choice.files[from].0 == again.files[i].0);
    }
    lemma_nothing_to_hide(again.files, hidden);
}

// What a pass writes and reports.

/// Whether every entry is a file of the commit, with its rows.
spec fn entries_of(commit: CommitView, files: Seq<(Seq<char>, u64)>) -> bool {
    forall|e: int|
        0 <= e < files.len() ==> recovery::is_file_of(
            commit,
            (RetiredFileView {
                relative_path: (#[trigger] files[e]).0,
                rows: files[e].1,
            }),
        )
}

proof fn lemma_entries_put(
    commit: CommitView,
    files: Seq<(Seq<char>, u64)>,
    path: Seq<char>,
    rows: u64,
)
    requires
        entries_of(commit, files),
        recovery::is_file_of(commit, (RetiredFileView { relative_path: path, rows })),
    ensures
        entries_of(commit, sorted::put(files, path, rows)),
{
    let after = sorted::put(files, path, rows);
    assert forall|e: int| 0 <= e < after.len() implies recovery::is_file_of(
        commit,
        (RetiredFileView { relative_path: (#[trigger] after[e]).0, rows: after[e].1 }),
    ) by {
        sorted::lemma_put_members(files, path, rows, e);
        if files.contains(after[e]) {
            let k = choose|k: int| 0 <= k < files.len() && files[k] == after[e];
            assert(recovery::is_file_of(
                commit,
                (RetiredFileView { relative_path: files[k].0, rows: files[k].1 }),
            ));
        }
    }
}

proof fn lemma_known_entries(commit: CommitView, files: Seq<RetiredFileView>)
    requires
        forall|k: int|
            0 <= k < files.len() ==> recovery::is_file_of(commit, #[trigger] files[k]),
    ensures
        entries_of(commit, known_files(files)),
    decreases files.len(),
{
    if files.len() > 0 {
        let front = files.drop_last();
        let last = files[files.len() - 1];
        assert forall|k: int| 0 <= k < front.len() implies recovery::is_file_of(
            commit,
            #[trigger] front[k],
        ) by {
            assert(front[k] == files[k]);
        }
        lemma_known_entries(commit, front);
        assert(recovery::is_file_of(commit, last));
        assert(last == (RetiredFileView { relative_path: last.relative_path, rows: last.rows }));
        lemma_entries_put(commit, known_files(front), last.relative_path, last.rows);
    }
}

proof fn lemma_chosen_entries(
    start: ChoiceView,
    commit: CommitView,
    count: int,
    retired: Set<Seq<char>>,
    cutoff: u64,
)
    requires
        0 <= count <= commit.files.len(),
        entries_of(commit, start.files),
    ensures
        entries_of(
            commit,
            choose_files(start, commit, commit.files.take(count), retired, cutoff).files,
        ),
    decreases count,
{
    if count > 0 {
        let files = commit.files.take(count);
        assert(files.drop_last() =~= commit.files.take(count - 1));
        lemma_chosen_entries(start, commit, count - 1, retired, cutoff);
        let before = choose_files(start, commit, files.drop_last(), retired, cutoff);
        let file = commit.files[count - 1];
        assert(files.last() == file);
        assert(recovery::is_file_of(
            commit,
            (RetiredFileView { relative_path: file.relative_path, rows: file.rows }),
        ));
        lemma_entries_put(commit, before.files, file.relative_path, file.rows);
    }
}

/// A descriptor that a pass writes is one that recovery accepts for the commit: every file that it lists
/// is one of the commit, with as many rows, as long as that held of the descriptor before.
pub proof fn written_descriptors_match_their_commit(
    tenant: Seq<char>,
    commits: Seq<CommitView>,
    c: int,
    retired: Set<Seq<char>>,
    existing: Option<RetirementView>,
    cutoff: u64,
)
    requires
        0 <= c < commits.len(),
        existing is Some ==> recovery::lists_only_files_of(commits[c], existing->0),
        selection(tenant, commits[c], retired, existing, cutoff) is Some,
        selection(tenant, commits[c], retired, existing, cutoff)->0.retirement is Some,
    ensures
        recovery::retires_published_files(
            tenant,
            commits,
            selection(tenant, commits[c], retired, existing, cutoff)->0.retirement->0,
        ),
{
    let commit = commits[c];
    let start = choice_start(existing);
    if existing is Some {
        lemma_known_entries(commit, existing->0.files);
    }
    lemma_chosen_entries(start, commit, commit.files.len() as int, retired, cutoff);
    assert(commit.files.take(commit.files.len() as int) =~= commit.files);
    let choice = choose_files(start, commit, commit.files, retired, cutoff);
    let written = selection(tenant, commit, retired, existing, cutoff)->0.retirement->0;
    assert forall|k: int| 0 <= k < written.files.len() implies recovery::is_file_of(
        commit,
        #[trigger] written.files[k],
    ) by {
        let entry = choice.files[k];
        assert(written.files[k] == (RetiredFileView { relative_path: entry.0, rows: entry.1 }));
    }
    assert(recovery::lists_only_files_of(commit, written));
}

proof fn lemma_chosen_rows(
    start: ChoiceView,
    commit: CommitView,
    files: Seq<CommitFileView>,
    retired: Set<Seq<char>>,
    cutoff: u64,
    at: int,
)
    requires
        0 <= at < files.len(),
        eligible(commit, files[at], cutoff),
        !retired.contains(files[at].relative_path),
        sorted::lookup(start.files, files[at].relative_path) is None,
        files[at].rows > 0,
    ensures
        choose_files(start, commit, files, retired, cutoff).rows > 0 || exists|k: int|
            0 <= k < files.len() && k != at && (#[trigger] files[k]).relative_path
                == files[at].relative_path,
    decreases files.len(),
{
    let front = files.drop_last();
    let before = choose_files(start, commit, front, retired, cutoff);
    let path = files[at].relative_path;
    if at < front.len() {
        lemma_chosen_rows(start, commit, front, retired, cutoff, at);
        if before.rows == 0 {
            let k = choose|k: int|
                0 <= k < front.len() && k != at && (#[trigger] front[k]).relative_path
                    == front[at].relative_path;
            assert(files[k].relative_path == path);
        }
    } else {
        assert(files.last() == files[at]);
        if sorted::lookup(before.files, path) is Some {
            lemma_chosen_origin(start, commit, front, retired, cutoff, path);
            assert(keeps_path(front, path));
            let k = choose|k: int|
                0 <= k < front.len() && (#[trigger] front[k]).relative_path == path;
            assert(files[k].relative_path == path);
        }
    }
}

/// A file is hidden only behind a durable descriptor: where a file with rows is retired that the
/// descriptor before did not list, a new descriptor is written.
pub proof fn newly_retired_files_get_a_descriptor(
    tenant: Seq<char>,
    commit: CommitView,
    retired: Set<Seq<char>>,
    existing: Option<RetirementView>,
    cutoff: u64,
    at: int,
)
    requires
        0 <= at < commit.files.len(),
        commit.files[at].rows > 0,
        commit.files[at].statistics is Some,
        statistics::usable(
            commit.files[at].statistics->0,
            commit.schema.fields,
            commit.files[at].rows,
            commit.files[at].hour,
            layout::hour_end(commit.files[at].hour),
            commit.first_sequence,
            commit.next_sequence,
        ),
        commit.files[at].statistics->0.received_time_max < cutoff,
        !retired.contains(commit.files[at].relative_path),
        existing is Some ==> !lists_file(existing->0.files, commit.files[at].relative_path),
        forall|f: int, g: int|
            0 <= f < g < commit.files.len() ==> (#[trigger] commit.files[f]).relative_path != (
            #[trigger] commit.files[g]).relative_path,
    ensures
        selection(tenant, commit, retired, existing, cutoff) is Some,
        selection(tenant, commit, retired, existing, cutoff)->0.retirement is Some,
{
    let start = choice_start(existing);
    let path = commit.files[at].relative_path;
    retiring_reaches_every_old_file(tenant, commit, retired, existing, cutoff, at);
    statistics::retention_goes_by_the_latest_receipt(
        commit.files[at].statistics->0,
        commit.schema.fields,
        commit.files[at].rows,
        commit.files[at].hour,
        commit.first_sequence,
        commit.next_sequence,
        cutoff,
    );
    if sorted::lookup(start.files, path) is Some {
        sorted::lemma_lookup_absent(start.files, path);
        let known = known_files(existing->0.files);
        let k = choose|k: int| 0 <= k < known.len() && #[trigger] known[k].0 == path;
        let from = lemma_known_members(existing->0.files, k);
        assert(existing->0.files[from].relative_path == path);
    }
    lemma_chosen_rows(start, commit, commit.files, retired, cutoff, at);
}

proof fn lemma_size_at(files: Seq<CommitFileView>, at: int)
    requires
        0 <= at < files.len(),
        forall|f: int, g: int|
            0 <= f < g < files.len() ==> (#[trigger] files[f]).relative_path != (
            #[trigger] files[g]).relative_path,
    ensures
        size_at(files, files[at].relative_path) == recorded_size(files[at]),
    decreases files.len(),
{
    if at < files.len() - 1 {
        let front = files.drop_last();
        assert forall|f: int, g: int| 0 <= f < g < front.len() implies (
        #[trigger] front[f]).relative_path != (#[trigger] front[g]).relative_path by {
            assert(front[f] == files[f] && front[g] == files[g]);
        }
        assert(files[at].relative_path != files[files.len() - 1].relative_path);
        lemma_size_at(front, at);
    }
}

/// A report counts each hidden file: one more path adds the rows that its descriptor lists and the size that
/// its commit records, and where nothing is hidden there is nothing to count.
pub proof fn reports_count_each_hidden_file(
    listed: Seq<(Seq<char>, u64)>,
    files: Seq<CommitFileView>,
    paths: Seq<Seq<char>>,
    at: int,
    rows: u64,
)
    requires
        0 <= at < files.len(),
        forall|f: int, g: int|
            0 <= f < g < files.len() ==> (#[trigger] files[f]).relative_path != (
            #[trigger] files[g]).relative_path,
        sorted::lookup(listed, files[at].relative_path) == Some(rows),
        hidden_rows(listed, paths) + rows <= u64::MAX,
        files[at].statistics is Some,
        hidden_bytes(files, paths) + files[at].statistics->0.size_bytes <= u64::MAX,
    ensures
        hidden_rows(listed, paths.push(files[at].relative_path)) == hidden_rows(listed, paths)
            + rows,
        hidden_bytes(files, paths.push(files[at].relative_path)) == hidden_bytes(files, paths)
            + files[at].statistics->0.size_bytes,
        hidden_rows(listed, Seq::empty()) == 0,
        hidden_bytes(files, Seq::empty()) == 0,
{
    let more = paths.push(files[at].relative_path);
    assert(more.drop_last() =~= paths);
    lemma_size_at(files, at);
}

// Directories left empty.

/// What stands at a directory that may be removed.
#[derive(Clone, Copy, Debug, PartialEq, Eq, Structural)]
pub enum DirectoryState {
    /// It is gone already.
    Missing,
    /// It holds nothing.
    Empty,
    /// It holds something.
    Occupied,
}

/// What happens at one directory.
#[derive(Clone, Copy, Debug, PartialEq, Eq, Structural)]
pub enum PruneStep {
    /// Go on with the parent.
    Climb,
    /// Remove it and go on with the parent.
    RemoveAndClimb,
    /// Sync it and stop.
    SyncAndStop,
    /// Stop.
    Stop,
}

/// Whether a path lies below `base`.
pub open spec fn lies_below(path: Seq<char>, base: Seq<char>) -> bool {
    match layout::stripped(path, base) {
        Some(rest) => rest.len() > 0,
        None => false,
    }
}

/// What happens at one directory.
pub open spec fn pruning(
    tenant_dir: Seq<char>,
    directory: Seq<char>,
    state: DirectoryState,
) -> PruneStep {
    if !lies_below(directory, tenant_dir) {
        PruneStep::Stop
    } else {
        match state {
            DirectoryState::Missing => PruneStep::Climb,
            DirectoryState::Empty => PruneStep::RemoveAndClimb,
            DirectoryState::Occupied => PruneStep::SyncAndStop,
        }
    }
}

/// Only empty directories below the tenant directory are removed, and all of them are: the climb stops at
/// the first that holds something, and at the tenant directory, whatever that holds.
pub proof fn pruning_stays_below_the_tenant(
    tenant_dir: Seq<char>,
    directory: Seq<char>,
    state: DirectoryState,
)
    ensures
        pruning(tenant_dir, directory, state) == PruneStep::RemoveAndClimb <==> lies_below(
            directory,
            tenant_dir,
        ) && state == DirectoryState::Empty,
        pruning(tenant_dir, directory, state) == PruneStep::SyncAndStop <==> lies_below(
            directory,
            tenant_dir,
        ) && state == DirectoryState::Occupied,
        pruning(tenant_dir, directory, state) == PruneStep::Climb <==> lies_below(
            directory,
            tenant_dir,
        ) && state == DirectoryState::Missing,
        !lies_below(tenant_dir, tenant_dir),
{
}

/// What happens at one directory: those below the tenant directory are removed while they are
/// empty.
pub fn prune_step(tenant_dir: &str, directory: &str, state: DirectoryState) -> (step: PruneStep)
    ensures
        step == pruning(tenant_dir@, directory@, state),
{
    let below = match strip_prefix(directory, tenant_dir) {
        Some(rest) => !rest.as_str().is_empty(),
        None => false,
    };
    if !below {
        return PruneStep::Stop;
    }
    match state {
        DirectoryState::Missing => PruneStep::Climb,
        DirectoryState::Empty => PruneStep::RemoveAndClimb,
        DirectoryState::Occupied => PruneStep::SyncAndStop,
    }
}

} // verus!
