//! Startup recovery for one tenant's published generations.
//!
//! Valid commit descriptors become the catalog. Temporary files, checksum-invalid commit
//! descriptors, and Parquet files that no valid descriptor names are removed. A durable retirement
//! descriptor hides its files and may outlive them. A corrupt retirement descriptor or a visible
//! Parquet file that is missing or inconsistent is a fatal error.
use vstd::prelude::*;
use crate::arrange;
use crate::catalog;
use crate::catalog::{Catalog, CatalogError};
use crate::commit::{
    copy_statistics, Commit, CommitError, CommitFile, CommitFileView, CommitView,
};
use crate::generation::GenerationView;
use crate::layout;
use crate::layout::{hour_end_unix_nano, join};
use crate::parquet;
use crate::parquet::ParquetFileView;
use crate::paths::PathSet;
use crate::publication;
use crate::retirement::{
    RetiredFile, RetiredFileView, Retirement, RetirementError, RetirementView,
};
use crate::schema::PROJECTION_VERSION;
use crate::sorted;
use crate::sorted::TextMap;
use crate::statistics::{FileStatistics, FileStatisticsView};
use crate::text;
use crate::text::{chars_of, decimal, push_decimal, same_text};

verus! {

/// Why recovery could not produce a catalog.
#[derive(Debug)]
pub enum RecoveryError {
    /// Filesystem failure, by its message.
    Io(String),
    /// A descriptor could not be decoded for a reason other than corruption.
    Commit(CommitError),
    /// Loaded descriptors are not one contiguous sequence range.
    Catalog(CatalogError),
    /// A published Parquet file is missing or does not match its descriptor.
    Parquet(String),
    /// A durable retirement descriptor is corrupt or does not match its commit.
    Retirement(String),
}

impl RecoveryError {
    pub open spec fn text(&self) -> Seq<char> {
        match self {
            RecoveryError::Io(error) => "recovery io: "@ + error@,
            RecoveryError::Commit(error) => "recovery commit: "@ + error.text(),
            RecoveryError::Catalog(error) => "recovery catalog: "@ + error.text(),
            RecoveryError::Parquet(detail) => "recovery parquet: "@ + detail@,
            RecoveryError::Retirement(detail) => "recovery retirement: "@ + detail@,
        }
    }

    /// The message of this error.
    pub fn message(&self) -> (message: String)
        ensures
            message@ == self.text(),
    {
        match self {
            RecoveryError::Io(error) => "recovery io: ".to_owned().concat(error),
            RecoveryError::Commit(error) => "recovery commit: ".to_owned().concat(&error.message()),
            RecoveryError::Catalog(error) => "recovery catalog: ".to_owned().concat(
                &error.message(),
            ),
            RecoveryError::Parquet(detail) => "recovery parquet: ".to_owned().concat(detail),
            RecoveryError::Retirement(detail) => "recovery retirement: ".to_owned().concat(detail),
        }
    }
}

// Names.

/// What a file name says of a file.
#[derive(Clone, Copy, Debug, PartialEq, Eq, Structural)]
pub enum FileKind {
    /// An unfinished write.
    Temporary,
    /// A retirement descriptor.
    Retirement,
    /// A commit descriptor.
    Commit,
    /// An hour file.
    Parquet,
    /// Anything else.
    Other,
}

pub open spec fn ends_with_text(name: Seq<char>, suffix: Seq<char>) -> bool {
    name.len() >= suffix.len() && name.skip(name.len() - suffix.len()) == suffix
}

/// Whether `name` ends with `suffix`.
fn ends_with(name: &Vec<char>, suffix: &str) -> (ends: bool)
    ensures
        ends == ends_with_text(name@, suffix@),
{
    let tail = chars_of(suffix);
    if name.len() < tail.len() {
        return false;
    }
    let skip: usize = name.len() - tail.len();
    let mut i: usize = 0;
    while i < tail.len()
        invariant
            i <= tail.len(),
            tail@ == suffix@,
            skip + tail.len() == name.len(),
            forall|k: int| 0 <= k < i ==> name@[skip + k] == #[trigger] tail@[k],
        decreases tail.len() - i,
    {
        if name[skip + i] != tail[i] {
            assert(name@.skip(skip as int)[i as int] != suffix@[i as int]);
            return false;
        }
        i = i + 1;
    }
    assert(name@.skip(skip as int) =~= suffix@);
    true
}

pub open spec fn kind_of(name: Seq<char>) -> FileKind {
    if ends_with_text(name, ".parquet.tmp"@) || ends_with_text(name, ".commit.tmp"@)
        || ends_with_text(name, ".retire.tmp"@) {
        FileKind::Temporary
    } else if ends_with_text(name, ".retire"@) {
        FileKind::Retirement
    } else if ends_with_text(name, ".commit"@) {
        FileKind::Commit
    } else if ends_with_text(name, ".parquet"@) {
        FileKind::Parquet
    } else {
        FileKind::Other
    }
}

/// What a file name says of a file.
pub fn file_kind(name: &str) -> (kind: FileKind)
    ensures
        kind == kind_of(name@),
{
    let chars = chars_of(name);
    if ends_with(&chars, ".parquet.tmp") || ends_with(&chars, ".commit.tmp") || ends_with(
        &chars,
        ".retire.tmp",
    ) {
        FileKind::Temporary
    } else if ends_with(&chars, ".retire") {
        FileKind::Retirement
    } else if ends_with(&chars, ".commit") {
        FileKind::Commit
    } else if ends_with(&chars, ".parquet") {
        FileKind::Parquet
    } else {
        FileKind::Other
    }
}

pub open spec fn starts_with_text(value: Seq<char>, prefix: Seq<char>) -> bool {
    value.len() >= prefix.len() && value.take(prefix.len() as int) == prefix
}

/// Whether a refused descriptor is corrupt, so that it can be removed.
pub open spec fn is_corrupt(error: CommitError) -> bool {
    match error {
        CommitError::Checksum => true,
        CommitError::Invalid(detail) => !starts_with_text(
            detail@,
            "unsupported commit version"@,
        ),
        _ => false,
    }
}

fn corrupt_descriptor(detail: &str) -> (corrupt: bool)
    ensures
        corrupt == !starts_with_text(detail@, "unsupported commit version"@),
{
    let chars = chars_of(detail);
    let prefix = chars_of("unsupported commit version");
    if chars.len() < prefix.len() {
        return true;
    }
    let mut i: usize = 0;
    while i < prefix.len()
        invariant
            i <= prefix.len(),
            prefix.len() <= chars.len(),
            chars@ == detail@,
            prefix@ == "unsupported commit version"@,
            forall|k: int| 0 <= k < i ==> chars@[k] == #[trigger] prefix@[k],
        decreases prefix.len() - i,
    {
        if chars[i] != prefix[i] {
            assert(detail@.take(prefix@.len() as int)[i as int] != prefix@[i as int]);
            return true;
        }
        i = i + 1;
    }
    assert(detail@.take(prefix@.len() as int) =~= prefix@);
    false
}

/// The commit that a descriptor holds, none where the descriptor is corrupt.
///
/// # Errors
///
/// Returns [`RecoveryError::Commit`] when the descriptor was refused for another reason.
pub fn classify_commit(read: Result<Commit, CommitError>) -> (result: Result<
    Option<Commit>,
    RecoveryError,
>)
    ensures
        match read {
            Ok(commit) => result == Ok::<Option<Commit>, RecoveryError>(Some(commit)),
            Err(error) => if is_corrupt(error) {
                result == Ok::<Option<Commit>, RecoveryError>(None)
            } else {
                result == Err::<Option<Commit>, RecoveryError>(RecoveryError::Commit(error))
            },
        },
{
    match read {
        Ok(commit) => Ok(Some(commit)),
        Err(CommitError::Checksum) => Ok(None),
        Err(CommitError::Invalid(detail)) => if corrupt_descriptor(&detail) {
            Ok(None)
        } else {
            Err(RecoveryError::Commit(CommitError::Invalid(detail)))
        },
        Err(error) => Err(RecoveryError::Commit(error)),
    }
}

// Retirements.

/// `<first>-<next>`.
pub open spec fn range_text(first: u64, next: u64) -> Seq<char> {
    text::decimal_text(first as nat) + "-"@ + text::decimal_text(next as nat)
}

fn push_range(message: &mut String, first: u64, next: u64)
    ensures
        final(message)@ == old(message)@ + range_text(first, next),
{
    push_decimal(message, first);
    message.append("-");
    push_decimal(message, next);
    assert(message@ =~= old(message)@ + range_text(first, next));
}

/// The first commit with this range.
pub open spec fn commit_of_range(commits: Seq<CommitView>, first: u64, next: u64) -> Option<
    CommitView,
>
    decreases commits.len(),
{
    if commits.len() == 0 {
        None
    } else if commits[0].first_sequence == first && commits[0].next_sequence == next {
        Some(commits[0])
    } else {
        commit_of_range(commits.drop_first(), first, next)
    }
}

/// The first file with this path.
pub open spec fn file_of_path(files: Seq<CommitFileView>, path: Seq<char>) -> Option<
    CommitFileView,
>
    decreases files.len(),
{
    if files.len() == 0 {
        None
    } else if files[0].relative_path == path {
        Some(files[0])
    } else {
        file_of_path(files.drop_first(), path)
    }
}

/// Why a retired file does not belong to its commit.
pub open spec fn retired_file_fault(commit: CommitView, file: RetiredFileView) -> Option<Seq<char>> {
    match file_of_path(commit.files, file.relative_path) {
        Some(published) => if published.rows == file.rows {
            None
        } else {
            Some(
                "retired file "@ + file.relative_path + " does not match the commit row count"@,
            )
        },
        None => Some(
            "retired file "@ + file.relative_path + " is not in commit "@ + range_text(
                commit.first_sequence,
                commit.next_sequence,
            ),
        ),
    }
}

/// The first fault among retired files.
pub open spec fn retired_files_fault(commit: CommitView, files: Seq<RetiredFileView>) -> Option<
    Seq<char>,
>
    decreases files.len(),
{
    if files.len() == 0 {
        None
    } else {
        match retired_files_fault(commit, files.drop_last()) {
            Some(detail) => Some(detail),
            None => retired_file_fault(commit, files.last()),
        }
    }
}

/// Whether one of the retirements has this range.
pub open spec fn range_retired(retirements: Seq<RetirementView>, first: u64, next: u64) -> bool {
    exists|i: int|
        0 <= i < retirements.len() && (#[trigger] retirements[i]).first_sequence == first
            && retirements[i].next_sequence == next
}

/// Why a retirement does not stand, given those before it.
pub open spec fn retirement_fault(
    tenant: Seq<char>,
    commits: Seq<CommitView>,
    earlier: Seq<RetirementView>,
    retirement: RetirementView,
) -> Option<Seq<char>> {
    let range = range_text(retirement.first_sequence, retirement.next_sequence);
    if range_retired(earlier, retirement.first_sequence, retirement.next_sequence) {
        Some("retirement "@ + range + " is duplicated"@)
    } else if retirement.tenant != tenant {
        Some("retirement belongs to tenant "@ + retirement.tenant)
    } else {
        match commit_of_range(commits, retirement.first_sequence, retirement.next_sequence) {
            None => Some("retirement "@ + range + " does not match a published commit"@),
            Some(commit) => retired_files_fault(commit, retirement.files),
        }
    }
}

/// The first fault among retirements.
pub open spec fn retirements_fault(
    tenant: Seq<char>,
    commits: Seq<CommitView>,
    retirements: Seq<RetirementView>,
) -> Option<Seq<char>>
    decreases retirements.len(),
{
    if retirements.len() == 0 {
        None
    } else {
        match retirements_fault(tenant, commits, retirements.drop_last()) {
            Some(detail) => Some(detail),
            None => retirement_fault(
                tenant,
                commits,
                retirements.drop_last(),
                retirements.last(),
            ),
        }
    }
}

/// The paths that one retirement hides.
pub open spec fn file_paths(files: Seq<RetiredFileView>) -> Set<Seq<char>>
    decreases files.len(),
{
    if files.len() == 0 {
        Set::empty()
    } else {
        file_paths(files.drop_last()).insert(files.last().relative_path)
    }
}

/// The paths that retirements hide.
pub open spec fn hidden_paths(retirements: Seq<RetirementView>) -> Set<Seq<char>>
    decreases retirements.len(),
{
    if retirements.len() == 0 {
        Set::empty()
    } else {
        hidden_paths(retirements.drop_last()).union(file_paths(retirements.last().files))
    }
}

proof fn lemma_retirements_fault(
    tenant: Seq<char>,
    commits: Seq<CommitView>,
    retirements: Seq<RetirementView>,
    count: int,
)
    requires
        0 <= count <= retirements.len(),
        retirements_fault(tenant, commits, retirements.take(count)) is Some,
    ensures
        retirements_fault(tenant, commits, retirements) == retirements_fault(
            tenant,
            commits,
            retirements.take(count),
        ),
    decreases retirements.len() - count,
{
    if count < retirements.len() {
        assert(retirements.take(count + 1).drop_last() =~= retirements.take(count));
        lemma_retirements_fault(tenant, commits, retirements, count + 1);
    } else {
        assert(retirements.take(count) =~= retirements);
    }
}

proof fn lemma_retired_files_fault(commit: CommitView, files: Seq<RetiredFileView>, count: int)
    requires
        0 <= count <= files.len(),
        retired_files_fault(commit, files.take(count)) is Some,
    ensures
        retired_files_fault(commit, files) == retired_files_fault(commit, files.take(count)),
    decreases files.len() - count,
{
    if count < files.len() {
        assert(files.take(count + 1).drop_last() =~= files.take(count));
        lemma_retired_files_fault(commit, files, count + 1);
    } else {
        assert(files.take(count) =~= files);
    }
}

fn find_commit(commits: &Vec<Commit>, first: u64, next: u64) -> (found: Option<&Commit>)
    ensures
        found is Some == commit_of_range(commits.deep_view(), first, next) is Some,
        found is Some ==> found->0.deep_view() == commit_of_range(
            commits.deep_view(),
            first,
            next,
        )->0,
{
    let ghost all = commits.deep_view();
    let mut i: usize = 0;
    assert(all.skip(0) =~= all);
    while i < commits.len()
        invariant
            i <= commits.len(),
            all == commits.deep_view(),
            commit_of_range(all, first, next) == commit_of_range(all.skip(i as int), first, next),
        decreases commits.len() - i,
    {
        assert(all[i as int] == commits@[i as int].deep_view());
        if commits[i].first_sequence == first && commits[i].next_sequence == next {
            return Some(&commits[i]);
        }
        assert(all.skip(i as int).drop_first() =~= all.skip(i + 1));
        i = i + 1;
    }
    None
}

fn find_file<'a>(files: &'a Vec<CommitFile>, path: &str) -> (found: Option<&'a CommitFile>)
    ensures
        found is Some == file_of_path(files.deep_view(), path@) is Some,
        found is Some ==> found->0.deep_view() == file_of_path(files.deep_view(), path@)->0,
{
    let ghost all = files.deep_view();
    let mut i: usize = 0;
    assert(all.skip(0) =~= all);
    while i < files.len()
        invariant
            i <= files.len(),
            all == files.deep_view(),
            file_of_path(all, path@) == file_of_path(all.skip(i as int), path@),
        decreases files.len() - i,
    {
        assert(all[i as int] == files@[i as int].deep_view());
        if same_text(&files[i].relative_path, path) {
            return Some(&files[i]);
        }
        assert(all.skip(i as int).drop_first() =~= all.skip(i + 1));
        i = i + 1;
    }
    None
}

fn check_retired_files(commit: &Commit, files: &Vec<RetiredFile>, retired: &mut PathSet) -> (result:
    Result<(), String>)
    ensures
        match result {
            Ok(_) => retired_files_fault(commit.deep_view(), files.deep_view()) is None
                && final(retired)@ == old(retired)@.union(file_paths(files.deep_view())),
            Err(detail) => retired_files_fault(commit.deep_view(), files.deep_view()) == Some(
                detail@,
            ),
        },
{
    let ghost all = files.deep_view();
    let ghost view = commit.deep_view();
    let ghost start = retired@;
    let mut i: usize = 0;
    assert(all.take(0) =~= Seq::empty());
    assert(start.union(file_paths(all.take(0))) =~= start);
    while i < files.len()
        invariant
            i <= files.len(),
            all == files.deep_view(),
            view == commit.deep_view(),
            start == old(retired)@,
            retired_files_fault(view, all.take(i as int)) is None,
            retired@ == start.union(file_paths(all.take(i as int))),
        decreases files.len() - i,
    {
        assert(all.take(i + 1).drop_last() =~= all.take(i as int));
        assert(all[i as int] == files@[i as int].deep_view());
        let file = &files[i];
        match find_file(&commit.files, &file.relative_path) {
            Some(published) => {
                if published.rows != file.rows {
                    let mut detail = "retired file ".to_owned();
                    detail.append(&file.relative_path);
                    detail.append(" does not match the commit row count");
                    proof {
                        lemma_retired_files_fault(view, all, i + 1);
                    }
                    return Err(detail);
                }
            },
            None => {
                let mut detail = "retired file ".to_owned();
                detail.append(&file.relative_path);
                detail.append(" is not in commit ");
                push_range(&mut detail, commit.first_sequence, commit.next_sequence);
                proof {
                    lemma_retired_files_fault(view, all, i + 1);
                }
                return Err(detail);
            },
        }
        retired.insert(&file.relative_path);
        assert(retired@ =~= start.union(file_paths(all.take(i + 1))));
        i = i + 1;
    }
    assert(all.take(i as int) =~= all);
    Ok(())
}

fn is_range_retired(retirements: &Vec<Retirement>, count: usize, first: u64, next: u64) -> (found:
    bool)
    requires
        count <= retirements@.len(),
    ensures
        found == range_retired(retirements.deep_view().take(count as int), first, next),
{
    let ghost all = retirements.deep_view().take(count as int);
    let mut i: usize = 0;
    while i < count
        invariant
            i <= count <= retirements@.len(),
            all == retirements.deep_view().take(count as int),
            forall|k: int|
                0 <= k < i ==> !((#[trigger] all[k]).first_sequence == first
                    && all[k].next_sequence == next),
        decreases count - i,
    {
        assert(all[i as int] == retirements@[i as int].deep_view());
        if retirements[i].first_sequence == first && retirements[i].next_sequence == next {
            assert(all[i as int].first_sequence == first);
            return true;
        }
        i = i + 1;
    }
    false
}

/// The paths that retirements hide.
///
/// # Errors
///
/// Returns [`RecoveryError::Retirement`] when a retirement is repeated, belongs to another tenant,
/// or does not match the files of a published commit.
pub fn retired_paths(tenant: &str, commits: &Vec<Commit>, retirements: &Vec<Retirement>) -> (result:
    Result<PathSet, RecoveryError>)
    ensures
        match result {
            Ok(retired) => retirements_fault(
                tenant@,
                commits.deep_view(),
                retirements.deep_view(),
            ) is None && retired@ == hidden_paths(retirements.deep_view()),
            Err(RecoveryError::Retirement(detail)) => retirements_fault(
                tenant@,
                commits.deep_view(),
                retirements.deep_view(),
            ) == Some(detail@),
            Err(_) => false,
        },
{
    let ghost all = retirements.deep_view();
    let ghost published = commits.deep_view();
    let mut retired = PathSet::new();
    let mut i: usize = 0;
    assert(all.take(0) =~= Seq::empty());
    while i < retirements.len()
        invariant
            i <= retirements.len(),
            all == retirements.deep_view(),
            published == commits.deep_view(),
            retirements_fault(tenant@, published, all.take(i as int)) is None,
            retired@ == hidden_paths(all.take(i as int)),
        decreases retirements.len() - i,
    {
        assert(all.take(i + 1).drop_last() =~= all.take(i as int));
        assert(all[i as int] == retirements@[i as int].deep_view());
        let retirement = &retirements[i];
        let first = retirement.first_sequence;
        let next = retirement.next_sequence;
        if is_range_retired(retirements, i, first, next) {
            let mut detail = "retirement ".to_owned();
            push_range(&mut detail, first, next);
            detail.append(" is duplicated");
            proof {
                lemma_retirements_fault(tenant@, published, all, i + 1);
            }
            return Err(RecoveryError::Retirement(detail));
        }
        if !same_text(&retirement.tenant, tenant) {
            let detail = "retirement belongs to tenant ".to_owned().concat(&retirement.tenant);
            proof {
                lemma_retirements_fault(tenant@, published, all, i + 1);
            }
            return Err(RecoveryError::Retirement(detail));
        }
        match find_commit(commits, first, next) {
            None => {
                let mut detail = "retirement ".to_owned();
                push_range(&mut detail, first, next);
                detail.append(" does not match a published commit");
                proof {
                    lemma_retirements_fault(tenant@, published, all, i + 1);
                }
                return Err(RecoveryError::Retirement(detail));
            },
            Some(commit) => {
                match check_retired_files(commit, &retirement.files, &mut retired) {
                    Ok(()) => {},
                    Err(detail) => {
                        proof {
                            lemma_retirements_fault(tenant@, published, all, i + 1);
                        }
                        return Err(RecoveryError::Retirement(detail));
                    },
                }
            },
        }
        i = i + 1;
    }
    assert(all.take(i as int) =~= all);
    Ok(retired)
}

// Files.

/// What was found where a published file should be.
#[derive(Debug)]
pub enum FileObservation {
    /// There is no such file.
    Missing,
    /// The file could not be read, by the message of the failure.
    Unreadable(String),
    /// The schema metadata of the file, and its size or why that is unknown.
    Present { metadata: TextMap<String>, size: Result<u64, String> },
}

pub enum ObservationView {
    Missing,
    Unreadable(Seq<char>),
    Present { metadata: Seq<(Seq<char>, Seq<char>)>, size: Result<u64, Seq<char>> },
}

impl DeepView for FileObservation {
    type V = ObservationView;

    open spec fn deep_view(&self) -> ObservationView {
        match self {
            FileObservation::Missing => ObservationView::Missing,
            FileObservation::Unreadable(detail) => ObservationView::Unreadable(detail@),
            FileObservation::Present { metadata, size } => ObservationView::Present {
                metadata: metadata@,
                size: match size {
                    Ok(size) => Ok(*size),
                    Err(detail) => Err(detail@),
                },
            },
        }
    }
}

/// What the metadata of a published file must say.
pub open spec fn expected_metadata(commit: CommitView, file: CommitFileView) -> Seq<
    (Seq<char>, Seq<char>),
> {
    seq![
        (
            parquet::META_PROJECTION_VERSION@,
            text::decimal_text(commit.projection_version as nat),
        ),
        (parquet::META_FINGERPRINT@, commit.fingerprint),
        (parquet::META_WAL_FIRST_SEQUENCE@, text::decimal_text(commit.first_sequence as nat)),
        (parquet::META_WAL_NEXT_SEQUENCE@, text::decimal_text(commit.next_sequence as nat)),
        (parquet::META_ROW_COUNT@, text::decimal_text(file.rows as nat)),
        (parquet::META_HOUR_START_UNIX_NANO@, text::decimal_text(file.hour as nat)),
        (
            parquet::META_HOUR_END_UNIX_NANO@,
            text::decimal_text(layout::hour_end(file.hour) as nat),
        ),
    ]
}

/// The first key whose value is not the expected one.
pub open spec fn mismatched_key(
    metadata: Seq<(Seq<char>, Seq<char>)>,
    expected: Seq<(Seq<char>, Seq<char>)>,
) -> Option<Seq<char>>
    decreases expected.len(),
{
    if expected.len() == 0 {
        None
    } else {
        match mismatched_key(metadata, expected.drop_last()) {
            Some(key) => Some(key),
            None => if sorted::lookup(metadata, expected.last().0) == Some(expected.last().1) {
                None
            } else {
                Some(expected.last().0)
            },
        }
    }
}

proof fn lemma_mismatch(
    metadata: Seq<(Seq<char>, Seq<char>)>,
    expected: Seq<(Seq<char>, Seq<char>)>,
    count: int,
)
    requires
        0 <= count <= expected.len(),
        mismatched_key(metadata, expected.take(count)) is Some,
    ensures
        mismatched_key(metadata, expected) == mismatched_key(metadata, expected.take(count)),
    decreases expected.len() - count,
{
    if count < expected.len() {
        assert(expected.take(count + 1).drop_last() =~= expected.take(count));
        lemma_mismatch(metadata, expected, count + 1);
    } else {
        assert(expected.take(count) =~= expected);
    }
}

/// Why a file fails validation.
#[verifier::ext_equal]
pub enum FileFault {
    Io(Seq<char>),
    Parquet(Seq<char>),
}

/// The statistics that stay with a published file, or why the file fails validation.
pub open spec fn file_verdict(
    path: Seq<char>,
    commit: CommitView,
    file: CommitFileView,
    retired: bool,
    observed: ObservationView,
) -> Result<Option<FileStatisticsView>, FileFault> {
    match observed {
        ObservationView::Missing => if retired {
            Ok(file.statistics)
        } else {
            Err(FileFault::Parquet("missing published file "@ + path))
        },
        ObservationView::Unreadable(detail) => Err(FileFault::Parquet(detail)),
        ObservationView::Present { metadata, size } => match mismatched_key(
            metadata,
            expected_metadata(commit, file),
        ) {
            Some(key) => Err(
                FileFault::Parquet(
                    path + " metadata "@ + key + " does not match the commit"@,
                ),
            ),
            None => match size {
                Err(detail) => Err(FileFault::Io(detail)),
                Ok(size) => if file.statistics is Some && file.statistics->0.size_bytes != size {
                    Ok(None)
                } else {
                    Ok(file.statistics)
                },
            },
        },
    }
}

fn expectations(commit: &Commit, file: &CommitFile) -> (expected: Vec<(String, String)>)
    ensures
        expected.deep_view() == expected_metadata(commit.deep_view(), file.deep_view()),
{
    let expected: Vec<(String, String)> = vec![
        (
            parquet::META_PROJECTION_VERSION.to_owned(),
            decimal(commit.projection_version as u64),
        ),
        (parquet::META_FINGERPRINT.to_owned(), commit.fingerprint.clone()),
        (parquet::META_WAL_FIRST_SEQUENCE.to_owned(), decimal(commit.first_sequence)),
        (parquet::META_WAL_NEXT_SEQUENCE.to_owned(), decimal(commit.next_sequence)),
        (parquet::META_ROW_COUNT.to_owned(), decimal(file.rows)),
        (parquet::META_HOUR_START_UNIX_NANO.to_owned(), decimal(file.hour.start_unix_nano())),
        (parquet::META_HOUR_END_UNIX_NANO.to_owned(), decimal(hour_end_unix_nano(file.hour))),
    ];
    assert(expected.deep_view() =~= expected_metadata(commit.deep_view(), file.deep_view()));
    expected
}

fn find_mismatch(metadata: &TextMap<String>, expected: &Vec<(String, String)>) -> (key: Option<
    String,
>)
    ensures
        key.deep_view() == mismatched_key(metadata@, expected.deep_view()),
{
    let ghost all = expected.deep_view();
    let mut i: usize = 0;
    assert(all.take(0) =~= Seq::empty());
    while i < expected.len()
        invariant
            i <= expected.len(),
            all == expected.deep_view(),
            mismatched_key(metadata@, all.take(i as int)) is None,
        decreases expected.len() - i,
    {
        assert(all.take(i + 1).drop_last() =~= all.take(i as int));
        assert(all[i as int] == expected@[i as int].deep_view());
        let key = &expected[i].0;
        let value = &expected[i].1;
        let matches = match metadata.get(key) {
            Some(found) => same_text(found, value),
            None => false,
        };
        if !matches {
            proof {
                lemma_mismatch(metadata@, all, i + 1);
            }
            return Some(key.clone());
        }
        i = i + 1;
    }
    assert(all.take(i as int) =~= all);
    None
}

/// Whether an error reports this fault.
pub open spec fn reports(error: RecoveryError, fault: FileFault) -> bool {
    match fault {
        FileFault::Io(detail) => error is Io && error->Io_0@ == detail,
        FileFault::Parquet(detail) => error is Parquet && error->Parquet_0@ == detail,
    }
}

/// The statistics that stay with a published file.
///
/// A retired file may be missing. The size recorded in the statistics must be that of the file;
/// statistics of another size are dropped and the file stays visible.
///
/// # Errors
///
/// Returns [`RecoveryError`] when a visible file is missing, cannot be read, or does not match its
/// commit.
pub fn validate_file(
    path: &str,
    commit: &Commit,
    file: &CommitFile,
    retired: bool,
    observed: &FileObservation,
) -> (result: Result<Option<FileStatistics>, RecoveryError>)
    ensures
        match file_verdict(
            path@,
            commit.deep_view(),
            file.deep_view(),
            retired,
            observed.deep_view(),
        ) {
            Ok(statistics) => result is Ok && result->Ok_0.deep_view() == statistics,
            Err(fault) => result is Err && reports(result->Err_0, fault),
        },
{
    match observed {
        FileObservation::Missing => if retired {
            Ok(copy_statistics(&file.statistics))
        } else {
            Err(RecoveryError::Parquet("missing published file ".to_owned().concat(path)))
        },
        FileObservation::Unreadable(detail) => Err(RecoveryError::Parquet(detail.clone())),
        FileObservation::Present { metadata, size } => {
            match find_mismatch(metadata, &expectations(commit, file)) {
                Some(key) => {
                    let mut detail = path.to_owned();
                    detail.append(" metadata ");
                    detail.append(&key);
                    detail.append(" does not match the commit");
                    return Err(RecoveryError::Parquet(detail));
                },
                None => {},
            }
            match size {
                Err(detail) => Err(RecoveryError::Io(detail.clone())),
                Ok(size) => {
                    let stale = match &file.statistics {
                        Some(statistics) => statistics.size_bytes != *size,
                        None => false,
                    };
                    if stale {
                        Ok(None)
                    } else {
                        Ok(copy_statistics(&file.statistics))
                    }
                },
            }
        },
    }
}

/// The files of a commit with the statistics that stay, or why one fails validation.
pub open spec fn validated_files(
    tenant_dir: Seq<char>,
    commit: CommitView,
    retired: Set<Seq<char>>,
    observed: Seq<ObservationView>,
    count: nat,
) -> Result<Seq<CommitFileView>, FileFault>
    decreases count,
{
    if count == 0 {
        Ok(Seq::empty())
    } else {
        let at = (count - 1) as nat;
        match validated_files(tenant_dir, commit, retired, observed, at) {
            Err(fault) => Err(fault),
            Ok(before) => {
                let file = commit.files[at as int];
                match file_verdict(
                    layout::join_path(tenant_dir, file.relative_path),
                    commit,
                    file,
                    retired.contains(file.relative_path),
                    observed[at as int],
                ) {
                    Err(fault) => Err(fault),
                    Ok(statistics) => Ok(before.push(CommitFileView { statistics, ..file })),
                }
            },
        }
    }
}

proof fn lemma_validated_fail(
    tenant_dir: Seq<char>,
    commit: CommitView,
    retired: Set<Seq<char>>,
    observed: Seq<ObservationView>,
    early: nat,
    count: nat,
)
    requires
        early <= count,
        validated_files(tenant_dir, commit, retired, observed, early) is Err,
    ensures
        validated_files(tenant_dir, commit, retired, observed, count) == validated_files(
            tenant_dir,
            commit,
            retired,
            observed,
            early,
        ),
    decreases count - early,
{
    if early < count {
        lemma_validated_fail(tenant_dir, commit, retired, observed, early, (count - 1) as nat);
    }
}

/// Validates the files of a commit against what was observed of each.
///
/// # Errors
///
/// Returns [`RecoveryError`] when a visible file is missing, cannot be read, or does not match.
pub fn validate_parquet(
    tenant_dir: &str,
    commit: &Commit,
    retired: &PathSet,
    observed: &Vec<FileObservation>,
) -> (result: Result<Commit, RecoveryError>)
    requires
        observed@.len() == commit.files@.len(),
    ensures
        match validated_files(
            tenant_dir@,
            commit.deep_view(),
            retired@,
            observed.deep_view(),
            commit.deep_view().files.len(),
        ) {
            Ok(files) => result is Ok && result->Ok_0.deep_view() == (CommitView {
                files,
                ..commit.deep_view()
            }),
            Err(fault) => result is Err && reports(result->Err_0, fault),
        },
{
    let ghost view = commit.deep_view();
    let ghost seen = observed.deep_view();
    let mut validated = commit.clone();
    let mut files: Vec<CommitFile> = Vec::new();
    let mut i: usize = 0;
    assert(files.deep_view() =~= Seq::empty());
    while i < commit.files.len()
        invariant
            i <= commit.files.len(),
            view == commit.deep_view(),
            seen == observed.deep_view(),
            observed@.len() == commit.files@.len(),
            validated_files(tenant_dir@, view, retired@, seen, i as nat) == Ok::<
                Seq<CommitFileView>,
                FileFault,
            >(files.deep_view()),
        decreases commit.files.len() - i,
    {
        let file = &commit.files[i];
        assert(view.files[i as int] == file.deep_view());
        assert(seen[i as int] == observed@[i as int].deep_view());
        let path = join(tenant_dir, &file.relative_path);
        match validate_file(
            &path,
            commit,
            file,
            retired.contains(&file.relative_path),
            &observed[i],
        ) {
            Ok(statistics) => {
                let ghost before = files.deep_view();
                let kept = CommitFile {
                    hour: file.hour,
                    relative_path: file.relative_path.clone(),
                    rows: file.rows,
                    statistics,
                };
                let ghost added = kept.deep_view();
                files.push(kept);
                assert(files.deep_view() =~= before.push(added));
            },
            Err(error) => {
                proof {
                    lemma_validated_fail(
                        tenant_dir@,
                        view,
                        retired@,
                        seen,
                        (i + 1) as nat,
                        view.files.len(),
                    );
                }
                return Err(error);
            },
        }
        i = i + 1;
    }
    validated.files = files;
    Ok(validated)
}

/// Whether a published commit names the file at `path`.
pub open spec fn is_referenced(
    tenant_dir: Seq<char>,
    commits: Seq<CommitView>,
    path: Seq<char>,
) -> bool {
    exists|c: int, f: int|
        0 <= c < commits.len() && 0 <= f < commits[c].files.len() && layout::join_path(
            tenant_dir,
            (#[trigger] commits[c].files[f]).relative_path,
        ) == path
}

/// The paths that no published commit names, in their order.
pub open spec fn orphans_of(
    tenant_dir: Seq<char>,
    commits: Seq<CommitView>,
    paths: Seq<Seq<char>>,
) -> Seq<Seq<char>> {
    paths.filter(|path: Seq<char>| !is_referenced(tenant_dir, commits, path))
}

/// Whether one of the first `count` files stands at `path`.
pub open spec fn stands_at(
    tenant_dir: Seq<char>,
    files: Seq<CommitFileView>,
    count: int,
    path: Seq<char>,
) -> bool {
    exists|k: int|
        0 <= k < count && layout::join_path(tenant_dir, (#[trigger] files[k]).relative_path) == path
}

fn referenced(tenant_dir: &str, commits: &Vec<Commit>) -> (paths: PathSet)
    ensures
        forall|path: Seq<char>|
            paths@.contains(path) <==> is_referenced(tenant_dir@, commits.deep_view(), path),
{
    let ghost all = commits.deep_view();
    let mut paths = PathSet::new();
    let mut c: usize = 0;
    while c < commits.len()
        invariant
            c <= commits.len(),
            all == commits.deep_view(),
            forall|path: Seq<char>|
                paths@.contains(path) <==> is_referenced(tenant_dir@, all.take(c as int), path),
        decreases commits.len() - c,
    {
        let commit = &commits[c];
        assert(all[c as int] == commit.deep_view());
        let ghost start = paths@;
        let ghost here = all[c as int].files;
        let mut f: usize = 0;
        while f < commit.files.len()
            invariant
                f <= commit.files.len(),
                here == commit.files.deep_view(),
                forall|path: Seq<char>| #[trigger]
                    paths@.contains(path) <==> start.contains(path) || stands_at(
                        tenant_dir@,
                        here,
                        f as int,
                        path,
                    ),
            decreases commit.files.len() - f,
        {
            let ghost before = paths@;
            assert(here[f as int] == commit.files@[f as int].deep_view());
            let path = join(tenant_dir, &commit.files[f].relative_path);
            paths.insert(&path);
            proof {
                assert forall|p: Seq<char>| #[trigger]
                    paths@.contains(p) <==> start.contains(p) || stands_at(
                        tenant_dir@,
                        here,
                        f + 1,
                        p,
                    ) by {
                    assert(before.contains(p) <==> start.contains(p) || stands_at(
                        tenant_dir@,
                        here,
                        f as int,
                        p,
                    ));
                    if p == path@ {
                        assert(layout::join_path(tenant_dir@, here[f as int].relative_path) == p);
                    }
                    if stands_at(tenant_dir@, here, f as int, p) {
                        let k = choose|k: int|
                            0 <= k < f && layout::join_path(
                                tenant_dir@,
                                (#[trigger] here[k]).relative_path,
                            ) == p;
                        assert(layout::join_path(tenant_dir@, here[k].relative_path) == p);
                    }
                }
            }
            f = f + 1;
        }
        proof {
            let head = all.take(c + 1);
            assert forall|p: Seq<char>|
                paths@.contains(p) <==> is_referenced(tenant_dir@, head, p) by {
                if start.contains(p) {
                    assert(is_referenced(tenant_dir@, all.take(c as int), p));
                    let (x, y) = choose|x: int, y: int|
                        0 <= x < all.take(c as int).len() && 0 <= y < all.take(
                            c as int,
                        )[x].files.len() && layout::join_path(
                            tenant_dir@,
                            (#[trigger] all.take(c as int)[x].files[y]).relative_path,
                        ) == p;
                    assert(head[x].files[y] == all.take(c as int)[x].files[y]);
                } else if paths@.contains(p) {
                    assert(stands_at(tenant_dir@, here, here.len() as int, p));
                    let k = choose|k: int|
                        0 <= k < here.len() && layout::join_path(
                            tenant_dir@,
                            (#[trigger] here[k]).relative_path,
                        ) == p;
                    assert(head[c as int].files[k] == here[k]);
                }
                if is_referenced(tenant_dir@, head, p) {
                    let (x, y) = choose|x: int, y: int|
                        0 <= x < head.len() && 0 <= y < head[x].files.len() && layout::join_path(
                            tenant_dir@,
                            (#[trigger] head[x].files[y]).relative_path,
                        ) == p;
                    if x < c {
                        assert(all.take(c as int)[x].files[y] == head[x].files[y]);
                        assert(is_referenced(tenant_dir@, all.take(c as int), p));
                    } else {
                        assert(here[y] == head[x].files[y]);
                        assert(stands_at(tenant_dir@, here, here.len() as int, p));
                    }
                }
            }
        }
        c = c + 1;
    }
    assert(all.take(c as int) =~= all);
    paths
}

/// The paths that no published commit names, in their order.
pub fn orphans(tenant_dir: &str, commits: &Vec<Commit>, paths: &Vec<String>) -> (orphans: Vec<String>)
    ensures
        orphans.deep_view() == orphans_of(tenant_dir@, commits.deep_view(), paths.deep_view()),
{
    let named = referenced(tenant_dir, commits);
    let ghost all = paths.deep_view();
    let ghost keep = |path: Seq<char>| !is_referenced(tenant_dir@, commits.deep_view(), path);
    let mut orphans: Vec<String> = Vec::new();
    let mut i: usize = 0;
    assert(orphans.deep_view() =~= all.take(0).filter(keep)) by {
        assert(all.take(0) =~= Seq::empty());
        reveal(Seq::filter);
    }
    while i < paths.len()
        invariant
            i <= paths.len(),
            all == paths.deep_view(),
            keep == (|path: Seq<char>| !is_referenced(tenant_dir@, commits.deep_view(), path)),
            forall|path: Seq<char>|
                named@.contains(path) <==> is_referenced(tenant_dir@, commits.deep_view(), path),
            orphans.deep_view() == all.take(i as int).filter(keep),
        decreases paths.len() - i,
    {
        let ghost before = orphans.deep_view();
        proof {
            assert(all.take(i + 1).drop_last() =~= all.take(i as int));
            assert(all[i as int] == paths@[i as int]@);
            reveal(Seq::filter);
        }
        if !named.contains(&paths[i]) {
            orphans.push(paths[i].clone());
            assert(orphans.deep_view() =~= before.push(all[i as int]));
        }
        i = i + 1;
    }
    assert(all.take(i as int) =~= all);
    orphans
}

// The whole pass.

/// What was found in one file of the tenant directory.
#[derive(Debug)]
pub enum Found {
    /// An unfinished write.
    Temporary,
    /// What reading a retirement descriptor gave.
    Retirement(Result<Retirement, RetirementError>),
    /// What reading a commit descriptor gave.
    Commit(Result<Commit, CommitError>),
    /// An hour file.
    Parquet,
    /// Anything else.
    Other,
}

/// What recovery has found so far.
#[derive(Debug)]
pub struct Recovery {
    removed_temporary: Vec<String>,
    removed_corrupt: Vec<String>,
    commits: Vec<Commit>,
    retirements: Vec<Retirement>,
    parquet_paths: Vec<String>,
}

#[verifier::ext_equal]
pub struct RecoveryView {
    pub removed_temporary: Seq<Seq<char>>,
    pub removed_corrupt: Seq<Seq<char>>,
    pub commits: Seq<CommitView>,
    pub retirements: Seq<RetirementView>,
    pub parquet_paths: Seq<Seq<char>>,
}

impl View for Recovery {
    type V = RecoveryView;

    closed spec fn view(&self) -> RecoveryView {
        RecoveryView {
            removed_temporary: self.removed_temporary.deep_view(),
            removed_corrupt: self.removed_corrupt.deep_view(),
            commits: self.commits.deep_view(),
            retirements: self.retirements.deep_view(),
            parquet_paths: self.parquet_paths.deep_view(),
        }
    }
}

/// Catalog reconstructed from durable commit descriptors.
#[derive(Debug)]
pub struct Recovered {
    /// Contiguous published commits.
    pub catalog: Catalog,
    /// Temporary files removed before the catalog was loaded.
    pub removed_temporary: Vec<String>,
    /// Checksum-invalid or truncated descriptors that were removed.
    pub removed_corrupt: Vec<String>,
    /// Parquet files that no loaded descriptor names. They are to be removed.
    pub removed_orphans: Vec<String>,
    /// Retirement descriptors whose paths belong to a loaded commit.
    pub retirements: Vec<Retirement>,
}

#[verifier::ext_equal]
pub struct RecoveredView {
    pub catalog: Seq<CommitView>,
    pub removed_temporary: Seq<Seq<char>>,
    pub removed_corrupt: Seq<Seq<char>>,
    pub removed_orphans: Seq<Seq<char>>,
    pub retirements: Seq<RetirementView>,
}

impl DeepView for Recovered {
    type V = RecoveredView;

    open spec fn deep_view(&self) -> RecoveredView {
        RecoveredView {
            catalog: self.catalog@,
            removed_temporary: self.removed_temporary.deep_view(),
            removed_corrupt: self.removed_corrupt.deep_view(),
            removed_orphans: self.removed_orphans.deep_view(),
            retirements: self.retirements.deep_view(),
        }
    }
}

/// Why the pass failed.
#[verifier::ext_equal]
pub enum RecoveryFault {
    File(FileFault),
    Retirement(Seq<char>),
    Catalog(CatalogError),
}

/// Whether an error reports why the pass failed.
pub open spec fn reports_pass(error: RecoveryError, fault: RecoveryFault) -> bool {
    match fault {
        RecoveryFault::File(fault) => reports(error, fault),
        RecoveryFault::Retirement(detail) => error is Retirement && error->Retirement_0@
            == detail,
        RecoveryFault::Catalog(fault) => error == RecoveryError::Catalog(fault),
    }
}

/// The commits with the statistics that stay, or why a file fails validation.
pub open spec fn validated_commits(
    tenant_dir: Seq<char>,
    commits: Seq<CommitView>,
    retired: Set<Seq<char>>,
    observed: Seq<Seq<ObservationView>>,
    count: nat,
) -> Result<Seq<CommitView>, FileFault>
    decreases count,
{
    if count == 0 {
        Ok(Seq::empty())
    } else {
        let at = count - 1;
        match validated_commits(tenant_dir, commits, retired, observed, at as nat) {
            Err(fault) => Err(fault),
            Ok(before) => match validated_files(
                tenant_dir,
                commits[at],
                retired,
                observed[at],
                commits[at].files.len(),
            ) {
                Err(fault) => Err(fault),
                Ok(files) => Ok(before.push(CommitView { files, ..commits[at] })),
            },
        }
    }
}

proof fn lemma_validated_commits_fail(
    tenant_dir: Seq<char>,
    commits: Seq<CommitView>,
    retired: Set<Seq<char>>,
    observed: Seq<Seq<ObservationView>>,
    early: nat,
    count: nat,
)
    requires
        early <= count,
        validated_commits(tenant_dir, commits, retired, observed, early) is Err,
    ensures
        validated_commits(tenant_dir, commits, retired, observed, count) == validated_commits(
            tenant_dir,
            commits,
            retired,
            observed,
            early,
        ),
    decreases count - early,
{
    if early < count {
        lemma_validated_commits_fail(
            tenant_dir,
            commits,
            retired,
            observed,
            early,
            (count - 1) as nat,
        );
    }
}

/// What recovery makes of all that was found, or why it fails.
pub open spec fn recovered(
    found: RecoveryView,
    tenant: Seq<char>,
    tenant_dir: Seq<char>,
    observed: Seq<Seq<ObservationView>>,
) -> Result<RecoveredView, RecoveryFault> {
    match retirements_fault(tenant, found.commits, found.retirements) {
        Some(detail) => Err(RecoveryFault::Retirement(detail)),
        None => match validated_commits(
            tenant_dir,
            found.commits,
            hidden_paths(found.retirements),
            observed,
            found.commits.len(),
        ) {
            Err(fault) => Err(RecoveryFault::File(fault)),
            Ok(commits) => match catalog::loaded(catalog::sorted_by_range(commits)) {
                Err(error) => Err(RecoveryFault::Catalog(error)),
                Ok(published) => Ok(
                    RecoveredView {
                        catalog: published,
                        removed_temporary: found.removed_temporary,
                        removed_corrupt: found.removed_corrupt,
                        removed_orphans: orphans_of(tenant_dir, published, found.parquet_paths),
                        retirements: found.retirements,
                    },
                ),
            },
        },
    }
}

/// Whether the catalog names every file that a retirement hides.
pub open spec fn retirements_named(recovered: RecoveredView) -> bool {
    forall|path: Seq<char>| #[trigger]
        hidden_paths(recovered.retirements).contains(path) ==> catalog::names_path(
            recovered.catalog,
            path,
        )
}

/// What is known after one more file was found at `path`.
pub open spec fn noted(before: RecoveryView, path: Seq<char>, found: Found) -> RecoveryView {
    match found {
        Found::Temporary => RecoveryView {
            removed_temporary: before.removed_temporary.push(path),
            ..before
        },
        Found::Retirement(Ok(retirement)) => RecoveryView {
            retirements: before.retirements.push(retirement.deep_view()),
            ..before
        },
        Found::Retirement(Err(_)) => before,
        Found::Commit(Ok(commit)) => RecoveryView {
            commits: before.commits.push(commit.deep_view()),
            ..before
        },
        Found::Commit(Err(error)) => if is_corrupt(error) {
            RecoveryView { removed_corrupt: before.removed_corrupt.push(path), ..before }
        } else {
            before
        },
        Found::Parquet => RecoveryView {
            parquet_paths: before.parquet_paths.push(path),
            ..before
        },
        Found::Other => before,
    }
}

/// Whether a file that was found is to be removed; nothing where it ends the recovery.
pub open spec fn removal(found: Found) -> Option<bool> {
    match found {
        Found::Temporary => Some(true),
        Found::Retirement(Ok(_)) => Some(false),
        Found::Retirement(Err(_)) => None,
        Found::Commit(Ok(_)) => Some(false),
        Found::Commit(Err(error)) => if is_corrupt(error) {
            Some(true)
        } else {
            None
        },
        Found::Parquet => Some(false),
        Found::Other => Some(false),
    }
}

/// What is removed is listed, and only leftovers are: temporary files and corrupt commits. A descriptor that
/// is read counts, an hour file is remembered, and a retirement that cannot be read ends the recovery.
pub proof fn only_leftovers_are_removed(before: RecoveryView, path: Seq<char>, found: Found)
    ensures
        ({
            let after = noted(before, path, found);
            let listed = after.removed_temporary + after.removed_corrupt;
            &&& removal(found) == Some(true) <==> found is Temporary || (found is Commit
                && found->Commit_0 is Err && is_corrupt(found->Commit_0->Err_0))
            &&& removal(found) == Some(true) <==> listed.len() == before.removed_temporary.len()
                + before.removed_corrupt.len() + 1
            &&& removal(found) == Some(true) ==> listed.contains(path)
            &&& removal(found) != Some(true) ==> after.removed_temporary
                == before.removed_temporary && after.removed_corrupt == before.removed_corrupt
            &&& found is Commit && found->Commit_0 is Ok ==> after.commits.len()
                == before.commits.len() + 1 && after.commits.last()
                == found->Commit_0->Ok_0.deep_view()
            &&& found is Retirement && found->Retirement_0 is Ok ==> after.retirements.len()
                == before.retirements.len() + 1 && after.retirements.last()
                == found->Retirement_0->Ok_0.deep_view()
            &&& found is Retirement && found->Retirement_0 is Err ==> removal(found) is None
            &&& found is Parquet ==> after.parquet_paths.len() == before.parquet_paths.len() + 1
                && after.parquet_paths.last() == path
            &&& !(found is Commit && found->Commit_0 is Ok) ==> after.commits == before.commits
            &&& !(found is Retirement && found->Retirement_0 is Ok) ==> after.retirements
                == before.retirements
            &&& !(found is Parquet) ==> after.parquet_paths == before.parquet_paths
        }),
{
    let after = noted(before, path, found);
    let listed = after.removed_temporary + after.removed_corrupt;
    if found is Temporary {
        assert(listed[before.removed_temporary.len() as int] == path);
    } else if removal(found) == Some(true) {
        assert(listed[listed.len() - 1] == path);
    }
}

impl Recovery {
    /// Nothing was found yet.
    pub fn new() -> (recovery: Self)
        ensures
            recovery@ == (RecoveryView {
                removed_temporary: Seq::empty(),
                removed_corrupt: Seq::empty(),
                commits: Seq::empty(),
                retirements: Seq::empty(),
                parquet_paths: Seq::empty(),
            }),
    {
        let recovery = Recovery {
            removed_temporary: Vec::new(),
            removed_corrupt: Vec::new(),
            commits: Vec::new(),
            retirements: Vec::new(),
            parquet_paths: Vec::new(),
        };
        assert(recovery.removed_temporary.deep_view() =~= Seq::empty());
        assert(recovery.removed_corrupt.deep_view() =~= Seq::empty());
        assert(recovery.commits.deep_view() =~= Seq::empty());
        assert(recovery.retirements.deep_view() =~= Seq::empty());
        assert(recovery.parquet_paths.deep_view() =~= Seq::empty());
        recovery
    }

    /// Takes note of one file, and says whether it is to be removed.
    ///
    /// # Errors
    ///
    /// Returns [`RecoveryError`] when a retirement descriptor cannot be read, or a commit
    /// descriptor is refused for another reason than corruption.
    pub fn observe(&mut self, path: &str, found: Found) -> (remove: Result<bool, RecoveryError>)
        ensures
            final(self)@ == noted(old(self)@, path@, found),
            match removal(found) {
                Some(removed) => remove == Ok::<bool, RecoveryError>(removed),
                None => match found {
                    Found::Retirement(Err(error)) => remove is Err && remove->Err_0 is Retirement
                        && remove->Err_0->Retirement_0@ == path@ + ": "@ + error.text(),
                    Found::Commit(Err(error)) => remove == Err::<bool, RecoveryError>(
                        RecoveryError::Commit(error),
                    ),
                    _ => false,
                },
            },
    {
        let ghost before = self@;
        match found {
            Found::Temporary => {
                self.removed_temporary.push(path.to_owned());
                assert(self@.removed_temporary =~= before.removed_temporary.push(path@));
                Ok(true)
            },
            Found::Retirement(read) => match read {
                Ok(retirement) => {
                    let ghost view = retirement.deep_view();
                    self.retirements.push(retirement);
                    assert(self@.retirements =~= before.retirements.push(view));
                    Ok(false)
                },
                Err(error) => {
                    let mut detail = path.to_owned();
                    detail.append(": ");
                    detail.append(&error.message());
                    Err(RecoveryError::Retirement(detail))
                },
            },
            Found::Commit(read) => match classify_commit(read)? {
                Some(commit) => {
                    let ghost view = commit.deep_view();
                    self.commits.push(commit);
                    assert(self@.commits =~= before.commits.push(view));
                    Ok(false)
                },
                None => {
                    self.removed_corrupt.push(path.to_owned());
                    assert(self@.removed_corrupt =~= before.removed_corrupt.push(path@));
                    Ok(true)
                },
            },
            Found::Parquet => {
                self.parquet_paths.push(path.to_owned());
                assert(self@.parquet_paths =~= before.parquet_paths.push(path@));
                Ok(false)
            },
            Found::Other => Ok(false),
        }
    }

    /// The commits found so far, in the order in which they were found.
    pub fn commits(&self) -> (commits: &Vec<Commit>)
        ensures
            commits.deep_view() == self@.commits,
    {
        &self.commits
    }

    /// The catalog of what was found, given what was observed of each file of each commit. It names
    /// every file that a retirement hides.
    ///
    /// # Errors
    ///
    /// Returns [`RecoveryError`] when the published ranges are not contiguous, a retirement names a
    /// file outside its commit, or a visible Parquet file is missing or inconsistent.
    pub fn settle(
        self,
        tenant: &str,
        tenant_dir: &str,
        observed: &Vec<Vec<FileObservation>>,
    ) -> (result: Result<Recovered, RecoveryError>)
        requires
            observed@.len() == self@.commits.len(),
            forall|i: int|
                0 <= i < self@.commits.len() ==> (#[trigger] observed.deep_view()[i]).len()
                    == self@.commits[i].files.len(),
        ensures
            match recovered(self@, tenant@, tenant_dir@, observed.deep_view()) {
                Ok(expected) => result is Ok && result->Ok_0.deep_view() == expected
                    && result->Ok_0.catalog.wf() && retirements_named(expected),
                Err(fault) => result is Err && reports_pass(result->Err_0, fault),
            },
    {
        let ghost found = self@;
        let ghost seen = observed.deep_view();
        let retired = retired_paths(tenant, &self.commits, &self.retirements)?;
        let mut commits: Vec<Commit> = Vec::new();
        let mut i: usize = 0;
        assert(commits.deep_view() =~= Seq::empty());
        while i < self.commits.len()
            invariant
                i <= self.commits.len(),
                found == self@,
                seen == observed.deep_view(),
                observed@.len() == found.commits.len(),
                forall|i: int|
                    0 <= i < found.commits.len() ==> (#[trigger] seen[i]).len()
                        == found.commits[i].files.len(),
                retirements_fault(tenant@, found.commits, found.retirements) is None,
                retired@ == hidden_paths(found.retirements),
                validated_commits(tenant_dir@, found.commits, retired@, seen, i as nat) == Ok::<
                    Seq<CommitView>,
                    FileFault,
                >(commits.deep_view()),
            decreases self.commits.len() - i,
        {
            let commit = &self.commits[i];
            assert(found.commits[i as int] == commit.deep_view());
            assert(seen[i as int] == observed@[i as int].deep_view());
            match validate_parquet(tenant_dir, commit, &retired, &observed[i]) {
                Ok(validated) => {
                    let ghost before = commits.deep_view();
                    let ghost view = validated.deep_view();
                    commits.push(validated);
                    assert(commits.deep_view() =~= before.push(view));
                },
                Err(error) => {
                    proof {
                        lemma_validated_commits_fail(
                            tenant_dir@,
                            found.commits,
                            retired@,
                            seen,
                            (i + 1) as nat,
                            found.commits.len(),
                        );
                    }
                    return Err(error);
                },
            }
            i = i + 1;
        }
        let catalog = match Catalog::load(commits) {
            Ok(catalog) => catalog,
            Err(error) => {
                return Err(RecoveryError::Catalog(error));
            },
        };
        let removed_orphans = orphans(tenant_dir, catalog.commits(), &self.parquet_paths);
        proof {
            recovery_hides_named_files(found, tenant@, tenant_dir@, seen);
        }
        let Recovery { removed_temporary, removed_corrupt, commits: _, retirements, parquet_paths: _ } =
            self;
        Ok(
            Recovered {
                catalog,
                removed_temporary,
                removed_corrupt,
                removed_orphans,
                retirements,
            },
        )
    }
}

/// A file that recovery removes as an orphan is named by no published commit, and every hour file
/// that a published commit names is kept.
pub proof fn orphans_are_unreferenced(
    tenant_dir: Seq<char>,
    commits: Seq<CommitView>,
    paths: Seq<Seq<char>>,
    path: Seq<char>,
)
    requires
        paths.contains(path),
    ensures
        orphans_of(tenant_dir, commits, paths).contains(path) <==> !is_referenced(
            tenant_dir,
            commits,
            path,
        ),
{
    let keep = |path: Seq<char>| !is_referenced(tenant_dir, commits, path);
    broadcast use vstd::seq_lib::group_filter_ensures;

    if keep(path) {
        let i = choose|i: int| 0 <= i < paths.len() && paths[i] == path;
        assert(paths.filter(keep).contains(paths[i]));
    }
}

/// What recovery finds of an hour file that was written for a generation: the metadata of its
/// schema, and its size.
pub open spec fn written_file(
    generation: GenerationView,
    hour: u64,
    rows: u64,
    size: u64,
) -> ObservationView {
    ObservationView::Present {
        metadata: parquet::file_schema_of(generation, hour, rows).metadata,
        size: Ok(size),
    }
}

/// The metadata of a written hour file says what a commit of its generation expects.
proof fn lemma_written_metadata(
    generation: GenerationView,
    commit: CommitView,
    file: CommitFileView,
)
    requires
        commit.projection_version == PROJECTION_VERSION,
        commit.fingerprint == generation.fingerprint,
        commit.first_sequence == generation.first_sequence,
        commit.next_sequence == generation.next_sequence,
    ensures
        mismatched_key(
            parquet::file_schema_of(generation, file.hour, file.rows).metadata,
            expected_metadata(commit, file),
        ) is None,
{
    reveal_strlit("observer.projection_version");
    reveal_strlit("observer.schema_fingerprint");
    reveal_strlit("observer.wal_first_sequence");
    reveal_strlit("observer.wal_next_sequence");
    reveal_strlit("observer.row_count");
    reveal_strlit("observer.hour_start_unix_nano");
    reveal_strlit("observer.hour_end_unix_nano");
    let k0 = parquet::META_PROJECTION_VERSION@;
    let k1 = parquet::META_FINGERPRINT@;
    let k2 = parquet::META_WAL_FIRST_SEQUENCE@;
    let k3 = parquet::META_WAL_NEXT_SEQUENCE@;
    let k4 = parquet::META_ROW_COUNT@;
    let k5 = parquet::META_HOUR_START_UNIX_NANO@;
    let k6 = parquet::META_HOUR_END_UNIX_NANO@;
    assert(k0[9] == 'p' && k1[9] == 's' && k2[9] == 'w' && k3[9] == 'w' && k4[9] == 'r' && k5[9]
        == 'h' && k6[9] == 'h');
    assert(k2.len() != k3.len() && k5.len() != k6.len());
    let expected = expected_metadata(commit, file);
    let v = |i: int| expected[i].1;
    let m0 = sorted::put(generation.schema.metadata, k0, v(0));
    let m1 = sorted::put(m0, k1, v(1));
    let m2 = sorted::put(m1, k2, v(2));
    let m3 = sorted::put(m2, k3, v(3));
    let m4 = sorted::put(m3, k4, v(4));
    let m5 = sorted::put(m4, k5, v(5));
    let m6 = sorted::put(m5, k6, v(6));
    assert(m6 == parquet::file_schema_of(generation, file.hour, file.rows).metadata);
    assert forall|i: int| 0 <= i < expected.len() implies sorted::lookup(
        m6,
        (#[trigger] expected[i]).0,
    ) == Some(expected[i].1) by {
        let key = expected[i].0;
        sorted::lemma_lookup_put(generation.schema.metadata, k0, v(0), key);
        sorted::lemma_lookup_put(m0, k1, v(1), key);
        sorted::lemma_lookup_put(m1, k2, v(2), key);
        sorted::lemma_lookup_put(m2, k3, v(3), key);
        sorted::lemma_lookup_put(m3, k4, v(4), key);
        sorted::lemma_lookup_put(m4, k5, v(5), key);
        sorted::lemma_lookup_put(m5, k6, v(6), key);
    }
    lemma_all_matched(m6, expected);
}

proof fn lemma_all_matched(
    metadata: Seq<(Seq<char>, Seq<char>)>,
    expected: Seq<(Seq<char>, Seq<char>)>,
)
    requires
        forall|i: int|
            0 <= i < expected.len() ==> sorted::lookup(metadata, (#[trigger] expected[i]).0)
                == Some(expected[i].1),
    ensures
        mismatched_key(metadata, expected) is None,
    decreases expected.len(),
{
    if expected.len() > 0 {
        let front = expected.drop_last();
        assert forall|i: int| 0 <= i < front.len() implies sorted::lookup(
            metadata,
            (#[trigger] front[i]).0,
        ) == Some(front[i].1) by {
            assert(front[i] == expected[i]);
        }
        lemma_all_matched(metadata, front);
        assert(expected[expected.len() - 1] == expected.last());
    }
}

/// An hour file that was written for a generation passes recovery against the commit of that
/// generation, and keeps its statistics.
pub proof fn written_files_pass_recovery(
    root: Seq<char>,
    tenant: Seq<char>,
    generation: GenerationView,
    files: Seq<ParquetFileView>,
    at: int,
    size: u64,
    retired: bool,
)
    requires
        publication::commit_of(root, tenant, generation, files) is Ok,
        0 <= at < publication::commit_of(root, tenant, generation, files)->Ok_0.files.len(),
        ({
            let statistics = publication::commit_of(
                root,
                tenant,
                generation,
                files,
            )->Ok_0.files[at].statistics;
            statistics is Some ==> statistics->0.size_bytes == size
        }),
    ensures
        ({
            let commit = publication::commit_of(root, tenant, generation, files)->Ok_0;
            let file = commit.files[at];
            file_verdict(
                layout::join_path(layout::tenant_dir(root, tenant), file.relative_path),
                commit,
                file,
                retired,
                written_file(generation, file.hour, file.rows, size),
            ) == Ok::<Option<FileStatisticsView>, FileFault>(file.statistics)
        }),
{
    let commit = publication::commit_of(root, tenant, generation, files)->Ok_0;
    lemma_written_metadata(generation, commit, commit.files[at]);
}

/// Whether what was observed of every file agrees with its commit.
pub open spec fn files_intact(
    tenant_dir: Seq<char>,
    commits: Seq<CommitView>,
    retired: Set<Seq<char>>,
    observed: Seq<Seq<ObservationView>>,
) -> bool {
    forall|i: int, j: int|
        0 <= i < commits.len() && 0 <= j < commits[i].files.len() ==> file_verdict(
            layout::join_path(tenant_dir, (#[trigger] commits[i].files[j]).relative_path),
            commits[i],
            commits[i].files[j],
            retired.contains(commits[i].files[j].relative_path),
            observed[i][j],
        ) == Ok::<Option<FileStatisticsView>, FileFault>(commits[i].files[j].statistics)
}

proof fn lemma_intact_files(
    tenant_dir: Seq<char>,
    commits: Seq<CommitView>,
    retired: Set<Seq<char>>,
    observed: Seq<Seq<ObservationView>>,
    at: int,
    count: nat,
)
    requires
        files_intact(tenant_dir, commits, retired, observed),
        0 <= at < commits.len(),
        count <= commits[at].files.len(),
    ensures
        validated_files(tenant_dir, commits[at], retired, observed[at], count) == Ok::<
            Seq<CommitFileView>,
            FileFault,
        >(commits[at].files.take(count as int)),
    decreases count,
{
    let files = commits[at].files;
    if count > 0 {
        lemma_intact_files(tenant_dir, commits, retired, observed, at, (count - 1) as nat);
        let file = commits[at].files[count - 1];
        assert(CommitFileView { statistics: file.statistics, ..file } == file);
        assert(files.take(count - 1).push(file) =~= files.take(count as int));
    } else {
        assert(files.take(0) =~= Seq::empty());
    }
}

proof fn lemma_intact_commits(
    tenant_dir: Seq<char>,
    commits: Seq<CommitView>,
    retired: Set<Seq<char>>,
    observed: Seq<Seq<ObservationView>>,
    count: nat,
)
    requires
        files_intact(tenant_dir, commits, retired, observed),
        count <= commits.len(),
    ensures
        validated_commits(tenant_dir, commits, retired, observed, count) == Ok::<
            Seq<CommitView>,
            FileFault,
        >(commits.take(count as int)),
    decreases count,
{
    if count > 0 {
        let at = count - 1;
        lemma_intact_commits(tenant_dir, commits, retired, observed, at as nat);
        let files = commits[at].files;
        lemma_intact_files(tenant_dir, commits, retired, observed, at, files.len());
        assert(files.take(files.len() as int) =~= files);
        assert(CommitView { files, ..commits[at] } == commits[at]);
        assert(commits.take(at).push(commits[at]) =~= commits.take(count as int));
    } else {
        assert(commits.take(0) =~= Seq::empty());
    }
}

/// A restart gives the published catalog back: where recovery finds the descriptors of a catalog,
/// in whatever order, and the files that they name, it loads that catalog and removes only the hour
/// files that the catalog does not name.
pub proof fn recovery_restores_the_catalog(
    found: RecoveryView,
    published: Seq<CommitView>,
    tenant: Seq<char>,
    tenant_dir: Seq<char>,
    observed: Seq<Seq<ObservationView>>,
)
    requires
        catalog::contiguous(published),
        catalog::ranges_filled(published),
        found.commits.to_multiset() == published.to_multiset(),
        retirements_fault(tenant, found.commits, found.retirements) is None,
        files_intact(tenant_dir, found.commits, hidden_paths(found.retirements), observed),
    ensures
        recovered(found, tenant, tenant_dir, observed) == Ok::<RecoveredView, RecoveryFault>(
            RecoveredView {
                catalog: published,
                removed_temporary: found.removed_temporary,
                removed_corrupt: found.removed_corrupt,
                removed_orphans: orphans_of(tenant_dir, published, found.parquet_paths),
                retirements: found.retirements,
            },
        ),
{
    lemma_intact_commits(
        tenant_dir,
        found.commits,
        hidden_paths(found.retirements),
        observed,
        found.commits.len(),
    );
    assert(found.commits.take(found.commits.len() as int) =~= found.commits);
    catalog::loading_restores_the_catalog(found.commits, published);
}

proof fn lemma_commit_of_range(commits: Seq<CommitView>, first: u64, next: u64) -> (at: int)
    requires
        commit_of_range(commits, first, next) is Some,
    ensures
        0 <= at < commits.len(),
        commits[at] == commit_of_range(commits, first, next)->0,
    decreases commits.len(),
{
    if commits[0].first_sequence == first && commits[0].next_sequence == next {
        0
    } else {
        lemma_commit_of_range(commits.drop_first(), first, next) + 1
    }
}

proof fn lemma_file_of_path(files: Seq<CommitFileView>, path: Seq<char>) -> (at: int)
    requires
        file_of_path(files, path) is Some,
    ensures
        0 <= at < files.len(),
        files[at].relative_path == path,
        files[at] == file_of_path(files, path)->0,
    decreases files.len(),
{
    if files[0].relative_path == path {
        0
    } else {
        lemma_file_of_path(files.drop_first(), path) + 1
    }
}

proof fn lemma_retired_file_named(commit: CommitView, files: Seq<RetiredFileView>, at: int)
    requires
        retired_files_fault(commit, files) is None,
        0 <= at < files.len(),
    ensures
        file_of_path(commit.files, files[at].relative_path) is Some,
    decreases files.len(),
{
    if at < files.len() - 1 {
        lemma_retired_file_named(commit, files.drop_last(), at);
    }
}

/// Every file of a retirement that stands is a file of a commit.
proof fn lemma_retirement_named(
    tenant: Seq<char>,
    commits: Seq<CommitView>,
    retirements: Seq<RetirementView>,
    r: int,
    k: int,
) -> (place: (int, int))
    requires
        retirements_fault(tenant, commits, retirements) is None,
        0 <= r < retirements.len(),
        0 <= k < retirements[r].files.len(),
    ensures
        0 <= place.0 < commits.len(),
        0 <= place.1 < commits[place.0].files.len(),
        commits[place.0].files[place.1].relative_path == retirements[r].files[k].relative_path,
    decreases retirements.len(),
{
    if r < retirements.len() - 1 {
        lemma_retirement_named(tenant, commits, retirements.drop_last(), r, k)
    } else {
        let retirement = retirements.last();
        let commit = commit_of_range(
            commits,
            retirement.first_sequence,
            retirement.next_sequence,
        )->0;
        let c = lemma_commit_of_range(
            commits,
            retirement.first_sequence,
            retirement.next_sequence,
        );
        lemma_retired_file_named(commit, retirement.files, k);
        let f = lemma_file_of_path(commit.files, retirement.files[k].relative_path);
        (c, f)
    }
}

proof fn lemma_validated_paths(
    tenant_dir: Seq<char>,
    commit: CommitView,
    retired: Set<Seq<char>>,
    observed: Seq<ObservationView>,
    count: nat,
)
    requires
        count <= commit.files.len(),
        validated_files(tenant_dir, commit, retired, observed, count) is Ok,
    ensures
        ({
            let files = validated_files(tenant_dir, commit, retired, observed, count)->Ok_0;
            &&& files.len() == count
            &&& forall|f: int|
                0 <= f < count ==> (#[trigger] files[f]).relative_path
                    == commit.files[f].relative_path
        }),
    decreases count,
{
    if count > 0 {
        lemma_validated_paths(tenant_dir, commit, retired, observed, (count - 1) as nat);
    }
}

proof fn lemma_validated_commit_paths(
    tenant_dir: Seq<char>,
    commits: Seq<CommitView>,
    retired: Set<Seq<char>>,
    observed: Seq<Seq<ObservationView>>,
    count: nat,
)
    requires
        count <= commits.len(),
        validated_commits(tenant_dir, commits, retired, observed, count) is Ok,
    ensures
        ({
            let result = validated_commits(tenant_dir, commits, retired, observed, count)->Ok_0;
            &&& result.len() == count
            &&& forall|c: int|
                0 <= c < count ==> (#[trigger] result[c]).files.len() == commits[c].files.len()
            &&& forall|c: int, f: int|
                0 <= c < count && 0 <= f < commits[c].files.len() ==> (
                #[trigger] result[c].files[f]).relative_path == commits[c].files[f].relative_path
        }),
    decreases count,
{
    if count > 0 {
        let at = (count - 1) as nat;
        lemma_validated_commit_paths(tenant_dir, commits, retired, observed, at);
        lemma_validated_paths(
            tenant_dir,
            commits[at as int],
            retired,
            observed[at as int],
            commits[at as int].files.len(),
        );
    }
}

/// Recovery names in its catalog every file that a commit descriptor names.
proof fn lemma_named_stays(
    found: RecoveryView,
    tenant: Seq<char>,
    tenant_dir: Seq<char>,
    observed: Seq<Seq<ObservationView>>,
    c: int,
    f: int,
)
    requires
        recovered(found, tenant, tenant_dir, observed) is Ok,
        0 <= c < found.commits.len(),
        0 <= f < found.commits[c].files.len(),
    ensures
        catalog::names_path(
            recovered(found, tenant, tenant_dir, observed)->Ok_0.catalog,
            found.commits[c].files[f].relative_path,
        ),
        is_referenced(
            tenant_dir,
            recovered(found, tenant, tenant_dir, observed)->Ok_0.catalog,
            layout::join_path(tenant_dir, found.commits[c].files[f].relative_path),
        ),
{
    broadcast use vstd::seq_lib::group_to_multiset_ensures;

    let retired = hidden_paths(found.retirements);
    let count = found.commits.len();
    let commits = validated_commits(tenant_dir, found.commits, retired, observed, count)->Ok_0;
    let sorted = catalog::sorted_by_range(commits);
    lemma_validated_commit_paths(tenant_dir, found.commits, retired, observed, count);
    catalog::lemma_sorted_by_range(commits);
    catalog::lemma_loaded_all(sorted);
    assert(commits.contains(commits[c]));
    assert(commits.to_multiset().count(commits[c]) > 0);
    assert(sorted.contains(commits[c]));
    let at = choose|at: int| 0 <= at < sorted.len() && sorted[at] == commits[c];
    assert(sorted[at].files[f].relative_path == found.commits[c].files[f].relative_path);
}

proof fn lemma_file_paths(files: Seq<RetiredFileView>, path: Seq<char>)
    ensures
        file_paths(files).contains(path) <==> exists|k: int|
            0 <= k < files.len() && (#[trigger] files[k]).relative_path == path,
    decreases files.len(),
{
    if files.len() > 0 {
        let front = files.drop_last();
        lemma_file_paths(front, path);
        if file_paths(files).contains(path) {
            if file_paths(front).contains(path) {
                let k = choose|k: int|
                    0 <= k < front.len() && (#[trigger] front[k]).relative_path == path;
                assert(files[k].relative_path == path);
            } else {
                assert(files[files.len() - 1].relative_path == path);
            }
        }
        if exists|k: int| 0 <= k < files.len() && (#[trigger] files[k]).relative_path == path {
            let k = choose|k: int|
                0 <= k < files.len() && (#[trigger] files[k]).relative_path == path;
            if k < front.len() {
                assert(front[k].relative_path == path);
            }
        }
    }
}

/// A path is hidden where one of the retirements lists it.
proof fn lemma_hidden_paths(retirements: Seq<RetirementView>, path: Seq<char>)
    ensures
        hidden_paths(retirements).contains(path) <==> exists|r: int|
            0 <= r < retirements.len() && file_paths((#[trigger] retirements[r]).files).contains(
                path,
            ),
    decreases retirements.len(),
{
    if retirements.len() > 0 {
        let front = retirements.drop_last();
        lemma_hidden_paths(front, path);
        if hidden_paths(retirements).contains(path) {
            if hidden_paths(front).contains(path) {
                let r = choose|r: int|
                    0 <= r < front.len() && file_paths((#[trigger] front[r]).files).contains(path);
                assert(file_paths(retirements[r].files).contains(path));
            } else {
                assert(file_paths(retirements[retirements.len() - 1].files).contains(path));
            }
        }
        if exists|r: int|
            0 <= r < retirements.len() && file_paths((#[trigger] retirements[r]).files).contains(
                path,
            ) {
            let r = choose|r: int|
                0 <= r < retirements.len() && file_paths(
                    (#[trigger] retirements[r]).files,
                ).contains(path);
            if r < front.len() {
                assert(file_paths(front[r].files).contains(path));
            }
        }
    }
}

/// Recovery hides only files that its catalog names.
pub proof fn recovery_hides_named_files(
    found: RecoveryView,
    tenant: Seq<char>,
    tenant_dir: Seq<char>,
    observed: Seq<Seq<ObservationView>>,
)
    requires
        recovered(found, tenant, tenant_dir, observed) is Ok,
    ensures
        retirements_named(recovered(found, tenant, tenant_dir, observed)->Ok_0),
{
    let first = recovered(found, tenant, tenant_dir, observed)->Ok_0;
    assert forall|path: Seq<char>| #[trigger]
        hidden_paths(first.retirements).contains(path) implies catalog::names_path(
        first.catalog,
        path,
    ) by {
        lemma_hidden_paths(found.retirements, path);
        let r = choose|r: int|
            0 <= r < found.retirements.len() && file_paths(
                (#[trigger] found.retirements[r]).files,
            ).contains(path);
        lemma_file_paths(found.retirements[r].files, path);
        let k = choose|k: int|
            0 <= k < found.retirements[r].files.len() && (
            #[trigger] found.retirements[r].files[k]).relative_path == path;
        let (c, f) = lemma_retirement_named(tenant, found.commits, found.retirements, r, k);
        lemma_named_stays(found, tenant, tenant_dir, observed, c, f);
    }
}

// Recovering again.

/// Each commit with what was observed of its files.
pub open spec fn observed_commits(
    commits: Seq<CommitView>,
    observed: Seq<Seq<ObservationView>>,
) -> Seq<(CommitView, Seq<ObservationView>)> {
    Seq::new(commits.len(), |i: int| (commits[i], observed[i]))
}

/// The range of a retirement.
pub open spec fn retired_range(retirement: RetirementView) -> (u64, u64) {
    (retirement.first_sequence, retirement.next_sequence)
}

/// Whether two recoveries find the same descriptors, in whatever order, and observe the same of the
/// files of each commit.
pub open spec fn same_descriptors(
    found: RecoveryView,
    observed: Seq<Seq<ObservationView>>,
    again: RecoveryView,
    observed_again: Seq<Seq<ObservationView>>,
) -> bool {
    &&& observed_commits(again.commits, observed_again).to_multiset() == observed_commits(
        found.commits,
        observed,
    ).to_multiset()
    &&& again.retirements.to_multiset() == found.retirements.to_multiset()
}

/// Whether `again` is what the next recovery finds, in whatever order, where the first one removed
/// what it removes and nothing was written since: the same descriptors, and the hour files that the
/// catalog names.
pub open spec fn finds_the_rest(
    found: RecoveryView,
    observed: Seq<Seq<ObservationView>>,
    tenant_dir: Seq<char>,
    first: RecoveredView,
    again: RecoveryView,
    observed_again: Seq<Seq<ObservationView>>,
) -> bool {
    &&& again.removed_temporary.len() == 0
    &&& again.removed_corrupt.len() == 0
    &&& same_descriptors(found, observed, again, observed_again)
    &&& again.parquet_paths.to_multiset() == found.parquet_paths.filter(
        |path: Seq<char>| is_referenced(tenant_dir, first.catalog, path),
    ).to_multiset()
}

/// Whether a retirement stands beside commits, whatever other retirements there are.
spec fn stands(tenant: Seq<char>, commits: Seq<CommitView>, retirement: RetirementView) -> bool {
    let commit = commit_of_range(commits, retirement.first_sequence, retirement.next_sequence);
    &&& retirement.tenant == tenant
    &&& commit is Some
    &&& retired_files_fault(commit->0, retirement.files) is None
}

/// Retirements stand together where each stands and no two have one range.
proof fn lemma_retirements_stand(
    tenant: Seq<char>,
    commits: Seq<CommitView>,
    retirements: Seq<RetirementView>,
)
    ensures
        retirements_fault(tenant, commits, retirements) is None <==> {
            &&& forall|r: int|
                0 <= r < retirements.len() ==> stands(tenant, commits, #[trigger] retirements[r])
            &&& retirements.map_values(
                |retirement: RetirementView| retired_range(retirement),
            ).no_duplicates()
        },
    decreases retirements.len(),
{
    let range = |retirement: RetirementView| retired_range(retirement);
    let ranges = retirements.map_values(range);
    if retirements.len() > 0 {
        let front = retirements.drop_last();
        let last = retirements[retirements.len() - 1];
        let before = front.map_values(range);
        lemma_retirements_stand(tenant, commits, front);
        assert(ranges.drop_last() =~= before);
        assert(forall|r: int| 0 <= r < front.len() ==> #[trigger] front[r] == retirements[r]);
        if retirements_fault(tenant, commits, retirements) is None {
            assert forall|i: int, j: int| 0 <= i < j < ranges.len() implies ranges[i]
                != ranges[j] by {
                if j < before.len() {
                    assert(before[i] != before[j]);
                } else {
                    assert(front[i] == retirements[i]);
                    assert(!range_retired(front, last.first_sequence, last.next_sequence));
                }
            }
            assert forall|r: int| 0 <= r < retirements.len() implies stands(
                tenant,
                commits,
                #[trigger] retirements[r],
            ) by {
                if r < front.len() {
                    assert(stands(tenant, commits, front[r]));
                }
            }
        }
        if (forall|r: int|
            0 <= r < retirements.len() ==> stands(tenant, commits, #[trigger] retirements[r]))
            && ranges.no_duplicates() {
            assert forall|r: int| 0 <= r < front.len() implies stands(
                tenant,
                commits,
                #[trigger] front[r],
            ) by {
                assert(stands(tenant, commits, retirements[r]));
            }
            assert forall|i: int, j: int| 0 <= i < j < before.len() implies before[i]
                != before[j] by {
                assert(ranges[i] != ranges[j]);
            }
            assert(before.no_duplicates());
            if range_retired(front, last.first_sequence, last.next_sequence) {
                let i = choose|i: int|
                    0 <= i < front.len() && (#[trigger] front[i]).first_sequence
                        == last.first_sequence && front[i].next_sequence == last.next_sequence;
                assert(ranges[i] == ranges[retirements.len() - 1]);
            }
            assert(stands(tenant, commits, retirements[retirements.len() - 1]));
        }
    }
}

/// What validation makes of one commit.
spec fn validated(
    tenant_dir: Seq<char>,
    retired: Set<Seq<char>>,
    pair: (CommitView, Seq<ObservationView>),
) -> Result<Seq<CommitFileView>, FileFault> {
    validated_files(tenant_dir, pair.0, retired, pair.1, pair.0.files.len())
}

spec fn validation(tenant_dir: Seq<char>, retired: Set<Seq<char>>) -> spec_fn(
    (CommitView, Seq<ObservationView>),
) -> CommitView {
    |pair: (CommitView, Seq<ObservationView>)|
        CommitView { files: validated(tenant_dir, retired, pair)->Ok_0, ..pair.0 }
}

/// Validation takes commit by commit.
proof fn lemma_validated_each(
    tenant_dir: Seq<char>,
    commits: Seq<CommitView>,
    retired: Set<Seq<char>>,
    observed: Seq<Seq<ObservationView>>,
    count: nat,
)
    requires
        count <= commits.len(),
    ensures
        validated_commits(tenant_dir, commits, retired, observed, count) is Ok <==> forall|i: int|
            0 <= i < count ==> validated(
                tenant_dir,
                retired,
                #[trigger] observed_commits(commits, observed)[i],
            ) is Ok,
        validated_commits(tenant_dir, commits, retired, observed, count) is Ok
            ==> validated_commits(tenant_dir, commits, retired, observed, count)->Ok_0
            == observed_commits(commits, observed).take(count as int).map_values(
            validation(tenant_dir, retired),
        ),
    decreases count,
{
    let pairs = observed_commits(commits, observed);
    let change = validation(tenant_dir, retired);
    if count > 0 {
        let at = (count - 1) as nat;
        lemma_validated_each(tenant_dir, commits, retired, observed, at);
        assert(pairs[at as int] == (commits[at as int], observed[at as int]));
        assert(pairs.take(count as int).map_values(change) =~= pairs.take(at as int).map_values(
            change,
        ).push(change(pairs[at as int])));
        if validated_commits(tenant_dir, commits, retired, observed, count) is Ok {
            assert forall|i: int| 0 <= i < count implies validated(
                tenant_dir,
                retired,
                #[trigger] pairs[i],
            ) is Ok by {}
        }
        if forall|i: int|
            0 <= i < count ==> validated(tenant_dir, retired, #[trigger] pairs[i]) is Ok {
            assert(validated(tenant_dir, retired, pairs[at as int]) is Ok);
        }
    } else {
        assert(pairs.take(0).map_values(change) =~= Seq::empty());
    }
}

/// Every element of one sequence is one of another with the same elements.
proof fn lemma_same_members<A>(left: Seq<A>, right: Seq<A>, i: int) -> (k: int)
    requires
        left.to_multiset() == right.to_multiset(),
        0 <= i < left.len(),
    ensures
        0 <= k < right.len(),
        right[k] == left[i],
{
    broadcast use vstd::seq_lib::group_to_multiset_ensures;

    assert(left.contains(left[i]));
    assert(left.to_multiset().count(left[i]) > 0);
    assert(right.contains(left[i]));
    choose|k: int| 0 <= k < right.len() && right[k] == left[i]
}

/// Sequences with the same elements have no duplicates alike.
proof fn lemma_same_no_duplicates<A>(left: Seq<A>, right: Seq<A>)
    requires
        left.to_multiset() == right.to_multiset(),
        right.no_duplicates(),
    ensures
        left.no_duplicates(),
{
    right.lemma_multiset_has_no_duplicates();
    left.lemma_multiset_has_no_duplicates_conv();
}

/// Where ranges differ, the commit of a range does not depend on the order.
proof fn lemma_commit_of_range_any_order(
    left: Seq<CommitView>,
    right: Seq<CommitView>,
    first: u64,
    next: u64,
)
    requires
        left.to_multiset() == right.to_multiset(),
        right.map_values(|commit: CommitView| catalog::range_of(commit)).no_duplicates(),
        commit_of_range(right, first, next) is Some,
    ensures
        commit_of_range(left, first, next) == commit_of_range(right, first, next),
{
    let ranges = right.map_values(|commit: CommitView| catalog::range_of(commit));
    let at = lemma_commit_of_range(right, first, next);
    lemma_commit_has_range(right, first, next);
    let place = lemma_same_members(right, left, at);
    lemma_commit_of_range_found(left, first, next, place);
    let other = lemma_commit_of_range(left, first, next);
    lemma_commit_has_range(left, first, next);
    let k = lemma_same_members(left, right, other);
    assert(ranges[k] == ranges[at]);
}

proof fn lemma_commit_has_range(commits: Seq<CommitView>, first: u64, next: u64)
    requires
        commit_of_range(commits, first, next) is Some,
    ensures
        catalog::range_of(commit_of_range(commits, first, next)->0) == (first, next),
    decreases commits.len(),
{
    if !(commits[0].first_sequence == first && commits[0].next_sequence == next) {
        lemma_commit_has_range(commits.drop_first(), first, next);
    }
}

proof fn lemma_commit_of_range_found(commits: Seq<CommitView>, first: u64, next: u64, at: int)
    requires
        0 <= at < commits.len(),
        catalog::range_of(commits[at]) == (first, next),
    ensures
        commit_of_range(commits, first, next) is Some,
    decreases commits.len(),
{
    if !(commits[0].first_sequence == first && commits[0].next_sequence == next) {
        assert(commits.drop_first()[at - 1] == commits[at]);
        lemma_commit_of_range_found(commits.drop_first(), first, next, at - 1);
    }
}

/// The ranges of what was found differ where it loads.
proof fn lemma_found_ranges_differ(
    found: RecoveryView,
    tenant: Seq<char>,
    tenant_dir: Seq<char>,
    observed: Seq<Seq<ObservationView>>,
)
    requires
        recovered(found, tenant, tenant_dir, observed) is Ok,
        catalog::ranges_filled(found.commits),
    ensures
        ({
            let retired = hidden_paths(found.retirements);
            let commits = validated_commits(
                tenant_dir,
                found.commits,
                retired,
                observed,
                found.commits.len(),
            )->Ok_0;
            let sorted = catalog::sorted_by_range(commits);
            &&& sorted.to_multiset() == commits.to_multiset()
            &&& catalog::contiguous(sorted)
            &&& catalog::ranges_filled(sorted)
            &&& catalog::loaded(sorted) == Ok::<Seq<CommitView>, CatalogError>(sorted)
        }),
        found.commits.map_values(|commit: CommitView| catalog::range_of(commit)).no_duplicates(),
{
    let range = |commit: CommitView| catalog::range_of(commit);
    let retired = hidden_paths(found.retirements);
    let count = found.commits.len();
    let commits = validated_commits(tenant_dir, found.commits, retired, observed, count)->Ok_0;
    let sorted = catalog::sorted_by_range(commits);
    let pairs = observed_commits(found.commits, observed);
    lemma_validated_each(tenant_dir, found.commits, retired, observed, count);
    assert(pairs.take(count as int) =~= pairs);
    catalog::lemma_sorted_by_range(commits);
    catalog::lemma_loaded_all(sorted);
    assert forall|i: int| 0 <= i < sorted.len() implies (#[trigger] sorted[i]).first_sequence
        < sorted[i].next_sequence by {
        let k = lemma_same_members(sorted, commits, i);
        assert(found.commits[k].first_sequence < found.commits[k].next_sequence);
        assert(commits[k] == validation(tenant_dir, retired)(pairs[k]));
    }
    catalog::lemma_ranges_differ(sorted);
    arrange::lemma_bag_of_map(commits, sorted, range);
    lemma_same_no_duplicates(commits.map_values(range), sorted.map_values(range));
    assert forall|i: int| 0 <= i < count implies found.commits.map_values(range)[i]
        == #[trigger] commits.map_values(range)[i] by {
        assert(commits[i] == validation(tenant_dir, retired)(pairs[i]));
    }
    assert(found.commits.map_values(range) =~= commits.map_values(range));
}

/// Recovering again changes nothing: whatever the order in which the next recovery finds what the
/// first one left, it gives the same catalog and the same retirements, and removes nothing. Neither
/// removes an hour file that a commit descriptor or a retirement descriptor names.
pub proof fn recovering_again_changes_nothing(
    found: RecoveryView,
    observed: Seq<Seq<ObservationView>>,
    again: RecoveryView,
    observed_again: Seq<Seq<ObservationView>>,
    tenant: Seq<char>,
    tenant_dir: Seq<char>,
)
    requires
        catalog::ranges_filled(found.commits),
        recovered(found, tenant, tenant_dir, observed) is Ok,
        finds_the_rest(
            found,
            observed,
            tenant_dir,
            recovered(found, tenant, tenant_dir, observed)->Ok_0,
            again,
            observed_again,
        ),
    ensures
        ({
            let first = recovered(found, tenant, tenant_dir, observed)->Ok_0;
            let second = recovered(again, tenant, tenant_dir, observed_again);
            &&& second is Ok
            &&& second->Ok_0.catalog == first.catalog
            &&& second->Ok_0.retirements.to_multiset() == first.retirements.to_multiset()
            &&& second->Ok_0.removed_temporary.len() == 0
            &&& second->Ok_0.removed_corrupt.len() == 0
            &&& second->Ok_0.removed_orphans.len() == 0
            &&& forall|c: int, f: int|
                0 <= c < found.commits.len() && 0 <= f < found.commits[c].files.len()
                    ==> !first.removed_orphans.contains(
                    layout::join_path(
                        tenant_dir,
                        (#[trigger] found.commits[c].files[f]).relative_path,
                    ),
                )
            &&& forall|r: int, k: int|
                0 <= r < found.retirements.len() && 0 <= k < found.retirements[r].files.len()
                    ==> !first.removed_orphans.contains(
                    layout::join_path(
                        tenant_dir,
                        (#[trigger] found.retirements[r].files[k]).relative_path,
                    ),
                )
        }),
{
    let first = recovered(found, tenant, tenant_dir, observed)->Ok_0;
    lemma_settles_again(found, observed, again, observed_again, tenant, tenant_dir);
    let keep = |path: Seq<char>| is_referenced(tenant_dir, first.catalog, path);
    let leave = |path: Seq<char>| !is_referenced(tenant_dir, first.catalog, path);
    let kept = found.parquet_paths.filter(keep);
    let orphans = orphans_of(tenant_dir, first.catalog, again.parquet_paths);
    if orphans.len() > 0 {
        again.parquet_paths.lemma_filter_pred(leave, 0);
        assert(orphans.contains(orphans[0]));
        again.parquet_paths.lemma_filter_contains_rev(leave, orphans[0]);
        let k = choose|k: int|
            0 <= k < again.parquet_paths.len() && again.parquet_paths[k] == orphans[0];
        let at = lemma_same_members(again.parquet_paths, kept, k);
        found.parquet_paths.lemma_filter_pred(keep, at);
    }
    assert forall|path: Seq<char>| is_referenced(tenant_dir, first.catalog, path) implies
    !first.removed_orphans.contains(path) by {
        if first.removed_orphans.contains(path) {
            let k = choose|k: int|
                0 <= k < first.removed_orphans.len() && first.removed_orphans[k] == path;
            found.parquet_paths.lemma_filter_pred(leave, k);
        }
    }
    assert forall|c: int, f: int|
        0 <= c < found.commits.len() && 0 <= f
            < found.commits[c].files.len() implies !first.removed_orphans.contains(
        layout::join_path(tenant_dir, (#[trigger] found.commits[c].files[f]).relative_path),
    ) by {
        lemma_named_stays(found, tenant, tenant_dir, observed, c, f);
    }
    assert forall|r: int, k: int|
        0 <= r < found.retirements.len() && 0 <= k
            < found.retirements[r].files.len() implies !first.removed_orphans.contains(
        layout::join_path(tenant_dir, (#[trigger] found.retirements[r].files[k]).relative_path),
    ) by {
        let (c, f) = lemma_retirement_named(tenant, found.commits, found.retirements, r, k);
        lemma_named_stays(found, tenant, tenant_dir, observed, c, f);
    }
}

/// Recovery from the same descriptors loads the same catalog.
proof fn lemma_settles_again(
    found: RecoveryView,
    observed: Seq<Seq<ObservationView>>,
    again: RecoveryView,
    observed_again: Seq<Seq<ObservationView>>,
    tenant: Seq<char>,
    tenant_dir: Seq<char>,
)
    requires
        catalog::ranges_filled(found.commits),
        recovered(found, tenant, tenant_dir, observed) is Ok,
        same_descriptors(found, observed, again, observed_again),
    ensures
        recovered(again, tenant, tenant_dir, observed_again) is Ok,
        recovered(again, tenant, tenant_dir, observed_again)->Ok_0.catalog == recovered(
            found,
            tenant,
            tenant_dir,
            observed,
        )->Ok_0.catalog,
{
    let retired = hidden_paths(found.retirements);
    let pairs = observed_commits(found.commits, observed);
    let others = observed_commits(again.commits, observed_again);
    let commit_in = |pair: (CommitView, Seq<ObservationView>)| pair.0;
    lemma_found_ranges_differ(found, tenant, tenant_dir, observed);

    // The same commits, in another order.
    arrange::lemma_bag_of_map(others, pairs, commit_in);
    assert(pairs.map_values(commit_in) =~= found.commits);
    assert(others.map_values(commit_in) =~= again.commits);

    // The retirements stand.
    let range = |retirement: RetirementView| retired_range(retirement);
    lemma_retirements_stand(tenant, found.commits, found.retirements);
    arrange::lemma_bag_of_map(again.retirements, found.retirements, range);
    lemma_same_no_duplicates(
        again.retirements.map_values(range),
        found.retirements.map_values(range),
    );
    assert forall|r: int| 0 <= r < again.retirements.len() implies stands(
        tenant,
        again.commits,
        #[trigger] again.retirements[r],
    ) by {
        let k = lemma_same_members(again.retirements, found.retirements, r);
        let retirement = found.retirements[k];
        assert(stands(tenant, found.commits, retirement));
        lemma_commit_of_range_any_order(
            again.commits,
            found.commits,
            retirement.first_sequence,
            retirement.next_sequence,
        );
    }
    lemma_retirements_stand(tenant, again.commits, again.retirements);

    // They hide the same files.
    assert forall|path: Seq<char>|
        hidden_paths(again.retirements).contains(path) <==> retired.contains(path) by {
        lemma_hidden_paths(again.retirements, path);
        lemma_hidden_paths(found.retirements, path);
        if hidden_paths(again.retirements).contains(path) {
            let r = choose|r: int|
                0 <= r < again.retirements.len() && file_paths(
                    (#[trigger] again.retirements[r]).files,
                ).contains(path);
            let k = lemma_same_members(again.retirements, found.retirements, r);
            assert(file_paths(found.retirements[k].files).contains(path));
        }
        if retired.contains(path) {
            let r = choose|r: int|
                0 <= r < found.retirements.len() && file_paths(
                    (#[trigger] found.retirements[r]).files,
                ).contains(path);
            let k = lemma_same_members(found.retirements, again.retirements, r);
            assert(file_paths(again.retirements[k].files).contains(path));
        }
    }
    assert(hidden_paths(again.retirements) =~= retired);

    // The files pass, and the commits load in the order of their ranges.
    let count = found.commits.len();
    lemma_validated_each(tenant_dir, found.commits, retired, observed, count);
    lemma_validated_each(
        tenant_dir,
        again.commits,
        retired,
        observed_again,
        again.commits.len(),
    );
    assert(pairs.take(count as int) =~= pairs);
    assert(others.take(again.commits.len() as int) =~= others);
    assert forall|i: int| 0 <= i < again.commits.len() implies validated(
        tenant_dir,
        retired,
        #[trigger] others[i],
    ) is Ok by {
        let k = lemma_same_members(others, pairs, i);
        assert(validated(tenant_dir, retired, pairs[k]) is Ok);
    }
    let change = validation(tenant_dir, retired);
    arrange::lemma_bag_of_map(others, pairs, change);
    let commits = pairs.map_values(change);
    let commits_again = others.map_values(change);
    catalog::lemma_sorted_by_range(commits_again);
    catalog::lemma_one_order(
        catalog::sorted_by_range(commits_again),
        catalog::sorted_by_range(commits),
    );
}

/// The order in which recovery finds descriptors changes neither whether it succeeds nor what it
/// loads.
pub proof fn listing_order_does_not_matter(
    found: RecoveryView,
    observed: Seq<Seq<ObservationView>>,
    again: RecoveryView,
    observed_again: Seq<Seq<ObservationView>>,
    tenant: Seq<char>,
    tenant_dir: Seq<char>,
)
    requires
        catalog::ranges_filled(found.commits),
        same_descriptors(found, observed, again, observed_again),
    ensures
        match recovered(found, tenant, tenant_dir, observed) {
            Ok(first) => {
                let second = recovered(again, tenant, tenant_dir, observed_again);
                &&& second is Ok
                &&& second->Ok_0.catalog == first.catalog
                &&& second->Ok_0.retirements.to_multiset() == first.retirements.to_multiset()
            },
            Err(_) => recovered(again, tenant, tenant_dir, observed_again) is Err,
        },
{
    let pairs = observed_commits(found.commits, observed);
    let others = observed_commits(again.commits, observed_again);
    if recovered(found, tenant, tenant_dir, observed) is Ok {
        lemma_settles_again(found, observed, again, observed_again, tenant, tenant_dir);
    } else if recovered(again, tenant, tenant_dir, observed_again) is Ok {
        assert forall|i: int| 0 <= i < again.commits.len() implies (
        #[trigger] again.commits[i]).first_sequence < again.commits[i].next_sequence by {
            let k = lemma_same_members(others, pairs, i);
            assert(pairs[k].0 == found.commits[k]);
            assert(others[i].0 == again.commits[i]);
        }
        lemma_settles_again(again, observed_again, found, observed, tenant, tenant_dir);
    }
}

/// A crash before the commit descriptor is in place leaves the published catalog as it was:
/// temporary files, hour files and corrupt descriptors change nothing of what recovery loads, nor
/// whether it fails.
pub proof fn unfinished_publications_change_nothing(
    found: RecoveryView,
    more: RecoveryView,
    tenant: Seq<char>,
    tenant_dir: Seq<char>,
    observed: Seq<Seq<ObservationView>>,
)
    requires
        more.commits == found.commits,
        more.retirements == found.retirements,
    ensures
        match recovered(found, tenant, tenant_dir, observed) {
            Ok(before) => {
                let after = recovered(more, tenant, tenant_dir, observed);
                &&& after is Ok
                &&& after->Ok_0.catalog == before.catalog
                &&& after->Ok_0.retirements == before.retirements
            },
            Err(fault) => recovered(more, tenant, tenant_dir, observed) == Err::<
                RecoveredView,
                RecoveryFault,
            >(fault),
        },
{
}

/// Recovery keeps the names of files: where every commit descriptor names the files of its range, so
/// does the catalog.
pub proof fn recovery_keeps_file_names(
    found: RecoveryView,
    tenant: Seq<char>,
    tenant_dir: Seq<char>,
    observed: Seq<Seq<ObservationView>>,
)
    requires
        recovered(found, tenant, tenant_dir, observed) is Ok,
        publication::all_bear_range(found.commits),
    ensures
        publication::all_bear_range(recovered(found, tenant, tenant_dir, observed)->Ok_0.catalog),
{
    let retired = hidden_paths(found.retirements);
    let count = found.commits.len();
    let commits = validated_commits(tenant_dir, found.commits, retired, observed, count)->Ok_0;
    let sorted = catalog::sorted_by_range(commits);
    let pairs = observed_commits(found.commits, observed);
    lemma_validated_commit_paths(tenant_dir, found.commits, retired, observed, count);
    lemma_validated_each(tenant_dir, found.commits, retired, observed, count);
    assert(pairs.take(count as int) =~= pairs);
    catalog::lemma_sorted_by_range(commits);
    catalog::lemma_loaded_all(sorted);
    assert forall|c: int| 0 <= c < sorted.len() implies publication::bears_range(
        #[trigger] sorted[c],
    ) by {
        let k = lemma_same_members(sorted, commits, c);
        assert(publication::bears_range(found.commits[k]));
        assert(commits[k] == validation(tenant_dir, retired)(pairs[k]));
        assert forall|f: int| 0 <= f < sorted[c].files.len() implies layout::ends_in(
            (#[trigger] sorted[c].files[f]).relative_path,
            layout::range_name(sorted[c].first_sequence, sorted[c].next_sequence, ".parquet"@),
        ) by {
            assert(commits[k].files[f].relative_path == found.commits[k].files[f].relative_path);
        }
    }
}

// What recovery accepts.

/// Whether a retirement lists this path.
pub open spec fn some_retirement_lists(retirements: Seq<RetirementView>, path: Seq<char>) -> bool {
    exists|r: int, k: int|
        0 <= r < retirements.len() && 0 <= k < retirements[r].files.len() && (
        #[trigger] retirements[r].files[k]).relative_path == path
}

/// Retirements hide the paths that they list, and no others.
pub proof fn retirements_hide_what_they_list(retirements: Seq<RetirementView>, path: Seq<char>)
    ensures
        hidden_paths(retirements).contains(path) <==> some_retirement_lists(retirements, path),
{
    lemma_hidden_paths(retirements, path);
    if hidden_paths(retirements).contains(path) {
        let r = choose|r: int|
            0 <= r < retirements.len() && file_paths((#[trigger] retirements[r]).files).contains(
                path,
            );
        lemma_file_paths(retirements[r].files, path);
        let k = choose|k: int|
            0 <= k < retirements[r].files.len() && (
            #[trigger] retirements[r].files[k]).relative_path == path;
        assert(retirements[r].files[k].relative_path == path);
    }
    if some_retirement_lists(retirements, path) {
        let (r, k) = choose|r: int, k: int|
            0 <= r < retirements.len() && 0 <= k < retirements[r].files.len() && (
            #[trigger] retirements[r].files[k]).relative_path == path;
        lemma_file_paths(retirements[r].files, path);
    }
}

/// Whether the metadata of a file says that it is this file of this commit: the version of the
/// projection, the fingerprint, the sequence range, the rows, and the hour.
pub open spec fn says_its_commit(
    metadata: Seq<(Seq<char>, Seq<char>)>,
    commit: CommitView,
    file: CommitFileView,
) -> bool {
    &&& sorted::lookup(metadata, parquet::META_PROJECTION_VERSION@) == Some(
        text::decimal_text(commit.projection_version as nat),
    )
    &&& sorted::lookup(metadata, parquet::META_FINGERPRINT@) == Some(commit.fingerprint)
    &&& sorted::lookup(metadata, parquet::META_WAL_FIRST_SEQUENCE@) == Some(
        text::decimal_text(commit.first_sequence as nat),
    )
    &&& sorted::lookup(metadata, parquet::META_WAL_NEXT_SEQUENCE@) == Some(
        text::decimal_text(commit.next_sequence as nat),
    )
    &&& sorted::lookup(metadata, parquet::META_ROW_COUNT@) == Some(
        text::decimal_text(file.rows as nat),
    )
    &&& sorted::lookup(metadata, parquet::META_HOUR_START_UNIX_NANO@) == Some(
        text::decimal_text(file.hour as nat),
    )
    &&& sorted::lookup(metadata, parquet::META_HOUR_END_UNIX_NANO@) == Some(
        text::decimal_text(layout::hour_end(file.hour) as nat),
    )
}

/// A published file passes exactly where it is there and says that it is this file of its commit, or is
/// gone after it was retired. Its statistics stay unless they were taken of a file of another size.
pub proof fn only_matching_files_pass(
    path: Seq<char>,
    commit: CommitView,
    file: CommitFileView,
    retired: bool,
    observed: ObservationView,
)
    ensures
        ({
            let verdict = file_verdict(path, commit, file, retired, observed);
            match observed {
                ObservationView::Missing => (verdict is Ok <==> retired) && (retired ==> verdict->Ok_0
                    == file.statistics),
                ObservationView::Unreadable(_) => verdict is Err,
                ObservationView::Present { metadata, size } => {
                    &&& verdict is Ok <==> size is Ok && says_its_commit(metadata, commit, file)
                    &&& verdict is Ok ==> verdict->Ok_0 == if file.statistics is Some
                        && file.statistics->0.size_bytes == size->Ok_0 {
                        file.statistics
                    } else {
                        None
                    }
                },
            }
        }),
{
    if let ObservationView::Present { metadata, size } = observed {
        let expected = expected_metadata(commit, file);
        lemma_all_keys_match(metadata, expected);
        assert(expected[0] == (
            parquet::META_PROJECTION_VERSION@,
            text::decimal_text(commit.projection_version as nat),
        ));
        assert(expected[1] == (parquet::META_FINGERPRINT@, commit.fingerprint));
        assert(expected[2] == (
            parquet::META_WAL_FIRST_SEQUENCE@,
            text::decimal_text(commit.first_sequence as nat),
        ));
        assert(expected[3] == (
            parquet::META_WAL_NEXT_SEQUENCE@,
            text::decimal_text(commit.next_sequence as nat),
        ));
        assert(expected[4] == (parquet::META_ROW_COUNT@, text::decimal_text(file.rows as nat)));
        assert(expected[5] == (
            parquet::META_HOUR_START_UNIX_NANO@,
            text::decimal_text(file.hour as nat),
        ));
        assert(expected[6] == (
            parquet::META_HOUR_END_UNIX_NANO@,
            text::decimal_text(layout::hour_end(file.hour) as nat),
        ));
        assert(expected.len() == 7);
        assert(says_its_commit(metadata, commit, file) <==> forall|i: int|
            0 <= i < expected.len() ==> sorted::lookup(metadata, (#[trigger] expected[i]).0) == Some(
                expected[i].1,
            ));
    }
}

proof fn lemma_all_keys_match(
    metadata: Seq<(Seq<char>, Seq<char>)>,
    expected: Seq<(Seq<char>, Seq<char>)>,
)
    ensures
        mismatched_key(metadata, expected) is None <==> forall|i: int|
            0 <= i < expected.len() ==> sorted::lookup(metadata, (#[trigger] expected[i]).0) == Some(
                expected[i].1,
            ),
    decreases expected.len(),
{
    if expected.len() > 0 {
        let front = expected.drop_last();
        let end = expected.len() - 1;
        lemma_all_keys_match(metadata, front);
        assert(forall|i: int| 0 <= i < front.len() ==> front[i] == #[trigger] expected[i]);
        assert(expected[end] == expected.last());
        if mismatched_key(metadata, front) is Some {
            let i = choose|i: int|
                0 <= i < front.len() && sorted::lookup(metadata, (#[trigger] front[i]).0) != Some(
                    front[i].1,
                );
            assert(sorted::lookup(metadata, expected[i].0) != Some(expected[i].1));
        } else {
            assert forall|i: int| 0 <= i < front.len() implies sorted::lookup(
                metadata,
                (#[trigger] expected[i]).0,
            ) == Some(expected[i].1) by {
                assert(front[i] == expected[i]);
            }
        }
    }
}

/// The metadata of a written hour file says that it is this file of the commit of its generation.
pub proof fn written_metadata_says_its_commit(
    generation: GenerationView,
    commit: CommitView,
    file: CommitFileView,
)
    requires
        commit.projection_version == PROJECTION_VERSION,
        commit.fingerprint == generation.fingerprint,
        commit.first_sequence == generation.first_sequence,
        commit.next_sequence == generation.next_sequence,
    ensures
        says_its_commit(
            parquet::file_schema_of(generation, file.hour, file.rows).metadata,
            commit,
            file,
        ),
{
    lemma_written_metadata(generation, commit, file);
    only_matching_files_pass(
        Seq::empty(),
        commit,
        file,
        false,
        ObservationView::Present {
            metadata: parquet::file_schema_of(generation, file.hour, file.rows).metadata,
            size: Ok(0),
        },
    );
}

/// The name of a file tells what it is, whatever stands in front of its ending.
pub proof fn endings_tell_the_kind(stem: Seq<char>)
    ensures
        kind_of(stem + ".parquet"@) == FileKind::Parquet,
        kind_of(stem + ".commit"@) == FileKind::Commit,
        kind_of(stem + ".retire"@) == FileKind::Retirement,
        kind_of(stem + ".parquet"@ + ".tmp"@) == FileKind::Temporary,
        kind_of(stem + ".commit"@ + ".tmp"@) == FileKind::Temporary,
        kind_of(stem + ".retire"@ + ".tmp"@) == FileKind::Temporary,
{
    reveal_strlit(".parquet");
    reveal_strlit(".commit");
    reveal_strlit(".retire");
    reveal_strlit(".tmp");
    reveal_strlit(".parquet.tmp");
    reveal_strlit(".commit.tmp");
    reveal_strlit(".retire.tmp");
    lemma_ending(stem, ".parquet"@);
    lemma_ending(stem, ".commit"@);
    lemma_ending(stem, ".retire"@);
    assert(".parquet"@ + ".tmp"@ =~= ".parquet.tmp"@);
    assert(".commit"@ + ".tmp"@ =~= ".commit.tmp"@);
    assert(".retire"@ + ".tmp"@ =~= ".retire.tmp"@);
    assert(stem + ".parquet"@ + ".tmp"@ =~= stem + ".parquet.tmp"@);
    assert(stem + ".commit"@ + ".tmp"@ =~= stem + ".commit.tmp"@);
    assert(stem + ".retire"@ + ".tmp"@ =~= stem + ".retire.tmp"@);
    lemma_ending(stem, ".parquet.tmp"@);
    lemma_ending(stem, ".commit.tmp"@);
    lemma_ending(stem, ".retire.tmp"@);
    lemma_other_ending(stem, ".parquet"@, ".parquet.tmp"@);
    lemma_other_ending(stem, ".parquet"@, ".commit.tmp"@);
    lemma_other_ending(stem, ".parquet"@, ".retire.tmp"@);
    lemma_other_ending(stem, ".parquet"@, ".retire"@);
    lemma_other_ending(stem, ".parquet"@, ".commit"@);
    lemma_other_ending(stem, ".commit"@, ".parquet.tmp"@);
    lemma_other_ending(stem, ".commit"@, ".commit.tmp"@);
    lemma_other_ending(stem, ".commit"@, ".retire.tmp"@);
    lemma_other_ending(stem, ".commit"@, ".retire"@);
    lemma_other_ending(stem, ".retire"@, ".parquet.tmp"@);
    lemma_other_ending(stem, ".retire"@, ".commit.tmp"@);
    lemma_other_ending(stem, ".retire"@, ".retire.tmp"@);
}

proof fn lemma_ending(stem: Seq<char>, ending: Seq<char>)
    ensures
        ends_with_text(stem + ending, ending),
{
    assert((stem + ending).skip(stem.len() as int) =~= ending);
}

proof fn lemma_other_ending(stem: Seq<char>, ending: Seq<char>, other: Seq<char>)
    requires
        ending.len() > 1,
        other.len() > 1,
        ending[ending.len() - 1] != other[other.len() - 1] || ending[ending.len() - 2]
            != other[other.len() - 2],
    ensures
        !ends_with_text(stem + ending, other),
{
    let name = stem + ending;
    if name.len() >= other.len() {
        let tail = name.skip(name.len() - other.len());
        assert(tail[other.len() - 1] == ending[ending.len() - 1]);
        assert(tail[other.len() - 2] == ending[ending.len() - 2]);
    }
}

/// Whether a retirement of this tenant is of a published commit, and each file that it lists is one of
/// that commit with as many rows.
pub open spec fn retires_published_files(
    tenant: Seq<char>,
    commits: Seq<CommitView>,
    retirement: RetirementView,
) -> bool {
    &&& retirement.tenant == tenant
    &&& exists|c: int|
        0 <= c < commits.len() && (#[trigger] commits[c]).first_sequence
            == retirement.first_sequence && commits[c].next_sequence == retirement.next_sequence
            && lists_only_files_of(commits[c], retirement)
}

/// Whether each file that a retirement lists is one of the commit, with as many rows.
pub open spec fn lists_only_files_of(commit: CommitView, retirement: RetirementView) -> bool {
    forall|k: int|
        0 <= k < retirement.files.len() ==> is_file_of(commit, #[trigger] retirement.files[k])
}

/// Whether a commit has a file of this path with as many rows.
pub open spec fn is_file_of(commit: CommitView, file: RetiredFileView) -> bool {
    exists|f: int|
        0 <= f < commit.files.len() && (#[trigger] commit.files[f]).relative_path
            == file.relative_path && commit.files[f].rows == file.rows
}

proof fn lemma_files_fault(commit: CommitView, files: Seq<RetiredFileView>)
    ensures
        retired_files_fault(commit, files) is None <==> forall|k: int|
            0 <= k < files.len() ==> retired_file_fault(commit, #[trigger] files[k]) is None,
    decreases files.len(),
{
    if files.len() > 0 {
        let front = files.drop_last();
        let end = files.len() - 1;
        lemma_files_fault(commit, front);
        assert(forall|k: int| 0 <= k < front.len() ==> front[k] == #[trigger] files[k]);
        assert(files[end] == files.last());
        if retired_files_fault(commit, front) is Some {
            let k = choose|k: int|
                0 <= k < front.len() && retired_file_fault(commit, #[trigger] front[k]) is Some;
            assert(retired_file_fault(commit, files[k]) is Some);
        } else {
            assert forall|k: int| 0 <= k < front.len() implies retired_file_fault(
                commit,
                #[trigger] files[k],
            ) is None by {
                assert(front[k] == files[k]);
            }
        }
    }
}

/// Retirements stand together only where no two are of one range and each retires published files of the
/// tenant.
pub proof fn standing_retirements_match_commits(
    tenant: Seq<char>,
    commits: Seq<CommitView>,
    retirements: Seq<RetirementView>,
    r: int,
    q: int,
)
    requires
        retirements_fault(tenant, commits, retirements) is None,
        0 <= r < retirements.len(),
    ensures
        retires_published_files(tenant, commits, retirements[r]),
        0 <= q < retirements.len() && q != r ==> !(retirements[q].first_sequence
            == retirements[r].first_sequence && retirements[q].next_sequence
            == retirements[r].next_sequence),
{
    lemma_retirements_stand(tenant, commits, retirements);
    let retirement = retirements[r];
    assert(stands(tenant, commits, retirement));
    let c = lemma_commit_of_range(
        commits,
        retirement.first_sequence,
        retirement.next_sequence,
    );
    lemma_commit_has_range(commits, retirement.first_sequence, retirement.next_sequence);
    lemma_files_fault(commits[c], retirement.files);
    assert forall|k: int| 0 <= k < retirement.files.len() implies is_file_of(
        commits[c],
        #[trigger] retirement.files[k],
    ) by {
        assert(retired_file_fault(commits[c], retirement.files[k]) is None);
        let f = lemma_file_of_path(commits[c].files, retirement.files[k].relative_path);
        assert(commits[c].files[f].rows == retirement.files[k].rows);
    }
    assert(lists_only_files_of(commits[c], retirement));
    let range = |retirement: RetirementView| retired_range(retirement);
    let ranges = retirements.map_values(range);
    if 0 <= q < retirements.len() && q != r {
        assert(ranges[q] != ranges[r]);
    }
}

/// Retirements that each retire published files stand together where no two are of one range, no two
/// commits have one range, and no commit has two files of one path.
pub proof fn matching_retirements_stand(
    tenant: Seq<char>,
    commits: Seq<CommitView>,
    retirements: Seq<RetirementView>,
)
    requires
        forall|r: int|
            0 <= r < retirements.len() ==> retires_published_files(
                tenant,
                commits,
                #[trigger] retirements[r],
            ),
        forall|q: int, r: int|
            0 <= q < r < retirements.len() ==> retired_range(#[trigger] retirements[q])
                != retired_range(#[trigger] retirements[r]),
        forall|c: int, d: int|
            0 <= c < d < commits.len() ==> catalog::range_of(#[trigger] commits[c])
                != catalog::range_of(#[trigger] commits[d]),
        forall|c: int, f: int, g: int|
            0 <= c < commits.len() && 0 <= f < g < commits[c].files.len() ==> (
            #[trigger] commits[c].files[f]).relative_path != (
            #[trigger] commits[c].files[g]).relative_path,
    ensures
        retirements_fault(tenant, commits, retirements) is None,
{
    lemma_retirements_stand(tenant, commits, retirements);
    let range = |retirement: RetirementView| retired_range(retirement);
    let ranges = retirements.map_values(range);
    assert forall|i: int, j: int| 0 <= i < ranges.len() && 0 <= j < ranges.len() && i
        != j implies ranges[i] != ranges[j] by {
        if i < j {
            assert(retired_range(retirements[i]) != retired_range(retirements[j]));
        } else {
            assert(retired_range(retirements[j]) != retired_range(retirements[i]));
        }
    }
    assert forall|r: int| 0 <= r < retirements.len() implies stands(
        tenant,
        commits,
        #[trigger] retirements[r],
    ) by {
        let retirement = retirements[r];
        assert(retires_published_files(tenant, commits, retirement));
        let c = choose|c: int|
            0 <= c < commits.len() && (#[trigger] commits[c]).first_sequence
                == retirement.first_sequence && commits[c].next_sequence
                == retirement.next_sequence && lists_only_files_of(commits[c], retirement);
        lemma_first_of_range(
            commits,
            retirement.first_sequence,
            retirement.next_sequence,
            c,
        );
        lemma_files_fault(commits[c], retirement.files);
        assert forall|k: int| 0 <= k < retirement.files.len() implies retired_file_fault(
            commits[c],
            #[trigger] retirement.files[k],
        ) is None by {
            let file = retirement.files[k];
            assert(is_file_of(commits[c], file));
            let f = choose|f: int|
                0 <= f < commits[c].files.len() && (#[trigger] commits[c].files[f]).relative_path
                    == file.relative_path && commits[c].files[f].rows == file.rows;
            lemma_first_of_path(commits[c].files, file.relative_path, f);
        }
    }
}

proof fn lemma_first_of_range(commits: Seq<CommitView>, first: u64, next: u64, at: int)
    requires
        0 <= at < commits.len(),
        catalog::range_of(commits[at]) == (first, next),
        forall|c: int, d: int|
            0 <= c < d < commits.len() ==> catalog::range_of(#[trigger] commits[c])
                != catalog::range_of(#[trigger] commits[d]),
    ensures
        commit_of_range(commits, first, next) == Some(commits[at]),
    decreases commits.len(),
{
    if at > 0 {
        assert(catalog::range_of(commits[0]) != catalog::range_of(commits[at]));
        let rest = commits.drop_first();
        assert forall|c: int, d: int| 0 <= c < d < rest.len() implies catalog::range_of(
            #[trigger] rest[c],
        ) != catalog::range_of(#[trigger] rest[d]) by {
            assert(rest[c] == commits[c + 1] && rest[d] == commits[d + 1]);
        }
        lemma_first_of_range(rest, first, next, at - 1);
    }
}

proof fn lemma_first_of_path(files: Seq<CommitFileView>, path: Seq<char>, at: int)
    requires
        0 <= at < files.len(),
        files[at].relative_path == path,
        forall|f: int, g: int|
            0 <= f < g < files.len() ==> (#[trigger] files[f]).relative_path != (
            #[trigger] files[g]).relative_path,
    ensures
        file_of_path(files, path) == Some(files[at]),
    decreases files.len(),
{
    if at > 0 {
        assert(files[0].relative_path != files[at].relative_path);
        let rest = files.drop_first();
        assert forall|f: int, g: int| 0 <= f < g < rest.len() implies (
        #[trigger] rest[f]).relative_path != (#[trigger] rest[g]).relative_path by {
            assert(rest[f] == files[f + 1] && rest[g] == files[g + 1]);
        }
        lemma_first_of_path(rest, path, at - 1);
    }
}

proof fn lemma_validated_verdicts(
    tenant_dir: Seq<char>,
    commit: CommitView,
    retired: Set<Seq<char>>,
    observed: Seq<ObservationView>,
    count: nat,
)
    requires
        count <= commit.files.len(),
    ensures
        ({
            let found = validated_files(tenant_dir, commit, retired, observed, count);
            &&& found is Ok <==> forall|f: int|
                0 <= f < count ==> verdict_at(
                    tenant_dir,
                    commit,
                    retired,
                    observed,
                    f,
                ) is Ok
            &&& found is Ok ==> found->Ok_0.len() == count && forall|f: int|
                0 <= f < count ==> (#[trigger] found->Ok_0[f]) == (CommitFileView {
                    statistics: verdict_at(tenant_dir, commit, retired, observed, f)->Ok_0,
                    ..commit.files[f]
                })
        }),
    decreases count,
{
    if count > 0 {
        let at = (count - 1) as nat;
        lemma_validated_verdicts(tenant_dir, commit, retired, observed, at);
        if validated_files(tenant_dir, commit, retired, observed, at) is Err {
            let f = choose|f: int|
                0 <= f < at && verdict_at(tenant_dir, commit, retired, observed, f) is Err;
            assert(verdict_at(tenant_dir, commit, retired, observed, f) is Err);
        } else {
            assert(verdict_at(tenant_dir, commit, retired, observed, at as int)
                == file_verdict(
                layout::join_path(tenant_dir, commit.files[at as int].relative_path),
                commit,
                commit.files[at as int],
                retired.contains(commit.files[at as int].relative_path),
                observed[at as int],
            ));
        }
    }
}

/// What recovery finds of one file of a commit.
pub open spec fn verdict_at(
    tenant_dir: Seq<char>,
    commit: CommitView,
    retired: Set<Seq<char>>,
    observed: Seq<ObservationView>,
    f: int,
) -> Result<Option<FileStatisticsView>, FileFault> {
    file_verdict(
        layout::join_path(tenant_dir, commit.files[f].relative_path),
        commit,
        commit.files[f],
        retired.contains(commit.files[f].relative_path),
        observed[f],
    )
}

/// Recovery succeeds only where every file of every commit passes, retired ones by what hides them.
pub proof fn recovery_checks_every_file(
    found: RecoveryView,
    tenant: Seq<char>,
    tenant_dir: Seq<char>,
    observed: Seq<Seq<ObservationView>>,
    c: int,
    f: int,
)
    requires
        recovered(found, tenant, tenant_dir, observed) is Ok,
        0 <= c < found.commits.len(),
        0 <= f < found.commits[c].files.len(),
    ensures
        ({
            let commit = found.commits[c];
            let file = commit.files[f];
            match observed[c][f] {
                ObservationView::Missing => some_retirement_lists(
                    found.retirements,
                    file.relative_path,
                ),
                ObservationView::Unreadable(_) => false,
                ObservationView::Present { metadata, size } => size is Ok && says_its_commit(
                    metadata,
                    commit,
                    file,
                ),
            }
        }),
{
    let retired = hidden_paths(found.retirements);
    let commit = found.commits[c];
    let file = commit.files[f];
    lemma_validated_each(
        tenant_dir,
        found.commits,
        retired,
        observed,
        found.commits.len(),
    );
    assert(observed_commits(found.commits, observed)[c] == (commit, observed[c]));
    lemma_validated_verdicts(tenant_dir, commit, retired, observed[c], commit.files.len());
    assert(verdict_at(tenant_dir, commit, retired, observed[c], f) is Ok);
    only_matching_files_pass(
        layout::join_path(tenant_dir, file.relative_path),
        commit,
        file,
        retired.contains(file.relative_path),
        observed[c][f],
    );
    retirements_hide_what_they_list(found.retirements, file.relative_path);
}

/// Recovery keeps what a commit says: of each file only the statistics can change, and these only to none.
pub proof fn validation_keeps_commits(
    tenant_dir: Seq<char>,
    commits: Seq<CommitView>,
    retired: Set<Seq<char>>,
    observed: Seq<Seq<ObservationView>>,
    c: int,
    f: int,
)
    requires
        validated_commits(tenant_dir, commits, retired, observed, commits.len()) is Ok,
        0 <= c < commits.len(),
    ensures
        ({
            let after = validated_commits(
                tenant_dir,
                commits,
                retired,
                observed,
                commits.len(),
            )->Ok_0;
            &&& after.len() == commits.len()
            &&& after[c] == (CommitView { files: after[c].files, ..commits[c] })
            &&& after[c].files.len() == commits[c].files.len()
            &&& 0 <= f < commits[c].files.len() ==> {
                let before = commits[c].files[f];
                let file = after[c].files[f];
                &&& file == (CommitFileView { statistics: file.statistics, ..before })
                &&& file.statistics == before.statistics || file.statistics is None
            }
        }),
{
    lemma_validated_each(tenant_dir, commits, retired, observed, commits.len());
    let pairs = observed_commits(commits, observed);
    assert(pairs[c] == (commits[c], observed[c]));
    assert(pairs.take(commits.len() as int) =~= pairs);
    lemma_validated_verdicts(
        tenant_dir,
        commits[c],
        retired,
        observed[c],
        commits[c].files.len(),
    );
    if 0 <= f < commits[c].files.len() {
        only_matching_files_pass(
            layout::join_path(tenant_dir, commits[c].files[f].relative_path),
            commits[c],
            commits[c].files[f],
            retired.contains(commits[c].files[f].relative_path),
            observed[c][f],
        );
        assert(verdict_at(tenant_dir, commits[c], retired, observed[c], f) is Ok);
    }
}

/// A descriptor is removed only for what is wrong with its bytes: one with a bad checksum is, and one that
/// cannot be parsed, but never one of another version, nor one that could not be read.
pub proof fn only_corrupt_descriptors_are_removed(error: CommitError, more: Seq<char>)
    ensures
        error is Checksum ==> is_corrupt(error),
        error is Io || error is Fault ==> !is_corrupt(error),
        error is Invalid && error->Invalid_0@ == "unsupported commit version "@ + more
            ==> !is_corrupt(error),
        error is Invalid && is_corrupt(error) ==> error->Invalid_0@
            != "unsupported commit version "@ + more,
{
    reveal_strlit("unsupported commit version");
    reveal_strlit("unsupported commit version ");
    if error is Invalid && error->Invalid_0@ == "unsupported commit version "@ + more {
        assert(error->Invalid_0@.take("unsupported commit version"@.len() as int)
            =~= "unsupported commit version"@);
    }
}

} // verus!
