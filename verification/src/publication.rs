//! The commit of one written generation.
use vstd::prelude::*;
use crate::commit;
use crate::commit::{
    copy_statistics, time_bounds, Commit, CommitError, CommitFile, CommitFileView, CommitView,
};
use crate::generation::{Generation, GenerationView};
use crate::layout;
use crate::layout::{is_plain_relative, strip_prefix, tenant_directory};
use crate::parquet::{ParquetFile, ParquetFileView};
use crate::schema::PROJECTION_VERSION;
use crate::text;
use crate::text::push_decimal;

verus! {

/// The path of a file below its tenant directory, or why it has none.
pub open spec fn relative_path_of(tenant_dir: Seq<char>, path: Seq<char>) -> Result<
    Seq<char>,
    Seq<char>,
> {
    match layout::stripped(path, tenant_dir) {
        None => Err("parquet path "@ + path + " is outside the tenant directory"@),
        Some(relative) => if layout::plain_relative(relative) {
            Ok(relative)
        } else {
            Err("parquet path "@ + relative + " is not a relative tenant path"@)
        },
    }
}

/// The path of a file below its tenant directory.
///
/// # Errors
///
/// Returns [`CommitError::Invalid`] when the path does not stay below that directory.
pub fn relative_path(tenant_dir: &str, path: &str) -> (result: Result<String, CommitError>)
    ensures
        match result {
            Ok(relative) => relative_path_of(tenant_dir@, path@) == Ok::<Seq<char>, Seq<char>>(
                relative@,
            ),
            Err(error) => error is Invalid && relative_path_of(tenant_dir@, path@) == Err::<
                Seq<char>,
                Seq<char>,
            >(error->Invalid_0@),
        },
{
    match strip_prefix(path, tenant_dir) {
        None => {
            let mut detail = "parquet path ".to_owned();
            detail.append(path);
            detail.append(" is outside the tenant directory");
            Err(CommitError::Invalid(detail))
        },
        Some(relative) => {
            if is_plain_relative(&relative) {
                return Ok(relative);
            }
            let mut detail = "parquet path ".to_owned();
            detail.append(&relative);
            detail.append(" is not a relative tenant path");
            Err(CommitError::Invalid(detail))
        },
    }
}

/// What a commit records of its files, or why it cannot.
pub open spec fn recorded_files(tenant_dir: Seq<char>, files: Seq<ParquetFileView>) -> Result<
    Seq<CommitFileView>,
    Seq<char>,
>
    decreases files.len(),
{
    if files.len() == 0 {
        Ok(Seq::empty())
    } else {
        match recorded_files(tenant_dir, files.drop_last()) {
            Err(detail) => Err(detail),
            Ok(before) => match relative_path_of(tenant_dir, files.last().path) {
                Err(detail) => Err(detail),
                Ok(relative_path) => if commit::file_rows(before) + files.last().rows > u64::MAX {
                    Err("published row count exceeds u64"@)
                } else {
                    Ok(
                        before.push(
                            CommitFileView {
                                hour: files.last().hour,
                                relative_path,
                                rows: files.last().rows,
                                statistics: files.last().statistics,
                            },
                        ),
                    )
                },
            },
        }
    }
}

proof fn lemma_recorded_fail(tenant_dir: Seq<char>, files: Seq<ParquetFileView>, count: int)
    requires
        0 <= count <= files.len(),
        recorded_files(tenant_dir, files.take(count)) is Err,
    ensures
        recorded_files(tenant_dir, files) == recorded_files(tenant_dir, files.take(count)),
    decreases files.len() - count,
{
    if count < files.len() {
        assert(files.take(count + 1).drop_last() =~= files.take(count));
        lemma_recorded_fail(tenant_dir, files, count + 1);
    } else {
        assert(files.take(count) =~= files);
    }
}

/// The commit of a generation whose files were written, or why there is none.
pub open spec fn commit_of(
    root: Seq<char>,
    tenant: Seq<char>,
    generation: GenerationView,
    files: Seq<ParquetFileView>,
) -> Result<CommitView, Seq<char>> {
    if generation.next_sequence <= generation.first_sequence {
        Err("generation sequence range is empty"@)
    } else {
        match recorded_files(layout::tenant_dir(root, tenant), files) {
            Err(detail) => Err(detail),
            Ok(recorded) => {
                let rows = commit::file_rows(recorded) as u64;
                if rows != generation.rows {
                    Err(
                        "parquet rows "@ + text::decimal_text(rows as nat)
                            + " do not match generation rows "@ + text::decimal_text(
                            generation.rows as nat,
                        ),
                    )
                } else {
                    Ok(
                        CommitView {
                            tenant,
                            projection_version: PROJECTION_VERSION,
                            fingerprint: generation.fingerprint,
                            schema: generation.schema,
                            first_sequence: generation.first_sequence,
                            next_sequence: generation.next_sequence,
                            rows,
                            files: recorded,
                            start_unix_nano: commit::earliest(recorded),
                            end_unix_nano: commit::latest(recorded),
                        },
                    )
                }
            },
        }
    }
}

/// The commit of `generation`, whose hour files are `files`.
///
/// # Errors
///
/// Returns [`CommitError::Invalid`] when the sequence range is empty, a file path escapes the
/// tenant directory, or the rows do not match.
pub fn commit_for(root: &str, tenant: &str, generation: &Generation, files: &Vec<ParquetFile>) -> (
    result: Result<Commit, CommitError>)
    ensures
        match result {
            Ok(commit) => commit_of(
                root@,
                tenant@,
                generation.deep_view(),
                files.deep_view(),
            ) == Ok::<CommitView, Seq<char>>(commit.deep_view()),
            Err(error) => error is Invalid && commit_of(
                root@,
                tenant@,
                generation.deep_view(),
                files.deep_view(),
            ) == Err::<CommitView, Seq<char>>(error->Invalid_0@),
        },
{
    if generation.next_sequence <= generation.first_sequence {
        return Err(CommitError::Invalid("generation sequence range is empty".to_owned()));
    }
    let tenant_dir = tenant_directory(root, tenant);
    let ghost all = files.deep_view();
    let ghost base = tenant_dir@;
    let mut recorded: Vec<CommitFile> = Vec::new();
    let mut rows: u64 = 0;
    let mut i: usize = 0;
    assert(all.take(0) =~= Seq::empty());
    assert(recorded.deep_view() =~= Seq::empty());
    while i < files.len()
        invariant
            i <= files.len(),
            all == files.deep_view(),
            base == tenant_dir@,
            base == layout::tenant_dir(root@, tenant@),
            generation.next_sequence > generation.first_sequence,
            recorded_files(base, all.take(i as int)) == Ok::<Seq<CommitFileView>, Seq<char>>(
                recorded.deep_view(),
            ),
            rows == commit::file_rows(recorded.deep_view()),
        decreases files.len() - i,
    {
        assert(all.take(i + 1).drop_last() =~= all.take(i as int));
        assert(all[i as int] == files@[i as int].deep_view());
        let file = &files[i];
        let relative = match relative_path(&tenant_dir, &file.path) {
            Ok(relative) => relative,
            Err(error) => {
                proof {
                    lemma_recorded_fail(base, all, i + 1);
                }
                return Err(error);
            },
        };
        match rows.checked_add(file.rows) {
            Some(sum) => {
                rows = sum;
            },
            None => {
                proof {
                    lemma_recorded_fail(base, all, i + 1);
                }
                return Err(CommitError::Invalid("published row count exceeds u64".to_owned()));
            },
        }
        let ghost before = recorded.deep_view();
        let entry = CommitFile {
            hour: file.hour,
            relative_path: relative,
            rows: file.rows,
            statistics: copy_statistics(&file.statistics),
        };
        let ghost view = entry.deep_view();
        recorded.push(entry);
        assert(recorded.deep_view() =~= before.push(view));
        assert(before.push(view).drop_last() =~= before);
        i = i + 1;
    }
    assert(all.take(i as int) =~= all);
    if rows != generation.rows {
        let mut detail = "parquet rows ".to_owned();
        push_decimal(&mut detail, rows);
        detail.append(" do not match generation rows ");
        push_decimal(&mut detail, generation.rows);
        return Err(CommitError::Invalid(detail));
    }
    let (start_unix_nano, end_unix_nano) = time_bounds(&recorded);
    Ok(
        Commit {
            tenant: tenant.to_owned(),
            projection_version: PROJECTION_VERSION,
            fingerprint: generation.fingerprint.clone(),
            schema: generation.schema.clone(),
            first_sequence: generation.first_sequence,
            next_sequence: generation.next_sequence,
            rows,
            files: recorded,
            start_unix_nano,
            end_unix_nano,
        },
    )
}

/// Whether the files of a commit bear the name of its sequence range.
pub open spec fn bears_range(commit: CommitView) -> bool {
    forall|k: int|
        0 <= k < commit.files.len() ==> layout::ends_in(
            (#[trigger] commit.files[k]).relative_path,
            layout::range_name(commit.first_sequence, commit.next_sequence, ".parquet"@),
        )
}

/// Whether the files of every commit bear the name of its sequence range, as publication names them.
pub open spec fn all_bear_range(commits: Seq<CommitView>) -> bool {
    forall|c: int| 0 <= c < commits.len() ==> bears_range(#[trigger] commits[c])
}

/// Whether the path of a written file is that of its hour and of the range of its generation.
pub open spec fn at_its_path(
    root: Seq<char>,
    tenant: Seq<char>,
    generation: GenerationView,
    file: ParquetFileView,
) -> bool {
    file.path == layout::join_path(
        layout::hour_dir(root, tenant, file.hour),
        layout::range_name(generation.first_sequence, generation.next_sequence, ".parquet"@),
    )
}

proof fn lemma_recorded_names(
    root: Seq<char>,
    tenant: Seq<char>,
    generation: GenerationView,
    files: Seq<ParquetFileView>,
)
    requires
        recorded_files(layout::tenant_dir(root, tenant), files) is Ok,
        forall|k: int|
            0 <= k < files.len() ==> at_its_path(root, tenant, generation, #[trigger] files[k]),
    ensures
        forall|k: int|
            0 <= k < recorded_files(layout::tenant_dir(root, tenant), files)->Ok_0.len()
                ==> layout::ends_in(
                (#[trigger] recorded_files(
                    layout::tenant_dir(root, tenant),
                    files,
                )->Ok_0[k]).relative_path,
                layout::range_name(
                    generation.first_sequence,
                    generation.next_sequence,
                    ".parquet"@,
                ),
            ),
    decreases files.len(),
{
    if files.len() > 0 {
        let front = files.drop_last();
        let last = files[files.len() - 1];
        assert forall|k: int| 0 <= k < front.len() implies at_its_path(
            root,
            tenant,
            generation,
            #[trigger] front[k],
        ) by {
            assert(front[k] == files[k]);
        }
        lemma_recorded_names(root, tenant, generation, front);
        layout::lemma_hour_file_name(
            root,
            tenant,
            last.hour,
            generation.first_sequence,
            generation.next_sequence,
        );
    }
}

/// The commit of a generation whose files are at their paths bears the range of that generation.
pub proof fn commits_bear_their_range(
    root: Seq<char>,
    tenant: Seq<char>,
    generation: GenerationView,
    files: Seq<ParquetFileView>,
)
    requires
        commit_of(root, tenant, generation, files) is Ok,
        forall|k: int|
            0 <= k < files.len() ==> at_its_path(root, tenant, generation, #[trigger] files[k]),
    ensures
        bears_range(commit_of(root, tenant, generation, files)->Ok_0),
{
    lemma_recorded_names(root, tenant, generation, files);
}

/// A commit says what its generation is: the tenant, the fingerprint, the schema and the sequence range.
/// It records every file in order, with the hour, rows and statistics of the file, and counts their rows,
/// which are those of the generation.
pub proof fn commits_record_their_generation(
    root: Seq<char>,
    tenant: Seq<char>,
    generation: GenerationView,
    files: Seq<ParquetFileView>,
    k: int,
)
    requires
        commit_of(root, tenant, generation, files) is Ok,
    ensures
        ({
            let commit = commit_of(root, tenant, generation, files)->Ok_0;
            &&& commit.tenant == tenant
            &&& commit.fingerprint == generation.fingerprint
            &&& commit.schema == generation.schema
            &&& commit.first_sequence == generation.first_sequence
            &&& commit.next_sequence == generation.next_sequence
            &&& commit.first_sequence < commit.next_sequence
            &&& commit.rows == generation.rows
            &&& commit.files.len() == files.len()
            &&& commit.rows == written_rows(files)
            &&& 0 <= k < files.len() ==> commit.files[k].hour == files[k].hour
                && commit.files[k].rows == files[k].rows && commit.files[k].statistics
                == files[k].statistics && relative_path_of(
                layout::tenant_dir(root, tenant),
                files[k].path,
            ) == Ok::<Seq<char>, Seq<char>>(commit.files[k].relative_path)
        }),
{
    lemma_recorded(layout::tenant_dir(root, tenant), files, k);
    lemma_recorded_bound(layout::tenant_dir(root, tenant), files);
}

/// Rows of files that were written.
pub open spec fn written_rows(files: Seq<ParquetFileView>) -> int
    decreases files.len(),
{
    if files.len() == 0 {
        0
    } else {
        written_rows(files.drop_last()) + files.last().rows
    }
}

proof fn lemma_recorded_bound(tenant_dir: Seq<char>, files: Seq<ParquetFileView>)
    requires
        recorded_files(tenant_dir, files) is Ok,
    ensures
        0 <= commit::file_rows(recorded_files(tenant_dir, files)->Ok_0) <= u64::MAX,
        commit::file_rows(recorded_files(tenant_dir, files)->Ok_0) == written_rows(files),
    decreases files.len(),
{
    let recorded = recorded_files(tenant_dir, files)->Ok_0;
    if files.len() > 0 {
        lemma_recorded_bound(tenant_dir, files.drop_last());
        let before = recorded_files(tenant_dir, files.drop_last())->Ok_0;
        assert(recorded.drop_last() =~= before);
    }
}

proof fn lemma_recorded(tenant_dir: Seq<char>, files: Seq<ParquetFileView>, k: int)
    requires
        recorded_files(tenant_dir, files) is Ok,
    ensures
        recorded_files(tenant_dir, files)->Ok_0.len() == files.len(),
        0 <= k < files.len() ==> {
            let recorded = recorded_files(tenant_dir, files)->Ok_0[k];
            &&& recorded.hour == files[k].hour
            &&& recorded.rows == files[k].rows
            &&& recorded.statistics == files[k].statistics
            &&& relative_path_of(tenant_dir, files[k].path) == Ok::<Seq<char>, Seq<char>>(
                recorded.relative_path,
            )
        },
    decreases files.len(),
{
    if files.len() > 0 {
        lemma_recorded(tenant_dir, files.drop_last(), k);
    }
}

/// A generation whose files lie below its tenant is published exactly where it has a sequence range and
/// its files hold as many rows as it does.
pub proof fn matching_files_are_published(
    root: Seq<char>,
    tenant: Seq<char>,
    generation: GenerationView,
    files: Seq<ParquetFileView>,
)
    requires
        forall|k: int|
            0 <= k < files.len() ==> relative_path_of(
                layout::tenant_dir(root, tenant),
                (#[trigger] files[k]).path,
            ) is Ok,
    ensures
        commit_of(root, tenant, generation, files) is Ok <==> generation.first_sequence
            < generation.next_sequence && written_rows(files) == generation.rows,
{
    lemma_recorded_exists(layout::tenant_dir(root, tenant), files);
    if recorded_files(layout::tenant_dir(root, tenant), files) is Ok {
        lemma_recorded_bound(layout::tenant_dir(root, tenant), files);
    }
}

proof fn lemma_recorded_exists(tenant_dir: Seq<char>, files: Seq<ParquetFileView>)
    requires
        forall|k: int|
            0 <= k < files.len() ==> relative_path_of(
                tenant_dir,
                (#[trigger] files[k]).path,
            ) is Ok,
    ensures
        recorded_files(tenant_dir, files) is Ok <==> written_rows(files) <= u64::MAX,
        written_rows(files) >= 0,
    decreases files.len(),
{
    if files.len() > 0 {
        let front = files.drop_last();
        assert forall|k: int| 0 <= k < front.len() implies relative_path_of(
            tenant_dir,
            (#[trigger] front[k]).path,
        ) is Ok by {
            assert(front[k] == files[k]);
        }
        lemma_recorded_exists(tenant_dir, front);
        assert(relative_path_of(tenant_dir, files[files.len() - 1].path) is Ok);
        if recorded_files(tenant_dir, front) is Ok {
            lemma_recorded_bound(tenant_dir, front);
        }
    }
}

/// What a commit records of an hour file leads to the file: the recorded path below the tenant directory is
/// the path at which the file was written.
pub proof fn recorded_paths_lead_to_their_files(
    root: Seq<char>,
    tenant: Seq<char>,
    generation: GenerationView,
    file: ParquetFileView,
)
    requires
        layout::tenant_dir(root, tenant).len() > 0,
        layout::tenant_dir(root, tenant)[layout::tenant_dir(root, tenant).len() - 1] != '/',
        at_its_path(root, tenant, generation, file),
    ensures
        relative_path_of(layout::tenant_dir(root, tenant), file.path) is Ok,
        layout::join_path(
            layout::tenant_dir(root, tenant),
            relative_path_of(layout::tenant_dir(root, tenant), file.path)->Ok_0,
        ) == file.path,
{
    layout::hour_files_lie_below_their_tenant(
        root,
        tenant,
        file.hour,
        generation.first_sequence,
        generation.next_sequence,
    );
}

} // verus!
