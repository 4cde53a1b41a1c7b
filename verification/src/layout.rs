//! Local directory layout for one tenant's hour-partitioned files.
//!
//! `data_directory/tenants/<tenant>/date=YYYY-MM-DD/hour=HH/<first>-<next>.parquet`
//!
//! Commit descriptors live at `tenants/<tenant>/commits/<first>-<next>.commit`. Retirement
//! descriptors live at `tenants/<tenant>/retirements/<first>-<next>.retire`. `<first>-<next>` is
//! the generation's exclusive WAL sequence range. Replaying that range writes the same paths.
//!
//! A path is text whose components are separated by `/`.
use vstd::prelude::*;
use crate::calendar;
use crate::schema::{EventHour, NANOS_PER_DAY, NANOS_PER_HOUR};
use crate::text;
use crate::text::{chars_of, push_decimal, push_padded};

verus! {

pub const TENANTS_DIR: &'static str = "tenants";

/// `part` below `base`: an absolute `part` replaces `base`.
pub open spec fn join_path(base: Seq<char>, part: Seq<char>) -> Seq<char> {
    if part.len() > 0 && part[0] == '/' {
        part
    } else if base.len() == 0 || base.last() == '/' {
        base + part
    } else {
        base.push('/') + part
    }
}

/// `part` below `base`: an absolute `part` replaces `base`.
#[must_use]
pub fn join(base: &str, part: &str) -> (path: String)
    ensures
        path@ == join_path(base@, part@),
{
    let part_chars = chars_of(part);
    if part_chars.len() > 0 && part_chars[0] == '/' {
        return part.to_owned();
    }
    let base_chars = chars_of(base);
    let mut path = base.to_owned();
    if base_chars.len() > 0 && base_chars[base_chars.len() - 1] != '/' {
        path.push('/');
    }
    path.append(part);
    path
}

/// `tenants/<tenant>` under the data directory.
pub open spec fn tenant_dir(root: Seq<char>, tenant: Seq<char>) -> Seq<char> {
    join_path(join_path(root, TENANTS_DIR@), tenant)
}

/// `tenants/<tenant>` under the data directory.
#[must_use]
pub fn tenant_directory(root: &str, tenant: &str) -> (path: String)
    ensures
        path@ == tenant_dir(root@, tenant@),
{
    join(&join(root, TENANTS_DIR), tenant)
}

/// Directory of commit descriptors for one tenant.
#[must_use]
pub fn commits_directory(root: &str, tenant: &str) -> (path: String)
    ensures
        path@ == join_path(tenant_dir(root@, tenant@), "commits"@),
{
    join(&tenant_directory(root, tenant), "commits")
}

/// `<first>-<next>` followed by an extension.
pub open spec fn range_name(first_sequence: u64, next_sequence: u64, extension: Seq<char>) -> Seq<char> {
    text::decimal_text(first_sequence as nat) + "-"@ + text::decimal_text(next_sequence as nat)
        + extension
}

fn range_file_name(first_sequence: u64, next_sequence: u64, extension: &str) -> (name: String)
    ensures
        name@ == range_name(first_sequence, next_sequence, extension@),
{
    let mut name = String::new();
    push_decimal(&mut name, first_sequence);
    name.append("-");
    push_decimal(&mut name, next_sequence);
    name.append(extension);
    assert(name@ =~= range_name(first_sequence, next_sequence, extension@));
    name
}

/// File name for one generation's commit descriptor.
#[must_use]
pub fn commit_file_name(first_sequence: u64, next_sequence: u64) -> (name: String)
    ensures
        name@ == range_name(first_sequence, next_sequence, ".commit"@),
{
    range_file_name(first_sequence, next_sequence, ".commit")
}

/// Full path of one generation's commit descriptor.
#[must_use]
pub fn commit_path(root: &str, tenant: &str, first_sequence: u64, next_sequence: u64) -> (path:
    String)
    ensures
        path@ == join_path(
            join_path(tenant_dir(root@, tenant@), "commits"@),
            range_name(first_sequence, next_sequence, ".commit"@),
        ),
{
    join(&commits_directory(root, tenant), &commit_file_name(first_sequence, next_sequence))
}

/// Directory of retirement descriptors for one tenant.
#[must_use]
pub fn retirements_directory(root: &str, tenant: &str) -> (path: String)
    ensures
        path@ == join_path(tenant_dir(root@, tenant@), "retirements"@),
{
    join(&tenant_directory(root, tenant), "retirements")
}

/// File name for one generation's retirement descriptor.
#[must_use]
pub fn retirement_file_name(first_sequence: u64, next_sequence: u64) -> (name: String)
    ensures
        name@ == range_name(first_sequence, next_sequence, ".retire"@),
{
    range_file_name(first_sequence, next_sequence, ".retire")
}

/// Full path of one generation's retirement descriptor.
#[must_use]
pub fn retirement_path(root: &str, tenant: &str, first_sequence: u64, next_sequence: u64) -> (path:
    String)
    ensures
        path@ == join_path(
            join_path(tenant_dir(root@, tenant@), "retirements"@),
            range_name(first_sequence, next_sequence, ".retire"@),
        ),
{
    join(&retirements_directory(root, tenant), &retirement_file_name(first_sequence, next_sequence))
}

/// `date=YYYY-MM-DD` of a civil date.
pub open spec fn date_name(date: (int, int, int)) -> Seq<char> {
    "date="@ + text::padded_text(date.0 as nat, 4) + "-"@ + text::padded_text(date.1 as nat, 2)
        + "-"@ + text::padded_text(date.2 as nat, 2)
}

/// `hour=HH` of an hour of the day.
pub open spec fn hour_name(hour: int) -> Seq<char> {
    "hour="@ + text::padded_text(hour as nat, 2)
}

/// The civil date of the UTC day that begins `days` days after 1970-01-01.
pub open spec fn civil_date(days: int) -> (int, int, int) {
    choose|date: (int, int, int)|
        calendar::is_date(date) && #[trigger] calendar::day_number(date) == days
}

/// Directory of one hour: the date and the hour of the day below the tenant.
pub open spec fn hour_dir(root: Seq<char>, tenant: Seq<char>, hour: u64) -> Seq<char> {
    join_path(
        join_path(
            tenant_dir(root, tenant),
            date_name(civil_date(hour as int / NANOS_PER_DAY as int)),
        ),
        hour_name((hour / NANOS_PER_HOUR) as int % 24),
    )
}

/// Directory that holds every file for one tenant hour.
#[must_use]
pub fn hour_directory(root: &str, tenant: &str, hour: EventHour) -> (path: String)
    ensures
        path@ == hour_dir(root@, tenant@, hour@),
{
    let (year, month, day) = hour.utc_date();
    proof {
        let date = (year as int, month as int, day as int);
        let chosen = civil_date(hour@ as int / NANOS_PER_DAY as int);
        calendar::day_numbers_are_unique(date, chosen);
    }
    let mut date = "date=".to_owned();
    push_padded(&mut date, year as u64, 4);
    date.append("-");
    push_padded(&mut date, month as u64, 2);
    date.append("-");
    push_padded(&mut date, day as u64, 2);
    assert(date@ =~= date_name((year as int, month as int, day as int)));
    let mut hour_part = "hour=".to_owned();
    push_padded(&mut hour_part, hour.utc_hour() as u64, 2);
    join(&join(&tenant_directory(root, tenant), &date), &hour_part)
}

/// File name for one generation inside an hour directory.
#[must_use]
pub fn parquet_file_name(first_sequence: u64, next_sequence: u64) -> (name: String)
    ensures
        name@ == range_name(first_sequence, next_sequence, ".parquet"@),
{
    range_file_name(first_sequence, next_sequence, ".parquet")
}

/// Full path of one hour file for a generation.
#[must_use]
pub fn parquet_path(
    root: &str,
    tenant: &str,
    hour: EventHour,
    first_sequence: u64,
    next_sequence: u64,
) -> (path: String)
    ensures
        path@ == join_path(
            hour_dir(root@, tenant@, hour@),
            range_name(first_sequence, next_sequence, ".parquet"@),
        ),
{
    join(&hour_directory(root, tenant, hour), &parquet_file_name(first_sequence, next_sequence))
}

/// Exclusive end of the UTC hour that starts at `start`, or the last instant there is.
pub open spec fn hour_end(start: u64) -> u64 {
    if start + NANOS_PER_HOUR > u64::MAX {
        u64::MAX
    } else {
        (start + NANOS_PER_HOUR) as u64
    }
}

/// Exclusive end of the UTC hour that contains `hour`.
#[must_use]
pub fn hour_end_unix_nano(hour: EventHour) -> (end: u64)
    ensures
        end == hour_end(hour@),
{
    hour.start_unix_nano().saturating_add(NANOS_PER_HOUR)
}

/// Whether the path component that starts at `at` is `..`.
pub open spec fn parent_at(path: Seq<char>, at: int) -> bool {
    &&& 0 <= at
    &&& at + 2 <= path.len()
    &&& at == 0 || path[at - 1] == '/'
    &&& path[at] == '.' && path[at + 1] == '.'
    &&& at + 2 == path.len() || path[at + 2] == '/'
}

/// Whether a path is relative and stays below its base: no root, no leading `.` and no `..`.
pub open spec fn plain_relative(path: Seq<char>) -> bool {
    &&& !(path.len() > 0 && path[0] == '/')
    &&& !(path.len() > 0 && path[0] == '.' && (path.len() == 1 || path[1] == '/'))
    &&& forall|at: int| 0 <= at < path.len() ==> !#[trigger] parent_at(path, at)
}

/// Whether a path is relative and stays below its base.
#[must_use]
pub fn is_plain_relative(path: &str) -> (plain: bool)
    ensures
        plain == plain_relative(path@),
{
    let chars = chars_of(path);
    if chars.len() > 0 && chars[0] == '/' {
        return false;
    }
    if chars.len() > 0 && chars[0] == '.' && (chars.len() == 1 || chars[1] == '/') {
        return false;
    }
    let mut at: usize = 0;
    while at < chars.len()
        invariant
            at <= chars.len(),
            chars@ == path@,
            forall|k: int| 0 <= k < at ==> !#[trigger] parent_at(path@, k),
        decreases chars.len() - at,
    {
        if at + 1 < chars.len() && (at == 0 || chars[at - 1] == '/') && chars[at] == '.' && chars[at
            + 1] == '.' && (at + 2 == chars.len() || chars[at + 2] == '/') {
            assert(parent_at(path@, at as int));
            return false;
        }
        at = at + 1;
    }
    true
}

/// End of the component that starts at `at`: the next `/` or the end of the path.
pub open spec fn segment_end(path: Seq<char>, at: int) -> int
    decreases path.len() - at,
{
    if at >= path.len() {
        path.len() as int
    } else if path[at] == '/' {
        at
    } else {
        segment_end(path, at + 1)
    }
}

/// Whether the text from `at` to `end` is a component: the root, a leading `.`, or a name. Repeated
/// separators and later `.` are not.
pub open spec fn is_component(path: Seq<char>, at: int, end: int) -> bool {
    if at == end {
        at == 0 && path.len() > 0
    } else {
        at == 0 || !(end == at + 1 && path[at] == '.')
    }
}

/// Where the components of a path start and end, from position `at` on.
pub open spec fn components_from(path: Seq<char>, at: int) -> Seq<(int, int)>
    decreases path.len() - at,
{
    let end = segment_end(path, at);
    let here = if is_component(path, at, end) {
        seq![(at, end)]
    } else {
        Seq::empty()
    };
    if 0 <= at <= end < path.len() {
        here + components_from(path, end + 1)
    } else {
        here
    }
}

/// The text of one component; that of the root is empty.
pub open spec fn component_text(path: Seq<char>, component: (int, int)) -> Seq<char> {
    path.subrange(component.0, component.1)
}

/// Whether the components of `base` begin the components of `path`.
pub open spec fn path_starts_with(path: Seq<char>, base: Seq<char>) -> bool {
    let parts = components_from(path, 0);
    let base_parts = components_from(base, 0);
    base_parts.len() <= parts.len() && forall|i: int|
        0 <= i < base_parts.len() ==> component_text(path, parts[i]) == component_text(
            base,
            #[trigger] base_parts[i],
        )
}

/// What follows `base` in `path`.
pub open spec fn stripped(path: Seq<char>, base: Seq<char>) -> Option<Seq<char>> {
    let parts = components_from(path, 0);
    let skip = components_from(base, 0).len();
    if !path_starts_with(path, base) {
        None
    } else if skip == parts.len() {
        Some(Seq::empty())
    } else {
        Some(path.subrange(parts[skip as int].0, parts.last().1))
    }
}

proof fn lemma_segment_end(path: Seq<char>, at: int)
    requires
        0 <= at <= path.len(),
    ensures
        at <= segment_end(path, at) <= path.len(),
    decreases path.len() - at,
{
    if at < path.len() && path[at] != '/' {
        lemma_segment_end(path, at + 1);
    }
}

proof fn lemma_components_bounds(path: Seq<char>, at: int)
    requires
        0 <= at <= path.len(),
    ensures
        forall|i: int|
            0 <= i < components_from(path, at).len() ==> at <= (#[trigger] components_from(
                path,
                at,
            )[i]).0 <= components_from(path, at)[i].1 <= path.len(),
        forall|i: int, j: int|
            0 <= i < j < components_from(path, at).len() ==> (#[trigger] components_from(
                path,
                at,
            )[i]).1 <= (#[trigger] components_from(path, at)[j]).0,
    decreases path.len() - at,
{
    lemma_segment_end(path, at);
    let end = segment_end(path, at);
    let all = components_from(path, at);
    if end < path.len() {
        lemma_components_bounds(path, end + 1);
        let rest = components_from(path, end + 1);
        let offset: int = if is_component(path, at, end) {
            1
        } else {
            0
        };
        assert forall|i: int| 0 <= i < all.len() implies at <= (#[trigger] all[i]).0 <= all[i].1
            <= path.len() by {
            if i >= offset {
                assert(all[i] == rest[i - offset]);
            }
        }
        assert forall|i: int, j: int| 0 <= i < j < all.len() implies (#[trigger] all[i]).1 <= (
        #[trigger] all[j]).0 by {
            assert(all[j] == rest[j - offset]);
            if i >= offset {
                assert(all[i] == rest[i - offset]);
            }
        }
    }
}

fn components(chars: &Vec<char>) -> (parts: Vec<(usize, usize)>)
    ensures
        parts@.map_values(|part: (usize, usize)| (part.0 as int, part.1 as int))
            == components_from(chars@, 0),
{
    let mut parts: Vec<(usize, usize)> = Vec::new();
    let mut at: usize = 0;
    let ghost path = chars@;
    let ghost view = |part: (usize, usize)| (part.0 as int, part.1 as int);
    loop
        invariant_except_break
            at <= chars.len(),
            path == chars@,
            view == (|part: (usize, usize)| (part.0 as int, part.1 as int)),
            components_from(path, 0) =~= parts@.map_values(view) + components_from(
                path,
                at as int,
            ),
        ensures
            components_from(path, 0) =~= parts@.map_values(view),
        decreases chars.len() - at,
    {
        let mut end: usize = at;
        while end < chars.len() && chars[end] != '/'
            invariant
                at <= end <= chars.len(),
                path == chars@,
                segment_end(path, at as int) == segment_end(path, end as int),
            decreases chars.len() - end,
        {
            end = end + 1;
        }
        let ghost before = parts@.map_values(view);
        let here = if at == end {
            at == 0 && chars.len() > 0
        } else {
            at == 0 || !(end == at + 1 && chars[at] == '.')
        };
        if here {
            parts.push((at, end));
            assert(parts@.map_values(view) =~= before.push((at as int, end as int)));
        }
        if end >= chars.len() {
            break;
        }
        at = end + 1;
    }
    parts
}

/// What follows `base` in `path`, where the components of `base` begin those of `path`.
#[must_use]
pub fn strip_prefix(path: &str, base: &str) -> (rest: Option<String>)
    ensures
        rest.deep_view() == stripped(path@, base@),
{
    let chars = chars_of(path);
    let base_chars = chars_of(base);
    let parts = components(&chars);
    let base_parts = components(&base_chars);
    let ghost all = components_from(path@, 0);
    let ghost base_all = components_from(base@, 0);
    proof {
        lemma_components_bounds(path@, 0);
        lemma_components_bounds(base@, 0);
        assert(all.len() == parts@.len());
        assert(base_all.len() == base_parts@.len());
    }
    if base_parts.len() > parts.len() {
        return None;
    }
    let mut i: usize = 0;
    while i < base_parts.len()
        invariant
            i <= base_parts.len() <= parts.len(),
            chars@ == path@,
            base_chars@ == base@,
            all == components_from(path@, 0),
            base_all == components_from(base@, 0),
            all == parts@.map_values(|part: (usize, usize)| (part.0 as int, part.1 as int)),
            base_all == base_parts@.map_values(
                |part: (usize, usize)| (part.0 as int, part.1 as int),
            ),
            forall|k: int|
                0 <= k < all.len() ==> 0 <= (#[trigger] all[k]).0 <= all[k].1 <= path@.len(),
            forall|k: int|
                0 <= k < base_all.len() ==> 0 <= (#[trigger] base_all[k]).0 <= base_all[k].1
                    <= base@.len(),
            forall|k: int|
                0 <= k < i ==> component_text(path@, all[k]) == component_text(
                    base@,
                    #[trigger] base_all[k],
                ),
        decreases base_parts.len() - i,
    {
        let part = parts[i];
        let base_part = base_parts[i];
        assert(all[i as int] == (part.0 as int, part.1 as int));
        assert(base_all[i as int] == (base_part.0 as int, base_part.1 as int));
        if !same_span(&chars, part, &base_chars, base_part) {
            assert(component_text(path@, all[i as int]) != component_text(
                base@,
                base_all[i as int],
            ));
            return None;
        }
        i = i + 1;
    }
    if base_parts.len() == parts.len() {
        let rest = String::new();
        assert(rest@ =~= Seq::empty());
        return Some(rest);
    }
    let first = parts[base_parts.len()];
    let last = parts[parts.len() - 1];
    assert(all[base_parts@.len() as int] == (first.0 as int, first.1 as int));
    assert(all[parts@.len() - 1] == (last.0 as int, last.1 as int));
    let rest = text::string_of(
        vstd::slice::slice_subrange(chars.as_slice(), first.0, last.1),
    );
    Some(rest)
}

fn same_span(
    left: &Vec<char>,
    left_span: (usize, usize),
    right: &Vec<char>,
    right_span: (usize, usize),
) -> (same: bool)
    requires
        left_span.0 <= left_span.1 <= left@.len(),
        right_span.0 <= right_span.1 <= right@.len(),
    ensures
        same == (left@.subrange(left_span.0 as int, left_span.1 as int) == right@.subrange(
            right_span.0 as int,
            right_span.1 as int,
        )),
{
    let ghost a = left@.subrange(left_span.0 as int, left_span.1 as int);
    let ghost b = right@.subrange(right_span.0 as int, right_span.1 as int);
    if left_span.1 - left_span.0 != right_span.1 - right_span.0 {
        assert(a.len() != b.len());
        return false;
    }
    let len: usize = left_span.1 - left_span.0;
    let mut i: usize = 0;
    while i < len
        invariant
            i <= len,
            len == left_span.1 - left_span.0,
            len == right_span.1 - right_span.0,
            left_span.0 <= left_span.1 <= left@.len(),
            right_span.0 <= right_span.1 <= right@.len(),
            a == left@.subrange(left_span.0 as int, left_span.1 as int),
            b == right@.subrange(right_span.0 as int, right_span.1 as int),
            forall|k: int| 0 <= k < i ==> a[k] == b[k],
        decreases len - i,
    {
        if left[left_span.0 + i] != right[right_span.0 + i] {
            assert(a[i as int] != b[i as int]);
            return false;
        }
        i = i + 1;
    }
    assert(a =~= b);
    true
}

/// The first `count` components of `path`, as text.
pub open spec fn kept_text(path: Seq<char>, count: int) -> Seq<char> {
    let all = components_from(path, 0);
    if count == 0 {
        Seq::empty()
    } else if all[count - 1].1 == 0 {
        "/"@
    } else {
        path.take(all[count - 1].1)
    }
}

/// `start` and every directory above it up to `root`, deepest first, where `start` is `root` or
/// lies below it.
pub open spec fn directories_up_to(start: Seq<char>, root: Seq<char>) -> Option<Seq<Seq<char>>> {
    if stripped(start, root) is Some {
        let count = components_from(start, 0).len();
        let last = components_from(root, 0).len();
        Some(Seq::new((count - last + 1) as nat, |i: int| kept_text(start, count - i)))
    } else {
        None
    }
}

/// The directories to sync once something changed in `start`: `start` and every directory above
/// it up to `root`, deepest first. There are none where `start` is outside `root`.
#[must_use]
pub fn sync_order(start: &str, root: &str) -> (directories: Option<Vec<String>>)
    ensures
        directories.deep_view() == directories_up_to(start@, root@),
{
    if strip_prefix(start, root).is_none() {
        return None;
    }
    let chars = chars_of(start);
    let parts = components(&chars);
    let last = components(&chars_of(root)).len();
    let ghost all = components_from(start@, 0);
    let mut directories: Vec<String> = Vec::new();
    let mut count: usize = parts.len();
    proof {
        lemma_components_bounds(start@, 0);
        assert(all.len() == parts@.len());
        assert(last <= count);
    }
    let ghost found = directories_up_to(start@, root@)->0;
    loop
        invariant_except_break
            directories.deep_view() =~= found.take(parts.len() - count),
        invariant
            last <= count <= parts.len(),
            last == components_from(root@, 0).len(),
            chars@ == start@,
            all == components_from(start@, 0),
            all == parts@.map_values(|part: (usize, usize)| (part.0 as int, part.1 as int)),
            forall|k: int|
                0 <= k < all.len() ==> 0 <= (#[trigger] all[k]).0 <= all[k].1 <= start@.len(),
            found == Seq::new(
                (all.len() - last + 1) as nat,
                |i: int| kept_text(start@, all.len() - i),
            ),
        ensures
            directories.deep_view() =~= found,
        decreases count,
    {
        let directory = if count == 0 {
            String::new()
        } else {
            let end = parts[count - 1].1;
            assert(all[count - 1].1 == end);
            if end == 0 {
                "/".to_owned()
            } else {
                text::string_of(vstd::slice::slice_subrange(chars.as_slice(), 0, end))
            }
        };
        assert(directory@ =~= kept_text(start@, count as int));
        let ghost before = directories.deep_view();
        directories.push(directory);
        assert(directories.deep_view() =~= before.push(kept_text(start@, count as int)));
        assert(directories.deep_view() =~= found.take(parts.len() - count + 1));
        if count == last {
            break;
        }
        count = count - 1;
    }
    Some(directories)
}

/// Decimal digits are digits, and there is at least one.
proof fn lemma_decimal_digits(value: nat)
    ensures
        text::decimal_text(value).len() > 0,
        forall|i: int|
            0 <= i < text::decimal_text(value).len() ==> '0' as int
                <= #[trigger] text::decimal_text(value)[i] as int <= '9' as int,
    decreases value,
{
    if value >= 10 {
        lemma_decimal_digits(value / 10);
    }
}

/// Different numbers have different digits.
proof fn lemma_decimal_unique(left: nat, right: nat)
    requires
        text::decimal_text(left) == text::decimal_text(right),
    ensures
        left == right,
    decreases left,
{
    let l = text::decimal_text(left);
    let r = text::decimal_text(right);
    assert(l.last() as int == '0' as int + left % 10);
    assert(r.last() as int == '0' as int + right % 10);
    if left >= 10 {
        lemma_decimal_digits(left / 10);
        if right >= 10 {
            assert(l.drop_last() =~= text::decimal_text(left / 10));
            assert(r.drop_last() =~= text::decimal_text(right / 10));
            lemma_decimal_unique(left / 10, right / 10);
        }
    } else if right >= 10 {
        lemma_decimal_digits(right / 10);
    }
}

/// A file name tells its sequence range: no two ranges share one.
pub proof fn file_names_tell_their_range(
    first: u64,
    next: u64,
    other_first: u64,
    other_next: u64,
    extension: Seq<char>,
)
    requires
        range_name(first, next, extension) == range_name(other_first, other_next, extension),
    ensures
        first == other_first,
        next == other_next,
{
    reveal_strlit("-");
    let name = range_name(first, next, extension);
    let a = text::decimal_text(first as nat);
    let b = text::decimal_text(next as nat);
    let c = text::decimal_text(other_first as nat);
    let d = text::decimal_text(other_next as nat);
    lemma_decimal_digits(first as nat);
    lemma_decimal_digits(other_first as nat);
    assert(name[a.len() as int] == '-');
    assert(name[c.len() as int] == '-');
    assert(a.len() == c.len()) by {
        if a.len() < c.len() {
            assert(name[a.len() as int] == c[a.len() as int]);
        }
        if c.len() < a.len() {
            assert(name[c.len() as int] == a[c.len() as int]);
        }
    }
    assert(a =~= name.take(a.len() as int));
    assert(c =~= name.take(a.len() as int));
    lemma_decimal_unique(first as nat, other_first as nat);
    assert(b =~= name.subrange(a.len() as int + 1, name.len() - extension.len()));
    assert(d =~= name.subrange(a.len() as int + 1, name.len() - extension.len()));
    lemma_decimal_unique(next as nat, other_next as nat);
}

// Names of hour files.

/// Whether the last segment of a path is `name`.
pub open spec fn ends_in(path: Seq<char>, name: Seq<char>) -> bool {
    &&& name.len() <= path.len()
    &&& path.skip(path.len() - name.len()) == name
    &&& path.len() == name.len() || path[path.len() - name.len() - 1] == '/'
}

/// Whether text is one segment that is neither empty nor begins with a dot.
spec fn is_name(name: Seq<char>) -> bool {
    &&& name.len() > 0
    &&& name[0] != '.'
    &&& forall|i: int| 0 <= i < name.len() ==> #[trigger] name[i] != '/'
}

/// Whether `path` is `base`, or continues it with further components.
spec fn extends(base: Seq<char>, path: Seq<char>) -> bool {
    &&& base.len() <= path.len()
    &&& path.take(base.len() as int) == base
    &&& base.len() == 0 || base.len() == path.len() || base.last() == '/' || path[base.len() as int]
        == '/'
}

proof fn lemma_range_is_name(first: u64, next: u64)
    ensures
        is_name(range_name(first, next, ".parquet"@)),
{
    reveal_strlit("-");
    reveal_strlit(".parquet");
    let name = range_name(first, next, ".parquet"@);
    let a = text::decimal_text(first as nat);
    let b = text::decimal_text(next as nat);
    lemma_decimal_digits(first as nat);
    lemma_decimal_digits(next as nat);
    assert(name[0] == a[0]);
    assert forall|i: int| 0 <= i < name.len() implies #[trigger] name[i] != '/' by {
        let at = i - a.len() - 1;
        if i < a.len() {
            assert(name[i] == a[i]);
        } else if i == a.len() {
            assert(name[i] == "-"@[0]);
        } else if at < b.len() {
            assert(name[i] == b[at]);
        } else {
            assert(name[i] == ".parquet"@[at - b.len()]);
        }
    }
}

/// A path has one last segment.
proof fn lemma_one_name(path: Seq<char>, left: Seq<char>, right: Seq<char>)
    requires
        ends_in(path, left),
        ends_in(path, right),
        is_name(left),
        is_name(right),
    ensures
        left == right,
{
    if left.len() < right.len() {
        assert(right[right.len() - left.len() - 1] == '/');
    }
    if right.len() < left.len() {
        assert(left[left.len() - right.len() - 1] == '/');
    }
}

proof fn lemma_join_ends_in(base: Seq<char>, name: Seq<char>)
    requires
        is_name(name),
    ensures
        ends_in(join_path(base, name), name),
{
    let path = join_path(base, name);
    assert(path.skip(path.len() - name.len()) =~= name);
}

proof fn lemma_join_extends(base: Seq<char>, part: Seq<char>)
    requires
        part.len() > 0,
        part[0] != '/',
    ensures
        extends(base, join_path(base, part)),
{
    assert(join_path(base, part).take(base.len() as int) =~= base);
}

proof fn lemma_extends_further(base: Seq<char>, middle: Seq<char>, path: Seq<char>)
    requires
        extends(base, middle),
        extends(middle, path),
    ensures
        extends(base, path),
{
    assert(path.take(base.len() as int) =~= middle.take(base.len() as int));
    if base.len() < middle.len() {
        assert(path[base.len() as int] == path.take(middle.len() as int)[base.len() as int]);
    }
}

proof fn lemma_segment_stops(path: Seq<char>, at: int, slash: int)
    requires
        0 <= at <= slash < path.len(),
        path[slash] == '/',
    ensures
        segment_end(path, at) <= slash,
    decreases slash - at,
{
    if path[at] != '/' {
        lemma_segment_stops(path, at + 1, slash);
    }
}

proof fn lemma_segment_runs(path: Seq<char>, at: int, end: int)
    requires
        0 <= at <= end <= path.len(),
        forall|i: int| at <= i < end ==> #[trigger] path[i] != '/',
        end == path.len() || path[end] == '/',
    ensures
        segment_end(path, at) == end,
    decreases end - at,
{
    if at < end {
        lemma_segment_runs(path, at + 1, end);
    }
}

/// The last component of a path that ends in a name is that name.
proof fn lemma_last_component(path: Seq<char>, name: Seq<char>, at: int)
    requires
        is_name(name),
        ends_in(path, name),
        0 <= at <= path.len() - name.len(),
    ensures
        components_from(path, at).len() > 0,
        components_from(path, at).last() == ((path.len() - name.len()) as int, path.len() as int),
    decreases path.len() - at,
{
    let start = path.len() - name.len();
    assert forall|i: int| start <= i < path.len() implies #[trigger] path[i] != '/' by {
        assert(path[i] == name[i - start]);
    }
    lemma_segment_end(path, at);
    if at == start {
        lemma_segment_runs(path, at, path.len() as int);
        assert(path[at] == name[0]);
    } else {
        lemma_segment_stops(path, at, start - 1);
        lemma_last_component(path, name, segment_end(path, at) + 1);
    }
}

proof fn lemma_segment_same(base: Seq<char>, path: Seq<char>, at: int)
    requires
        extends(base, path),
        0 <= at < base.len(),
    ensures
        segment_end(base, at) == segment_end(path, at),
    decreases base.len() - at,
{
    assert(path[at] == path.take(base.len() as int)[at]);
    if base[at] != '/' {
        if at + 1 < base.len() {
            lemma_segment_same(base, path, at + 1);
        }
    }
}

/// The components of a path begin those of a path that continues it.
proof fn lemma_first_components(base: Seq<char>, path: Seq<char>, at: int)
    requires
        extends(base, path),
        0 <= at <= base.len(),
    ensures
        components_from(base, at).len() <= components_from(path, at).len(),
        forall|i: int|
            0 <= i < components_from(base, at).len() ==> #[trigger] components_from(base, at)[i]
                == components_from(path, at)[i],
    decreases base.len() - at,
{
    if at < base.len() {
        lemma_segment_same(base, path, at);
        lemma_segment_end(base, at);
        assert(path[at] == path.take(base.len() as int)[at]);
        let end = segment_end(base, at);
        if end < base.len() {
            lemma_first_components(base, path, end + 1);
            let rest = components_from(base, end + 1);
            let more = components_from(path, end + 1);
            assert forall|i: int|
                0 <= i < components_from(base, at).len() implies #[trigger] components_from(
                base,
                at,
            )[i] == components_from(path, at)[i] by {
                if is_component(base, at, end) {
                    if i > 0 {
                        assert(rest[i - 1] == more[i - 1]);
                    }
                } else {
                    assert(rest[i] == more[i]);
                }
            }
        }
    }
}

/// What follows a directory in the path of a file below it ends in the name of that file.
proof fn lemma_stripped_name(base: Seq<char>, path: Seq<char>, name: Seq<char>)
    requires
        is_name(name),
        ends_in(path, name),
        extends(base, path),
        base.len() + name.len() <= path.len(),
        stripped(path, base) is Some,
    ensures
        ends_in(stripped(path, base)->0, name),
{
    let parts = components_from(path, 0);
    let base_parts = components_from(base, 0);
    let skip = base_parts.len();
    let start = path.len() - name.len();
    lemma_last_component(path, name, 0);
    lemma_first_components(base, path, 0);
    lemma_components_bounds(base, 0);
    lemma_components_bounds(path, 0);
    if skip == parts.len() {
        assert(base_parts[skip - 1] == parts[skip - 1]);
        assert(base_parts[skip - 1].1 <= base.len());
    }
    let last = parts.len() - 1;
    let from = parts[skip as int].0;
    assert(from <= start) by {
        if skip < last {
            assert(parts[skip as int].1 <= parts[last].0);
        }
    }
    let rest = path.subrange(from, path.len() as int);
    assert(rest.skip(rest.len() - name.len()) =~= path.skip(start));
    if from < start {
        assert(rest[rest.len() - name.len() - 1] == path[start - 1]);
    }
}

/// The path of an hour file below its tenant ends in the name of its sequence range.
pub proof fn lemma_hour_file_name(
    root: Seq<char>,
    tenant: Seq<char>,
    hour: u64,
    first: u64,
    next: u64,
)
    requires
        stripped(
            join_path(hour_dir(root, tenant, hour), range_name(first, next, ".parquet"@)),
            tenant_dir(root, tenant),
        ) is Some,
    ensures
        ends_in(
            stripped(
                join_path(hour_dir(root, tenant, hour), range_name(first, next, ".parquet"@)),
                tenant_dir(root, tenant),
            )->0,
            range_name(first, next, ".parquet"@),
        ),
{
    reveal_strlit("date=");
    reveal_strlit("hour=");
    let base = tenant_dir(root, tenant);
    let date = date_name(civil_date(hour as int / NANOS_PER_DAY as int));
    let part = hour_name((hour / NANOS_PER_HOUR) as int % 24);
    let day = join_path(base, date);
    let directory = hour_dir(root, tenant, hour);
    let name = range_name(first, next, ".parquet"@);
    let path = join_path(directory, name);
    lemma_range_is_name(first, next);
    assert(date[0] == "date="@[0]);
    assert(part[0] == "hour="@[0]);
    lemma_join_extends(base, date);
    lemma_join_extends(day, part);
    lemma_join_extends(directory, name);
    lemma_extends_further(base, day, directory);
    lemma_extends_further(base, directory, path);
    lemma_join_ends_in(directory, name);
    lemma_stripped_name(base, path, name);
}

/// A path ends in the name of one sequence range at most.
pub proof fn file_paths_tell_their_range(
    path: Seq<char>,
    first: u64,
    next: u64,
    other_first: u64,
    other_next: u64,
)
    requires
        ends_in(path, range_name(first, next, ".parquet"@)),
        ends_in(path, range_name(other_first, other_next, ".parquet"@)),
    ensures
        first == other_first,
        next == other_next,
{
    let left = range_name(first, next, ".parquet"@);
    let right = range_name(other_first, other_next, ".parquet"@);
    lemma_range_is_name(first, next);
    lemma_range_is_name(other_first, other_next);
    lemma_one_name(path, left, right);
    file_names_tell_their_range(first, next, other_first, other_next, ".parquet"@);
}

// Laws of paths.

proof fn lemma_components_below(base: Seq<char>, path: Seq<char>, at: int)
    requires
        extends(base, path),
        base.len() < path.len(),
        0 <= at < base.len(),
        base[base.len() - 1] != '/',
    ensures
        components_from(path, at) == components_from(base, at) + components_from(
            path,
            base.len() as int + 1,
        ),
    decreases base.len() - at,
{
    lemma_segment_same(base, path, at);
    lemma_segment_end(base, at);
    let end = segment_end(base, at);
    assert(path[at] == path.take(base.len() as int)[at]);
    assert(is_component(base, at, end) == is_component(path, at, end));
    if end < base.len() {
        assert(end + 1 < base.len()) by {
            if end + 1 == base.len() {
                lemma_segment_char(base, at);
            }
        }
        lemma_components_below(base, path, end + 1);
        assert(components_from(path, at) =~= components_from(base, at) + components_from(
            path,
            base.len() as int + 1,
        ));
    } else {
        assert(components_from(path, at) =~= components_from(base, at) + components_from(
            path,
            base.len() as int + 1,
        ));
    }
}

proof fn lemma_segment_char(path: Seq<char>, at: int)
    requires
        0 <= at <= path.len(),
    ensures
        segment_end(path, at) < path.len() ==> path[segment_end(path, at)] == '/',
    decreases path.len() - at,
{
    if at < path.len() && path[at] != '/' {
        lemma_segment_char(path, at + 1);
    }
}

/// What lies below a directory is found again: stripping the directory from a path gives the rest, and
/// joining the rest to the directory gives the path. The rest begins with neither a dot nor a slash, and
/// ends in a name.
pub proof fn joining_undoes_stripping(base: Seq<char>, rest: Seq<char>, name: Seq<char>)
    requires
        base.len() > 0,
        base[base.len() - 1] != '/',
        rest.len() > 0,
        rest[0] != '/',
        rest[0] != '.',
        name.len() > 0,
        name[0] != '.',
        forall|i: int| 0 <= i < name.len() ==> #[trigger] name[i] != '/',
        ends_in(rest, name),
    ensures
        stripped(join_path(base, rest), base) == Some(rest),
{
    let path = join_path(base, rest);
    let from = base.len() as int + 1;
    assert(path.take(base.len() as int) =~= base);
    assert(path[base.len() as int] == '/');
    lemma_components_below(base, path, 0);
    let parts = components_from(path, 0);
    let base_parts = components_from(base, 0);
    let skip = base_parts.len();
    assert(path[from] == rest[0]);
    lemma_segment_end(path, from);
    lemma_segment_end(path, from + 1);
    let end = segment_end(path, from);
    assert(end > from);
    assert(components_from(path, from)[0] == (from, end));
    assert(ends_in(path, name)) by {
        assert(path.skip(path.len() - name.len()) =~= rest.skip(rest.len() - name.len()));
        if rest.len() > name.len() {
            assert(path[path.len() - name.len() - 1] == rest[rest.len() - name.len() - 1]);
        }
    }
    lemma_last_component(path, name, 0);
    lemma_components_bounds(base, 0);
    assert forall|i: int| 0 <= i < skip implies component_text(path, parts[i]) == component_text(
        base,
        #[trigger] base_parts[i],
    ) by {
        assert(parts[i] == base_parts[i]);
        assert(path.subrange(parts[i].0, parts[i].1) =~= base.subrange(parts[i].0, parts[i].1));
    }
    assert(parts[skip as int] == (from, end));
    assert(path.subrange(from, path.len() as int) =~= rest);
}

proof fn lemma_short_decimal(value: nat)
    ensures
        value < 100 ==> text::padded_text(value, 2).len() == 2,
        value < 10_000 ==> text::padded_text(value, 4).len() == 4,
{
    reveal_with_fuel(text::decimal_text, 5);
    text::padded_text_reads_back(value, 2);
    text::padded_text_reads_back(value, 4);
}

proof fn lemma_date_text(date: (int, int, int))
    requires
        1970 <= date.0 <= 2554,
        1 <= date.1 <= 12,
        1 <= date.2 <= 31,
    ensures
        date_name(date).len() == 15,
        text::digits_value(date_name(date).subrange(5, 9)) == date.0,
        text::digits_value(date_name(date).subrange(10, 12)) == date.1,
        text::digits_value(date_name(date).subrange(13, 15)) == date.2,
        date_name(date)[0] == 'd',
        forall|i: int|
            0 <= i < 15 ==> #[trigger] date_name(date)[i] != '/' && date_name(date)[i] != '.',
{
    reveal_strlit("date=");
    reveal_strlit("-");
    let y = text::padded_text(date.0 as nat, 4);
    let m = text::padded_text(date.1 as nat, 2);
    let d = text::padded_text(date.2 as nat, 2);
    lemma_short_decimal(date.0 as nat);
    lemma_short_decimal(date.1 as nat);
    lemma_short_decimal(date.2 as nat);
    text::padded_text_reads_back(date.0 as nat, 4);
    text::padded_text_reads_back(date.1 as nat, 2);
    text::padded_text_reads_back(date.2 as nat, 2);
    let name = date_name(date);
    assert(name.subrange(5, 9) =~= y);
    assert(name.subrange(10, 12) =~= m);
    assert(name.subrange(13, 15) =~= d);
    assert(name[0] == "date="@[0]);
    assert forall|i: int| 0 <= i < 15 implies #[trigger] name[i] != '/' && name[i] != '.' by {
        if i < 5 {
            assert(name[i] == "date="@[i]);
        } else if i < 9 {
            assert(name[i] == y[i - 5]);
        } else if i == 9 {
            assert(name[i] == "-"@[0]);
        } else if i < 12 {
            assert(name[i] == m[i - 10]);
        } else if i == 12 {
            assert(name[i] == "-"@[0]);
        } else {
            assert(name[i] == d[i - 13]);
        }
    }
}

proof fn lemma_hour_text(hour: int)
    requires
        0 <= hour < 24,
    ensures
        hour_name(hour).len() == 7,
        text::digits_value(hour_name(hour).subrange(5, 7)) == hour,
        hour_name(hour)[0] == 'h',
        forall|i: int|
            0 <= i < 7 ==> #[trigger] hour_name(hour)[i] != '/' && hour_name(hour)[i] != '.',
{
    reveal_strlit("hour=");
    lemma_short_decimal(hour as nat);
    text::padded_text_reads_back(hour as nat, 2);
    let digits = text::padded_text(hour as nat, 2);
    let name = hour_name(hour);
    assert(name.subrange(5, 7) =~= digits);
    assert(name[0] == "hour="@[0]);
    assert forall|i: int| 0 <= i < 7 implies #[trigger] name[i] != '/' && name[i] != '.' by {
        if i < 5 {
            assert(name[i] == "hour="@[i]);
        } else {
            assert(name[i] == digits[i - 5]);
        }
    }
}

proof fn lemma_day_of(hour: u64)
    ensures
        ({
            let date = civil_date(hour as int / NANOS_PER_DAY as int);
            &&& calendar::is_date(date)
            &&& calendar::day_number(date) == hour as int / NANOS_PER_DAY as int
            &&& 1970 <= date.0 <= 2554
            &&& 1 <= date.2 <= 31
        }),
{
    let days = hour as int / NANOS_PER_DAY as int;
    let date = calendar::every_day_has_a_date(days);
    assert(calendar::is_date(date) && calendar::day_number(date) == days);
    let chosen = civil_date(days);
    calendar::lemma_year_range(chosen);
}

/// The directory of an hour tells the hour: no two hours of a tenant share one.
pub proof fn hour_directories_tell_their_hour(
    root: Seq<char>,
    tenant: Seq<char>,
    first: u64,
    second: u64,
)
    requires
        first % NANOS_PER_HOUR == 0,
        second % NANOS_PER_HOUR == 0,
        hour_dir(root, tenant, first) == hour_dir(root, tenant, second),
    ensures
        first == second,
{
    let base = tenant_dir(root, tenant);
    let path = hour_dir(root, tenant, first);
    let first_date = civil_date(first as int / NANOS_PER_DAY as int);
    let second_date = civil_date(second as int / NANOS_PER_DAY as int);
    let first_hour = (first / NANOS_PER_HOUR) as int % 24;
    let second_hour = (second / NANOS_PER_HOUR) as int % 24;
    lemma_day_of(first);
    lemma_day_of(second);
    lemma_date_text(first_date);
    lemma_date_text(second_date);
    lemma_hour_text(first_hour);
    lemma_hour_text(second_hour);
    let a = join_path(base, date_name(first_date));
    let b = join_path(base, date_name(second_date));
    assert(a.len() == b.len());
    assert(a[a.len() - 1] == date_name(first_date)[14]);
    assert(b[b.len() - 1] == date_name(second_date)[14]);
    assert(hour_name(first_hour) =~= path.skip(path.len() - 7));
    assert(hour_name(second_hour) =~= path.skip(path.len() - 7));
    assert(a =~= path.take(path.len() - 8));
    assert(b =~= path.take(path.len() - 8));
    assert(date_name(first_date) =~= a.skip(a.len() - 15));
    assert(date_name(second_date) =~= a.skip(a.len() - 15));
    assert(first_date == second_date);
    assert(first_hour == second_hour);
}

/// An hour file lies below its tenant: its path below the tenant directory is the directory of the date,
/// that of the hour, and its name, and leads back to it.
pub proof fn hour_files_lie_below_their_tenant(
    root: Seq<char>,
    tenant: Seq<char>,
    hour: u64,
    first: u64,
    next: u64,
)
    requires
        tenant_dir(root, tenant).len() > 0,
        tenant_dir(root, tenant)[tenant_dir(root, tenant).len() - 1] != '/',
    ensures
        ({
            let base = tenant_dir(root, tenant);
            let path = join_path(
                hour_dir(root, tenant, hour),
                range_name(first, next, ".parquet"@),
            );
            &&& stripped(path, base) is Some
            &&& plain_relative(stripped(path, base)->0)
            &&& join_path(base, stripped(path, base)->0) == path
        }),
{
    reveal_strlit("-");
    reveal_strlit(".parquet");
    let base = tenant_dir(root, tenant);
    let date_of = civil_date(hour as int / NANOS_PER_DAY as int);
    let hour_of = (hour / NANOS_PER_HOUR) as int % 24;
    let date = date_name(date_of);
    let part = hour_name(hour_of);
    let name = range_name(first, next, ".parquet"@);
    let path = join_path(hour_dir(root, tenant, hour), name);
    lemma_day_of(hour);
    lemma_date_text(date_of);
    lemma_hour_text(hour_of);
    lemma_range_is_name(first, next);
    let rest = date + seq!['/'] + part + seq!['/'] + name;
    assert(rest[0] == date[0]);
    let day = join_path(base, date);
    assert(day =~= base + seq!['/'] + date);
    assert(day[day.len() - 1] == date[14]);
    let directory = join_path(day, part);
    assert(directory =~= day + seq!['/'] + part);
    assert(directory[directory.len() - 1] == part[6]);
    assert(path =~= directory + seq!['/'] + name);
    assert(path =~= base + seq!['/'] + rest);
    assert(join_path(base, rest) =~= path);
    assert(ends_in(rest, name)) by {
        assert(rest.skip(rest.len() - name.len()) =~= name);
        assert(rest[rest.len() - name.len() - 1] == '/');
    }
    joining_undoes_stripping(base, rest, name);
    lemma_no_parent(first, next);
    assert forall|at: int| 0 <= at < rest.len() implies !#[trigger] parent_at(rest, at) by {
        if parent_at(rest, at) {
            if at < 15 {
                assert(rest[at] == date[at]);
            } else if at == 15 {
                assert(rest[at] == '/');
            } else if at < 23 {
                assert(rest[at] == part[at - 16]);
            } else if at == 23 {
                assert(rest[at] == '/');
            } else {
                let i = at - 24;
                assert(rest[at] == name[i]);
                assert(rest[at + 1] == name[i + 1]);
            }
        }
    }
}

/// No two dots follow each other in the name of an hour file.
proof fn lemma_no_parent(first: u64, next: u64)
    ensures
        forall|i: int|
            0 <= i < range_name(first, next, ".parquet"@).len() - 1 && #[trigger] range_name(
                first,
                next,
                ".parquet"@,
            )[i] == '.' ==> range_name(first, next, ".parquet"@)[i + 1] != '.',
{
    reveal_strlit("-");
    reveal_strlit(".parquet");
    let name = range_name(first, next, ".parquet"@);
    let a = text::decimal_text(first as nat);
    let b = text::decimal_text(next as nat);
    lemma_decimal_digits(first as nat);
    lemma_decimal_digits(next as nat);
    assert forall|i: int| 0 <= i < name.len() - 1 && #[trigger] name[i] == '.' implies name[i + 1]
        != '.' by {
        let at = i - a.len() - 1;
        if i < a.len() {
            assert(name[i] == a[i]);
        } else if i == a.len() {
            assert(name[i] == "-"@[0]);
        } else if at < b.len() {
            assert(name[i] == b[at]);
        } else {
            assert(name[i] == ".parquet"@[at - b.len()]);
            assert(name[i + 1] == ".parquet"@[at - b.len() + 1]);
        }
    }
}

/// The end of an hour is an hour after its start, unless time ends first; it is where the next hour
/// starts.
pub proof fn hours_end_where_the_next_starts(start: u64)
    ensures
        start + NANOS_PER_HOUR <= u64::MAX ==> hour_end(start) == start + NANOS_PER_HOUR,
        hour_end(start) >= start,
        start + NANOS_PER_HOUR > u64::MAX ==> hour_end(start) == u64::MAX,
{
}

} // verus!
