//! CRC32C retirement descriptor for one published generation.
//!
//! The descriptor hides listed files from new scans. It does not delete those files or change the
//! publication commit.
use vstd::prelude::*;
use crate::codec;
use crate::codec::{
    seal, text_fits, unseal, write_str, write_u32, write_u64, DescriptorError,
    DescriptorErrorView, Parsed,
    Reader,
};
use crate::layout;
use crate::layout::is_plain_relative;
use crate::text::same_text;

verus! {

/// Version of the descriptor layout.
pub const RETIREMENT_VERSION: u16 = 1;

/// The first bytes of a descriptor.
pub open spec fn retirement_magic() -> Seq<u8> {
    seq![0x4fu8, 0x42u8, 0x53u8, 0x2du8, 0x52u8, 0x45u8, 0x54u8, 0x31u8]
}

/// Where a durability test stops a retirement write.
#[derive(Clone, Copy, Debug, PartialEq, Eq, Structural)]
pub enum RetirementFault {
    /// Fail before creating the temporary descriptor.
    Create,
    /// Fail after the temporary descriptor is written, before `sync_data`.
    SyncFile,
    /// Fail after `sync_data`, before the temporary descriptor is renamed.
    Rename,
    /// Fail after rename, before the directories are fsynced.
    SyncDir,
}

/// Options for one descriptor write.
#[derive(Clone, Copy, Debug)]
pub struct RetirementWriteOptions {
    /// Stop at this durability boundary and leave the partial descriptor in place.
    pub fault: Option<RetirementFault>,
}

impl Default for RetirementWriteOptions {
    fn default() -> (options: Self)
        ensures
            options.fault is None,
    {
        RetirementWriteOptions { fault: None }
    }
}

/// One hour file hidden by a retirement descriptor.
#[derive(Debug)]
pub struct RetiredFile {
    /// Path relative to `tenants/<tenant>`.
    pub relative_path: String,
    /// Rows recorded for that file by the publication commit.
    pub rows: u64,
}

#[verifier::ext_equal]
pub struct RetiredFileView {
    pub relative_path: Seq<char>,
    pub rows: u64,
}

impl DeepView for RetiredFile {
    type V = RetiredFileView;

    open spec fn deep_view(&self) -> RetiredFileView {
        RetiredFileView { relative_path: self.relative_path@, rows: self.rows }
    }
}

/// Durable record of files no longer visible from one exclusive WAL sequence range.
#[derive(Debug)]
pub struct Retirement {
    /// Tenant that owns the generation.
    pub tenant: String,
    /// Inclusive first WAL sequence of the published generation.
    pub first_sequence: u64,
    /// Exclusive next WAL sequence of the published generation.
    pub next_sequence: u64,
    /// Files were eligible because their maximum receive time was below this instant.
    pub received_before_unix_nano: u64,
    /// Hour files hidden from new scans.
    pub files: Vec<RetiredFile>,
}

#[verifier::ext_equal]
pub struct RetirementView {
    pub tenant: Seq<char>,
    pub first_sequence: u64,
    pub next_sequence: u64,
    pub received_before_unix_nano: u64,
    pub files: Seq<RetiredFileView>,
}

impl DeepView for Retirement {
    type V = RetirementView;

    open spec fn deep_view(&self) -> RetirementView {
        RetirementView {
            tenant: self.tenant@,
            first_sequence: self.first_sequence,
            next_sequence: self.next_sequence,
            received_before_unix_nano: self.received_before_unix_nano,
            files: self.files.deep_view(),
        }
    }
}

/// Why a retirement descriptor could not be written or read.
#[derive(Debug)]
pub enum RetirementError {
    /// Filesystem failure, by its message.
    Io(String),
    /// The descriptor bytes are not a supported retirement record.
    Invalid(String),
    /// The CRC32C trailer does not match the body.
    Checksum,
    /// [`RetirementWriteOptions::fault`] stopped the write.
    Fault(RetirementFault),
}

/// What is shown for a retirement fault.
pub open spec fn retirement_fault_text(fault: RetirementFault) -> Seq<char> {
    match fault {
        RetirementFault::Create => "Create"@,
        RetirementFault::SyncFile => "SyncFile"@,
        RetirementFault::Rename => "Rename"@,
        RetirementFault::SyncDir => "SyncDir"@,
    }
}

impl RetirementError {
    pub open spec fn text(&self) -> Seq<char> {
        match self {
            RetirementError::Io(error) => "retirement io: "@ + error@,
            RetirementError::Invalid(detail) => "invalid retirement: "@ + detail@,
            RetirementError::Checksum => "retirement checksum mismatch"@,
            RetirementError::Fault(step) => "injected retirement fault at "@
                + retirement_fault_text(*step),
        }
    }

    /// The message of this error.
    pub fn message(&self) -> (message: String)
        ensures
            message@ == self.text(),
    {
        match self {
            RetirementError::Io(error) => "retirement io: ".to_owned().concat(error),
            RetirementError::Invalid(detail) => "invalid retirement: ".to_owned().concat(detail),
            RetirementError::Checksum => "retirement checksum mismatch".to_owned(),
            RetirementError::Fault(step) => "injected retirement fault at ".to_owned().concat(
                match step {
                    RetirementFault::Create => "Create",
                    RetirementFault::SyncFile => "SyncFile",
                    RetirementFault::Rename => "Rename",
                    RetirementFault::SyncDir => "SyncDir",
                },
            ),
        }
    }
}

/// Fails at the durability boundary that `options` name.
pub fn fail(options: &RetirementWriteOptions, step: RetirementFault) -> (result: Result<
    (),
    RetirementError,
>)
    ensures
        result is Err <==> options.fault == Some(step),
        result is Err ==> result->Err_0 == RetirementError::Fault(step),
{
    match options.fault {
        Some(fault) => if fault == step {
            Err(RetirementError::Fault(step))
        } else {
            Ok(())
        },
        None => Ok(()),
    }
}

/// Whether one of the first `count` files has that path.
pub open spec fn lists(files: Seq<RetiredFileView>, count: int, path: Seq<char>) -> bool {
    exists|i: int| 0 <= i < count && (#[trigger] files[i]).relative_path == path
}

/// Why a file cannot stand at position `at`.
pub open spec fn file_fault(files: Seq<RetiredFileView>, at: int) -> Option<Seq<char>> {
    let path = files[at].relative_path;
    if lists(files, at, path) {
        Some("retirement lists "@ + path + " more than once"@)
    } else if !layout::plain_relative(path) {
        Some("retirement path "@ + path + " is not relative"@)
    } else {
        None
    }
}

/// Why the first file that cannot stand among the first `count` cannot.
pub open spec fn files_fault(files: Seq<RetiredFileView>, count: nat) -> Option<Seq<char>>
    decreases count,
{
    if count == 0 {
        None
    } else {
        match files_fault(files, (count - 1) as nat) {
            Some(detail) => Some(detail),
            None => file_fault(files, count - 1),
        }
    }
}

/// Why a retirement is not valid.
pub open spec fn validity_fault(retirement: RetirementView) -> Option<Seq<char>> {
    if retirement.next_sequence <= retirement.first_sequence {
        Some("retirement sequence range is empty"@)
    } else {
        files_fault(retirement.files, retirement.files.len())
    }
}

proof fn lemma_files_fault(files: Seq<RetiredFileView>, early: nat, count: nat)
    requires
        early <= count,
        files_fault(files, early) is Some,
    ensures
        files_fault(files, count) == files_fault(files, early),
    decreases count,
{
    if early < count {
        lemma_files_fault(files, early, (count - 1) as nat);
    }
}

/// Checks the range, that no path is repeated, and that every path stays below the tenant.
///
/// # Errors
///
/// Returns [`RetirementError::Invalid`] with the first fault.
pub fn validate(retirement: &Retirement) -> (result: Result<(), RetirementError>)
    ensures
        match result {
            Ok(_) => validity_fault(retirement.deep_view()) is None,
            Err(RetirementError::Invalid(detail)) => validity_fault(retirement.deep_view()) == Some(
                detail@,
            ),
            Err(_) => false,
        },
{
    if retirement.next_sequence <= retirement.first_sequence {
        return Err(RetirementError::Invalid("retirement sequence range is empty".to_owned()));
    }
    let ghost files = retirement.files.deep_view();
    let mut i: usize = 0;
    while i < retirement.files.len()
        invariant
            i <= retirement.files.len(),
            files == retirement.files.deep_view(),
            retirement.next_sequence > retirement.first_sequence,
            files_fault(files, i as nat) is None,
        decreases retirement.files.len() - i,
    {
        let path = &retirement.files[i].relative_path;
        assert(files[i as int].relative_path == path@);
        let mut k: usize = 0;
        while k < i
            invariant
                k <= i < retirement.files.len(),
                files == retirement.files.deep_view(),
                retirement.next_sequence > retirement.first_sequence,
                files_fault(files, i as nat) is None,
                path@ == files[i as int].relative_path,
                forall|m: int| 0 <= m < k ==> (#[trigger] files[m]).relative_path != path@,
            decreases i - k,
        {
            assert(files[k as int] == retirement.files@[k as int].deep_view());
            if same_text(&retirement.files[k].relative_path, path) {
                let detail = "retirement lists ".to_owned().concat(path).concat(" more than once");
                proof {
                    assert(lists(files, i as int, path@));
                    lemma_files_fault(files, (i + 1) as nat, files.len());
                }
                return Err(RetirementError::Invalid(detail));
            }
            k = k + 1;
        }
        if !is_plain_relative(path) {
            let detail = "retirement path ".to_owned().concat(path).concat(" is not relative");
            proof {
                lemma_files_fault(files, (i + 1) as nat, files.len());
            }
            return Err(RetirementError::Invalid(detail));
        }
        i = i + 1;
    }
    Ok(())
}

pub open spec fn retired_bytes(file: RetiredFileView) -> Seq<u8> {
    codec::string_bytes(file.relative_path) + codec::le_bytes(file.rows as nat, 8)
}

pub open spec fn retired_encoding() -> spec_fn(RetiredFileView) -> Seq<u8> {
    |file: RetiredFileView| retired_bytes(file)
}

/// The body of a descriptor.
pub open spec fn retirement_body(retirement: RetirementView) -> Seq<u8> {
    codec::string_bytes(retirement.tenant) + codec::le_bytes(retirement.first_sequence as nat, 8)
        + codec::le_bytes(retirement.next_sequence as nat, 8) + codec::le_bytes(
        retirement.received_before_unix_nano as nat,
        8,
    ) + codec::le_bytes(retirement.files.len(), 4) + codec::concat(
        retired_encoding(),
        retirement.files,
    )
}

/// The bytes of a descriptor.
pub open spec fn retirement_bytes(retirement: RetirementView) -> Seq<u8> {
    codec::sealed(retirement_magic(), RETIREMENT_VERSION, retirement_body(retirement))
}

/// Whether every path fits its length prefix.
pub open spec fn paths_fit(files: Seq<RetiredFileView>) -> bool {
    forall|i: int| 0 <= i < files.len() ==> codec::string_fits((#[trigger] files[i]).relative_path)
}

/// Why a retirement cannot be encoded.
pub open spec fn encoding_fault(retirement: RetirementView) -> Option<Seq<char>> {
    match validity_fault(retirement) {
        Some(detail) => Some(detail),
        None => if !codec::string_fits(retirement.tenant) {
            Some("string is too long"@)
        } else if retirement.files.len() > u32::MAX {
            Some("too many retired files"@)
        } else if !paths_fit(retirement.files) {
            Some("string is too long"@)
        } else {
            None
        },
    }
}

/// The bytes of a descriptor.
///
/// # Errors
///
/// Returns [`RetirementError::Invalid`] when the range or a path is invalid, or a list or a text
/// does not fit its length prefix.
pub fn encode(retirement: &Retirement) -> (bytes: Result<Vec<u8>, RetirementError>)
    ensures
        match bytes {
            Ok(bytes) => encoding_fault(retirement.deep_view()) is None && bytes@
                == retirement_bytes(retirement.deep_view()),
            Err(RetirementError::Invalid(detail)) => encoding_fault(retirement.deep_view()) == Some(
                detail@,
            ),
            Err(_) => false,
        },
{
    let ghost files = retirement.files.deep_view();
    match validate(retirement) {
        Ok(()) => {},
        Err(error) => {
            return Err(error);
        },
    }
    let mut body: Vec<u8> = Vec::new();
    if !text_fits(&retirement.tenant) {
        return Err(RetirementError::Invalid("string is too long".to_owned()));
    }
    write_str(&mut body, &retirement.tenant);
    write_u64(&mut body, retirement.first_sequence);
    write_u64(&mut body, retirement.next_sequence);
    write_u64(&mut body, retirement.received_before_unix_nano);
    if retirement.files.len() > u32::MAX as usize {
        return Err(RetirementError::Invalid("too many retired files".to_owned()));
    }
    write_u32(&mut body, retirement.files.len() as u32);
    let ghost head = body@;
    let mut i: usize = 0;
    assert(files.take(0) =~= Seq::empty());
    assert(body@ =~= head + codec::concat(retired_encoding(), files.take(0)));
    while i < retirement.files.len()
        invariant
            i <= retirement.files.len() <= u32::MAX,
            files == retirement.files.deep_view(),
            validity_fault(retirement.deep_view()) is None,
            codec::string_fits(retirement.tenant@),
            forall|k: int|
                0 <= k < i ==> codec::string_fits((#[trigger] files[k]).relative_path),
            body@ == head + codec::concat(retired_encoding(), files.take(i as int)),
        decreases retirement.files.len() - i,
    {
        assert(files[i as int] == retirement.files@[i as int].deep_view());
        if !text_fits(&retirement.files[i].relative_path) {
            assert(!paths_fit(files));
            return Err(RetirementError::Invalid("string is too long".to_owned()));
        }
        let ghost start = body@;
        write_str(&mut body, &retirement.files[i].relative_path);
        write_u64(&mut body, retirement.files[i].rows);
        proof {
            codec::lemma_concat_push(retired_encoding(), files.take(i as int), files[i as int]);
            assert(files.take(i + 1) =~= files.take(i as int).push(files[i as int]));
            assert(body@ =~= start + retired_bytes(files[i as int]));
            assert(body@ =~= head + codec::concat(retired_encoding(), files.take(i + 1)));
        }
        i = i + 1;
    }
    assert(files.take(i as int) =~= files);
    assert(body@ =~= retirement_body(retirement.deep_view()));
    let magic: [u8; 8] = [0x4f, 0x42, 0x53, 0x2d, 0x52, 0x45, 0x54, 0x31];
    assert(magic@ =~= retirement_magic());
    Ok(seal(&magic, RETIREMENT_VERSION, &body))
}

pub open spec fn parse_retired(data: Seq<u8>) -> Parsed<RetiredFileView> {
    match codec::parse_string(data) {
        Err(detail) => Err(detail),
        Ok((relative_path, rest)) => match codec::parse_u64(rest) {
            Err(detail) => Err(detail),
            Ok((rows, rest)) => Ok((RetiredFileView { relative_path, rows }, rest)),
        },
    }
}

pub open spec fn retired_item() -> spec_fn(Seq<u8>) -> Parsed<RetiredFileView> {
    |data: Seq<u8>| parse_retired(data)
}

pub open spec fn parse_retirement(data: Seq<u8>) -> Parsed<RetirementView> {
    match codec::parse_string(data) {
        Err(detail) => Err(detail),
        Ok((tenant, rest)) => match codec::parse_u64(rest) {
            Err(detail) => Err(detail),
            Ok((first_sequence, rest)) => match codec::parse_u64(rest) {
                Err(detail) => Err(detail),
                Ok((next_sequence, rest)) => match codec::parse_u64(rest) {
                    Err(detail) => Err(detail),
                    Ok((received_before_unix_nano, rest)) => match codec::parse_u32(rest) {
                        Err(detail) => Err(detail),
                        Ok((count, rest)) => match codec::parse_list(
                            retired_item(),
                            count as nat,
                            rest,
                        ) {
                            Err(detail) => Err(detail),
                            Ok((files, rest)) => Ok(
                                (
                                    RetirementView {
                                        tenant,
                                        first_sequence,
                                        next_sequence,
                                        received_before_unix_nano,
                                        files,
                                    },
                                    rest,
                                ),
                            ),
                        },
                    },
                },
            },
        },
    }
}

/// The retirement that descriptor bytes hold, or why they are refused. Bytes behind the last file
/// are ignored.
pub open spec fn decoded(bytes: Seq<u8>) -> Result<RetirementView, DescriptorErrorView> {
    match codec::unsealed(
        bytes,
        retirement_magic(),
        RETIREMENT_VERSION,
        "unsupported retirement version "@,
    ) {
        Err(error) => Err(error),
        Ok(body) => match parse_retirement(body) {
            Err(detail) => Err(DescriptorErrorView::Invalid(detail)),
            Ok((retirement, _)) => match validity_fault(retirement) {
                Some(detail) => Err(DescriptorErrorView::Invalid(detail)),
                None => Ok(retirement),
            },
        },
    }
}

fn read_retired(reader: &mut Reader<'_>) -> (file: Result<RetiredFile, String>)
    requires
        old(reader).wf(),
    ensures
        final(reader).wf(),
        codec::reads(file, parse_retired(old(reader).rest()), final(reader).rest()),
{
    let relative_path = reader.string()?;
    let rows = reader.u64()?;
    Ok(RetiredFile { relative_path, rows })
}

fn read_files(reader: &mut Reader<'_>, count: u32) -> (files: Result<Vec<RetiredFile>, String>)
    requires
        old(reader).wf(),
    ensures
        final(reader).wf(),
        codec::reads(
            files,
            codec::parse_list(retired_item(), count as nat, old(reader).rest()),
            final(reader).rest(),
        ),
{
    let ghost data = reader.rest();
    let mut files: Vec<RetiredFile> = Vec::new();
    let mut i: u32 = 0;
    assert(files.deep_view() =~= Seq::empty());
    while i < count
        invariant
            i <= count,
            reader.wf(),
            data == old(reader).rest(),
            codec::parse_list(retired_item(), i as nat, data) == Ok::<
                (Seq<RetiredFileView>, Seq<u8>),
                Seq<char>,
            >((files.deep_view(), reader.rest())),
        decreases count - i,
    {
        let ghost before = files.deep_view();
        match read_retired(reader) {
            Ok(file) => {
                let ghost view = file.deep_view();
                files.push(file);
                assert(files.deep_view() =~= before.push(view));
            },
            Err(detail) => {
                proof {
                    codec::lemma_parse_list_fails(
                        retired_item(),
                        (i + 1) as nat,
                        count as nat,
                        data,
                    );
                }
                return Err(detail);
            },
        }
        i = i + 1;
    }
    Ok(files)
}

fn read_body(reader: &mut Reader<'_>) -> (retirement: Result<Retirement, String>)
    requires
        old(reader).wf(),
    ensures
        final(reader).wf(),
        codec::reads(retirement, parse_retirement(old(reader).rest()), final(reader).rest()),
{
    let tenant = reader.string()?;
    let first_sequence = reader.u64()?;
    let next_sequence = reader.u64()?;
    let received_before_unix_nano = reader.u64()?;
    let count = reader.u32()?;
    let files = read_files(reader, count)?;
    Ok(Retirement { tenant, first_sequence, next_sequence, received_before_unix_nano, files })
}

/// Whether a result of reading descriptor bytes agrees with what they hold.
pub open spec fn decodes(
    result: Result<Retirement, RetirementError>,
    expected: Result<RetirementView, DescriptorErrorView>,
) -> bool {
    match (result, expected) {
        (Ok(retirement), Ok(view)) => retirement.deep_view() == view,
        (Err(RetirementError::Invalid(detail)), Err(DescriptorErrorView::Invalid(text))) => detail@
            == text,
        (Err(RetirementError::Checksum), Err(DescriptorErrorView::Checksum)) => true,
        _ => false,
    }
}

/// The retirement that descriptor bytes hold.
///
/// # Errors
///
/// Returns [`RetirementError`] when the bytes are truncated, fail their checksum, or hold no valid
/// retirement.
pub fn decode(bytes: &[u8]) -> (retirement: Result<Retirement, RetirementError>)
    ensures
        decodes(retirement, decoded(bytes@)),
{
    let magic: [u8; 8] = [0x4f, 0x42, 0x53, 0x2d, 0x52, 0x45, 0x54, 0x31];
    assert(magic@ =~= retirement_magic());
    let body = match unseal(bytes, &magic, RETIREMENT_VERSION, "unsupported retirement version ") {
        Ok(body) => body,
        Err(DescriptorError::Invalid(detail)) => {
            return Err(RetirementError::Invalid(detail));
        },
        Err(DescriptorError::Checksum) => {
            return Err(RetirementError::Checksum);
        },
    };
    let mut reader = Reader::new(body.as_slice());
    let retirement = match read_body(&mut reader) {
        Ok(retirement) => retirement,
        Err(detail) => {
            return Err(RetirementError::Invalid(detail));
        },
    };
    match validate(&retirement) {
        Ok(()) => Ok(retirement),
        Err(error) => Err(error),
    }
}

proof fn lemma_parse_retired(file: RetiredFileView, rest: Seq<u8>)
    requires
        codec::string_fits(file.relative_path),
    ensures
        parse_retired(retired_bytes(file) + rest) == Ok::<(RetiredFileView, Seq<u8>), Seq<char>>(
            (file, rest),
        ),
{
    let after_path = codec::le_bytes(file.rows as nat, 8) + rest;
    codec::lemma_parse_string(file.relative_path, after_path);
    codec::lemma_parse_u64(file.rows, rest);
    assert(retired_bytes(file) + rest =~= codec::string_bytes(file.relative_path) + after_path);
}

proof fn lemma_retirement_steps(
    retirement: RetirementView,
    data: Seq<u8>,
    d1: Seq<u8>,
    d2: Seq<u8>,
    d3: Seq<u8>,
    d4: Seq<u8>,
    d5: Seq<u8>,
    rest: Seq<u8>,
)
    requires
        codec::parse_string(data) == Ok::<(Seq<char>, Seq<u8>), Seq<char>>(
            (retirement.tenant, d1),
        ),
        codec::parse_u64(d1) == Ok::<(u64, Seq<u8>), Seq<char>>((retirement.first_sequence, d2)),
        codec::parse_u64(d2) == Ok::<(u64, Seq<u8>), Seq<char>>((retirement.next_sequence, d3)),
        codec::parse_u64(d3) == Ok::<(u64, Seq<u8>), Seq<char>>(
            (retirement.received_before_unix_nano, d4),
        ),
        codec::parse_u32(d4) == Ok::<(u32, Seq<u8>), Seq<char>>(
            (retirement.files.len() as u32, d5),
        ),
        retirement.files.len() <= u32::MAX,
        codec::parse_list(retired_item(), retirement.files.len(), d5) == Ok::<
            (Seq<RetiredFileView>, Seq<u8>),
            Seq<char>,
        >((retirement.files, rest)),
    ensures
        parse_retirement(data) == Ok::<(RetirementView, Seq<u8>), Seq<char>>((retirement, rest)),
{
}

proof fn lemma_append_six(
    a: Seq<u8>,
    b: Seq<u8>,
    c: Seq<u8>,
    d: Seq<u8>,
    e: Seq<u8>,
    f: Seq<u8>,
)
    ensures
        a + b + c + d + e + f == a + (b + (c + (d + (e + (f + Seq::<u8>::empty()))))),
{
    assert(a + b + c + d + e + f =~= a + (b + (c + (d + (e + (f + Seq::<u8>::empty()))))));
}

proof fn lemma_parse_files(files: Seq<RetiredFileView>)
    requires
        paths_fit(files),
    ensures
        codec::parse_list(
            retired_item(),
            files.len(),
            codec::concat(retired_encoding(), files) + Seq::<u8>::empty(),
        ) == Ok::<(Seq<RetiredFileView>, Seq<u8>), Seq<char>>((files, Seq::empty())),
{
    let item = retired_item();
    let encode = retired_encoding();
    assert forall|i: int, tail: Seq<u8>| 0 <= i < files.len() implies #[trigger] item(
        encode(files[i]) + tail,
    ) == Ok::<(RetiredFileView, Seq<u8>), Seq<char>>((files[i], tail)) by {
        lemma_parse_retired(files[i], tail);
    }
    codec::lemma_parse_list_round_trip(item, encode, files, Seq::empty());
}

/// A descriptor that was written reads back as the retirement it was written for.
pub proof fn retirements_read_back(retirement: RetirementView)
    requires
        encoding_fault(retirement) is None,
    ensures
        decoded(retirement_bytes(retirement)) == Ok::<RetirementView, DescriptorErrorView>(
            retirement,
        ),
{
    let no_rest = Seq::<u8>::empty();
    let list = codec::concat(retired_encoding(), retirement.files);
    let d5 = list + no_rest;
    let d4 = codec::le_bytes(retirement.files.len(), 4) + d5;
    let d3 = codec::le_bytes(retirement.received_before_unix_nano as nat, 8) + d4;
    let d2 = codec::le_bytes(retirement.next_sequence as nat, 8) + d3;
    let d1 = codec::le_bytes(retirement.first_sequence as nat, 8) + d2;
    let data = codec::string_bytes(retirement.tenant) + d1;
    codec::lemma_parse_string(retirement.tenant, d1);
    codec::lemma_parse_u64(retirement.first_sequence, d2);
    codec::lemma_parse_u64(retirement.next_sequence, d3);
    codec::lemma_parse_u64(retirement.received_before_unix_nano, d4);
    codec::lemma_parse_u32(retirement.files.len() as u32, d5);
    lemma_parse_files(retirement.files);
    lemma_retirement_steps(retirement, data, d1, d2, d3, d4, d5, no_rest);
    lemma_append_six(
        codec::string_bytes(retirement.tenant),
        codec::le_bytes(retirement.first_sequence as nat, 8),
        codec::le_bytes(retirement.next_sequence as nat, 8),
        codec::le_bytes(retirement.received_before_unix_nano as nat, 8),
        codec::le_bytes(retirement.files.len(), 4),
        list,
    );
    codec::lemma_unsealed(
        retirement_magic(),
        RETIREMENT_VERSION,
        retirement_body(retirement),
        "unsupported retirement version "@,
    );
}

/// Bytes whose trailer is not the CRC32C of what stands before it hold no retirement.
pub proof fn a_bad_checksum_is_refused(bytes: Seq<u8>)
    requires
        bytes.len() >= 14,
        codec::le_value(bytes.skip(bytes.len() - 4)) != codec::crc32c_value(
            bytes.take(bytes.len() - 4),
        ),
    ensures
        decoded(bytes) == Err::<RetirementView, DescriptorErrorView>(
            DescriptorErrorView::Checksum,
        ),
{
}

/// A retirement descriptor in which one byte changed is refused for its checksum, whichever byte it is; so
/// is every one in which one bit is flipped.
pub proof fn one_changed_byte_is_refused(retirement: RetirementView, at: int, value: u8)
    requires
        0 <= at < retirement_bytes(retirement).len(),
        value != retirement_bytes(retirement)[at],
    ensures
        decoded(retirement_bytes(retirement).update(at, value)) == Err::<RetirementView, DescriptorErrorView>(
            DescriptorErrorView::Checksum,
        ),
{
    codec::one_changed_byte_is_refused(
        retirement_magic(),
        RETIREMENT_VERSION,
        retirement_body(retirement),
        "unsupported retirement version "@,
        at,
        value,
    );
}

proof fn lemma_files_sound(files: Seq<RetiredFileView>, count: nat)
    requires
        count <= files.len(),
    ensures
        files_fault(files, count) is None <==> (forall|i: int|
            0 <= i < count ==> layout::plain_relative((#[trigger] files[i]).relative_path)) && (
        forall|i: int, j: int|
            0 <= i < j < count ==> (#[trigger] files[i]).relative_path != (
            #[trigger] files[j]).relative_path),
    decreases count,
{
    if count > 0 {
        let last = count - 1;
        lemma_files_sound(files, last as nat);
        assert(lists(files, last as int, files[last as int].relative_path) <==> exists|i: int|
            0 <= i < last && (#[trigger] files[i]).relative_path
                == files[last as int].relative_path);
        if files_fault(files, last as nat) is Some {
        } else {
            assert forall|i: int, j: int|
                0 <= i < j < last implies (#[trigger] files[i]).relative_path != (
            #[trigger] files[j]).relative_path by {}
        }
    }
}

/// A retirement is valid exactly where its sequence range is not empty, every path stays below the tenant,
/// and no path is listed twice.
pub proof fn valid_retirements_list_paths_once(retirement: RetirementView)
    ensures
        validity_fault(retirement) is None <==> retirement.first_sequence
            < retirement.next_sequence && (forall|i: int|
            0 <= i < retirement.files.len() ==> layout::plain_relative(
                (#[trigger] retirement.files[i]).relative_path,
            )) && (forall|i: int, j: int|
            0 <= i < j < retirement.files.len() ==> (
            #[trigger] retirement.files[i]).relative_path != (
            #[trigger] retirement.files[j]).relative_path),
{
    lemma_files_sound(retirement.files, retirement.files.len());
}

} // verus!
