//! Admission of log batches, and how a refused request is answered over HTTP and gRPC.
use vstd::prelude::*;
use crate::auth;
use crate::auth::TokenDirectory;
use crate::clock::nanos_since_epoch;
use crate::decode;
use crate::decode::present_time;
use crate::headers;
use crate::headers::{equal_but_case, find, part, trim};
use crate::otlp::{ExportLogsServiceRequest, LogRecord, ResourceLogs, ScopeLogs};
use crate::text::chars_of;

verus! {

/// Stable rejection when a client event timestamp is too far ahead of receive time.
pub const FUTURE_TIMESTAMP: &'static str = "event timestamp is too far in the future";

/// The only media type of requests and responses over HTTP.
pub const PROTOBUF_CONTENT_TYPE: &'static str = "application/x-protobuf";

/// The telemetry signal contained in an accepted batch.
#[derive(Clone, Copy, Debug, PartialEq, Eq, Structural)]
pub enum Signal {
    Logs,
}

/// A validated request ready for durable persistence.
#[derive(Debug)]
pub struct AcceptedBatch {
    pub tenant_id: String,
    pub signal: Signal,
    pub received_at_unix_nanos: u64,
    /// Canonical Protobuf of the request.
    pub payload: Vec<u8>,
}

/// Why a sink did not take a batch.
#[derive(Clone, Copy, Debug, PartialEq, Eq, Structural)]
pub enum AppendErrorKind {
    /// The batch is malformed.
    InvalidArgument,
    /// Admission pressure; the client may try again.
    ResourceExhausted,
    /// The sink cannot store the batch now.
    Unavailable,
    /// Anything else.
    Internal,
}

/// An error returned before a batch reaches its durable acknowledgement point.
#[derive(Debug)]
pub struct AppendError {
    kind: AppendErrorKind,
    message: String,
}

impl AppendError {
    pub closed spec fn kind_view(&self) -> AppendErrorKind {
        self.kind
    }

    pub closed spec fn text(&self) -> Seq<char> {
        self.message@
    }

    /// A sink that cannot store the batch now.
    #[must_use]
    pub fn new(message: &str) -> (error: Self)
        ensures
            error.kind_view() == AppendErrorKind::Unavailable,
            error.text() == message@,
    {
        AppendError { kind: AppendErrorKind::Unavailable, message: message.to_owned() }
    }

    /// An error of this kind.
    #[must_use]
    pub fn with_kind(kind: AppendErrorKind, message: &str) -> (error: Self)
        ensures
            error.kind_view() == kind,
            error.text() == message@,
    {
        AppendError { kind, message: message.to_owned() }
    }

    /// Why the sink did not take the batch.
    #[must_use]
    pub fn kind(&self) -> (kind: AppendErrorKind)
        ensures
            kind == self.kind_view(),
    {
        self.kind
    }

    /// The message of this error.
    pub fn message(&self) -> (message: String)
        ensures
            message@ == self.text(),
    {
        self.message.clone()
    }
}

/// How far ahead of receive time a client event timestamp may be.
#[derive(Clone, Copy, Debug, PartialEq, Eq, Structural)]
pub struct IngestOptions {
    /// Most nanoseconds by which an event time may be ahead of the receive time.
    pub max_future_skew_nanos: u128,
    /// When set, use this receive time instead of the system clock.
    pub receive_time_unix_nano: Option<u64>,
}

/// One day.
pub const MAX_FUTURE_SKEW_NANOS: u128 = 86_400_000_000_000;

impl Default for IngestOptions {
    fn default() -> (options: Self)
        ensures
            options == (IngestOptions {
                max_future_skew_nanos: MAX_FUTURE_SKEW_NANOS,
                receive_time_unix_nano: None,
            }),
    {
        IngestOptions {
            max_future_skew_nanos: MAX_FUTURE_SKEW_NANOS,
            receive_time_unix_nano: None,
        }
    }
}

/// Transport-independent failure from preparing or appending a logs batch.
#[derive(Debug)]
pub enum IngestLogsError {
    /// The system clock shows no usable receive time.
    Clock(String),
    /// An event time is too far ahead of the receive time.
    FutureTimestamp,
    /// The sink did not take the batch.
    Append(AppendError),
}

// Receive time.

/// The receive time for the nanoseconds since the epoch, or why there is none.
pub open spec fn received_at(elapsed: Option<u128>) -> Result<u64, Seq<char>> {
    match elapsed {
        None => Err("system clock is before the Unix epoch"@),
        Some(nanos) => if nanos > u64::MAX {
            Err("receive timestamp exceeds u64"@)
        } else {
            Ok(nanos as u64)
        },
    }
}

/// The receive time for the nanoseconds since the epoch.
///
/// # Errors
///
/// Returns [`IngestLogsError::Clock`] before the epoch, and where the nanoseconds do not fit.
pub fn receive_time(elapsed: Option<u128>) -> (result: Result<u64, IngestLogsError>)
    ensures
        match received_at(elapsed) {
            Ok(received) => result is Ok && result->Ok_0 == received,
            Err(message) => result is Err && result->Err_0 is Clock && result->Err_0->Clock_0@
                == message,
        },
{
    match elapsed {
        None => Err(IngestLogsError::Clock("system clock is before the Unix epoch".to_owned())),
        Some(nanos) => if nanos > u64::MAX as u128 {
            Err(IngestLogsError::Clock("receive timestamp exceeds u64".to_owned()))
        } else {
            Ok(nanos as u64)
        },
    }
}

// Event times.

/// The latest event time that is taken.
pub open spec fn latest_time(received: u64, max_future_skew_nanos: u128) -> u64 {
    if received + max_future_skew_nanos > u64::MAX {
        u64::MAX
    } else {
        (received + max_future_skew_nanos) as u64
    }
}

fn time_limit(received: u64, max_future_skew_nanos: u128) -> (limit: u64)
    ensures
        limit == latest_time(received, max_future_skew_nanos),
{
    if max_future_skew_nanos > (u64::MAX - received) as u128 {
        u64::MAX
    } else {
        received + max_future_skew_nanos as u64
    }
}

/// Whether one of the records is later than `limit`.
pub open spec fn some_record_late(records: Seq<LogRecord>, received: u64, limit: u64) -> bool {
    exists|i: int|
        0 <= i < records.len() && decode::event_time(#[trigger] records[i], received) > limit
}

pub open spec fn some_scope_late(scopes: Seq<ScopeLogs>, received: u64, limit: u64) -> bool {
    exists|i: int|
        0 <= i < scopes.len() && some_record_late(
            (#[trigger] scopes[i]).log_records@,
            received,
            limit,
        )
}

/// Whether one of the records of a request is later than `limit`.
pub open spec fn some_resource_late(
    resources: Seq<ResourceLogs>,
    received: u64,
    limit: u64,
) -> bool {
    exists|i: int|
        0 <= i < resources.len() && some_scope_late(
            (#[trigger] resources[i]).scope_logs@,
            received,
            limit,
        )
}

/// Whether a request holds an event time that is too far ahead of the receive time.
pub open spec fn too_far_ahead(
    request: ExportLogsServiceRequest,
    received: u64,
    options: IngestOptions,
) -> bool {
    some_resource_late(
        request.resource_logs@,
        received,
        latest_time(received, options.max_future_skew_nanos),
    )
}

fn effective_time(record: &LogRecord, received: u64) -> (time: u64)
    ensures
        time == decode::event_time(*record, received),
{
    match present_time(record.time_unix_nano) {
        Some(time) => time,
        None => match present_time(record.observed_time_unix_nano) {
            Some(time) => time,
            None => received,
        },
    }
}

fn has_late_record(records: &Vec<LogRecord>, received: u64, limit: u64) -> (late: bool)
    ensures
        late == some_record_late(records@, received, limit),
{
    let mut i: usize = 0;
    while i < records.len()
        invariant
            i <= records.len(),
            forall|k: int|
                0 <= k < i ==> decode::event_time(#[trigger] records@[k], received) <= limit,
        decreases records.len() - i,
    {
        if effective_time(&records[i], received) > limit {
            assert(decode::event_time(records@[i as int], received) > limit);
            return true;
        }
        i = i + 1;
    }
    false
}

fn has_late_scope(scopes: &Vec<ScopeLogs>, received: u64, limit: u64) -> (late: bool)
    ensures
        late == some_scope_late(scopes@, received, limit),
{
    let mut i: usize = 0;
    while i < scopes.len()
        invariant
            i <= scopes.len(),
            forall|k: int|
                0 <= k < i ==> !some_record_late(
                    (#[trigger] scopes@[k]).log_records@,
                    received,
                    limit,
                ),
        decreases scopes.len() - i,
    {
        if has_late_record(&scopes[i].log_records, received, limit) {
            assert(some_record_late(scopes@[i as int].log_records@, received, limit));
            return true;
        }
        i = i + 1;
    }
    false
}

/// Whether every event time of a request is near enough to the receive time.
///
/// # Errors
///
/// Returns [`IngestLogsError::FutureTimestamp`] when an event time is too far ahead.
pub fn validate_logs_request(
    request: &ExportLogsServiceRequest,
    received_at_unix_nanos: u64,
    options: &IngestOptions,
) -> (result: Result<(), IngestLogsError>)
    ensures
        result is Err <==> too_far_ahead(*request, received_at_unix_nanos, *options),
        result is Err ==> result->Err_0 is FutureTimestamp,
{
    let received = received_at_unix_nanos;
    let limit = time_limit(received, options.max_future_skew_nanos);
    let resources = &request.resource_logs;
    let mut i: usize = 0;
    while i < resources.len()
        invariant
            i <= resources.len(),
            received == received_at_unix_nanos,
            limit == latest_time(received, options.max_future_skew_nanos),
            *resources == request.resource_logs,
            forall|k: int|
                0 <= k < i ==> !some_scope_late(
                    (#[trigger] resources@[k]).scope_logs@,
                    received,
                    limit,
                ),
        decreases resources.len() - i,
    {
        if has_late_scope(&resources[i].scope_logs, received, limit) {
            assert(some_scope_late(resources@[i as int].scope_logs@, received, limit));
            return Err(IngestLogsError::FutureTimestamp);
        }
        i = i + 1;
    }
    Ok(())
}

/// The batch of a request that arrived at this time.
///
/// # Errors
///
/// Returns [`IngestLogsError::FutureTimestamp`] when an event time is too far ahead.
pub fn accept_at(
    tenant_id: String,
    request: &ExportLogsServiceRequest,
    payload: Vec<u8>,
    received_at_unix_nanos: u64,
    options: &IngestOptions,
) -> (result: Result<AcceptedBatch, IngestLogsError>)
    ensures
        result is Err <==> too_far_ahead(*request, received_at_unix_nanos, *options),
        result is Err ==> result->Err_0 is FutureTimestamp,
        result is Ok ==> result->Ok_0 == (AcceptedBatch {
            tenant_id,
            signal: Signal::Logs,
            received_at_unix_nanos,
            payload,
        }),
        is_outcome(result, tenant_id, *request, payload, Ok(received_at_unix_nanos), *options),
{
    match validate_logs_request(request, received_at_unix_nanos, options) {
        Ok(()) => Ok(
            AcceptedBatch { tenant_id, signal: Signal::Logs, received_at_unix_nanos, payload },
        ),
        Err(error) => Err(error),
    }
}

/// Whether `result` is what a request gives that arrives at the time `received`, or at no usable
/// time.
pub open spec fn is_outcome(
    result: Result<AcceptedBatch, IngestLogsError>,
    tenant_id: String,
    request: ExportLogsServiceRequest,
    payload: Vec<u8>,
    received: Result<u64, Seq<char>>,
    options: IngestOptions,
) -> bool {
    match received {
        Ok(received) => if too_far_ahead(request, received, options) {
            result is Err && result->Err_0 is FutureTimestamp
        } else {
            result == Ok::<AcceptedBatch, IngestLogsError>(
                AcceptedBatch {
                    tenant_id,
                    signal: Signal::Logs,
                    received_at_unix_nanos: received,
                    payload,
                },
            )
        },
        Err(message) => result is Err && result->Err_0 is Clock && result->Err_0->Clock_0@
            == message,
    }
}

/// The batch of a request that arrives now. `payload` is the canonical Protobuf of `request`.
///
/// Without a receive time in `options` the machine's clock gives it, whatever it shows: see
/// [`receive_time`] and [`accept_at`] for what follows.
///
/// # Errors
///
/// Returns [`IngestLogsError::Clock`] when the clock shows no usable time, and
/// [`IngestLogsError::FutureTimestamp`] when an event time is too far ahead.
pub fn prepare_logs_batch(
    tenant_id: String,
    request: &ExportLogsServiceRequest,
    payload: Vec<u8>,
    options: &IngestOptions,
) -> (result: Result<AcceptedBatch, IngestLogsError>)
    ensures
        options.receive_time_unix_nano is Some ==> is_outcome(
            result,
            tenant_id,
            *request,
            payload,
            Ok(options.receive_time_unix_nano->0),
            *options,
        ),
        options.receive_time_unix_nano is None ==> exists|elapsed: Option<u128>|
            is_outcome(
                result,
                tenant_id,
                *request,
                payload,
                #[trigger] received_at(elapsed),
                *options,
            ),
{
    match options.receive_time_unix_nano {
        Some(received) => accept_at(tenant_id, request, payload, received, options),
        None => {
            let elapsed = nanos_since_epoch();
            let ghost shown = received_at(elapsed);
            match receive_time(elapsed) {
                Ok(received) => {
                    let result = accept_at(tenant_id, request, payload, received, options);
                    assert(is_outcome(result, tenant_id, *request, payload, shown, *options));
                    result
                },
                Err(error) => {
                    let result = Err(error);
                    assert(is_outcome(result, tenant_id, *request, payload, shown, *options));
                    result
                },
            }
        },
    }
}

// Answers over HTTP.

/// Whether a content type names the media type of this service, whatever its parameters.
pub open spec fn names_protobuf(content_type: Option<&str>) -> bool {
    match content_type {
        None => false,
        Some(value) => headers::same_but_case(
            headers::trimmed(value@.take(headers::first_index(value@, ';'))),
            PROTOBUF_CONTENT_TYPE@,
        ),
    }
}

/// Whether a content type names the media type of this service, whatever its parameters.
#[must_use]
pub fn is_protobuf_content_type(content_type: Option<&str>) -> (is: bool)
    ensures
        is == names_protobuf(content_type),
{
    match content_type {
        None => false,
        Some(value) => {
            let chars = chars_of(value);
            let at = find(&chars, ';');
            let media_type = part(&chars, 0, at);
            assert(media_type@ =~= value@.take(at as int));
            equal_but_case(&trim(&media_type), &chars_of(PROTOBUF_CONTENT_TYPE))
        },
    }
}

/// Why a request over HTTP is refused.
#[derive(Debug)]
pub enum HttpIngestError {
    Unauthenticated,
    UnsupportedMediaType,
    InvalidProtobuf,
    /// The batch could not be prepared or stored.
    Ingest(IngestLogsError),
}

/// What is wrong with the headers of a request.
pub enum HeaderFault {
    Token,
    ContentType,
}

/// The tenant that the headers of a request name, or what is wrong with them.
pub open spec fn judged_headers(
    tokens: Seq<(Seq<char>, Seq<char>)>,
    authorization: Option<&str>,
    content_type: Option<&str>,
) -> Result<Seq<char>, HeaderFault> {
    match auth::tenant_for(tokens, authorization) {
        None => Err(HeaderFault::Token),
        Some(tenant) => if names_protobuf(content_type) {
            Ok(tenant)
        } else {
            Err(HeaderFault::ContentType)
        },
    }
}

/// A request without a known token is refused for that, whatever its content type; with one it is the
/// request of the token's tenant exactly where its content type is the one of this service.
pub proof fn tokens_are_judged_before_content_types(
    bindings: Seq<(Seq<char>, Seq<char>)>,
    authorization: Option<&str>,
    content_type: Option<&str>,
    i: int,
)
    requires
        auth::directory_of(bindings) is Ok,
    ensures
        ({
            let judged = judged_headers(
                auth::directory_of(bindings)->Ok_0,
                authorization,
                content_type,
            );
            let known = authorization is Some && exists|k: int|
                0 <= k < bindings.len() && auth::bearer_token(authorization->0@) == Some(
                    (#[trigger] bindings[k]).0,
                );
            &&& !known <==> judged == Err::<Seq<char>, HeaderFault>(HeaderFault::Token)
            &&& known && !names_protobuf(content_type) ==> judged == Err::<Seq<char>, HeaderFault>(
                HeaderFault::ContentType,
            )
            &&& 0 <= i < bindings.len() && authorization is Some && auth::bearer_token(
                authorization->0@,
            ) == Some(bindings[i].0) && names_protobuf(content_type) ==> judged == Ok::<
                Seq<char>,
                HeaderFault,
            >(bindings[i].1)
        }),
{
    auth::only_bound_tokens_give_a_tenant(bindings, authorization, i);
    if authorization is Some && exists|k: int|
        0 <= k < bindings.len() && auth::bearer_token(authorization->0@) == Some(
            (#[trigger] bindings[k]).0,
        ) {
        let k = choose|k: int|
            0 <= k < bindings.len() && auth::bearer_token(authorization->0@) == Some(
                (#[trigger] bindings[k]).0,
            );
        auth::only_bound_tokens_give_a_tenant(bindings, authorization, k);
    }
}

/// The tenant of a request over HTTP, judged by its headers alone. The token is judged before the
/// content type.
///
/// # Errors
///
/// Returns [`HttpIngestError::Unauthenticated`] and [`HttpIngestError::UnsupportedMediaType`].
pub fn check_headers(
    tokens: &TokenDirectory,
    authorization: Option<&str>,
    content_type: Option<&str>,
) -> (result: Result<String, HttpIngestError>)
    ensures
        match judged_headers(tokens@, authorization, content_type) {
            Ok(tenant) => result is Ok && result->Ok_0@ == tenant,
            Err(HeaderFault::Token) => result is Err && result->Err_0 is Unauthenticated,
            Err(HeaderFault::ContentType) => result is Err
                && result->Err_0 is UnsupportedMediaType,
        },
{
    match tokens.authenticate(authorization) {
        Err(_) => Err(HttpIngestError::Unauthenticated),
        Ok(tenant) => if is_protobuf_content_type(content_type) {
            Ok(tenant)
        } else {
            Err(HttpIngestError::UnsupportedMediaType)
        },
    }
}

/// The HTTP status for an append that failed.
pub open spec fn append_status(kind: AppendErrorKind) -> u16 {
    match kind {
        AppendErrorKind::ResourceExhausted => 429,
        AppendErrorKind::Unavailable => 503,
        AppendErrorKind::InvalidArgument => 400,
        AppendErrorKind::Internal => 500,
    }
}

impl HttpIngestError {
    pub open spec fn status(&self) -> u16 {
        match self {
            HttpIngestError::Unauthenticated => 401,
            HttpIngestError::UnsupportedMediaType => 415,
            HttpIngestError::InvalidProtobuf => 400,
            HttpIngestError::Ingest(IngestLogsError::FutureTimestamp) => 400,
            HttpIngestError::Ingest(IngestLogsError::Clock(_)) => 500,
            HttpIngestError::Ingest(IngestLogsError::Append(error)) => append_status(
                error.kind_view(),
            ),
        }
    }

    pub open spec fn text(&self) -> Seq<char> {
        match self {
            HttpIngestError::Unauthenticated => "unauthenticated"@,
            HttpIngestError::UnsupportedMediaType => "unsupported content type"@,
            HttpIngestError::InvalidProtobuf => "invalid protobuf"@,
            HttpIngestError::Ingest(error) => error.text(),
        }
    }

    /// The HTTP status and the body that answer the request.
    #[must_use]
    pub fn response(&self) -> (response: (u16, String))
        ensures
            response.0 == self.status(),
            response.1@ == self.text(),
    {
        match self {
            HttpIngestError::Unauthenticated => (401, "unauthenticated".to_owned()),
            HttpIngestError::UnsupportedMediaType => (415, "unsupported content type".to_owned()),
            HttpIngestError::InvalidProtobuf => (400, "invalid protobuf".to_owned()),
            HttpIngestError::Ingest(error) => {
                let status: u16 = match error {
                    IngestLogsError::FutureTimestamp => 400,
                    IngestLogsError::Clock(_) => 500,
                    IngestLogsError::Append(error) => match error.kind() {
                        AppendErrorKind::ResourceExhausted => 429,
                        AppendErrorKind::Unavailable => 503,
                        AppendErrorKind::InvalidArgument => 400,
                        AppendErrorKind::Internal => 500,
                    },
                };
                (status, error.message())
            },
        }
    }
}

impl IngestLogsError {
    pub open spec fn text(&self) -> Seq<char> {
        match self {
            IngestLogsError::Clock(message) => message@,
            IngestLogsError::FutureTimestamp => FUTURE_TIMESTAMP@,
            IngestLogsError::Append(error) => error.text(),
        }
    }

    /// The message of this error.
    pub fn message(&self) -> (message: String)
        ensures
            message@ == self.text(),
    {
        match self {
            IngestLogsError::Clock(message) => message.clone(),
            IngestLogsError::FutureTimestamp => FUTURE_TIMESTAMP.to_owned(),
            IngestLogsError::Append(error) => error.message(),
        }
    }
}

// Answers over gRPC.

/// The gRPC codes that this service answers with.
#[derive(Clone, Copy, Debug, PartialEq, Eq, Structural)]
pub enum GrpcCode {
    InvalidArgument,
    ResourceExhausted,
    Unavailable,
    Internal,
    Unauthenticated,
}

pub open spec fn grpc_code(error: IngestLogsError) -> GrpcCode {
    match error {
        IngestLogsError::Clock(_) => GrpcCode::Internal,
        IngestLogsError::FutureTimestamp => GrpcCode::InvalidArgument,
        IngestLogsError::Append(error) => match error.kind_view() {
            AppendErrorKind::InvalidArgument => GrpcCode::InvalidArgument,
            AppendErrorKind::ResourceExhausted => GrpcCode::ResourceExhausted,
            AppendErrorKind::Unavailable => GrpcCode::Unavailable,
            AppendErrorKind::Internal => GrpcCode::Internal,
        },
    }
}

/// The gRPC code and message that answer a request whose batch failed.
#[must_use]
pub fn status_from_ingest(error: &IngestLogsError) -> (status: (GrpcCode, String))
    ensures
        status.0 == grpc_code(*error),
        status.1@ == error.text(),
{
    let code = match error {
        IngestLogsError::Clock(_) => GrpcCode::Internal,
        IngestLogsError::FutureTimestamp => GrpcCode::InvalidArgument,
        IngestLogsError::Append(error) => match error.kind() {
            AppendErrorKind::InvalidArgument => GrpcCode::InvalidArgument,
            AppendErrorKind::ResourceExhausted => GrpcCode::ResourceExhausted,
            AppendErrorKind::Unavailable => GrpcCode::Unavailable,
            AppendErrorKind::Internal => GrpcCode::Internal,
        },
    };
    (code, error.message())
}

/// The gRPC code and message that answer a request without a known token.
#[must_use]
pub fn status_unauthenticated() -> (status: (GrpcCode, String))
    ensures
        status.0 == GrpcCode::Unauthenticated,
        status.1@ == "unauthenticated"@,
{
    (GrpcCode::Unauthenticated, "unauthenticated".to_owned())
}

/// A refused request is answered with a client or server error, never with success.
pub proof fn refusals_are_errors(error: HttpIngestError)
    ensures
        400 <= error.status() < 600,
{
}

/// A request is refused exactly where the event time of one of its records lies further ahead of the
/// receive time than the options allow.
pub proof fn requests_are_refused_for_late_records(
    request: ExportLogsServiceRequest,
    received: u64,
    options: IngestOptions,
)
    ensures
        too_far_ahead(request, received, options) <==> exists|r: int, s: int, k: int, time: u64|
            #[trigger]
            is_late(request.resource_logs@, r, s, k, received, time, options),
{
    let resources = request.resource_logs@;
    let limit = latest_time(received, options.max_future_skew_nanos);
    if too_far_ahead(request, received, options) {
        let r = choose|r: int|
            0 <= r < resources.len() && some_scope_late(
                (#[trigger] resources[r]).scope_logs@,
                received,
                limit,
            );
        let scopes = resources[r].scope_logs@;
        let s = choose|s: int|
            0 <= s < scopes.len() && some_record_late(
                (#[trigger] scopes[s]).log_records@,
                received,
                limit,
            );
        let records = scopes[s].log_records@;
        let k = choose|k: int|
            0 <= k < records.len() && decode::event_time(#[trigger] records[k], received) > limit;
        let time = decode::event_time(records[k], received);
        assert(is_late(resources, r, s, k, received, time, options));
    }
    if exists|r: int, s: int, k: int, time: u64|
        is_late(resources, r, s, k, received, time, options) {
        let (r, s, k, time) = choose|r: int, s: int, k: int, time: u64|
            is_late(resources, r, s, k, received, time, options);
        let record = resources[r].scope_logs@[s].log_records@[k];
        assert(decode::event_time(record, received) == time);
        assert(some_record_late(resources[r].scope_logs@[s].log_records@, received, limit));
        assert(some_scope_late(resources[r].scope_logs@, received, limit));
    }
}

/// Whether the record at a place of a request has this event time, and it is later than the options allow.
pub open spec fn is_late(
    resources: Seq<ResourceLogs>,
    r: int,
    s: int,
    k: int,
    received: u64,
    time: u64,
    options: IngestOptions,
) -> bool {
    &&& 0 <= r < resources.len()
    &&& 0 <= s < resources[r].scope_logs@.len()
    &&& 0 <= k < resources[r].scope_logs@[s].log_records@.len()
    &&& decode::is_event_time(
        resources[r].scope_logs@[s].log_records@[k],
        received,
        time,
    )
    &&& time > received + options.max_future_skew_nanos
}

/// The receive time is the time of the clock, wherever that can be held.
pub proof fn usable_times_are_received(nanos: u128)
    ensures
        nanos <= u64::MAX ==> received_at(Some(nanos)) is Ok && received_at(Some(nanos))->Ok_0
            == nanos,
        nanos > u64::MAX ==> received_at(Some(nanos)) is Err,
        received_at(None) is Err,
{
}

/// The media type of this service is recognised in whatever case, with white space around it and with
/// or without parameters behind a semicolon.
pub proof fn protobuf_is_recognised(
    value: &str,
    left: Seq<char>,
    media: Seq<char>,
    right: Seq<char>,
    parameters: Option<Seq<char>>,
)
    requires
        headers::all_whitespace(left),
        headers::all_whitespace(right),
        headers::same_but_case(media, "application/x-protobuf"@),
        value@ == match parameters {
            Some(parameters) => left + media + right + seq![';'] + parameters,
            None => left + media + right,
        },
    ensures
        names_protobuf(Some(value)),
{
    reveal_strlit("application/x-protobuf");
    headers::only_ascii_case_is_ignored(media, PROTOBUF_CONTENT_TYPE@);
    let before = left + media + right;
    assert forall|i: int| 0 <= i < media.len() implies !headers::whitespace(#[trigger] media[i])
        && media[i] != ';' by {
        assert(headers::same_letter(media[i], PROTOBUF_CONTENT_TYPE@[i]));
    }
    assert(headers::is_trim(media)) by {
        assert(!headers::whitespace(media[0]));
        assert(!headers::whitespace(media[media.len() - 1]));
    }
    headers::trimming_leaves_the_text(left, media, right);
    headers::characters_are_found_first(value@, ';');
    let at = headers::first_index(value@, ';');
    assert forall|i: int| 0 <= i < before.len() implies before[i] != ';' by {
        if i < left.len() {
            assert(before[i] == left[i]);
        } else if i < left.len() + media.len() {
            assert(before[i] == media[i - left.len()]);
        } else {
            assert(before[i] == right[i - left.len() - media.len()]);
        }
    }
    assert(at == before.len()) by {
        if at < before.len() {
            assert(value@[at] == before[at]);
        }
        if parameters is Some {
            assert(value@[before.len() as int] == ';');
        }
    }
    assert(value@.take(at) =~= before);
}

/// Nothing else is taken for the media type of this service.
pub proof fn only_protobuf_is_recognised(value: &str) -> (around: (Seq<char>, Seq<char>, Seq<char>))
    requires
        names_protobuf(Some(value)),
    ensures
        ({
            let (left, media, right) = around;
            let before = left + media + right;
            &&& headers::all_whitespace(left)
            &&& headers::all_whitespace(right)
            &&& headers::same_but_case(media, "application/x-protobuf"@)
            &&& value@ == before || (value@.len() > before.len() && value@.take(
                before.len() as int,
            ) == before && value@[before.len() as int] == ';')
        }),
{
    let at = headers::first_index(value@, ';');
    headers::characters_are_found_first(value@, ';');
    let before = value@.take(at);
    let (left, right) = headers::texts_have_a_trimmed_form(before);
    let media = headers::trimmed(before);
    if at == value@.len() {
        assert(before =~= value@);
    }
    (left, media, right)
}

/// Both transports answer a failure alike: the gRPC code says what the HTTP status says. A malformed
/// or misdated batch is the client's fault, pressure and outage are not.
pub proof fn transports_agree(error: IngestLogsError)
    ensures
        grpc_code(error) == GrpcCode::InvalidArgument <==> HttpIngestError::Ingest(error).status()
            == 400,
        grpc_code(error) == GrpcCode::ResourceExhausted <==> HttpIngestError::Ingest(error).status()
            == 429,
        grpc_code(error) == GrpcCode::Internal <==> HttpIngestError::Ingest(error).status() == 500,
        grpc_code(error) == GrpcCode::Unavailable <==> HttpIngestError::Ingest(error).status()
            == 503,
        grpc_code(error) != GrpcCode::Unauthenticated,
        error is FutureTimestamp ==> HttpIngestError::Ingest(error).status() == 400,
        error is Clock ==> HttpIngestError::Ingest(error).status() == 500,
        error is Append ==> match error->Append_0.kind_view() {
            AppendErrorKind::InvalidArgument => HttpIngestError::Ingest(error).status() == 400,
            AppendErrorKind::ResourceExhausted => HttpIngestError::Ingest(error).status() == 429,
            AppendErrorKind::Unavailable => HttpIngestError::Ingest(error).status() == 503,
            AppendErrorKind::Internal => HttpIngestError::Ingest(error).status() == 500,
        },
        HttpIngestError::Unauthenticated.status() == 401,
        HttpIngestError::UnsupportedMediaType.status() == 415,
        HttpIngestError::InvalidProtobuf.status() == 400,
{
}

/// An accepted batch is the request as it came: it has the tenant, the payload and the receive time, and is
/// one of logs. A request that came at a usable time is accepted unless a record is too far ahead.
pub proof fn accepted_batches_are_the_request(
    result: Result<AcceptedBatch, IngestLogsError>,
    tenant_id: String,
    request: ExportLogsServiceRequest,
    payload: Vec<u8>,
    received: u64,
    options: IngestOptions,
)
    requires
        is_outcome(result, tenant_id, request, payload, Ok(received), options),
    ensures
        result is Err <==> exists|r: int, s: int, k: int, time: u64| #[trigger]
            is_late(request.resource_logs@, r, s, k, received, time, options),
        result is Ok ==> result->Ok_0.tenant_id == tenant_id && result->Ok_0.payload == payload
            && result->Ok_0.received_at_unix_nanos == received && result->Ok_0.signal
            == Signal::Logs,
{
    requests_are_refused_for_late_records(request, received, options);
}

} // verus!
