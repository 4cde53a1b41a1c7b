use observer::auth::{AuthConfigError, AuthError, TokenDirectory};
use observer::headers::is_whitespace;
use observer::ingest::{
    accept_at, check_headers, is_protobuf_content_type, prepare_logs_batch, receive_time,
    status_from_ingest, status_unauthenticated, validate_logs_request, AppendError,
    AppendErrorKind, GrpcCode, HttpIngestError, IngestLogsError, IngestOptions, Signal,
    FUTURE_TIMESTAMP,
};
use observer::otlp::{ExportLogsServiceRequest, LogRecord, ResourceLogs, ScopeLogs};

fn directory() -> TokenDirectory {
    TokenDirectory::new(&[("secret-a", "tenant-a"), ("secret-b", "tenant-b")]).expect("directory")
}

fn refused(bindings: &[(&str, &str)]) -> AuthConfigError {
    match TokenDirectory::new(bindings) {
        Ok(_) => panic!("the directory was accepted"),
        Err(error) => error,
    }
}

#[test]
fn authenticates_bearer_token() {
    let tokens = directory();
    assert_eq!(
        tokens.authenticate(Some("Bearer secret-a")).expect("a"),
        "tenant-a"
    );
    assert_eq!(
        tokens.authenticate(Some("bearer secret-b")).expect("b"),
        "tenant-b"
    );
}

#[test]
fn missing_malformed_and_unknown_are_unauthenticated() {
    let tokens = directory();
    for header in [
        None,
        Some(""),
        Some("secret-a"),
        Some("Basic secret-a"),
        Some("Bearer"),
        Some("Bearer "),
        Some("Bearer secret-a extra"),
        Some("Bearer unknown"),
    ] {
        assert_eq!(
            tokens.authenticate(header),
            Err(AuthError::Unauthenticated),
            "{header:?}"
        );
    }
}

#[test]
fn errors_and_debug_omit_the_token() {
    let tokens = directory();
    let error = tokens
        .authenticate(Some("Bearer super-secret-token"))
        .expect_err("unknown");
    let rendered = format!("{} {error:?} {}", error.message(), tokens.describe());
    assert!(!rendered.contains("super-secret-token"));
    assert!(!rendered.contains("secret-a"));
    assert!(!rendered.contains("secret-b"));
    assert!(rendered.contains("unauthenticated"));
    assert!(rendered.contains("tenant-a"));
}

#[test]
fn rejects_invalid_directory() {
    assert_eq!(refused(&[]), AuthConfigError::EmptyDirectory);
    assert_eq!(refused(&[("", "tenant-a")]), AuthConfigError::EmptyToken);
    assert_eq!(refused(&[("secret-a", "")]), AuthConfigError::EmptyTenant);
    assert_eq!(
        refused(&[("secret-a", "tenant-a"), ("secret-a", "tenant-b")]),
        AuthConfigError::DuplicateToken
    );
}

#[test]
fn the_first_faulty_binding_decides() {
    assert_eq!(
        refused(&[("a", ""), ("", "t"), ("a", "t")]),
        AuthConfigError::EmptyTenant
    );
    assert_eq!(refused(&[("", "")]), AuthConfigError::EmptyToken);
}

#[test]
fn directory_errors_have_their_messages() {
    assert_eq!(
        AuthConfigError::EmptyDirectory.message(),
        "token directory must not be empty"
    );
    assert_eq!(
        AuthConfigError::EmptyToken.message(),
        "bearer token must not be empty"
    );
    assert_eq!(
        AuthConfigError::EmptyTenant.message(),
        "tenant id must not be empty"
    );
    assert_eq!(
        AuthConfigError::DuplicateToken.message(),
        "duplicate bearer token"
    );
}

#[test]
fn every_registered_token_resolves_to_its_tenant() {
    let bindings = [("t3", "c"), ("t1", "a"), ("t2", "a")];
    let tokens = TokenDirectory::new(&bindings).expect("directory");
    for (token, tenant) in bindings {
        let header = format!("Bearer {token}");
        assert_eq!(tokens.authenticate(Some(&header)).expect("known"), tenant);
    }
    assert!(tokens.authenticate(Some("Bearer t4")).is_err());
}

#[test]
fn white_space_around_a_token_is_dropped() {
    let tokens = directory();
    for header in [
        "  Bearer secret-a",
        "Bearer   secret-a  ",
        "BEARER secret-a",
        "\u{a0}Bearer \u{2003}secret-a\t",
    ] {
        assert_eq!(
            tokens.authenticate(Some(header)).expect("tenant"),
            "tenant-a",
            "{header:?}"
        );
    }
    assert!(tokens.authenticate(Some("Bearer\tsecret-a")).is_err());
    assert!(tokens
        .authenticate(Some("Bearer secret\u{2003}-a"))
        .is_err());
}

#[test]
fn a_directory_describes_its_tenants() {
    assert_eq!(
        directory().describe(),
        "TokenDirectory { tenants: [\"tenant-a\", \"tenant-b\"] }"
    );
    let quoted = TokenDirectory::new(&[("x", "a\"b")]).expect("directory");
    assert_eq!(
        quoted.describe(),
        "TokenDirectory { tenants: [\"a\\\"b\"] }"
    );
    assert_eq!(quoted.clone().describe(), quoted.describe());
}

fn at(time: u64, observed: u64) -> LogRecord {
    LogRecord {
        time_unix_nano: time,
        observed_time_unix_nano: observed,
        severity_number: 0,
        severity_text: String::new(),
        body: None,
        attributes: Vec::new(),
        trace_id: Vec::new(),
        span_id: Vec::new(),
    }
}

fn timed_request(records: Vec<LogRecord>) -> ExportLogsServiceRequest {
    ExportLogsServiceRequest {
        resource_logs: vec![ResourceLogs {
            resource: None,
            scope_logs: vec![ScopeLogs {
                scope: None,
                log_records: records,
            }],
        }],
    }
}

fn fixed(received: u64, skew: u128) -> IngestOptions {
    IngestOptions {
        max_future_skew_nanos: skew,
        receive_time_unix_nano: Some(received),
    }
}

#[test]
fn event_times_up_to_the_skew_are_taken() {
    let options = fixed(1_000, 50);
    for record in [at(1_050, 0), at(0, 1_050), at(0, 0), at(1_050, 9_999)] {
        assert!(validate_logs_request(&timed_request(vec![record]), 1_000, &options).is_ok());
    }
    for record in [at(1_051, 0), at(0, 1_051), at(1_051, 1)] {
        let error = validate_logs_request(&timed_request(vec![at(1, 0), record]), 1_000, &options)
            .expect_err("future");
        assert!(matches!(error, IngestLogsError::FutureTimestamp));
        assert_eq!(error.message(), FUTURE_TIMESTAMP);
    }
}

#[test]
fn the_skew_saturates() {
    let request = timed_request(vec![at(u64::MAX, 0)]);
    assert!(validate_logs_request(&request, 10, &fixed(10, u128::MAX)).is_ok());
    assert!(validate_logs_request(&request, 10, &fixed(10, u64::MAX as u128 - 10)).is_ok());
    assert!(validate_logs_request(&request, 10, &fixed(10, u64::MAX as u128 - 11)).is_err());
}

#[test]
fn the_default_skew_is_one_day() {
    let options = IngestOptions::default();
    assert_eq!(options.max_future_skew_nanos, 86_400_000_000_000);
    assert_eq!(options.receive_time_unix_nano, None);
}

#[test]
fn an_accepted_batch_keeps_what_arrived() {
    let batch = accept_at(
        "tenant-a".to_owned(),
        &timed_request(vec![at(5, 0)]),
        vec![1, 2, 3],
        7,
        &IngestOptions::default(),
    )
    .expect("accepted");
    assert_eq!(batch.tenant_id, "tenant-a");
    assert_eq!(batch.signal, Signal::Logs);
    assert_eq!(batch.received_at_unix_nanos, 7);
    assert_eq!(batch.payload, [1, 2, 3]);
}

#[test]
fn the_receive_time_comes_from_the_options_or_the_clock() {
    let request = timed_request(Vec::new());
    let batch = prepare_logs_batch("t".to_owned(), &request, Vec::new(), &fixed(9, 0)).expect("fixed");
    assert_eq!(batch.received_at_unix_nanos, 9);
    let batch = prepare_logs_batch("t".to_owned(), &request, Vec::new(), &IngestOptions::default())
        .expect("clock");
    assert!(batch.received_at_unix_nanos > 1_000_000_000_000_000_000);
}

#[test]
fn an_unusable_clock_is_an_error() {
    assert_eq!(receive_time(Some(5)).expect("time"), 5);
    assert_eq!(receive_time(Some(u64::MAX as u128)).expect("time"), u64::MAX);
    assert_eq!(
        receive_time(None).expect_err("before").message(),
        "system clock is before the Unix epoch"
    );
    assert_eq!(
        receive_time(Some(u64::MAX as u128 + 1))
            .expect_err("after")
            .message(),
        "receive timestamp exceeds u64"
    );
}

#[test]
fn content_types_are_compared_without_parameters_and_case() {
    for value in [
        "application/x-protobuf",
        " Application/X-Protobuf ; charset=utf-8",
        "application/x-protobuf;",
    ] {
        assert!(is_protobuf_content_type(Some(value)), "{value:?}");
    }
    for value in [
        None,
        Some(""),
        Some("application/json"),
        Some("application/x-protobufx"),
        Some(";application/x-protobuf"),
    ] {
        assert!(!is_protobuf_content_type(value), "{value:?}");
    }
}

#[test]
fn headers_are_judged_token_first() {
    let tokens = directory();
    let tenant = check_headers(
        &tokens,
        Some("Bearer secret-b"),
        Some("application/x-protobuf"),
    )
    .expect("tenant");
    assert_eq!(tenant, "tenant-b");
    let error = check_headers(&tokens, None, Some("text/plain")).expect_err("token");
    assert_eq!(error.response(), (401, "unauthenticated".to_owned()));
    let error =
        check_headers(&tokens, Some("Bearer secret-b"), Some("text/plain")).expect_err("type");
    assert_eq!(
        error.response(),
        (415, "unsupported content type".to_owned())
    );
}

#[test]
fn refusals_have_their_http_status() {
    assert_eq!(
        HttpIngestError::InvalidProtobuf.response(),
        (400, "invalid protobuf".to_owned())
    );
    assert_eq!(
        HttpIngestError::Ingest(IngestLogsError::FutureTimestamp).response(),
        (400, "event timestamp is too far in the future".to_owned())
    );
    assert_eq!(
        HttpIngestError::Ingest(IngestLogsError::Clock("broken".to_owned())).response(),
        (500, "broken".to_owned())
    );
    for (kind, status) in [
        (AppendErrorKind::ResourceExhausted, 429),
        (AppendErrorKind::Unavailable, 503),
        (AppendErrorKind::InvalidArgument, 400),
        (AppendErrorKind::Internal, 500),
    ] {
        let error = AppendError::with_kind(kind, "sink");
        assert_eq!(
            HttpIngestError::Ingest(IngestLogsError::Append(error)).response(),
            (status, "sink".to_owned())
        );
    }
}

#[test]
fn refusals_have_their_grpc_code() {
    assert_eq!(
        status_unauthenticated(),
        (GrpcCode::Unauthenticated, "unauthenticated".to_owned())
    );
    assert_eq!(
        status_from_ingest(&IngestLogsError::FutureTimestamp),
        (GrpcCode::InvalidArgument, FUTURE_TIMESTAMP.to_owned())
    );
    assert_eq!(
        status_from_ingest(&IngestLogsError::Clock("broken".to_owned())),
        (GrpcCode::Internal, "broken".to_owned())
    );
    for (kind, code) in [
        (AppendErrorKind::ResourceExhausted, GrpcCode::ResourceExhausted),
        (AppendErrorKind::Unavailable, GrpcCode::Unavailable),
        (AppendErrorKind::InvalidArgument, GrpcCode::InvalidArgument),
        (AppendErrorKind::Internal, GrpcCode::Internal),
    ] {
        let error = IngestLogsError::Append(AppendError::with_kind(kind, "sink"));
        assert_eq!(status_from_ingest(&error), (code, "sink".to_owned()));
    }
}

#[test]
fn a_plain_append_error_is_unavailable() {
    let error = AppendError::new("durable append failed");
    assert_eq!(error.kind(), AppendErrorKind::Unavailable);
    assert_eq!(error.message(), "durable append failed");
}

/// What the service answers, and the receive time of what it stores.
fn post(options: &IngestOptions, authorization: Option<&str>, records: Vec<LogRecord>) -> Result<u64, (u16, String)> {
    let tenant = match check_headers(&directory(), authorization, Some("application/x-protobuf")) {
        Ok(tenant) => tenant,
        Err(error) => return Err(error.response()),
    };
    match prepare_logs_batch(tenant, &timed_request(records), Vec::new(), options) {
        Ok(batch) => Ok(batch.received_at_unix_nanos),
        Err(error) => Err(HttpIngestError::Ingest(error).response()),
    }
}

#[test]
fn http_rejects_a_future_event_timestamp_before_append() {
    let bearer = Some("Bearer secret-a");
    let options = fixed(1_000, 100);
    assert_eq!(post(&options, bearer, vec![at(1_100, 0)]), Ok(1_000));
    assert_eq!(
        post(&options, bearer, vec![at(1, 0), at(1_101, 0)]),
        Err((400, FUTURE_TIMESTAMP.to_owned()))
    );
    assert_eq!(
        post(&options, bearer, vec![at(0, 1_101)]),
        Err((400, FUTURE_TIMESTAMP.to_owned()))
    );
    assert_eq!(post(&options, bearer, vec![at(1, 0), at(0, 0)]), Ok(1_000));
    assert_eq!(
        post(&options, None, vec![at(u64::MAX, 0)]),
        Err((401, "unauthenticated".to_owned()))
    );
    assert_eq!(
        post(&fixed(u64::MAX, 1), bearer, vec![at(u64::MAX, 0)]),
        Ok(u64::MAX)
    );
    assert_eq!(
        post(&fixed(u64::MAX - 5, u64::MAX as u128), bearer, vec![at(u64::MAX, 0)]),
        Ok(u64::MAX - 5)
    );
}

#[test]
fn white_space_is_that_of_unicode() {
    let mut found = 0;
    for character in '\0'..=char::MAX {
        assert_eq!(is_whitespace(character), character.is_whitespace());
        if is_whitespace(character) {
            found += 1;
        }
    }
    assert_eq!(found, 25);
}
