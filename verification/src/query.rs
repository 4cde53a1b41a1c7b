//! Rules of SQL execution over one tenant snapshot: limits, statement checks, and the states of a
//! running query.
use datafusion_sql::parser::{DFParser, Statement};
use datafusion_sql::sqlparser::ast::{SetExpr, Statement as SqlStatement};
use vstd::prelude::*;
use crate::scan::StoreError;
use crate::text;
use crate::text::decimal;

verus! {

/// Name of the only table that a query can read.
pub const LOGS_TABLE: &'static str = "logs";

/// Bytes available to every query that shares one engine, by default.
pub const MEMORY_POOL_BYTES: usize = 268_435_456;

/// Default query timeout.
pub const QUERY_TIMEOUT_NANOS: u128 = 30_000_000_000;

/// Default maximum number of returned rows.
pub const QUERY_MAX_ROWS: usize = 10_000;

/// Why a query could not be planned or executed.
#[derive(Debug)]
pub enum QueryError {
    /// The runtime could not be built, or the shared memory pool is exhausted.
    Resources(String),
    /// The pinned snapshot could not be read or aligned.
    Storage(StoreError),
    /// SQL could not be parsed or planned.
    Planning(String),
    /// A planned query failed while executing.
    Execution(String),
    /// The SQL is not a single `SELECT` statement.
    Statement(String),
    /// The query exceeded its timeout.
    Timeout,
    /// The query could not obtain an admission permit before its deadline.
    Busy,
    /// The result stream was cancelled.
    Cancelled,
    /// The result would exceed the row cap.
    RowLimit { max_rows: usize },
}

impl QueryError {
    pub open spec fn text(&self) -> Seq<char> {
        match self {
            QueryError::Resources(detail) => "query runtime: "@ + detail@,
            QueryError::Storage(error) => error.text(),
            QueryError::Planning(detail) => "query planning: "@ + detail@,
            QueryError::Execution(detail) => "query execution: "@ + detail@,
            QueryError::Statement(detail) => detail@,
            QueryError::Timeout => "query timed out"@,
            QueryError::Busy => "query engine is busy"@,
            QueryError::Cancelled => "query cancelled"@,
            QueryError::RowLimit { max_rows } => "query exceeded "@ + text::decimal_text(
                *max_rows as nat,
            ) + " returned rows"@,
        }
    }

    /// The message of this error.
    pub fn message(&self) -> (message: String)
        ensures
            message@ == self.text(),
    {
        match self {
            QueryError::Resources(detail) => "query runtime: ".to_owned().concat(detail),
            QueryError::Storage(error) => error.message(),
            QueryError::Planning(detail) => "query planning: ".to_owned().concat(detail),
            QueryError::Execution(detail) => "query execution: ".to_owned().concat(detail),
            QueryError::Statement(detail) => detail.clone(),
            QueryError::Timeout => "query timed out".to_owned(),
            QueryError::Busy => "query engine is busy".to_owned(),
            QueryError::Cancelled => "query cancelled".to_owned(),
            QueryError::RowLimit { max_rows } => {
                let mut message = "query exceeded ".to_owned();
                message.append(&decimal(*max_rows as u64));
                message.append(" returned rows");
                message
            },
        }
    }
}

// Limits.

/// Shared limits for every query on one engine.
#[derive(Clone, Copy, Debug, PartialEq, Eq, Structural)]
pub struct QueryEngineConfig {
    /// Bytes available to every query that shares this engine.
    pub memory_pool_bytes: usize,
    /// Queries that may plan and read at the same time.
    pub max_concurrent_queries: usize,
    /// Partition target for each query.
    pub target_partitions_per_query: usize,
}

/// Why an engine configuration is refused.
pub open spec fn config_fault(config: QueryEngineConfig) -> Option<Seq<char>> {
    if config.max_concurrent_queries == 0 {
        Some("max_concurrent_queries must be at least 1"@)
    } else if config.target_partitions_per_query == 0 {
        Some("target_partitions_per_query must be at least 1"@)
    } else {
        None
    }
}

impl QueryEngineConfig {
    /// The default limits of a process that can run `parallelism` threads at once.
    #[must_use]
    pub fn for_parallelism(parallelism: usize) -> (config: Self)
        ensures
            config == (QueryEngineConfig {
                memory_pool_bytes: MEMORY_POOL_BYTES,
                max_concurrent_queries: parallelism,
                target_partitions_per_query: parallelism,
            }),
    {
        QueryEngineConfig {
            memory_pool_bytes: MEMORY_POOL_BYTES,
            max_concurrent_queries: parallelism,
            target_partitions_per_query: parallelism,
        }
    }

    /// This configuration, unless a concurrency setting is zero.
    ///
    /// # Errors
    ///
    /// Returns [`QueryError::Resources`] when a concurrency setting is zero.
    pub fn checked(self) -> (result: Result<Self, QueryError>)
        ensures
            match config_fault(self) {
                None => result is Ok && result->Ok_0 == self,
                Some(detail) => result is Err && result->Err_0 is Resources
                    && result->Err_0->Resources_0@ == detail,
            },
    {
        if self.max_concurrent_queries == 0 {
            return Err(
                QueryError::Resources("max_concurrent_queries must be at least 1".to_owned()),
            );
        }
        if self.target_partitions_per_query == 0 {
            return Err(
                QueryError::Resources("target_partitions_per_query must be at least 1".to_owned()),
            );
        }
        Ok(self)
    }
}

/// Timeout and returned-row cap for one query.
#[derive(Clone, Copy, Debug, PartialEq, Eq, Structural)]
pub struct QueryOptions {
    /// Maximum time from the start of the query until the result stream finishes.
    pub timeout_nanos: u128,
    /// Maximum number of rows the result stream may yield.
    pub max_rows: usize,
}

impl Default for QueryOptions {
    fn default() -> (options: Self)
        ensures
            options == (QueryOptions {
                timeout_nanos: QUERY_TIMEOUT_NANOS,
                max_rows: QUERY_MAX_ROWS,
            }),
    {
        QueryOptions { timeout_nanos: QUERY_TIMEOUT_NANOS, max_rows: QUERY_MAX_ROWS }
    }
}

impl QueryOptions {
    /// Whether a query may start under these options.
    ///
    /// # Errors
    ///
    /// Returns [`QueryError::Timeout`] when there is no time at all.
    pub fn start(&self) -> (result: Result<(), QueryError>)
        ensures
            result is Ok <==> self.timeout_nanos != 0,
            result is Err ==> result->Err_0 is Timeout,
    {
        ensure_time_left(self.timeout_nanos)
    }
}

/// Whether a query goes on with the time that is left before its deadline.
///
/// # Errors
///
/// Returns [`QueryError::Timeout`] when none is left.
pub fn ensure_time_left(left_nanos: u128) -> (result: Result<(), QueryError>)
    ensures
        result is Ok <==> left_nanos != 0,
        result is Err ==> result->Err_0 is Timeout,
{
    if left_nanos == 0 {
        Err(QueryError::Timeout)
    } else {
        Ok(())
    }
}

/// How waiting for an admission permit ended.
#[derive(Clone, Copy, Debug, PartialEq, Eq, Structural)]
pub enum Admission {
    Granted,
    /// The engine no longer hands out permits.
    Closed,
    /// The deadline came first.
    Elapsed,
}

/// Whether a query goes on after it asked for an admission permit.
///
/// # Errors
///
/// Returns [`QueryError::Busy`] unless the permit was granted.
pub fn admission_outcome(admission: Admission) -> (result: Result<(), QueryError>)
    ensures
        result is Ok <==> admission == Admission::Granted,
        result is Err ==> result->Err_0 is Busy,
{
    match admission {
        Admission::Granted => Ok(()),
        Admission::Closed | Admission::Elapsed => Err(QueryError::Busy),
    }
}

// Statements.

/// The body of a query, by what stands in it.
#[derive(Debug)]
pub enum QueryBody {
    /// A `SELECT`.
    Select,
    /// A query in parentheses, by its body.
    Parenthesized(Box<QueryBody>),
    /// `UNION`, `EXCEPT` or `INTERSECT` of two bodies.
    SetOperation(Box<QueryBody>, Box<QueryBody>),
    /// `VALUES`.
    Values,
    /// `INSERT`.
    Insert,
    /// `UPDATE`.
    Update,
    /// `DELETE`.
    Delete,
    /// `MERGE`.
    Merge,
    /// `TABLE`.
    Table,
}

/// One statement of an SQL text.
#[derive(Debug)]
pub enum ParsedStatement {
    /// A query, by its body.
    Query(QueryBody),
    /// Any other statement.
    Other,
}

/// The body of a query in `sqlparser`'s syntax tree.
#[verifier::external_type_specification]
#[verifier::external_body]
pub struct ExSetExpr(SetExpr);

/// The statements of an SQL text in their order, as [`DFParser::parse_sql`] reads it, or nothing
/// where the text does not parse.
pub uninterp spec fn parsed_statements(sql: Seq<char>) -> Option<Seq<ParsedStatement>>;

/// The body of a query as [`parse_statements`] hands it over: the same variant of [`QueryBody`], with
/// the bodies inside it.
#[verifier::external_body]
fn body_of(body: &SetExpr) -> (shape: QueryBody) {
    match body {
        SetExpr::Select(_) => QueryBody::Select,
        SetExpr::Query(query) => QueryBody::Parenthesized(Box::new(body_of(&query.body))),
        SetExpr::SetOperation { left, right, .. } =>
            QueryBody::SetOperation(Box::new(body_of(left)), Box::new(body_of(right))),
        SetExpr::Values(_) => QueryBody::Values,
        SetExpr::Insert(_) => QueryBody::Insert,
        SetExpr::Update(_) => QueryBody::Update,
        SetExpr::Delete(_) => QueryBody::Delete,
        SetExpr::Merge(_) => QueryBody::Merge,
        SetExpr::Table(_) => QueryBody::Table,
    }
}

/// [`DFParser::parse_sql`] of `datafusion-sql`: the statements of a text in their order, or the
/// parser's error as text. What that text says is left open.
#[verifier::external_body]
fn parse_statements(sql: &str) -> (parsed: Result<Vec<ParsedStatement>, String>)
    ensures
        match parsed {
            Ok(statements) => parsed_statements(sql@) == Some(statements@),
            Err(_) => parsed_statements(sql@) is None,
        },
{
    let mut statements = Vec::new();
    for found in DFParser::parse_sql(sql).map_err(|error| error.to_string())? {
        statements.push(match found {
            Statement::Statement(plain) => match *plain {
                SqlStatement::Query(query) => ParsedStatement::Query(body_of(&query.body)),
                _ => ParsedStatement::Other,
            },
            _ => ParsedStatement::Other,
        });
    }
    Ok(statements)
}

/// Whether a body is a `SELECT`, or is made of such by parentheses and set operations.
pub open spec fn selects_rows(body: QueryBody) -> bool
    decreases body,
{
    match body {
        QueryBody::Select => true,
        QueryBody::Parenthesized(inner) => selects_rows(*inner),
        QueryBody::SetOperation(left, right) => selects_rows(*left) && selects_rows(*right),
        _ => false,
    }
}

/// Whether a body is a `SELECT`, or is made of such by parentheses and set operations.
pub fn is_select(body: &QueryBody) -> (select: bool)
    ensures
        select == selects_rows(*body),
    decreases *body,
{
    match body {
        QueryBody::Select => true,
        QueryBody::Parenthesized(inner) => is_select(inner),
        QueryBody::SetOperation(left, right) => is_select(left) && is_select(right),
        _ => false,
    }
}

/// Why a text with these statements is refused.
pub open spec fn statement_fault(statements: Seq<ParsedStatement>) -> Option<Seq<char>> {
    if statements.len() == 0 {
        Some("SQL contains no statement"@)
    } else if statements.len() > 1 {
        Some("SQL contains more than one statement"@)
    } else {
        match statements[0] {
            ParsedStatement::Query(body) => if selects_rows(body) {
                None
            } else {
                Some("only a single SELECT statement is supported"@)
            },
            ParsedStatement::Other => Some("only a single SELECT statement is supported"@),
        }
    }
}

/// Whether statements may run.
///
/// # Errors
///
/// Returns [`QueryError::Statement`] unless there is one statement and it is a `SELECT` or a set
/// operation of such.
pub fn check_statements(statements: &Vec<ParsedStatement>) -> (result: Result<(), QueryError>)
    ensures
        match statement_fault(statements@) {
            None => result is Ok,
            Some(detail) => result is Err && result->Err_0 is Statement
                && result->Err_0->Statement_0@ == detail,
        },
{
    if statements.len() == 0 {
        return Err(QueryError::Statement("SQL contains no statement".to_owned()));
    }
    if statements.len() > 1 {
        return Err(QueryError::Statement("SQL contains more than one statement".to_owned()));
    }
    let select = match &statements[0] {
        ParsedStatement::Query(body) => is_select(body),
        ParsedStatement::Other => false,
    };
    if !select {
        return Err(
            QueryError::Statement("only a single SELECT statement is supported".to_owned()),
        );
    }
    Ok(())
}

/// Whether `sql` is one `SELECT` statement.
///
/// # Errors
///
/// Returns [`QueryError::Planning`] when the text does not parse, and [`QueryError::Statement`] for
/// an empty text, several statements, or a statement that selects no rows (such as `VALUES`).
pub fn ensure_query(sql: &str) -> (result: Result<(), QueryError>)
    ensures
        match parsed_statements(sql@) {
            None => result is Err && result->Err_0 is Planning,
            Some(statements) => match statement_fault(statements) {
                None => result is Ok,
                Some(detail) => result is Err && result->Err_0 is Statement
                    && result->Err_0->Statement_0@ == detail,
            },
        },
{
    match parse_statements(sql) {
        Ok(statements) => check_statements(&statements),
        Err(detail) => Err(QueryError::Planning(detail)),
    }
}

// Execution failures.

/// What an execution failure consists of, as far as memory is concerned.
#[derive(Debug)]
pub enum FailureCause {
    /// The memory pool refused a reservation.
    ResourcesExhausted,
    /// Context around another failure.
    Within(Box<FailureCause>),
    /// Several failures.
    Several(Vec<FailureCause>),
    /// Anything else.
    Other,
}

/// Whether a failure comes from an exhausted memory pool.
pub open spec fn is_exhausted(cause: FailureCause) -> bool
    decreases cause,
{
    match cause {
        FailureCause::ResourcesExhausted => true,
        FailureCause::Within(inner) => is_exhausted(*inner),
        FailureCause::Several(causes) => some_exhausted(causes@),
        FailureCause::Other => false,
    }
}

pub open spec fn some_exhausted(causes: Seq<FailureCause>) -> bool
    decreases causes,
{
    if causes.len() == 0 {
        false
    } else {
        is_exhausted(causes[0]) || some_exhausted(causes.subrange(1, causes.len() as int))
    }
}

/// Whether a failure comes from an exhausted memory pool.
#[must_use]
pub fn memory_exhausted(cause: &FailureCause) -> (exhausted: bool)
    ensures
        exhausted == is_exhausted(*cause),
    decreases cause,
{
    match cause {
        FailureCause::ResourcesExhausted => true,
        FailureCause::Within(inner) => memory_exhausted(inner),
        FailureCause::Several(causes) => {
            let mut i: usize = 0;
            assert(causes@.subrange(0, causes@.len() as int) =~= causes@);
            while i < causes.len()
                invariant
                    i <= causes.len(),
                    *cause == FailureCause::Several(*causes),
                    some_exhausted(causes@) == some_exhausted(
                        causes@.subrange(i as int, causes@.len() as int),
                    ),
                decreases causes.len() - i,
            {
                let ghost rest = causes@.subrange(i as int, causes@.len() as int);
                assert(rest[0] == causes@[i as int]);
                assert(rest.subrange(1, rest.len() as int) =~= causes@.subrange(
                    i + 1,
                    causes@.len() as int,
                ));
                assert(decreases_to!(cause => cause->Several_0));
                assert(decreases_to!(cause->Several_0 => causes@));
                assert(decreases_to!(causes@ => causes@[i as int]));
                if memory_exhausted(&causes[i]) {
                    return true;
                }
                i = i + 1;
            }
            false
        },
        FailureCause::Other => false,
    }
}

/// The error of a query that failed while executing with the message `detail`.
#[must_use]
pub fn execution_error(cause: &FailureCause, detail: String) -> (error: QueryError)
    ensures
        error == if is_exhausted(*cause) {
            QueryError::Resources(detail)
        } else {
            QueryError::Execution(detail)
        },
{
    if memory_exhausted(cause) {
        QueryError::Resources(detail)
    } else {
        QueryError::Execution(detail)
    }
}

/// The error of a query whose task ended without an answer.
#[must_use]
pub fn query_task_stopped() -> (error: QueryError)
    ensures
        error is Execution,
        error->Execution_0@ == "Execution error: query task stopped"@,
{
    QueryError::Execution("Execution error: query task stopped".to_owned())
}

// Forwarding batches.

/// What happened while a query task waited for a request.
#[derive(Clone, Copy, Debug, PartialEq, Eq, Structural)]
pub enum PullEvent {
    /// The deadline passed.
    Deadline,
    /// The result stream is gone.
    Closed,
    /// A batch is asked for; `expired` when the deadline has passed meanwhile.
    Pull { expired: bool },
}

/// What a query task does next.
#[derive(Clone, Copy, Debug, PartialEq, Eq, Structural)]
pub enum PullStep {
    /// Answer the next request with [`QueryError::Timeout`], then stop.
    DeliverTimeout,
    /// Answer this request with [`QueryError::Timeout`], then stop.
    ReplyTimeout,
    /// Read the next batch for this request.
    Read,
    /// Stop without an answer.
    Stop,
}

/// What a query task does about a request.
pub open spec fn pull_step(event: PullEvent) -> PullStep {
    match event {
        PullEvent::Deadline => PullStep::DeliverTimeout,
        PullEvent::Closed => PullStep::Stop,
        PullEvent::Pull { expired } => if expired {
            PullStep::ReplyTimeout
        } else {
            PullStep::Read
        },
    }
}

/// A batch is read only for a request that came in time; a request that came late, or whose deadline
/// passes before it comes, is answered with a timeout, and where nobody asks any more nothing is read.
pub proof fn reading_needs_a_timely_request(event: PullEvent)
    ensures
        pull_step(event) == PullStep::Read <==> event == (PullEvent::Pull { expired: false }),
        pull_step(event) == PullStep::Stop <==> event == PullEvent::Closed,
        pull_step(event) == PullStep::ReplyTimeout <==> event == (PullEvent::Pull {
            expired: true,
        }),
        pull_step(event) == PullStep::DeliverTimeout <==> event == PullEvent::Deadline,
{
}

/// What a query task does about a request.
#[must_use]
pub fn on_pull(event: PullEvent) -> (step: PullStep)
    ensures
        step == pull_step(event),
{
    match event {
        PullEvent::Deadline => PullStep::DeliverTimeout,
        PullEvent::Closed => PullStep::Stop,
        PullEvent::Pull { expired } => if expired {
            PullStep::ReplyTimeout
        } else {
            PullStep::Read
        },
    }
}

/// What reading the next batch gave.
#[derive(Clone, Copy, Debug, PartialEq, Eq, Structural)]
pub enum ReadEvent {
    /// The deadline passed first.
    Deadline,
    /// There are no more batches.
    End,
    /// A batch with this many rows.
    Batch { rows: usize },
    /// Execution failed.
    Failed,
}

/// How a query task answers a request.
#[derive(Clone, Copy, Debug, PartialEq, Eq, Structural)]
pub enum ReadStep {
    /// Answer with [`QueryError::Timeout`], then stop.
    ReplyTimeout,
    /// Answer that there are no more batches, then stop.
    ReplyEnd,
    /// Answer with the batch, and go on where the answer arrives.
    ReplyBatch,
    /// Answer with [`QueryError::RowLimit`], then stop.
    ReplyRowLimit { max_rows: usize },
    /// Answer with the error of the execution, then stop.
    ReplyError,
}

/// Rows that a query has yielded, against its cap.
#[derive(Clone, Copy, Debug, PartialEq, Eq, Structural)]
pub struct Forwarder {
    pub emitted: usize,
    pub max_rows: usize,
}

/// Whether a batch of `rows` rows may follow `emitted` rows.
pub open spec fn fits_cap(emitted: int, rows: int, max_rows: int) -> bool {
    rows == 0 || emitted + rows <= max_rows
}

/// How a request is answered.
pub open spec fn read_step(forwarder: Forwarder, event: ReadEvent) -> ReadStep {
    match event {
        ReadEvent::Deadline => ReadStep::ReplyTimeout,
        ReadEvent::End => ReadStep::ReplyEnd,
        ReadEvent::Failed => ReadStep::ReplyError,
        ReadEvent::Batch { rows } => if fits_cap(
            forwarder.emitted as int,
            rows as int,
            forwarder.max_rows as int,
        ) {
            ReadStep::ReplyBatch
        } else {
            ReadStep::ReplyRowLimit { max_rows: forwarder.max_rows }
        },
    }
}

/// The rows that a query has yielded after a request is answered.
pub open spec fn after_read(forwarder: Forwarder, event: ReadEvent) -> Forwarder {
    if read_step(forwarder, event) is ReplyBatch {
        Forwarder { emitted: (forwarder.emitted + event->rows) as usize, ..forwarder }
    } else {
        forwarder
    }
}

impl Forwarder {
    /// The cap is kept.
    pub open spec fn wf(&self) -> bool {
        self.emitted <= self.max_rows
    }

    /// A query that has yielded nothing yet.
    #[must_use]
    pub fn new(max_rows: usize) -> (forwarder: Self)
        ensures
            forwarder == (Forwarder { emitted: 0, max_rows }),
            forwarder.wf(),
    {
        Forwarder { emitted: 0, max_rows }
    }

    /// How to answer a request, and how many rows have then been yielded.
    pub fn on_read(&mut self, event: ReadEvent) -> (step: ReadStep)
        requires
            old(self).wf(),
        ensures
            final(self).wf(),
            step == read_step(*old(self), event),
            *final(self) == after_read(*old(self), event),
            final(self).max_rows == old(self).max_rows,
            final(self).emitted == if step is ReplyBatch {
                old(self).emitted + event->rows
            } else {
                old(self).emitted as int
            },
    {
        match event {
            ReadEvent::Deadline => ReadStep::ReplyTimeout,
            ReadEvent::End => ReadStep::ReplyEnd,
            ReadEvent::Failed => ReadStep::ReplyError,
            ReadEvent::Batch { rows } => {
                if rows > 0 && rows > self.max_rows - self.emitted {
                    ReadStep::ReplyRowLimit { max_rows: self.max_rows }
                } else {
                    self.emitted = self.emitted + rows;
                    ReadStep::ReplyBatch
                }
            },
        }
    }
}

/// Whether a query task waits for another request after an answer.
pub open spec fn awaits_more(step: ReadStep, delivered: bool) -> bool {
    step == ReadStep::ReplyBatch && delivered
}

/// Whether a query task waits for another request after an answer.
#[must_use]
pub fn goes_on(step: ReadStep, delivered: bool) -> (goes_on: bool)
    ensures
        goes_on == awaits_more(step, delivered),
{
    match step {
        ReadStep::ReplyBatch => delivered,
        _ => false,
    }
}

/// Rows that a query yields of batches with these sizes: those before the first that breaks the
/// cap.
pub open spec fn yielded(sizes: Seq<usize>, emitted: int, max_rows: int) -> int
    decreases sizes.len(),
{
    if sizes.len() == 0 || !fits_cap(emitted, sizes[0] as int, max_rows) {
        emitted
    } else {
        yielded(sizes.subrange(1, sizes.len() as int), emitted + sizes[0], max_rows)
    }
}

/// A query never yields more rows than its cap, whatever its batches hold.
pub proof fn row_cap_holds(sizes: Seq<usize>, emitted: int, max_rows: int)
    requires
        0 <= emitted <= max_rows,
    ensures
        emitted <= yielded(sizes, emitted, max_rows) <= max_rows,
    decreases sizes.len(),
{
    if sizes.len() > 0 && fits_cap(emitted, sizes[0] as int, max_rows) {
        row_cap_holds(sizes.subrange(1, sizes.len() as int), emitted + sizes[0], max_rows);
    }
}

/// Rows of batches with these sizes.
pub open spec fn total_rows(sizes: Seq<usize>) -> int
    decreases sizes.len(),
{
    if sizes.len() == 0 {
        0
    } else {
        sizes[0] + total_rows(sizes.subrange(1, sizes.len() as int))
    }
}

/// A query task after it has read batches with these sizes.
pub open spec fn after_batches(forwarder: Forwarder, sizes: Seq<usize>) -> Forwarder
    decreases sizes.len(),
{
    if sizes.len() == 0 {
        forwarder
    } else {
        after_batches(
            after_read(forwarder, ReadEvent::Batch { rows: sizes[0] }),
            sizes.subrange(1, sizes.len() as int),
        )
    }
}

/// A query whose rows stay within the cap yields all of them: after any of its batches, a further one
/// is answered with the batch as long as the rows of them all are no more than the cap.
pub proof fn rows_within_the_cap_are_yielded(
    forwarder: Forwarder,
    sizes: Seq<usize>,
    rows: usize,
)
    requires
        forwarder.emitted + total_rows(sizes) + rows <= forwarder.max_rows,
    ensures
        read_step(after_batches(forwarder, sizes), ReadEvent::Batch { rows })
            == ReadStep::ReplyBatch,
        after_batches(forwarder, sizes).emitted == forwarder.emitted + total_rows(sizes),
        after_batches(forwarder, sizes).max_rows == forwarder.max_rows,
    decreases sizes.len(),
{
    if sizes.len() > 0 {
        let rest = sizes.subrange(1, sizes.len() as int);
        lemma_total_rows(rest);
        let next = after_read(forwarder, ReadEvent::Batch { rows: sizes[0] });
        assert(next.emitted == forwarder.emitted + sizes[0]);
        rows_within_the_cap_are_yielded(next, rest, rows);
    }
}

proof fn lemma_total_rows(sizes: Seq<usize>)
    ensures
        total_rows(sizes) >= 0,
    decreases sizes.len(),
{
    if sizes.len() > 0 {
        lemma_total_rows(sizes.subrange(1, sizes.len() as int));
    }
}

/// The first batch that goes beyond the cap is withheld and ends the query with the cap in its error;
/// an empty batch never does.
pub proof fn rows_beyond_the_cap_are_withheld(forwarder: Forwarder, rows: usize, delivered: bool)
    ensures
        rows > 0 && forwarder.emitted + rows > forwarder.max_rows ==> read_step(
            forwarder,
            ReadEvent::Batch { rows },
        ) == (ReadStep::ReplyRowLimit { max_rows: forwarder.max_rows }) && after_read(
            forwarder,
            ReadEvent::Batch { rows },
        ) == forwarder && !awaits_more(
            read_step(forwarder, ReadEvent::Batch { rows }),
            delivered,
        ),
        read_step(forwarder, ReadEvent::Batch { rows: 0 }) == ReadStep::ReplyBatch,
        after_read(forwarder, ReadEvent::Batch { rows: 0 }) == forwarder,
{
}

/// A query task goes on exactly after a batch that arrived. The end, a failure and the deadline are
/// answered as what they are, and yield no row.
pub proof fn only_delivered_batches_go_on(forwarder: Forwarder, event: ReadEvent, delivered: bool)
    ensures
        awaits_more(read_step(forwarder, event), delivered) ==> event is Batch && delivered,
        read_step(forwarder, event) is ReplyBatch && delivered ==> awaits_more(
            read_step(forwarder, event),
            delivered,
        ),
        read_step(forwarder, event) == ReadStep::ReplyTimeout <==> event == ReadEvent::Deadline,
        read_step(forwarder, event) == ReadStep::ReplyEnd <==> event == ReadEvent::End,
        read_step(forwarder, event) == ReadStep::ReplyError <==> event == ReadEvent::Failed,
        !(event is Batch) ==> after_read(forwarder, event) == forwarder,
{
}

// The result stream.

/// State of the result stream of one query.
#[derive(Clone, Copy, Debug, PartialEq, Eq, Structural)]
pub struct QueryBatchStream {
    /// Nothing more will be yielded.
    pub finished: bool,
    /// The stream was cancelled and has not said so yet.
    pub cancelled: bool,
    /// A request has been sent and is not answered.
    pub pending: bool,
    /// The query task can be asked, and the admission permit is held.
    pub running: bool,
}

/// What a poll of the result stream does first.
#[derive(Clone, Copy, Debug, PartialEq, Eq, Structural)]
pub enum PollStep {
    /// Yield the end.
    End,
    /// Yield [`QueryError::Cancelled`].
    Cancelled,
    /// Send a request to the query task.
    Send,
    /// Look for the answer to the request.
    Receive,
}

/// The answer to a request.
#[derive(Clone, Copy, Debug, PartialEq, Eq, Structural)]
pub enum Reply {
    /// There is none yet.
    Waiting,
    Batch,
    Failed,
    End,
    /// The query task ended without an answer.
    Lost,
}

/// What a poll of the result stream yields.
#[derive(Clone, Copy, Debug, PartialEq, Eq, Structural)]
pub enum PollOutcome {
    /// Nothing yet.
    Pending,
    /// The batch of the answer.
    Batch,
    /// The error of the answer.
    Failed,
    /// The end.
    End,
    /// The error of [`query_task_stopped`].
    Stopped,
}

/// A stream that has yielded its last item.
pub open spec fn finished_stream(stream: QueryBatchStream) -> QueryBatchStream {
    QueryBatchStream { finished: true, running: false, ..stream }
}

/// A stream after it is cancelled.
pub open spec fn cancelled_stream(stream: QueryBatchStream) -> QueryBatchStream {
    if stream.finished || stream.cancelled {
        stream
    } else {
        QueryBatchStream { cancelled: true, running: false, ..stream }
    }
}

pub open spec fn poll_step(stream: QueryBatchStream) -> PollStep {
    if stream.finished {
        PollStep::End
    } else if stream.cancelled {
        PollStep::Cancelled
    } else if stream.pending {
        PollStep::Receive
    } else {
        PollStep::Send
    }
}

/// The stream after the first step of a poll.
pub open spec fn after_poll(stream: QueryBatchStream) -> QueryBatchStream {
    if poll_step(stream) == PollStep::Cancelled {
        finished_stream(QueryBatchStream { cancelled: false, ..stream })
    } else {
        stream
    }
}

/// The stream after a request was offered to the query task.
pub open spec fn after_send(stream: QueryBatchStream, taken: bool) -> QueryBatchStream {
    if stream.running && taken {
        QueryBatchStream { pending: true, ..stream }
    } else {
        finished_stream(stream)
    }
}

/// What a poll yields for an answer.
pub open spec fn reply_outcome(reply: Reply) -> PollOutcome {
    match reply {
        Reply::Waiting => PollOutcome::Pending,
        Reply::Batch => PollOutcome::Batch,
        Reply::Failed => PollOutcome::Failed,
        Reply::End => PollOutcome::End,
        Reply::Lost => PollOutcome::Stopped,
    }
}

/// The stream after an answer was looked for.
pub open spec fn after_reply(stream: QueryBatchStream, reply: Reply) -> QueryBatchStream {
    match reply {
        Reply::Waiting => stream,
        Reply::Batch => QueryBatchStream { pending: false, ..stream },
        _ => finished_stream(QueryBatchStream { pending: false, ..stream }),
    }
}

impl QueryBatchStream {
    /// A stream that has ended or was cancelled has let go of its query task and its permit.
    pub open spec fn wf(&self) -> bool {
        self.finished || self.cancelled ==> !self.running
    }

    /// A stream whose query task is ready.
    #[must_use]
    pub fn new() -> (stream: Self)
        ensures
            stream.wf(),
            stream == (QueryBatchStream {
                finished: false,
                cancelled: false,
                pending: false,
                running: true,
            }),
    {
        QueryBatchStream { finished: false, cancelled: false, pending: false, running: true }
    }

    /// Stops the query. The next poll yields [`QueryError::Cancelled`] and no further batches.
    pub fn cancel(&mut self)
        requires
            old(self).wf(),
        ensures
            final(self).wf(),
            *final(self) == cancelled_stream(*old(self)),
    {
        if self.finished || self.cancelled {
            return;
        }
        self.cancelled = true;
        self.running = false;
    }

    fn finish(&mut self)
        ensures
            *final(self) == finished_stream(*old(self)),
    {
        self.finished = true;
        self.running = false;
    }

    /// The first step of a poll.
    pub fn poll(&mut self) -> (step: PollStep)
        requires
            old(self).wf(),
        ensures
            final(self).wf(),
            step == poll_step(*old(self)),
            *final(self) == after_poll(*old(self)),
    {
        if self.finished {
            return PollStep::End;
        }
        if self.cancelled {
            self.cancelled = false;
            self.finish();
            return PollStep::Cancelled;
        }
        if self.pending {
            PollStep::Receive
        } else {
            PollStep::Send
        }
    }

    /// Notes whether the query task took a request. Where it did not, the poll yields the error of
    /// [`query_task_stopped`].
    pub fn sent(&mut self, taken: bool) -> (goes_on: bool)
        requires
            old(self).wf(),
        ensures
            final(self).wf(),
            goes_on == (old(self).running && taken),
            *final(self) == after_send(*old(self), taken),
    {
        if self.running && taken {
            self.pending = true;
            true
        } else {
            self.finish();
            false
        }
    }

    /// What a poll yields for an answer.
    pub fn received(&mut self, reply: Reply) -> (outcome: PollOutcome)
        requires
            old(self).wf(),
        ensures
            final(self).wf(),
            outcome == reply_outcome(reply),
            *final(self) == after_reply(*old(self), reply),
    {
        match reply {
            Reply::Waiting => PollOutcome::Pending,
            Reply::Batch => {
                self.pending = false;
                PollOutcome::Batch
            },
            Reply::Failed => {
                self.pending = false;
                self.finish();
                PollOutcome::Failed
            },
            Reply::End => {
                self.pending = false;
                self.finish();
                PollOutcome::End
            },
            Reply::Lost => {
                self.pending = false;
                self.finish();
                PollOutcome::Stopped
            },
        }
    }
}

/// A cancelled stream says so once and then only ends: it neither asks for a batch nor looks for
/// one, and it holds no permit.
pub proof fn cancelling_ends_the_stream(stream: QueryBatchStream)
    requires
        stream.wf(),
        !stream.finished,
    ensures
        !cancelled_stream(stream).running,
        poll_step(cancelled_stream(stream)) == PollStep::Cancelled,
        poll_step(after_poll(cancelled_stream(stream))) == PollStep::End,
        after_poll(after_poll(cancelled_stream(stream))) == after_poll(cancelled_stream(stream)),
        !after_poll(cancelled_stream(stream)).running,
{
}

/// Cancelling a stream that has ended, or cancelling twice, changes nothing.
pub proof fn cancelling_again_changes_nothing(stream: QueryBatchStream)
    ensures
        cancelled_stream(finished_stream(stream)) == finished_stream(stream),
        cancelled_stream(cancelled_stream(stream)) == cancelled_stream(stream),
{
}

/// A stream asks for one batch at a time. While it runs, a poll sends a request; then polls look for
/// the answer until it comes; after a batch the next poll sends the next request. Any other answer, or
/// a query task that takes no request, ends the stream for good and gives its permit back.
pub proof fn streams_ask_for_one_batch_at_a_time(stream: QueryBatchStream, reply: Reply)
    requires
        stream.running,
        !stream.finished,
        !stream.cancelled,
        !stream.pending,
    ensures
        poll_step(stream) == PollStep::Send,
        after_poll(stream) == stream,
        poll_step(after_send(stream, true)) == PollStep::Receive,
        after_poll(after_send(stream, true)) == after_send(stream, true),
        after_send(stream, true).running,
        after_reply(after_send(stream, true), Reply::Waiting) == after_send(stream, true),
        after_reply(after_send(stream, true), Reply::Batch) == stream,
        reply != Reply::Waiting && reply != Reply::Batch ==> poll_step(
            after_reply(after_send(stream, true), reply),
        ) == PollStep::End && !after_reply(after_send(stream, true), reply).running && after_poll(
            after_reply(after_send(stream, true), reply),
        ) == after_reply(after_send(stream, true), reply),
        poll_step(after_send(stream, false)) == PollStep::End,
        !after_send(stream, false).running,
{
}

/// What a poll yields tells the answers apart, and only an answer that has not come leaves the poll
/// waiting.
pub proof fn outcomes_tell_the_answers(reply: Reply)
    ensures
        reply_outcome(reply) == PollOutcome::Pending <==> reply == Reply::Waiting,
        reply_outcome(reply) == PollOutcome::Batch <==> reply == Reply::Batch,
        reply_outcome(reply) == PollOutcome::Failed <==> reply == Reply::Failed,
        reply_outcome(reply) == PollOutcome::End <==> reply == Reply::End,
        reply_outcome(reply) == PollOutcome::Stopped <==> reply == Reply::Lost,
{
}

/// An engine can be configured exactly where at least one query may run, on at least one partition,
/// whatever memory it has.
pub proof fn engines_need_concurrency(config: QueryEngineConfig)
    ensures
        config_fault(config) is None <==> config.max_concurrent_queries >= 1
            && config.target_partitions_per_query >= 1,
{
}

/// Whether `part` is `body`, or stands anywhere inside it.
pub open spec fn is_part(part: QueryBody, body: QueryBody) -> bool
    decreases body,
{
    part == body || match body {
        QueryBody::Parenthesized(inner) => is_part(part, *inner),
        QueryBody::SetOperation(left, right) => is_part(part, *left) || is_part(part, *right),
        _ => false,
    }
}

/// A query runs exactly where its text is one statement, and nothing but `SELECT`, parentheses and set
/// operations stand anywhere in its body: what writes, or is no selection, is refused however deep it
/// stands.
pub proof fn only_selections_run(statements: Seq<ParsedStatement>)
    ensures
        statement_fault(statements) is None <==> statements.len() == 1 && statements[0] is Query
            && forall|part: QueryBody| #[trigger]
            is_part(part, statements[0]->Query_0) ==> part is Select || part is Parenthesized
                || part is SetOperation,
{
    if statements.len() == 1 && statements[0] is Query {
        lemma_selection_parts(statements[0]->Query_0);
    }
}

proof fn lemma_selection_parts(body: QueryBody)
    ensures
        selects_rows(body) <==> forall|part: QueryBody| #[trigger]
            is_part(part, body) ==> part is Select || part is Parenthesized
                || part is SetOperation,
    decreases body,
{
    assert(is_part(body, body));
    match body {
        QueryBody::Parenthesized(inner) => {
            lemma_selection_parts(*inner);
            if selects_rows(*inner) {
                assert forall|part: QueryBody| #[trigger] is_part(part, body) implies part is Select
                    || part is Parenthesized || part is SetOperation by {
                    assert(part == body || is_part(part, *inner));
                }
            }
            if !selects_rows(*inner) {
                let part = choose|part: QueryBody| #[trigger]
                    is_part(part, *inner) && !(part is Select || part is Parenthesized
                        || part is SetOperation);
                assert(is_part(part, body));
            }
        },
        QueryBody::SetOperation(left, right) => {
            lemma_selection_parts(*left);
            lemma_selection_parts(*right);
            if selects_rows(*left) && selects_rows(*right) {
                assert forall|part: QueryBody| #[trigger] is_part(part, body) implies part is Select
                    || part is Parenthesized || part is SetOperation by {
                    assert(part == body || is_part(part, *left) || is_part(part, *right));
                }
            }
            if !selects_rows(*left) {
                let part = choose|part: QueryBody| #[trigger]
                    is_part(part, *left) && !(part is Select || part is Parenthesized
                        || part is SetOperation);
                assert(is_part(part, body));
            }
            if !selects_rows(*right) {
                let part = choose|part: QueryBody| #[trigger]
                    is_part(part, *right) && !(part is Select || part is Parenthesized
                        || part is SetOperation);
                assert(is_part(part, body));
            }
        },
        _ => {},
    }
}

/// A failure counts as exhausted memory exactly where the pool refused a reservation somewhere in it:
/// context around it changes nothing, and of several failures one is enough.
pub proof fn exhaustion_is_found_anywhere(cause: FailureCause, causes: Vec<FailureCause>)
    ensures
        is_exhausted(FailureCause::ResourcesExhausted),
        !is_exhausted(FailureCause::Other),
        is_exhausted(FailureCause::Within(Box::new(cause))) == is_exhausted(cause),
        is_exhausted(FailureCause::Several(causes)) <==> exists|i: int|
            0 <= i < causes@.len() && is_exhausted(#[trigger] causes@[i]),
{
    lemma_some_exhausted(causes@);
    assert(is_exhausted(FailureCause::Several(causes)) == some_exhausted(causes@));
    assert(is_exhausted(FailureCause::Within(Box::new(cause))) == is_exhausted(cause));
}

proof fn lemma_some_exhausted(causes: Seq<FailureCause>)
    ensures
        some_exhausted(causes) <==> exists|i: int|
            0 <= i < causes.len() && is_exhausted(#[trigger] causes[i]),
    decreases causes.len(),
{
    if causes.len() > 0 {
        let rest = causes.subrange(1, causes.len() as int);
        lemma_some_exhausted(rest);
        if some_exhausted(rest) {
            let i = choose|i: int| 0 <= i < rest.len() && is_exhausted(#[trigger] rest[i]);
            assert(causes[i + 1] == rest[i]);
        }
        if exists|i: int| 0 <= i < causes.len() && is_exhausted(#[trigger] causes[i]) {
            let i = choose|i: int| 0 <= i < causes.len() && is_exhausted(#[trigger] causes[i]);
            if i > 0 {
                assert(rest[i - 1] == causes[i]);
            }
        }
    }
}

} // verus!
