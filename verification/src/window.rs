//! Event hours that a predicate on the event time can touch.
use vstd::prelude::*;
use crate::schema;
use crate::schema::{EventHour, COLUMN_EVENT_TIME_UNIX_NANO, NANOS_PER_HOUR};
use crate::text::same_text;

verus! {

/// Operator of a filter.
#[derive(Clone, Copy, Debug, PartialEq, Eq, Structural)]
pub enum Operator {
    Eq,
    NotEq,
    Lt,
    LtEq,
    Gt,
    GtEq,
    And,
    Or,
    /// Any other operator.
    Other,
}

/// Literal of a filter.
#[derive(Clone, Copy, Debug, PartialEq, Eq, Structural)]
pub enum Literal {
    UInt64(u64),
    UInt32(u32),
    UInt16(u16),
    UInt8(u8),
    Int64(i64),
    Int32(i32),
    Int16(i16),
    Int8(i8),
    /// Any other literal, and every null.
    Other,
}

/// Filter expression, as far as pruning reads it.
#[derive(Debug)]
pub enum Expr {
    /// A column, by its name.
    Column(String),
    Literal(Literal),
    Cast(Box<Expr>),
    TryCast(Box<Expr>),
    Binary(Box<Expr>, Operator, Box<Expr>),
    /// `expr [NOT] BETWEEN low AND high`.
    Between { negated: bool, expr: Box<Expr>, low: Box<Expr>, high: Box<Expr> },
    /// Anything else.
    Other,
}

/// An expression without the casts around it.
pub open spec fn bared(expr: Expr) -> Expr
    decreases expr,
{
    match expr {
        Expr::Cast(inner) => bared(*inner),
        Expr::TryCast(inner) => bared(*inner),
        other => other,
    }
}

/// An expression without the casts around it.
fn bare(expr: &Expr) -> (inner: &Expr)
    ensures
        *inner == bared(*expr),
    decreases expr,
{
    match expr {
        Expr::Cast(inner) => bare(inner),
        Expr::TryCast(inner) => bare(inner),
        other => other,
    }
}

/// Whether an expression is the event time column.
pub open spec fn names_event_time(expr: Expr) -> bool {
    match bared(expr) {
        Expr::Column(name) => name@ == COLUMN_EVENT_TIME_UNIX_NANO@,
        _ => false,
    }
}

fn is_event_time(expr: &Expr) -> (is: bool)
    ensures
        is == names_event_time(*expr),
{
    match bare(expr) {
        Expr::Column(name) => same_text(name, COLUMN_EVENT_TIME_UNIX_NANO),
        _ => false,
    }
}

/// The integer of a literal.
pub open spec fn literal_value(literal: Literal) -> Option<int> {
    match literal {
        Literal::UInt64(value) => Some(value as int),
        Literal::UInt32(value) => Some(value as int),
        Literal::UInt16(value) => Some(value as int),
        Literal::UInt8(value) => Some(value as int),
        Literal::Int64(value) => Some(value as int),
        Literal::Int32(value) => Some(value as int),
        Literal::Int16(value) => Some(value as int),
        Literal::Int8(value) => Some(value as int),
        Literal::Other => None,
    }
}

/// The timestamp that an expression stands for: a literal that is not negative.
pub open spec fn timestamp_of(expr: Expr) -> Option<u64> {
    match bared(expr) {
        Expr::Literal(literal) => match literal_value(literal) {
            Some(value) => if value >= 0 {
                Some(value as u64)
            } else {
                None
            },
            None => None,
        },
        _ => None,
    }
}

fn not_negative(value: i64) -> (timestamp: Option<u64>)
    ensures
        timestamp == if value >= 0 {
            Some(value as u64)
        } else {
            None
        },
{
    if value >= 0 {
        Some(value as u64)
    } else {
        None
    }
}

fn literal_u64(expr: &Expr) -> (timestamp: Option<u64>)
    ensures
        timestamp == timestamp_of(*expr),
{
    match bare(expr) {
        Expr::Literal(literal) => match literal {
            Literal::UInt64(value) => Some(*value),
            Literal::UInt32(value) => Some(*value as u64),
            Literal::UInt16(value) => Some(*value as u64),
            Literal::UInt8(value) => Some(*value as u64),
            Literal::Int64(value) => not_negative(*value),
            Literal::Int32(value) => not_negative(*value as i64),
            Literal::Int16(value) => not_negative(*value as i64),
            Literal::Int8(value) => not_negative(*value as i64),
            Literal::Other => None,
        },
        _ => None,
    }
}

/// Whether an operator compares by order.
pub open spec fn compares_order(operator: Operator) -> bool {
    operator is Eq || operator is Lt || operator is LtEq || operator is Gt || operator is GtEq
}

fn is_order_comparison(operator: Operator) -> (is: bool)
    ensures
        is == compares_order(operator),
{
    match operator {
        Operator::Eq | Operator::Lt | Operator::LtEq | Operator::Gt | Operator::GtEq => true,
        _ => false,
    }
}

/// The operator with its sides swapped.
pub open spec fn flipped(operator: Operator) -> Option<Operator> {
    match operator {
        Operator::Lt => Some(Operator::Gt),
        Operator::LtEq => Some(Operator::GtEq),
        Operator::Gt => Some(Operator::Lt),
        Operator::GtEq => Some(Operator::LtEq),
        Operator::Eq => Some(Operator::Eq),
        _ => None,
    }
}

fn flip_comparison(operator: Operator) -> (swapped: Option<Operator>)
    ensures
        swapped == flipped(operator),
{
    match operator {
        Operator::Lt => Some(Operator::Gt),
        Operator::LtEq => Some(Operator::GtEq),
        Operator::Gt => Some(Operator::Lt),
        Operator::GtEq => Some(Operator::LtEq),
        Operator::Eq => Some(Operator::Eq),
        _ => None,
    }
}

/// Inclusive start and exclusive end of the event hours a predicate can touch.
#[derive(Clone, Copy, Debug)]
pub struct HourWindow {
    pub from: Option<EventHour>,
    pub to: Option<EventHour>,
    pub impossible: bool,
}

#[verifier::ext_equal]
pub struct WindowView {
    pub from: Option<u64>,
    pub to: Option<u64>,
    pub impossible: bool,
}

pub open spec fn hour_view(hour: Option<EventHour>) -> Option<u64> {
    match hour {
        Some(hour) => Some(hour@),
        None => None,
    }
}

impl View for HourWindow {
    type V = WindowView;

    open spec fn view(&self) -> WindowView {
        WindowView {
            from: hour_view(self.from),
            to: hour_view(self.to),
            impossible: self.impossible,
        }
    }
}

/// Every hour.
pub open spec fn every_hour() -> WindowView {
    WindowView { from: None, to: None, impossible: false }
}

/// Whether a window holds an hour.
pub open spec fn holds_hour(window: WindowView, hour: u64) -> bool {
    &&& !window.impossible
    &&& window.from is Some ==> hour >= window.from->0
    &&& window.to is Some ==> hour < window.to->0
}

pub open spec fn later(left: Option<u64>, right: Option<u64>) -> Option<u64> {
    match (left, right) {
        (Some(left), Some(right)) => Some(
            if left >= right {
                left
            } else {
                right
            },
        ),
        (Some(bound), None) => Some(bound),
        (None, other) => other,
    }
}

pub open spec fn earlier(left: Option<u64>, right: Option<u64>) -> Option<u64> {
    match (left, right) {
        (Some(left), Some(right)) => Some(
            if left <= right {
                left
            } else {
                right
            },
        ),
        (Some(bound), None) => Some(bound),
        (None, other) => other,
    }
}

/// Whether no hour lies between the bounds.
pub open spec fn crossed(from: Option<u64>, to: Option<u64>) -> bool {
    from is Some && to is Some && from->0 >= to->0
}

/// The hours of both windows.
pub open spec fn intersection(left: WindowView, right: WindowView) -> WindowView {
    if right.impossible {
        WindowView { impossible: true, ..left }
    } else {
        let from = later(left.from, right.from);
        let to = earlier(left.to, right.to);
        WindowView { from, to, impossible: left.impossible || crossed(from, to) }
    }
}

/// Intersecting keeps exactly the hours that both windows hold.
pub proof fn intersection_holds_common_hours(left: WindowView, right: WindowView, hour: u64)
    ensures
        holds_hour(intersection(left, right), hour) <==> holds_hour(left, hour) && holds_hour(
            right,
            hour,
        ),
{
}

impl HourWindow {
    /// Every hour.
    pub fn unbounded() -> (window: Self)
        ensures
            window@ == every_hour(),
    {
        HourWindow { from: None, to: None, impossible: false }
    }

    /// Whether the window holds `hour`.
    pub fn contains(self, hour: EventHour) -> (contains: bool)
        ensures
            contains == holds_hour(self@, hour@),
    {
        if self.impossible {
            return false;
        }
        let after = match self.from {
            Some(start) => hour.start_unix_nano() >= start.start_unix_nano(),
            None => true,
        };
        let before = match self.to {
            Some(end) => hour.start_unix_nano() < end.start_unix_nano(),
            None => true,
        };
        after && before
    }

    /// Keeps the hours that `other` holds too.
    pub fn intersect(&mut self, other: Self)
        ensures
            final(self)@ == intersection(old(self)@, other@),
    {
        if other.impossible {
            self.impossible = true;
            return;
        }
        self.from = match (self.from, other.from) {
            (Some(left), Some(right)) => if left.start_unix_nano() >= right.start_unix_nano() {
                Some(left)
            } else {
                Some(right)
            },
            (Some(bound), None) => Some(bound),
            (None, other) => other,
        };
        self.to = match (self.to, other.to) {
            (Some(left), Some(right)) => if left.start_unix_nano() <= right.start_unix_nano() {
                Some(left)
            } else {
                Some(right)
            },
            (Some(bound), None) => Some(bound),
            (None, other) => other,
        };
        match (self.from, self.to) {
            (Some(from), Some(to)) => {
                if from.start_unix_nano() >= to.start_unix_nano() {
                    self.impossible = true;
                }
            },
            _ => {},
        }
    }
}

/// Start of the hour after the one that starts at `start`, unless time ends before.
pub open spec fn next_hour(start: u64) -> Option<u64> {
    if start + NANOS_PER_HOUR > u64::MAX {
        None
    } else {
        Some(schema::hour_start((start + NANOS_PER_HOUR) as u64))
    }
}

fn hour_after(hour: EventHour) -> (next: Option<EventHour>)
    ensures
        hour_view(next) == next_hour(hour@),
{
    match hour.start_unix_nano().checked_add(NANOS_PER_HOUR) {
        Some(start) => Some(EventHour::containing(start)),
        None => None,
    }
}

/// The hours that a comparison of the event time with `timestamp` can touch.
pub open spec fn bound_of(operator: Operator, timestamp: u64) -> WindowView {
    let hour = schema::hour_start(timestamp);
    match operator {
        Operator::GtEq => WindowView { from: Some(hour), ..every_hour() },
        Operator::Gt => if timestamp == u64::MAX {
            WindowView { impossible: true, ..every_hour() }
        } else {
            WindowView {
                from: Some(schema::hour_start((timestamp + 1) as u64)),
                ..every_hour()
            }
        },
        Operator::LtEq => WindowView { to: next_hour(hour), ..every_hour() },
        Operator::Lt => if timestamp == 0 {
            WindowView { impossible: true, ..every_hour() }
        } else {
            WindowView {
                to: next_hour(schema::hour_start((timestamp - 1) as u64)),
                ..every_hour()
            }
        },
        Operator::Eq => WindowView {
            from: Some(hour),
            to: next_hour(hour),
            impossible: crossed(Some(hour), next_hour(hour)),
        },
        _ => WindowView { impossible: true, ..every_hour() },
    }
}

/// The hours that a comparison of the event time with `timestamp` can touch.
pub fn bound_window(operator: Operator, timestamp: u64) -> (window: HourWindow)
    ensures
        window@ == bound_of(operator, timestamp),
{
    let mut window = HourWindow::unbounded();
    match operator {
        Operator::GtEq => {
            window.from = Some(EventHour::containing(timestamp));
        },
        Operator::Gt => match timestamp.checked_add(1) {
            Some(next) => {
                window.from = Some(EventHour::containing(next));
            },
            None => {
                window.impossible = true;
            },
        },
        Operator::LtEq => {
            window.to = hour_after(EventHour::containing(timestamp));
        },
        Operator::Lt => match timestamp.checked_sub(1) {
            Some(previous) => {
                window.to = hour_after(EventHour::containing(previous));
            },
            None => {
                window.impossible = true;
            },
        },
        Operator::Eq => {
            let hour = EventHour::containing(timestamp);
            window.from = Some(hour);
            window.to = hour_after(hour);
        },
        _ => {
            window.impossible = true;
        },
    }
    match (window.from, window.to) {
        (Some(from), Some(to)) => {
            if from.start_unix_nano() >= to.start_unix_nano() {
                window.impossible = true;
            }
        },
        _ => {},
    }
    window
}

/// A comparison of the event time with a timestamp, the column on the left.
pub open spec fn comparison_of(left: Expr, operator: Operator, right: Expr) -> Option<
    (Operator, u64),
> {
    if names_event_time(left) && compares_order(operator) {
        match timestamp_of(right) {
            Some(timestamp) => Some((operator, timestamp)),
            None => None,
        }
    } else if names_event_time(right) && compares_order(operator) {
        match (flipped(operator), timestamp_of(left)) {
            (Some(operator), Some(timestamp)) => Some((operator, timestamp)),
            _ => None,
        }
    } else {
        None
    }
}

/// The window after one more predicate, where the predicate bounds the event time alone.
pub open spec fn narrowed(expr: Expr, window: WindowView) -> Option<WindowView>
    decreases expr,
{
    match expr {
        Expr::Binary(left, Operator::And, right) => match narrowed(*left, window) {
            None => None,
            Some(window) => narrowed(*right, window),
        },
        Expr::Binary(left, operator, right) => match comparison_of(*left, operator, *right) {
            None => None,
            Some((operator, timestamp)) => Some(
                intersection(window, bound_of(operator, timestamp)),
            ),
        },
        Expr::Between { negated, expr, low, high } => if negated {
            None
        } else {
            match (timestamp_of(*low), timestamp_of(*high)) {
                (Some(low), Some(high)) => if names_event_time(*expr) {
                    Some(
                        intersection(
                            intersection(window, bound_of(Operator::GtEq, low)),
                            bound_of(Operator::LtEq, high),
                        ),
                    )
                } else {
                    None
                },
                _ => None,
            }
        },
        _ => None,
    }
}

fn compared(left: &Expr, operator: Operator, right: &Expr) -> (comparison: Option<(Operator, u64)>)
    ensures
        comparison == comparison_of(*left, operator, *right),
{
    if is_event_time(left) && is_order_comparison(operator) {
        return match literal_u64(right) {
            Some(timestamp) => Some((operator, timestamp)),
            None => None,
        };
    }
    if is_event_time(right) && is_order_comparison(operator) {
        return match (flip_comparison(operator), literal_u64(left)) {
            (Some(operator), Some(timestamp)) => Some((operator, timestamp)),
            _ => None,
        };
    }
    None
}

fn time_predicate_into(expr: &Expr, window: &mut HourWindow) -> (recognized: bool)
    ensures
        recognized == narrowed(*expr, old(window)@) is Some,
        recognized ==> final(window)@ == narrowed(*expr, old(window)@)->0,
    decreases expr,
{
    match expr {
        Expr::Binary(left, operator, right) => {
            if *operator == Operator::And {
                return time_predicate_into(left, window) && time_predicate_into(right, window);
            }
            match compared(left, *operator, right) {
                Some((operator, timestamp)) => {
                    window.intersect(bound_window(operator, timestamp));
                    true
                },
                None => false,
            }
        },
        Expr::Between { negated, expr, low, high } => {
            if *negated {
                return false;
            }
            match (literal_u64(low), literal_u64(high)) {
                (Some(low), Some(high)) => {
                    if !is_event_time(expr) {
                        return false;
                    }
                    window.intersect(bound_window(Operator::GtEq, low));
                    window.intersect(bound_window(Operator::LtEq, high));
                    true
                },
                _ => false,
            }
        },
        _ => false,
    }
}

/// The hours that a predicate can touch, where it bounds the event time alone.
#[must_use]
pub fn time_predicate(expr: &Expr) -> (window: Option<HourWindow>)
    ensures
        window is Some == narrowed(*expr, every_hour()) is Some,
        window is Some ==> window->0@ == narrowed(*expr, every_hour())->0,
{
    let mut window = HourWindow::unbounded();
    if time_predicate_into(expr, &mut window) {
        Some(window)
    } else {
        None
    }
}

/// The hours that all filters together can touch. Filters that bound something else are left out.
pub open spec fn window_of(filters: Seq<Expr>) -> WindowView
    decreases filters.len(),
{
    if filters.len() == 0 {
        every_hour()
    } else {
        let before = window_of(filters.drop_last());
        match narrowed(filters.last(), every_hour()) {
            Some(bound) => intersection(before, bound),
            None => before,
        }
    }
}

/// The hours that all filters together can touch. Filters that bound something else are left out.
#[must_use]
pub fn hour_window(filters: &Vec<Expr>) -> (window: HourWindow)
    ensures
        window@ == window_of(filters@),
{
    let mut window = HourWindow::unbounded();
    let mut i: usize = 0;
    assert(filters@.take(0) =~= Seq::empty());
    while i < filters.len()
        invariant
            i <= filters.len(),
            window@ == window_of(filters@.take(i as int)),
        decreases filters.len() - i,
    {
        assert(filters@.take(i + 1).drop_last() =~= filters@.take(i as int));
        match time_predicate(&filters[i]) {
            Some(bound) => {
                window.intersect(bound);
            },
            None => {},
        }
        i = i + 1;
    }
    assert(filters@.take(i as int) =~= filters@);
    window
}

// What predicates mean.

/// Whether an event time stands in this relation to a timestamp.
pub open spec fn relates(time: u64, operator: Operator, timestamp: u64) -> bool {
    match operator {
        Operator::Eq => time == timestamp,
        Operator::Lt => time < timestamp,
        Operator::LtEq => time <= timestamp,
        Operator::Gt => time > timestamp,
        Operator::GtEq => time >= timestamp,
        _ => true,
    }
}

/// Whether a predicate can be true of a row with this event time: comparisons of the event time
/// with a timestamp decide, and casts keep the value. Of any other predicate nothing is known.
pub open spec fn can_hold(expr: Expr, time: u64) -> bool
    decreases expr,
{
    match expr {
        Expr::Binary(left, Operator::And, right) => can_hold(*left, time) && can_hold(
            *right,
            time,
        ),
        Expr::Binary(left, operator, right) => if names_event_time(*left) && compares_order(
            operator,
        ) && timestamp_of(*right) is Some {
            relates(time, operator, timestamp_of(*right)->0)
        } else if names_event_time(*right) && compares_order(operator) && timestamp_of(
            *left,
        ) is Some {
            match operator {
                Operator::Eq => timestamp_of(*left)->0 == time,
                Operator::Lt => timestamp_of(*left)->0 < time,
                Operator::LtEq => timestamp_of(*left)->0 <= time,
                Operator::Gt => timestamp_of(*left)->0 > time,
                _ => timestamp_of(*left)->0 >= time,
            }
        } else {
            true
        },
        Expr::Between { negated, expr, low, high } => if !negated && names_event_time(*expr)
            && timestamp_of(*low) is Some && timestamp_of(*high) is Some {
            timestamp_of(*low)->0 <= time && time <= timestamp_of(*high)->0
        } else {
            true
        },
        _ => true,
    }
}

/// Hours are ordered as the times in them.
proof fn lemma_hours_ordered(early: u64, late: u64)
    requires
        early <= late,
    ensures
        schema::hour_start(early) <= schema::hour_start(late),
{
    schema::hours_partition_time(early, schema::hour_start(early));
    schema::hours_partition_time(late, schema::hour_start(late));
    vstd::arithmetic::div_mod::lemma_div_is_ordered(
        early as int,
        late as int,
        NANOS_PER_HOUR as int,
    );
    vstd::arithmetic::div_mod::lemma_fundamental_div_mod(early as int, NANOS_PER_HOUR as int);
    vstd::arithmetic::div_mod::lemma_fundamental_div_mod(late as int, NANOS_PER_HOUR as int);
}

/// The hour after that of a time, where there is one, starts later than every hour up to it.
proof fn lemma_next_hour_later(early: u64, late: u64)
    requires
        early <= late,
    ensures
        next_hour(schema::hour_start(late)) is Some ==> schema::hour_start(early) < next_hour(
            schema::hour_start(late),
        )->0,
{
    lemma_hours_ordered(early, late);
    let hour = schema::hour_start(late);
    if hour + NANOS_PER_HOUR <= u64::MAX {
        let next = (hour + NANOS_PER_HOUR) as u64;
        schema::hours_partition_time(next, schema::hour_start(next));
    }
}

/// A comparison that holds of an event time keeps its hour.
proof fn lemma_bound_sound(time: u64, operator: Operator, timestamp: u64)
    requires
        compares_order(operator),
        relates(time, operator, timestamp),
    ensures
        holds_hour(bound_of(operator, timestamp), schema::hour_start(time)),
{
    match operator {
        Operator::GtEq => lemma_hours_ordered(timestamp, time),
        Operator::Gt => lemma_hours_ordered((timestamp + 1) as u64, time),
        Operator::LtEq => lemma_next_hour_later(time, timestamp),
        Operator::Lt => lemma_next_hour_later(time, (timestamp - 1) as u64),
        _ => lemma_next_hour_later(time, time),
    }
}

proof fn lemma_narrowed_sound(expr: Expr, window: WindowView, time: u64)
    requires
        narrowed(expr, window) is Some,
        can_hold(expr, time),
        holds_hour(window, schema::hour_start(time)),
    ensures
        holds_hour(narrowed(expr, window)->0, schema::hour_start(time)),
    decreases expr,
{
    let hour = schema::hour_start(time);
    match expr {
        Expr::Binary(left, Operator::And, right) => {
            lemma_narrowed_sound(*left, window, time);
            lemma_narrowed_sound(*right, narrowed(*left, window)->0, time);
        },
        Expr::Binary(left, operator, right) => {
            let comparison = comparison_of(*left, operator, *right)->0;
            lemma_bound_sound(time, comparison.0, comparison.1);
            intersection_holds_common_hours(window, bound_of(comparison.0, comparison.1), hour);
        },
        Expr::Between { negated, expr, low, high } => {
            let first = timestamp_of(*low)->0;
            let last = timestamp_of(*high)->0;
            lemma_bound_sound(time, Operator::GtEq, first);
            lemma_bound_sound(time, Operator::LtEq, last);
            let lower = bound_of(Operator::GtEq, first);
            let upper = bound_of(Operator::LtEq, last);
            intersection_holds_common_hours(window, lower, hour);
            intersection_holds_common_hours(intersection(window, lower), upper, hour);
        },
        _ => {},
    }
}

/// Pruning is safe: the hour of every event time for which all filters can hold stays in the
/// window.
pub proof fn pruning_keeps_matching_hours(filters: Seq<Expr>, time: u64)
    requires
        forall|i: int| 0 <= i < filters.len() ==> can_hold(#[trigger] filters[i], time),
    ensures
        holds_hour(window_of(filters), schema::hour_start(time)),
    decreases filters.len(),
{
    if filters.len() > 0 {
        let front = filters.drop_last();
        assert forall|i: int| 0 <= i < front.len() implies can_hold(#[trigger] front[i], time) by {
            assert(front[i] == filters[i]);
        }
        pruning_keeps_matching_hours(front, time);
        let last = filters[filters.len() - 1];
        assert(can_hold(last, time));
        if narrowed(last, every_hour()) is Some {
            lemma_narrowed_sound(last, every_hour(), time);
            intersection_holds_common_hours(
                window_of(front),
                narrowed(last, every_hour())->0,
                schema::hour_start(time),
            );
        }
    }
}

// Filters over whole rows.

/// The number that an expression stands for in a row, where it stands for one: a column for the
/// row's cell in the column of that very name, a literal for its integer. Casts keep the number.
pub open spec fn meaning(expr: Expr, row: Map<Seq<char>, int>) -> Option<int>
    decreases expr,
{
    match expr {
        Expr::Column(name) => if row.dom().contains(name@) {
            Some(row[name@])
        } else {
            None
        },
        Expr::Literal(Literal::UInt64(value)) => Some(value as int),
        Expr::Literal(Literal::UInt32(value)) => Some(value as int),
        Expr::Literal(Literal::UInt16(value)) => Some(value as int),
        Expr::Literal(Literal::UInt8(value)) => Some(value as int),
        Expr::Literal(Literal::Int64(value)) => Some(value as int),
        Expr::Literal(Literal::Int32(value)) => Some(value as int),
        Expr::Literal(Literal::Int16(value)) => Some(value as int),
        Expr::Literal(Literal::Int8(value)) => Some(value as int),
        Expr::Cast(inner) => meaning(*inner, row),
        Expr::TryCast(inner) => meaning(*inner, row),
        _ => None,
    }
}

/// Whether two numbers stand in the relation of an operator. Of an operator that compares no numbers
/// nothing is known.
pub open spec fn numbers_relate(left: int, operator: Operator, right: int) -> bool {
    match operator {
        Operator::Eq => left == right,
        Operator::NotEq => left != right,
        Operator::Lt => left < right,
        Operator::LtEq => left <= right,
        Operator::Gt => left > right,
        Operator::GtEq => left >= right,
        _ => true,
    }
}

/// Whether a filter can be true of a row. Where a side stands for no number, nothing is known.
pub open spec fn can_be_true(expr: Expr, row: Map<Seq<char>, int>) -> bool
    decreases expr,
{
    match expr {
        Expr::Binary(left, Operator::And, right) => can_be_true(*left, row) && can_be_true(
            *right,
            row,
        ),
        Expr::Binary(left, Operator::Or, right) => can_be_true(*left, row) || can_be_true(
            *right,
            row,
        ),
        Expr::Binary(left, operator, right) => match (meaning(*left, row), meaning(*right, row)) {
            (Some(left), Some(right)) => numbers_relate(left, operator, right),
            _ => true,
        },
        Expr::Between { negated, expr, low, high } => match (
            meaning(*expr, row),
            meaning(*low, row),
            meaning(*high, row),
        ) {
            (Some(value), Some(low), Some(high)) => (low <= value <= high) != negated,
            _ => true,
        },
        _ => true,
    }
}

/// Whether a column of this name occurs in an expression.
pub open spec fn mentions(expr: Expr, name: Seq<char>) -> bool
    decreases expr,
{
    match expr {
        Expr::Column(column) => column@ == name,
        Expr::Cast(inner) => mentions(*inner, name),
        Expr::TryCast(inner) => mentions(*inner, name),
        Expr::Binary(left, _, right) => mentions(*left, name) || mentions(*right, name),
        Expr::Between { negated, expr, low, high } => mentions(*expr, name) || mentions(*low, name)
            || mentions(*high, name),
        _ => false,
    }
}

proof fn lemma_event_time_meaning(expr: Expr, row: Map<Seq<char>, int>)
    requires
        names_event_time(expr),
    ensures
        mentions(expr, COLUMN_EVENT_TIME_UNIX_NANO@),
        row.dom().contains(COLUMN_EVENT_TIME_UNIX_NANO@) ==> meaning(expr, row) == Some(
            row[COLUMN_EVENT_TIME_UNIX_NANO@],
        ),
    decreases expr,
{
    match expr {
        Expr::Cast(inner) => lemma_event_time_meaning(*inner, row),
        Expr::TryCast(inner) => lemma_event_time_meaning(*inner, row),
        _ => {},
    }
}

proof fn lemma_timestamp_meaning(expr: Expr, row: Map<Seq<char>, int>)
    requires
        timestamp_of(expr) is Some,
    ensures
        meaning(expr, row) == Some(timestamp_of(expr)->0 as int),
    decreases expr,
{
    match expr {
        Expr::Cast(inner) => lemma_timestamp_meaning(*inner, row),
        Expr::TryCast(inner) => lemma_timestamp_meaning(*inner, row),
        _ => {},
    }
}

/// What can be true of a row can hold at its event time.
proof fn lemma_true_can_hold(expr: Expr, row: Map<Seq<char>, int>, time: u64)
    requires
        row.dom().contains(COLUMN_EVENT_TIME_UNIX_NANO@),
        row[COLUMN_EVENT_TIME_UNIX_NANO@] == time,
        can_be_true(expr, row),
    ensures
        can_hold(expr, time),
    decreases expr,
{
    match expr {
        Expr::Binary(left, Operator::And, right) => {
            lemma_true_can_hold(*left, row, time);
            lemma_true_can_hold(*right, row, time);
        },
        Expr::Binary(left, operator, right) => {
            if names_event_time(*left) {
                lemma_event_time_meaning(*left, row);
            }
            if names_event_time(*right) {
                lemma_event_time_meaning(*right, row);
            }
            if timestamp_of(*left) is Some {
                lemma_timestamp_meaning(*left, row);
            }
            if timestamp_of(*right) is Some {
                lemma_timestamp_meaning(*right, row);
            }
        },
        Expr::Between { negated, expr, low, high } => {
            if names_event_time(*expr) {
                lemma_event_time_meaning(*expr, row);
            }
            if timestamp_of(*low) is Some {
                lemma_timestamp_meaning(*low, row);
            }
            if timestamp_of(*high) is Some {
                lemma_timestamp_meaning(*high, row);
            }
        },
        _ => {},
    }
}

/// Pruning loses no row: whenever all filters can be true of a row, the window holds the hour in
/// which the row's event time lies.
pub proof fn pruning_keeps_matching_rows(filters: Seq<Expr>, row: Map<Seq<char>, int>, hour: u64)
    requires
        row.dom().contains(COLUMN_EVENT_TIME_UNIX_NANO@),
        row[COLUMN_EVENT_TIME_UNIX_NANO@] <= u64::MAX,
        hour <= row[COLUMN_EVENT_TIME_UNIX_NANO@] < hour + NANOS_PER_HOUR,
        hour % NANOS_PER_HOUR == 0,
        forall|i: int| 0 <= i < filters.len() ==> can_be_true(#[trigger] filters[i], row),
    ensures
        !window_of(filters).impossible,
        window_of(filters).from matches Some(from) ==> from <= hour,
        window_of(filters).to matches Some(to) ==> hour < to,
{
    let time = row[COLUMN_EVENT_TIME_UNIX_NANO@] as u64;
    schema::hours_partition_time(time, hour);
    assert forall|i: int| 0 <= i < filters.len() implies can_hold(#[trigger] filters[i], time) by {
        lemma_true_can_hold(filters[i], row, time);
    }
    pruning_keeps_matching_hours(filters, time);
}

proof fn lemma_unmentioned(expr: Expr, window: WindowView)
    requires
        !mentions(expr, COLUMN_EVENT_TIME_UNIX_NANO@),
    ensures
        narrowed(expr, window) is None,
    decreases expr,
{
    match expr {
        Expr::Binary(left, operator, right) => {
            if names_event_time(*left) {
                lemma_event_time_meaning(*left, Map::empty());
            }
            if names_event_time(*right) {
                lemma_event_time_meaning(*right, Map::empty());
            }
            if operator == Operator::And {
                lemma_unmentioned(*left, window);
            }
        },
        Expr::Between { negated, expr, low, high } => {
            if names_event_time(*expr) {
                lemma_event_time_meaning(*expr, Map::empty());
            }
        },
        _ => {},
    }
}

/// Filters that do not mention the event time leave every hour in the window, and the scan takes
/// none of them over.
pub proof fn other_filters_prune_nothing(filters: Seq<Expr>)
    requires
        forall|i: int|
            0 <= i < filters.len() ==> !mentions(
                #[trigger] filters[i],
                COLUMN_EVENT_TIME_UNIX_NANO@,
            ),
    ensures
        window_of(filters) == (WindowView { from: None, to: None, impossible: false }),
        forall|i: int|
            0 <= i < filters.len() ==> narrowed(#[trigger] filters[i], every_hour()) is None,
    decreases filters.len(),
{
    if filters.len() > 0 {
        let front = filters.drop_last();
        assert forall|i: int| 0 <= i < front.len() implies !mentions(
            #[trigger] front[i],
            COLUMN_EVENT_TIME_UNIX_NANO@,
        ) by {
            assert(front[i] == filters[i]);
        }
        other_filters_prune_nothing(front);
        assert forall|i: int| 0 <= i < filters.len() implies narrowed(
            #[trigger] filters[i],
            every_hour(),
        ) is None by {
            lemma_unmentioned(filters[i], every_hour());
        }
        assert(narrowed(filters[filters.len() - 1], every_hour()) is None);
    }
}

/// Whether an hour holds an instant that stands in a relation to a number.
pub open spec fn hour_relates(hour: u64, operator: Operator, number: int) -> bool {
    exists|time: u64|
        hour <= time < hour + NANOS_PER_HOUR && #[trigger] numbers_relate(
            time as int,
            operator,
            number,
        )
}

proof fn lemma_bound_exact(operator: Operator, timestamp: u64, hour: u64)
    requires
        compares_order(operator),
        hour % NANOS_PER_HOUR == 0,
    ensures
        holds_hour(bound_of(operator, timestamp), hour) <==> hour_relates(
            hour,
            operator,
            timestamp as int,
        ),
{
    if hour_relates(hour, operator, timestamp as int) {
        let time = choose|time: u64|
            hour <= time < hour + NANOS_PER_HOUR && #[trigger] numbers_relate(
                time as int,
                operator,
                timestamp as int,
            );
        schema::hours_partition_time(time, hour);
        lemma_bound_sound(time, operator, timestamp);
    }
    if holds_hour(bound_of(operator, timestamp), hour) {
        lemma_hour_relates(operator, timestamp, hour);
    }
}

proof fn lemma_hour_relates(operator: Operator, timestamp: u64, hour: u64)
    requires
        compares_order(operator),
        hour % NANOS_PER_HOUR == 0,
        holds_hour(bound_of(operator, timestamp), hour),
    ensures
        hour_relates(hour, operator, timestamp as int),
{
    lemma_hour_bounded(operator, timestamp, hour);
    let witness = match operator {
        Operator::Eq => timestamp,
        Operator::GtEq => if hour >= timestamp {
            hour
        } else {
            timestamp
        },
        Operator::Gt => if hour > timestamp {
            hour
        } else {
            (timestamp + 1) as u64
        },
        _ => hour,
    };
    assert(hour <= witness < hour + NANOS_PER_HOUR);
    assert(numbers_relate(witness as int, operator, timestamp as int));
}

/// Two starts of hours that differ are an hour apart at least.
proof fn lemma_hours_apart(early: u64, late: u64)
    requires
        early % NANOS_PER_HOUR == 0,
        late % NANOS_PER_HOUR == 0,
        early < late,
    ensures
        early + NANOS_PER_HOUR <= late,
{
    let p = (early / NANOS_PER_HOUR) as int;
    let q = (late / NANOS_PER_HOUR) as int;
    assert(early == p * NANOS_PER_HOUR);
    assert(late == q * NANOS_PER_HOUR);
}

proof fn lemma_hour_bounded(operator: Operator, timestamp: u64, hour: u64)
    requires
        compares_order(operator),
        hour % NANOS_PER_HOUR == 0,
        holds_hour(bound_of(operator, timestamp), hour),
    ensures
        match operator {
            Operator::Eq => hour <= timestamp < hour + NANOS_PER_HOUR,
            Operator::GtEq => timestamp < hour + NANOS_PER_HOUR,
            Operator::Gt => timestamp < u64::MAX && timestamp + 1 < hour + NANOS_PER_HOUR,
            Operator::LtEq => hour <= timestamp,
            _ => hour < timestamp,
        },
{
    let start = schema::hour_start(timestamp);
    schema::hours_partition_time(timestamp, start);
    match operator {
        Operator::GtEq => {
            if hour < start {
                lemma_hours_apart(hour, start);
            }
        },
        Operator::Gt => {
            let after = (timestamp + 1) as u64;
            schema::hours_partition_time(after, start);
        },
        Operator::LtEq => lemma_not_after(timestamp, hour),
        Operator::Lt => lemma_not_after((timestamp - 1) as u64, hour),
        _ => lemma_not_after(timestamp, hour),
    }
}

/// An hour that starts before the hour after that of an instant starts no later than the instant.
proof fn lemma_not_after(timestamp: u64, hour: u64)
    requires
        hour % NANOS_PER_HOUR == 0,
        next_hour(schema::hour_start(timestamp)) is Some ==> hour < next_hour(
            schema::hour_start(timestamp),
        )->0,
    ensures
        hour <= timestamp,
{
    let start = schema::hour_start(timestamp);
    schema::hours_partition_time(timestamp, start);
    if start < hour {
        lemma_hours_apart(start, hour);
        let next = (start + NANOS_PER_HOUR) as u64;
        schema::hours_partition_time(next, next);
        let p = (start / NANOS_PER_HOUR) as int;
        assert(start == p * NANOS_PER_HOUR);
        assert(next == (p + 1) * NANOS_PER_HOUR);
        assert(next % NANOS_PER_HOUR == 0) by (nonlinear_arith)
            requires
                next == (p + 1) * NANOS_PER_HOUR,
        ;
    }
}

/// Pruning is exact for a comparison of the event time with an instant, on whichever side the column
/// stands: the window holds exactly the hours in which the comparison can be true.
pub proof fn comparisons_prune_exactly(
    name: String,
    operator: Operator,
    literal: Literal,
    hour: u64,
)
    requires
        name@ == COLUMN_EVENT_TIME_UNIX_NANO@,
        operator == Operator::Eq || operator == Operator::Lt || operator == Operator::LtEq
            || operator == Operator::Gt || operator == Operator::GtEq,
        meaning(Expr::Literal(literal), Map::empty()) is Some,
        meaning(Expr::Literal(literal), Map::empty())->0 >= 0,
        hour % NANOS_PER_HOUR == 0,
    ensures
        ({
            let column = Box::new(Expr::Column(name));
            let value = Box::new(Expr::Literal(literal));
            let number = meaning(*value, Map::empty())->0;
            &&& holds_hour(window_of(seq![Expr::Binary(column, operator, value)]), hour)
                <==> hour_relates(hour, operator, number)
            &&& holds_hour(window_of(seq![Expr::Binary(value, operator, column)]), hour)
                <==> exists|time: u64|
                hour <= time < hour + NANOS_PER_HOUR && #[trigger] numbers_relate(
                    number,
                    operator,
                    time as int,
                )
        }),
{
    let column = Box::new(Expr::Column(name));
    let value = Box::new(Expr::Literal(literal));
    let number = meaning(*value, Map::empty())->0;
    let timestamp = timestamp_of(*value)->0;
    assert(timestamp == number);
    let straight = Expr::Binary(column, operator, value);
    let turned = Expr::Binary(value, operator, column);
    let swapped = flipped(operator)->0;
    lemma_bound_exact(operator, timestamp, hour);
    lemma_bound_exact(swapped, timestamp, hour);
    lemma_one_filter(straight, hour);
    lemma_one_filter(turned, hour);
    intersection_holds_common_hours(every_hour(), bound_of(operator, timestamp), hour);
    intersection_holds_common_hours(every_hour(), bound_of(swapped, timestamp), hour);
    if hour_relates(hour, swapped, number) {
        let time = choose|time: u64|
            hour <= time < hour + NANOS_PER_HOUR && #[trigger] numbers_relate(
                time as int,
                swapped,
                number,
            );
        assert(numbers_relate(number, operator, time as int));
    }
    if exists|time: u64|
        hour <= time < hour + NANOS_PER_HOUR && #[trigger] numbers_relate(
            number,
            operator,
            time as int,
        ) {
        let time = choose|time: u64|
            hour <= time < hour + NANOS_PER_HOUR && #[trigger] numbers_relate(
                number,
                operator,
                time as int,
            );
        assert(numbers_relate(time as int, swapped, number));
    }
}

/// The window of one filter.
proof fn lemma_one_filter(filter: Expr, hour: u64)
    ensures
        holds_hour(window_of(seq![filter]), hour) <==> match narrowed(filter, every_hour()) {
            Some(bound) => holds_hour(bound, hour),
            None => true,
        },
{
    let filters = seq![filter];
    assert(filters.drop_last() =~= Seq::empty());
    assert(filters.last() == filter);
    assert(window_of(filters.drop_last()) == every_hour());
    if narrowed(filter, every_hour()) is Some {
        intersection_holds_common_hours(every_hour(), narrowed(filter, every_hour())->0, hour);
    }
}

/// A range of the event time prunes as its two comparisons do.
pub proof fn ranges_prune_as_two_comparisons(
    name: String,
    low: Literal,
    high: Literal,
    hour: u64,
)
    requires
        name@ == COLUMN_EVENT_TIME_UNIX_NANO@,
        meaning(Expr::Literal(low), Map::empty()) is Some,
        meaning(Expr::Literal(low), Map::empty())->0 >= 0,
        meaning(Expr::Literal(high), Map::empty()) is Some,
        meaning(Expr::Literal(high), Map::empty())->0 >= 0,
        hour % NANOS_PER_HOUR == 0,
    ensures
        holds_hour(
            window_of(
                seq![
                    Expr::Between {
                        negated: false,
                        expr: Box::new(Expr::Column(name)),
                        low: Box::new(Expr::Literal(low)),
                        high: Box::new(Expr::Literal(high)),
                    },
                ],
            ),
            hour,
        ) <==> hour_relates(
            hour,
            Operator::GtEq,
            meaning(Expr::Literal(low), Map::empty())->0,
        ) && hour_relates(hour, Operator::LtEq, meaning(Expr::Literal(high), Map::empty())->0),
{
    let first = timestamp_of(Expr::Literal(low))->0;
    let last = timestamp_of(Expr::Literal(high))->0;
    let lower = bound_of(Operator::GtEq, first);
    let upper = bound_of(Operator::LtEq, last);
    lemma_one_filter(
        Expr::Between {
            negated: false,
            expr: Box::new(Expr::Column(name)),
            low: Box::new(Expr::Literal(low)),
            high: Box::new(Expr::Literal(high)),
        },
        hour,
    );
    lemma_bound_exact(Operator::GtEq, first, hour);
    lemma_bound_exact(Operator::LtEq, last, hour);
    intersection_holds_common_hours(every_hour(), lower, hour);
    intersection_holds_common_hours(intersection(every_hour(), lower), upper, hour);
}

/// Filters prune together what they prune one by one.
pub proof fn filters_prune_together(filters: Seq<Expr>, hour: u64)
    ensures
        holds_hour(window_of(filters), hour) <==> forall|i: int|
            0 <= i < filters.len() ==> holds_hour(window_of(seq![#[trigger] filters[i]]), hour),
    decreases filters.len(),
{
    if filters.len() > 0 {
        let front = filters.drop_last();
        let last = filters[filters.len() - 1];
        filters_prune_together(front, hour);
        lemma_one_filter(last, hour);
        if narrowed(last, every_hour()) is Some {
            intersection_holds_common_hours(
                window_of(front),
                narrowed(last, every_hour())->0,
                hour,
            );
        }
        assert(forall|i: int| 0 <= i < front.len() ==> #[trigger] front[i] == filters[i]);
        if holds_hour(window_of(filters), hour) {
            assert forall|i: int| 0 <= i < filters.len() implies holds_hour(
                window_of(seq![#[trigger] filters[i]]),
                hour,
            ) by {
                if i < front.len() {
                    assert(holds_hour(window_of(seq![front[i]]), hour));
                }
            }
        }
        if forall|i: int|
            0 <= i < filters.len() ==> holds_hour(window_of(seq![#[trigger] filters[i]]), hour) {
            assert forall|i: int| 0 <= i < front.len() implies holds_hour(
                window_of(seq![#[trigger] front[i]]),
                hour,
            ) by {
                assert(holds_hour(window_of(seq![filters[i]]), hour));
            }
            assert(holds_hour(window_of(seq![filters[filters.len() - 1]]), hour));
        }
    }
}

proof fn lemma_narrowed_by(expr: Expr, window: WindowView, hour: u64)
    ensures
        narrowed(expr, window) is Some <==> narrowed(expr, every_hour()) is Some,
        narrowed(expr, window) is Some ==> (holds_hour(narrowed(expr, window)->0, hour)
            <==> holds_hour(window, hour) && holds_hour(narrowed(expr, every_hour())->0, hour)),
    decreases expr,
{
    match expr {
        Expr::Binary(left, Operator::And, right) => {
            lemma_narrowed_by(*left, window, hour);
            if narrowed(*left, window) is Some {
                lemma_narrowed_by(*right, narrowed(*left, window)->0, hour);
                lemma_narrowed_by(*right, narrowed(*left, every_hour())->0, hour);
            }
        },
        Expr::Binary(left, operator, right) => {
            if comparison_of(*left, operator, *right) is Some {
                let comparison = comparison_of(*left, operator, *right)->0;
                let bound = bound_of(comparison.0, comparison.1);
                intersection_holds_common_hours(window, bound, hour);
                intersection_holds_common_hours(every_hour(), bound, hour);
            }
        },
        Expr::Between { negated, expr, low, high } => {
            if timestamp_of(*low) is Some && timestamp_of(*high) is Some {
                let lower = bound_of(Operator::GtEq, timestamp_of(*low)->0);
                let upper = bound_of(Operator::LtEq, timestamp_of(*high)->0);
                intersection_holds_common_hours(window, lower, hour);
                intersection_holds_common_hours(intersection(window, lower), upper, hour);
                intersection_holds_common_hours(every_hour(), lower, hour);
                intersection_holds_common_hours(intersection(every_hour(), lower), upper, hour);
            }
        },
        _ => {},
    }
}

/// A conjunction of predicates that each bound the event time alone prunes what both sides prune.
pub proof fn conjunctions_prune_both_ways(left: Expr, right: Expr, hour: u64)
    requires
        narrowed(left, every_hour()) is Some,
        narrowed(right, every_hour()) is Some,
    ensures
        holds_hour(
            window_of(seq![Expr::Binary(Box::new(left), Operator::And, Box::new(right))]),
            hour,
        ) <==> holds_hour(window_of(seq![left]), hour) && holds_hour(
            window_of(seq![right]),
            hour,
        ),
{
    lemma_one_filter(Expr::Binary(Box::new(left), Operator::And, Box::new(right)), hour);
    lemma_one_filter(left, hour);
    lemma_one_filter(right, hour);
    lemma_narrowed_by(right, narrowed(left, every_hour())->0, hour);
}

} // verus!
