//! Conditions under which a run stops.
use std::sync::atomic::{AtomicBool, AtomicU64, AtomicUsize, Ordering};
use std::sync::Arc;
use std::time::{Duration, Instant};

use vstd::prelude::*;

use crate::optimizer::data_loader::DataId;
use crate::optimizer::state::{GEPAState, BEFORE_FIRST_ITERATION};
use crate::score::{greatest, lowest, top_score, Score, ScoreArithmetic};
use crate::text::{decimal, decimal_text};

verus! {

/// A condition that is looked at before every iteration.
pub trait StopCondition<Id: DataId>: Send + Sync {
    /// Whether the condition may answer `b` for `state`.
    open spec fn may_say(&self, state: GEPAState<Id>, b: bool) -> bool {
        true
    }

    /// Whether `text` describes the condition.
    open spec fn reads(&self, text: Seq<char>) -> bool {
        true
    }

    /// Whether the run is to stop.
    fn should_stop(&self, state: &GEPAState<Id>) -> (b: bool)
        requires
            state.maps_wf(),
            state.aligned(),
        ensures
            self.may_say(*state, b),
    ;

    /// A description for logs.
    fn description(&self) -> (text: String)
        ensures
            self.reads(text@),
    ;
}

/// Stops once a number of examples was evaluated.
#[derive(Debug, Clone, Copy)]
pub struct MaxMetricCallsStopper {
    /// The number of examples.
    pub max_calls: usize,
}

impl MaxMetricCallsStopper {
    /// A condition with a budget.
    pub fn new(max_calls: usize) -> (s: Self)
        ensures
            s.max_calls == max_calls,
    {
        MaxMetricCallsStopper { max_calls }
    }
}

impl<Id: DataId> StopCondition<Id> for MaxMetricCallsStopper {
    open spec fn may_say(&self, state: GEPAState<Id>, b: bool) -> bool {
        b == (state.total_num_evals >= self.max_calls)
    }

    open spec fn reads(&self, text: Seq<char>) -> bool {
        text == "MaxMetricCalls("@ + decimal_text(self.max_calls as nat) + ")"@
    }

    fn should_stop(&self, state: &GEPAState<Id>) -> (b: bool) {
        state.total_num_evals >= self.max_calls
    }

    fn description(&self) -> (text: String) {
        let mut text = "MaxMetricCalls(".to_owned();
        text.append(decimal(self.max_calls as u64).as_str());
        text.append(")");
        text
    }
}

/// Stops once a number of iterations was made.
#[derive(Debug, Clone, Copy)]
pub struct MaxIterationsStopper {
    /// The number of iterations.
    pub max_iterations: usize,
}

impl MaxIterationsStopper {
    /// A condition with a budget.
    pub fn new(max_iterations: usize) -> (s: Self)
        ensures
            s.max_iterations == max_iterations,
    {
        MaxIterationsStopper { max_iterations }
    }
}

impl<Id: DataId> StopCondition<Id> for MaxIterationsStopper {
    open spec fn may_say(&self, state: GEPAState<Id>, b: bool) -> bool {
        b == (state.i != BEFORE_FIRST_ITERATION && state.i >= self.max_iterations)
    }

    open spec fn reads(&self, text: Seq<char>) -> bool {
        text == "MaxIterations("@ + decimal_text(self.max_iterations as nat) + ")"@
    }

    fn should_stop(&self, state: &GEPAState<Id>) -> (b: bool) {
        state.i != BEFORE_FIRST_ITERATION && state.i >= self.max_iterations
    }

    fn description(&self) -> (text: String) {
        let mut text = "MaxIterations(".to_owned();
        text.append(decimal(self.max_iterations as u64).as_str());
        text.append(")");
        text
    }
}

/// `std::time::Instant`, a point in time.
#[verifier::external_type_specification]
#[verifier::external_body]
pub struct ExInstant(Instant);

/// A length of time.
#[derive(Debug, Clone, Copy, PartialEq, Eq, Structural)]
pub struct Span {
    /// Whole seconds.
    pub secs: u64,
    /// Nanoseconds beyond them, below one second.
    pub nanos: u32,
}

/// Nanoseconds in a second.
pub const NANOS_PER_SEC: u32 = 1_000_000_000;

impl Span {
    /// The nanoseconds are less than a second.
    pub open spec fn wf(self) -> bool {
        self.nanos < NANOS_PER_SEC
    }

    /// The length in nanoseconds.
    pub open spec fn total(self) -> int {
        self.secs * NANOS_PER_SEC + self.nanos
    }

    /// Whether this is at least as long as `other`.
    pub fn reaches(&self, other: &Span) -> (b: bool)
        requires
            self.wf(),
            other.wf(),
        ensures
            b == (self.total() >= other.total()),
    {
        self.secs > other.secs || (self.secs == other.secs && self.nanos >= other.nanos)
    }

    /// What is left of this after `other`, if `other` is not longer.
    pub fn minus(&self, other: &Span) -> (r: Option<Span>)
        requires
            self.wf(),
            other.wf(),
        ensures
            match r {
                Some(left) => left.wf() && left.total() == self.total() - other.total(),
                None => self.total() < other.total(),
            },
    {
        if !self.reaches(other) {
            return None;
        }
        if self.nanos >= other.nanos {
            Some(Span { secs: self.secs - other.secs, nanos: self.nanos - other.nanos })
        } else {
            Some(
                Span {
                    secs: self.secs - other.secs - 1,
                    nanos: self.nanos + (NANOS_PER_SEC - other.nanos),
                },
            )
        }
    }
}

/// `Instant::now`. Nothing is claimed of the time.
#[verifier::external_body]
fn now() -> Instant {
    Instant::now()
}

/// `Instant::elapsed`, taken apart into whole seconds and the nanoseconds
/// beyond them, which are less than a second.
#[verifier::external_body]
fn elapsed(start: &Instant) -> (t: Span)
    ensures
        t.wf(),
{
    let d = start.elapsed();
    Span { secs: d.as_secs(), nanos: d.subsec_nanos() }
}

/// A length of time in seconds, with one digit behind the point.
pub uninterp spec fn seconds_text(secs: u64, nanos: u32) -> Seq<char>;

/// `Duration::as_secs_f64`, written with one digit behind the point.
#[verifier::external_body]
fn write_seconds(t: &Span) -> (text: String)
    requires
        t.wf(),
    ensures
        text@ == seconds_text(t.secs, t.nanos),
{
    format!("{:.1}", Duration::new(t.secs, t.nanos).as_secs_f64())
}

/// Stops once some time has passed since it was made.
#[derive(Debug)]
pub struct TimeoutStopper {
    start: Instant,
    duration: Span,
}

impl TimeoutStopper {
    /// The time after which this stops.
    pub closed spec fn limit(&self) -> Span {
        self.duration
    }

    /// Whether `t` is what the clock gave as the time since the start.
    pub closed spec fn clocked(&self, t: Span) -> bool {
        call_ensures(elapsed, (&self.start,), t)
    }

    /// The limit is valid.
    #[verifier::type_invariant]
    spec fn limit_is_valid(&self) -> bool {
        self.duration.wf()
    }

    /// A condition with a limit. The time starts to run now.
    pub fn new(duration: Span) -> (s: Self)
        requires
            duration.wf(),
        ensures
            s.limit() == duration,
    {
        TimeoutStopper { start: now(), duration }
    }

    /// Whether the limit was reached after `elapsed`.
    pub fn expired_after(&self, elapsed: &Span) -> (b: bool)
        requires
            elapsed.wf(),
        ensures
            b == (elapsed.total() >= self.limit().total()),
    {
        proof {
            use_type_invariant(self);
        }
        elapsed.reaches(&self.duration)
    }

    /// The time that is left after `elapsed`; nothing once it is longer than the
    /// limit.
    pub fn remaining_after(&self, elapsed: &Span) -> (r: Option<Span>)
        requires
            elapsed.wf(),
        ensures
            match r {
                Some(left) => left.wf() && left.total() == self.limit().total() - elapsed.total(),
                None => self.limit().total() < elapsed.total(),
            },
    {
        proof {
            use_type_invariant(self);
        }
        self.duration.minus(elapsed)
    }

    /// The time that is left: the limit less the time that the clock gives;
    /// nothing where that is longer than the limit.
    pub fn remaining(&self) -> (r: Option<Span>)
        ensures
            exists|t: Span| #[trigger]
                self.clocked(t) && t.wf() && match r {
                    Some(left) => left.wf() && left.total() == self.limit().total() - t.total(),
                    None => self.limit().total() < t.total(),
                },
            r matches Some(left) ==> left.wf() && left.total() <= self.limit().total(),
    {
        let t = elapsed(&self.start);
        assert(self.clocked(t));
        self.remaining_after(&t)
    }
}

impl<Id: DataId> StopCondition<Id> for TimeoutStopper {
    /// Whether the time that the clock gave reaches the limit.
    open spec fn may_say(&self, state: GEPAState<Id>, b: bool) -> bool {
        &&& exists|t: Span| #[trigger]
            self.clocked(t) && t.wf() && b == (t.total() >= self.limit().total())
        &&& self.limit().total() == 0 ==> b
    }

    open spec fn reads(&self, text: Seq<char>) -> bool {
        text == "Timeout("@ + seconds_text(self.limit().secs, self.limit().nanos) + "s)"@
    }

    fn should_stop(&self, state: &GEPAState<Id>) -> (b: bool) {
        let t = elapsed(&self.start);
        assert(self.clocked(t));
        self.expired_after(&t)
    }

    fn description(&self) -> (text: String) {
        proof {
            use_type_invariant(self);
        }
        let mut text = "Timeout(".to_owned();
        text.append(write_seconds(&self.duration).as_str());
        text.append("s)");
        text
    }
}

/// How the conditions of a [`CompositeStopper`] are combined.
#[derive(Debug, Clone, Copy, PartialEq, Eq, Structural)]
pub enum CompositeMode {
    /// Stop once any condition says so.
    Any,
    /// Stop once all conditions say so.
    All,
}

/// Several conditions as one. Conditions of different types are combined as
/// variants of one type, such as [`Stopper`].
pub struct CompositeStopper<C> {
    /// The conditions.
    pub conditions: Vec<C>,
    /// How they are combined.
    pub mode: CompositeMode,
}

impl<C> CompositeStopper<C> {
    /// No conditions yet.
    pub fn new(mode: CompositeMode) -> (s: Self)
        ensures
            s.conditions@.len() == 0,
            s.mode == mode,
    {
        CompositeStopper { conditions: Vec::new(), mode }
    }

    /// Stops once any condition says so.
    pub fn any() -> (s: Self)
        ensures
            s.conditions@.len() == 0,
            s.mode == CompositeMode::Any,
    {
        Self::new(CompositeMode::Any)
    }

    /// Stops once all conditions say so.
    pub fn all() -> (s: Self)
        ensures
            s.conditions@.len() == 0,
            s.mode == CompositeMode::All,
    {
        Self::new(CompositeMode::All)
    }

    /// This with one more condition.
    pub fn push_condition(self, condition: C) -> (s: Self)
        ensures
            s.mode == self.mode,
            s.conditions@ == self.conditions@.push(condition),
    {
        let mut s = self;
        s.conditions.push(condition);
        s
    }

    /// Whether each of the first `n` conditions may answer `b`.
    pub open spec fn all_may_say<Id: DataId>(&self, state: GEPAState<Id>, b: bool, n: int) -> bool where
        C: StopCondition<Id>,
     {
        forall|i: int| 0 <= i < n ==> (#[trigger] self.conditions@[i]).may_say(state, b)
    }

    /// Whether some condition may answer `b`, and those before it the opposite.
    pub open spec fn one_may_say<Id: DataId>(&self, state: GEPAState<Id>, b: bool) -> bool where
        C: StopCondition<Id>,
     {
        exists|i: int|
            0 <= i < self.conditions@.len() && (#[trigger] self.conditions@[i]).may_say(state, b)
                && self.all_may_say(state, !b, i)
    }
}

/// The texts with `, ` between them.
pub open spec fn comma_joined(parts: Seq<Seq<char>>, n: int) -> Seq<char>
    decreases n,
{
    if n <= 0 {
        Seq::empty()
    } else if n == 1 {
        parts[0]
    } else {
        comma_joined(parts, n - 1) + ", "@ + parts[n - 1]
    }
}

/// The texts with `, ` between them do not depend on texts behind them.
proof fn lemma_comma_joined_prefix(parts: Seq<Seq<char>>, more: Seq<Seq<char>>, n: int)
    requires
        n <= parts.len() <= more.len(),
        forall|i: int| 0 <= i < n ==> parts[i] == more[i],
    ensures
        comma_joined(parts, n) == comma_joined(more, n),
    decreases n,
{
    if n > 1 {
        lemma_comma_joined_prefix(parts, more, n - 1);
    }
}

impl<Id: DataId, C: StopCondition<Id>> StopCondition<Id> for CompositeStopper<C> {
    open spec fn may_say(&self, state: GEPAState<Id>, b: bool) -> bool {
        let n = self.conditions@.len() as int;
        match self.mode {
            CompositeMode::Any => if b {
                self.one_may_say(state, true)
            } else {
                self.all_may_say(state, false, n)
            },
            CompositeMode::All => if b {
                self.all_may_say(state, true, n)
            } else {
                self.one_may_say(state, false)
            },
        }
    }

    open spec fn reads(&self, text: Seq<char>) -> bool {
        exists|parts: Seq<Seq<char>>|
            {
                &&& parts.len() == self.conditions@.len()
                &&& forall|i: int|
                    0 <= i < parts.len() ==> (#[trigger] self.conditions@[i]).reads(parts[i])
                &&& text == match self.mode {
                    CompositeMode::Any => "Any("@,
                    CompositeMode::All => "All("@,
                } + #[trigger] comma_joined(parts, parts.len() as int) + ")"@
            }
    }

    fn should_stop(&self, state: &GEPAState<Id>) -> (b: bool) {
        let sought = self.mode == CompositeMode::Any;
        let mut i: usize = 0;
        while i < self.conditions.len()
            invariant
                state.maps_wf(),
                state.aligned(),
                sought == (self.mode == CompositeMode::Any),
                i <= self.conditions@.len(),
                self.all_may_say(*state, !sought, i as int),
            decreases self.conditions@.len() - i,
        {
            let b = self.conditions[i].should_stop(state);
            assert(self.conditions@[i as int].may_say(*state, b));
            if b == sought {
                assert(self.one_may_say(*state, sought));
                return sought;
            }
            i += 1;
        }
        !sought
    }

    fn description(&self) -> (text: String) {
        let mut text = match self.mode {
            CompositeMode::Any => "Any(".to_owned(),
            CompositeMode::All => "All(".to_owned(),
        };
        let ghost head = text@;
        let ghost mut parts: Seq<Seq<char>> = Seq::empty();
        let mut i: usize = 0;
        assert(text@ =~= head + comma_joined(parts, 0));
        while i < self.conditions.len()
            invariant
                i <= self.conditions@.len(),
                parts.len() == i,
                forall|j: int|
                    0 <= j < i ==> (#[trigger] self.conditions@[j]).reads(parts[j]),
                text@ == head + comma_joined(parts, i as int),
            decreases self.conditions@.len() - i,
        {
            if i > 0 {
                text.append(", ");
            }
            let part = self.conditions[i].description();
            text.append(part.as_str());
            proof {
                let before = parts;
                parts = parts.push(part@);
                assert(self.conditions@[i as int].reads(part@));
                assert forall|j: int| 0 <= j < i + 1 implies (
                #[trigger] self.conditions@[j]).reads(parts[j]) by {
                    if j < i {
                        assert(parts[j] == before[j]);
                    }
                }
                lemma_comma_joined_prefix(before, parts, i as int);
                assert(text@ =~= head + comma_joined(parts, i + 1));
            }
            i += 1;
        }
        text.append(")");
        assert(text@ =~= head + comma_joined(parts, parts.len() as int) + ")"@);
        text
    }
}

/// One condition that can only say stop is enough for a composite of any.
pub proof fn any_stops_with_its_first<Id: DataId, C: StopCondition<Id>>(
    stopper: CompositeStopper<C>,
    state: GEPAState<Id>,
    i: int,
)
    requires
        stopper.mode == CompositeMode::Any,
        0 <= i < stopper.conditions@.len(),
        !stopper.conditions@[i].may_say(state, false),
    ensures
        !stopper.may_say(state, false),
{
}

/// Without conditions a composite of any never stops, and one of all always.
pub proof fn empty_composites<Id: DataId, C: StopCondition<Id>>(
    stopper: CompositeStopper<C>,
    state: GEPAState<Id>,
)
    requires
        stopper.conditions@.len() == 0,
    ensures
        forall|b: bool| #[trigger]
            stopper.may_say(state, b) <==> b == (stopper.mode == CompositeMode::All),
{
}

/// Stops once a file exists. Whether it does is for the caller to find out.
pub struct FileStopper {
    /// The path of the file.
    pub path: String,
}

impl FileStopper {
    /// A condition on the file `path`.
    pub fn new(path: &str) -> (s: Self)
        ensures
            s.path@ == path@,
    {
        FileStopper { path: path.to_owned() }
    }

    /// A description for logs.
    pub fn description(&self) -> (text: String)
        ensures
            text@ == "FileStopper("@ + self.path@ + ")"@,
    {
        let mut text = "FileStopper(".to_owned();
        text.append(self.path.as_str());
        text.append(")");
        text
    }
}

/// Whether `b` is what a read of the flag gave.
pub open spec fn flag_read(flag: AtomicBool, b: bool) -> bool {
    call_ensures(AtomicBool::load, (&flag, Ordering::SeqCst), b)
}

/// Whether `true` was stored in the flag.
pub open spec fn flag_raised(flag: AtomicBool) -> bool {
    call_ensures(AtomicBool::store, (&flag, true, Ordering::SeqCst), ())
}

/// Stops once a flag was set, such as by a signal handler. Other threads may
/// set the flag at any time, so what it holds at a given moment is not known
/// here.
pub struct SignalStopper {
    /// The flag.
    pub flag: Arc<AtomicBool>,
}

impl SignalStopper {
    /// A condition on an existing flag.
    pub fn new(flag: Arc<AtomicBool>) -> (s: Self)
        ensures
            s.flag == flag,
    {
        SignalStopper { flag }
    }

    /// A condition on a new flag, and the flag.
    pub fn with_flag() -> (r: (Self, Arc<AtomicBool>))
        ensures
            r.0.flag == r.1,
            call_ensures(AtomicBool::new, (false,), *r.1),
    {
        let flag = Arc::new(AtomicBool::new(false));
        let stopper = Self::new(flag.clone());
        (stopper, flag)
    }

    /// Set the flag.
    pub fn signal(&self)
        ensures
            flag_raised(*self.flag),
    {
        self.flag.store(true, Ordering::SeqCst);
    }

    /// Whether the flag is set.
    pub fn is_set(&self) -> (b: bool)
        ensures
            flag_read(*self.flag, b),
    {
        self.flag.load(Ordering::SeqCst)
    }
}

impl<Id: DataId> StopCondition<Id> for SignalStopper {
    /// What a read of the flag gave.
    open spec fn may_say(&self, state: GEPAState<Id>, b: bool) -> bool {
        flag_read(*self.flag, b)
    }

    open spec fn reads(&self, text: Seq<char>) -> bool {
        text == "SignalStopper"@
    }

    fn should_stop(&self, state: &GEPAState<Id>) -> (b: bool) {
        self.is_set()
    }

    fn description(&self) -> (text: String) {
        "SignalStopper".to_owned()
    }
}

/// Whether `bits` are what a read of the recorded score gave.
pub open spec fn score_read(recorded: AtomicU64, bits: u64) -> bool {
    call_ensures(AtomicU64::load, (&recorded, Ordering::Relaxed), bits)
}

/// Whether `n` is what a read of the number of iterations gave.
pub open spec fn count_read(count: AtomicUsize, n: usize) -> bool {
    call_ensures(AtomicUsize::load, (&count, Ordering::Relaxed), n)
}

/// Whether `bits` were stored as the recorded score.
pub open spec fn score_stored(recorded: AtomicU64, bits: u64) -> bool {
    call_ensures(AtomicU64::store, (&recorded, bits, Ordering::Relaxed), ())
}

/// Whether `n` was stored as the number of iterations.
pub open spec fn count_stored(count: AtomicUsize, n: usize) -> bool {
    call_ensures(AtomicUsize::store, (&count, n, Ordering::Relaxed), ())
}

/// Whether the number of iterations went up by one from `n`.
pub open spec fn count_raised(count: AtomicUsize, n: usize) -> bool {
    call_ensures(AtomicUsize::fetch_add, (&count, 1usize, Ordering::Relaxed), n)
}

/// Stops once the best mean score has not risen by more than a margin for a
/// number of iterations. What is recorded is shared between threads, so what it
/// holds at a given moment is not known here; [`judge_stagnation`] says what
/// follows from what was read.
pub struct NoImprovementStopper<A: ScoreArithmetic> {
    /// The number of iterations.
    pub patience: usize,
    /// The margin.
    pub min_delta: Score,
    best_score_bits: AtomicU64,
    no_improve_count: AtomicUsize,
    arith: A,
}

impl<A: ScoreArithmetic> NoImprovementStopper<A> {
    /// The number of iterations.
    pub closed spec fn iterations(&self) -> usize {
        self.patience
    }

    /// The margin.
    pub closed spec fn margin(&self) -> Score {
        self.min_delta
    }

    /// The arithmetic.
    pub closed spec fn arithmetic(&self) -> A {
        self.arith
    }

    /// Where the best score is recorded, by its bits.
    pub closed spec fn recorded_score(&self) -> AtomicU64 {
        self.best_score_bits
    }

    /// Where the iterations without improvement are counted.
    pub closed spec fn recorded_count(&self) -> AtomicUsize {
        self.no_improve_count
    }

    /// A condition with a number of iterations and a margin.
    pub fn new(patience: usize, min_delta: Score, arith: A) -> (s: Self)
        ensures
            s.iterations() == patience,
            s.margin() == min_delta,
            s.arithmetic() == arith,
            call_ensures(AtomicU64::new, (lowest().bits,), s.recorded_score()),
            call_ensures(AtomicUsize::new, (0usize,), s.recorded_count()),
    {
        NoImprovementStopper {
            patience,
            min_delta,
            best_score_bits: AtomicU64::new(Score::neg_infinity().bits),
            no_improve_count: AtomicUsize::new(0),
            arith,
        }
    }

    /// The best score that was recorded.
    pub fn current_best(&self) -> (s: Score)
        ensures
            score_read(self.recorded_score(), s.bits),
    {
        Score::from_bits(self.best_score_bits.load(Ordering::Relaxed))
    }

    /// For how many iterations there was no improvement.
    pub fn stagnation_count(&self) -> (n: usize)
        ensures
            count_read(self.recorded_count(), n),
    {
        self.no_improve_count.load(Ordering::Relaxed)
    }
}

/// What an iteration with the best mean score `current` comes to, where
/// `recorded` is the best score so far, `threshold` that plus the margin, and
/// `count` the number of iterations without improvement: the new best score, the
/// new number, and whether to stop.
pub open spec fn judgement(
    patience: usize,
    current: Score,
    recorded: Score,
    threshold: Score,
    count: usize,
) -> (Score, usize, bool) {
    if current.above(threshold) {
        (current, 0, false)
    } else {
        let next = if count < usize::MAX {
            (count + 1) as usize
        } else {
            usize::MAX
        };
        (recorded, next, next >= patience)
    }
}

/// What an iteration comes to: the new best score, the new number of iterations
/// without improvement, and whether to stop.
pub fn judge_stagnation(
    patience: usize,
    current: &Score,
    recorded: &Score,
    threshold: &Score,
    count: usize,
) -> (r: (Score, usize, bool))
    ensures
        r == judgement(patience, *current, *recorded, *threshold, count),
{
    if current.exceeds(threshold) {
        (*current, 0, false)
    } else {
        let next: usize = if count < usize::MAX {
            count + 1
        } else {
            usize::MAX
        };
        (*recorded, next, next >= patience)
    }
}

impl<Id: DataId, A: ScoreArithmetic + Send + Sync> StopCondition<Id> for NoImprovementStopper<A> {
    /// What follows from the recorded score and number: where the best mean
    /// score is above the threshold, it is recorded and the count starts again;
    /// else the count goes up by one.
    open spec fn may_say(&self, state: GEPAState<Id>, b: bool) -> bool {
        let current = top_score(state.mean_scores());
        exists|recorded: Score, threshold: Score, count: usize|
            {
                &&& score_read(self.recorded_score(), recorded.bits)
                &&& #[trigger] call_ensures(
                    A::plus,
                    (&self.arithmetic(), recorded, self.margin()),
                    threshold,
                )
                &&& b == (#[trigger] judgement(
                    self.iterations(),
                    current,
                    recorded,
                    threshold,
                    count,
                )).2
                &&& if current.above(threshold) {
                    &&& score_stored(self.recorded_score(), current.bits)
                    &&& count_stored(self.recorded_count(), 0)
                } else {
                    count_raised(self.recorded_count(), count)
                }
            }
    }

    open spec fn reads(&self, text: Seq<char>) -> bool {
        exists|number: String| #[trigger]
            call_ensures(A::text, (&self.arithmetic(), self.margin()), number) && text
                == "NoImprovementStopper(patience="@ + decimal_text(self.iterations() as nat)
                + ", min_delta="@ + number@ + ")"@
    }

    fn should_stop(&self, state: &GEPAState<Id>) -> (b: bool) {
        let scores = state.program_full_scores_val_set();
        let current = greatest(&scores);
        let recorded = self.current_best();
        let threshold = self.arith.plus(recorded, self.min_delta);
        let count: usize = if current.exceeds(&threshold) {
            0
        } else {
            self.no_improve_count.fetch_add(1, Ordering::Relaxed)
        };
        let (best, next, stop) = judge_stagnation(
            self.patience,
            &current,
            &recorded,
            &threshold,
            count,
        );
        if current.exceeds(&threshold) {
            self.best_score_bits.store(best.bits, Ordering::Relaxed);
            self.no_improve_count.store(next, Ordering::Relaxed);
        }
        proof {
            assert(call_ensures(
                A::plus,
                (&self.arithmetic(), recorded, self.margin()),
                threshold,
            ));
            assert(stop == judgement(
                self.iterations(),
                top_score(state.mean_scores()),
                recorded,
                threshold,
                count,
            ).2);
        }
        stop
    }

    fn description(&self) -> (text: String) {
        let mut text = "NoImprovementStopper(patience=".to_owned();
        text.append(decimal(self.patience as u64).as_str());
        text.append(", min_delta=");
        let number = self.arith.text(self.min_delta);
        text.append(number.as_str());
        text.append(")");
        assert(call_ensures(A::text, (&self.arithmetic(), self.margin()), number));
        text
    }
}

/// One of the conditions of this module.
pub enum Stopper<A: ScoreArithmetic> {
    /// A number of examples.
    MaxMetricCalls(MaxMetricCallsStopper),
    /// A number of iterations.
    MaxIterations(MaxIterationsStopper),
    /// A length of time.
    Timeout(TimeoutStopper),
    /// A flag.
    Signal(SignalStopper),
    /// No improvement.
    NoImprovement(NoImprovementStopper<A>),
}

impl<Id: DataId, A: ScoreArithmetic + Send + Sync> StopCondition<Id> for Stopper<A> {
    open spec fn may_say(&self, state: GEPAState<Id>, b: bool) -> bool {
        match *self {
            Stopper::MaxMetricCalls(s) => s.may_say(state, b),
            Stopper::MaxIterations(s) => s.may_say(state, b),
            Stopper::Timeout(s) => <TimeoutStopper as StopCondition<Id>>::may_say(&s, state, b),
            Stopper::Signal(s) => <SignalStopper as StopCondition<Id>>::may_say(&s, state, b),
            Stopper::NoImprovement(s) => <NoImprovementStopper<A> as StopCondition<Id>>::may_say(
                &s,
                state,
                b,
            ),
        }
    }

    open spec fn reads(&self, text: Seq<char>) -> bool {
        match *self {
            Stopper::MaxMetricCalls(s) => <MaxMetricCallsStopper as StopCondition<Id>>::reads(
                &s,
                text,
            ),
            Stopper::MaxIterations(s) => <MaxIterationsStopper as StopCondition<Id>>::reads(
                &s,
                text,
            ),
            Stopper::Timeout(s) => <TimeoutStopper as StopCondition<Id>>::reads(&s, text),
            Stopper::Signal(s) => <SignalStopper as StopCondition<Id>>::reads(&s, text),
            Stopper::NoImprovement(s) => <NoImprovementStopper<A> as StopCondition<Id>>::reads(
                &s,
                text,
            ),
        }
    }

    fn should_stop(&self, state: &GEPAState<Id>) -> (b: bool) {
        match self {
            Stopper::MaxMetricCalls(s) => s.should_stop(state),
            Stopper::MaxIterations(s) => s.should_stop(state),
            Stopper::Timeout(s) => s.should_stop(state),
            Stopper::Signal(s) => s.should_stop(state),
            Stopper::NoImprovement(s) => s.should_stop(state),
        }
    }

    fn description(&self) -> (text: String) {
        match self {
            Stopper::MaxMetricCalls(s) => <MaxMetricCallsStopper as StopCondition<Id>>::description(
                s,
            ),
            Stopper::MaxIterations(s) => <MaxIterationsStopper as StopCondition<Id>>::description(s),
            Stopper::Timeout(s) => <TimeoutStopper as StopCondition<Id>>::description(s),
            Stopper::Signal(s) => <SignalStopper as StopCondition<Id>>::description(s),
            Stopper::NoImprovement(s) => <NoImprovementStopper<
                A,
            > as StopCondition<Id>>::description(s),
        }
    }
}

/// Once so many examples were evaluated that a run is to stop, it is to stop
/// however many more are evaluated.
pub proof fn a_spent_budget_stays_spent<Id: DataId>(
    stopper: MaxMetricCallsStopper,
    before: GEPAState<Id>,
    after: GEPAState<Id>,
)
    requires
        stopper.may_say(before, true),
        before.total_num_evals <= after.total_num_evals,
    ensures
        forall|b: bool| #[trigger] stopper.may_say(after, b) ==> b,
{
}

/// After `n` iterations without improvement, beginning with a count of `start`:
/// the count, and whether the last of them was to stop the run.
pub open spec fn stagnation(
    patience: usize,
    currents: Seq<Score>,
    recorded: Score,
    threshold: Score,
    start: usize,
    n: int,
) -> (Score, usize, bool)
    decreases n,
{
    if n <= 0 {
        (recorded, start, false)
    } else {
        let (best, count, _) = stagnation(
            patience,
            currents,
            recorded,
            threshold,
            start,
            n - 1,
        );
        judgement(patience, currents[n - 1], best, threshold, count)
    }
}

/// While no score rises above the threshold, the run is to stop just when there
/// were as many such iterations as the patience allows.
pub proof fn patience_runs_out(
    patience: usize,
    currents: Seq<Score>,
    recorded: Score,
    threshold: Score,
    n: int,
)
    requires
        1 <= n <= currents.len(),
        n < usize::MAX,
        forall|i: int| 0 <= i < n ==> !(#[trigger] currents[i]).above(threshold),
    ensures
        stagnation(patience, currents, recorded, threshold, 0, n) == (
            recorded,
            n as usize,
            n >= patience,
        ),
    decreases n,
{
    if n > 1 {
        patience_runs_out(patience, currents, recorded, threshold, n - 1);
    } else {
        assert(stagnation(patience, currents, recorded, threshold, 0, 0) == (
            recorded,
            0usize,
            false,
        ));
    }
    assert(!currents[n - 1].above(threshold));
}

/// A score above the threshold is recorded, starts the count again and never
/// stops the run; any other leaves the record, raises the count by one and stops
/// the run just where the count reaches the patience.
pub proof fn judgement_goes_by_the_record(
    patience: usize,
    current: Score,
    recorded: Score,
    threshold: Score,
    count: usize,
)
    requires
        count < usize::MAX,
    ensures
        current.above(threshold) ==> judgement(patience, current, recorded, threshold, count) == (
            current,
            0usize,
            false,
        ),
        !current.above(threshold) ==> judgement(patience, current, recorded, threshold, count) == (
            recorded,
            (count + 1) as usize,
            count + 1 >= patience,
        ),
{
}

/// Where a run is to stop for want of improvement, its best mean score is not
/// above the recorded one plus the margin, and the count that was raised reaches
/// the patience.
pub proof fn a_stop_follows_from_the_record<Id: DataId, A: ScoreArithmetic + Send + Sync>(
    stopper: NoImprovementStopper<A>,
    state: GEPAState<Id>,
)
    requires
        <NoImprovementStopper<A> as StopCondition<Id>>::may_say(&stopper, state, true),
    ensures
        exists|recorded: Score, threshold: Score, count: usize|
            {
                &&& score_read(stopper.recorded_score(), recorded.bits)
                &&& #[trigger] call_ensures(
                    A::plus,
                    (&stopper.arithmetic(), recorded, stopper.margin()),
                    threshold,
                )
                &&& !top_score(state.mean_scores()).above(threshold)
                &&& #[trigger] count_raised(stopper.recorded_count(), count)
                &&& count + 1 >= stopper.iterations()
            },
{
    let current = top_score(state.mean_scores());
    let (recorded, threshold, count) = choose|recorded: Score, threshold: Score, count: usize|
        {
            &&& score_read(stopper.recorded_score(), recorded.bits)
            &&& #[trigger] call_ensures(
                A::plus,
                (&stopper.arithmetic(), recorded, stopper.margin()),
                threshold,
            )
            &&& (#[trigger] judgement(
                stopper.iterations(),
                current,
                recorded,
                threshold,
                count,
            )).2
            &&& if current.above(threshold) {
                &&& score_stored(stopper.recorded_score(), current.bits)
                &&& count_stored(stopper.recorded_count(), 0)
            } else {
                count_raised(stopper.recorded_count(), count)
            }
        };
    assert(!current.above(threshold));
    assert(count_raised(stopper.recorded_count(), count));
    assert(count + 1 >= stopper.iterations());
}

} // verus!
