use vstd::prelude::*;
use crate::randomness::random_millis;

verus! {

/// The address family of one lookup: each domain is resolved once for
/// IPv4 addresses and once for IPv6 addresses.
#[derive(Debug, Clone, Copy, PartialEq, Eq, Structural)]
pub enum Family {
    V4,
    V6,
}

/// How a lookup ended, as far as the benchmark cares.
#[derive(Debug, Clone, Copy, PartialEq, Eq, Structural)]
pub enum QueryOutcome {
    /// The server answered with records.
    Answered,
    /// The server answered that there are no records.
    NoRecords,
    /// No answer came in time.
    Timeout,
    /// Any other error.
    Failed,
}

/// The time charged for a lookup that timed out, in milliseconds.
pub const TIMEOUT_MILLIS: u128 = 10_000;
/// The time charged for a lookup that failed otherwise, in milliseconds.
pub const FAILURE_MILLIS: u128 = 20_000;
/// Before its first lookup a server waits a random time below this many milliseconds.
pub const START_DELAY_LIMIT_MILLIS: u64 = 5_000;
/// After both lookups of a domain a server waits at least this many milliseconds...
pub const PAUSE_MIN_MILLIS: u64 = 10;
/// ...and less than this many.
pub const PAUSE_LIMIT_MILLIS: u64 = 30;

/// The milliseconds recorded for a lookup with the given outcome that took
/// `elapsed` milliseconds.
pub open spec fn recorded_millis(outcome: QueryOutcome, elapsed: u128) -> u128 {
    match outcome {
        QueryOutcome::Answered => elapsed,
        QueryOutcome::NoRecords => elapsed,
        QueryOutcome::Timeout => TIMEOUT_MILLIS,
        QueryOutcome::Failed => FAILURE_MILLIS,
    }
}

/// An answered lookup, with or without records, counts with exactly its
/// measured time; a timeout counts ten seconds and any other failure twenty,
/// whatever time they took.
pub proof fn lemma_recorded_times(elapsed: u128)
    ensures
        recorded_millis(QueryOutcome::Answered, elapsed) == elapsed,
        recorded_millis(QueryOutcome::NoRecords, elapsed) == elapsed,
        recorded_millis(QueryOutcome::Timeout, elapsed) == 10_000,
        recorded_millis(QueryOutcome::Failed, elapsed) == 20_000,
{
}

/// Two lookups that are both answered (with or without records) are
/// recorded in the order of their measured times.
pub proof fn lemma_answered_times_keep_order(a: QueryOutcome, b: QueryOutcome, ta: u128, tb: u128)
    requires
        a == QueryOutcome::Answered || a == QueryOutcome::NoRecords,
        b == QueryOutcome::Answered || b == QueryOutcome::NoRecords,
        ta <= tb,
    ensures
        recorded_millis(a, ta) <= recorded_millis(b, tb),
        recorded_millis(a, ta) == ta,
{
}

/// Records the result of one lookup: the measured time for an answer (also an
/// answer without records), a fixed time for a timeout or another failure.
/// Returns whether the failure is to be reported to the user (other failures only).
pub fn process_result(durations: &mut Vec<u128>, outcome: QueryOutcome, elapsed_millis: u128) -> (report: bool)
    ensures
        final(durations)@ == old(durations)@.push(recorded_millis(outcome, elapsed_millis)),
        report == (outcome == QueryOutcome::Failed),
{
    match outcome {
        QueryOutcome::Answered => {
            durations.push(elapsed_millis);
            false
        },
        QueryOutcome::NoRecords => {
            durations.push(elapsed_millis);
            false
        },
        QueryOutcome::Timeout => {
            durations.push(TIMEOUT_MILLIS);
            false
        },
        QueryOutcome::Failed => {
            durations.push(FAILURE_MILLIS);
            true
        },
    }
}

/// Where a server is in its run.
#[derive(Debug, Clone, Copy, PartialEq, Eq, Structural)]
pub enum Stage {
    /// Nothing has happened yet.
    Ready,
    /// Waiting out the random delay before the first lookup.
    Warming,
    /// Waiting for the lookup of domain `index` in the given family.
    Querying { index: usize, family: Family },
    /// Both lookups of domain `index` are done; waiting out the pause after it.
    Pausing { index: usize },
    /// All domains are done.
    Finished,
}

/// What the caller tells a run: that it may start, that the requested sleep is
/// over, or how the requested lookup ended and how long it took (milliseconds).
#[derive(Debug, Clone, Copy, PartialEq, Eq)]
pub enum Event {
    Start,
    Slept,
    Resolved(QueryOutcome, u128),
}

/// What a run asks the caller to do next.
#[derive(Debug)]
pub enum Action {
    /// Sleep this many milliseconds, then send `Event::Slept`.
    Sleep(u64),
    /// Look the domain up in the family, then send `Event::Resolved`.
    Resolve(String, Family),
    /// The run is over.
    Done,
}

/// The answer to one event: the next action, whether the lookup that just
/// ended is to be reported as a failure, and whether a domain was just completed
/// (both of its lookups and the pause after them).
#[derive(Debug)]
pub struct Decision {
    pub action: Action,
    pub report_failure: bool,
    pub domain_completed: bool,
}

/// The benchmark of one server: the domains it queries, in order, and the
/// milliseconds recorded so far, two per domain (IPv4 first, then IPv6).
#[derive(Debug)]
pub struct ServerRun {
    domains: Vec<String>,
    durations: Vec<u128>,
    stage: Stage,
}

/// The mathematical state of a run.
pub struct RunView {
    pub domains: Seq<Seq<char>>,
    pub durations: Seq<u128>,
    pub stage: Stage,
}

impl View for ServerRun {
    type V = RunView;

    closed spec fn view(&self) -> RunView {
        RunView { domains: self.domains.deep_view(), durations: self.durations@, stage: self.stage }
    }
}

impl RunView {
    /// How many durations are recorded at each stage: two per completed domain,
    /// one more while the IPv6 lookup of a domain is pending.
    pub open spec fn wf(self) -> bool {
        let n: nat = self.domains.len();
        &&& n <= usize::MAX
        &&& match self.stage {
            Stage::Ready => self.durations.len() == 0,
            Stage::Warming => self.durations.len() == 0,
            Stage::Querying { index, family } => {
                &&& index < n
                &&& self.durations.len() == 2 * index + if family == Family::V4 { 0int } else { 1int }
            },
            Stage::Pausing { index } => index < n && self.durations.len() == 2 * index + 2,
            Stage::Finished => self.durations.len() == 2 * n,
        }
    }

    /// Whether the run expects this event now.
    pub open spec fn accepts(self, event: Event) -> bool {
        match self.stage {
            Stage::Ready => event == Event::Start,
            Stage::Warming => event == Event::Slept,
            Stage::Querying { .. } => event is Resolved,
            Stage::Pausing { .. } => event == Event::Slept,
            Stage::Finished => true,
        }
    }

    /// The stage that comes first for the domain at `index`, or the end.
    pub open spec fn stage_from(self, index: int) -> Stage {
        if index < self.domains.len() {
            Stage::Querying { index: index as usize, family: Family::V4 }
        } else {
            Stage::Finished
        }
    }

    /// The state after an accepted event.
    pub open spec fn advance(self, event: Event) -> RunView {
        match (self.stage, event) {
            (Stage::Ready, Event::Start) => RunView { stage: Stage::Warming, ..self },
            (Stage::Warming, Event::Slept) => RunView { stage: self.stage_from(0), ..self },
            (Stage::Querying { index, family }, Event::Resolved(outcome, elapsed)) => RunView {
                durations: self.durations.push(recorded_millis(outcome, elapsed)),
                stage: if family == Family::V4 {
                    Stage::Querying { index, family: Family::V6 }
                } else {
                    Stage::Pausing { index }
                },
                ..self
            },
            (Stage::Pausing { index }, Event::Slept) => RunView { stage: self.stage_from(index + 1), ..self },
            _ => self,
        }
    }

    /// The action that goes with having just entered the current stage.
    pub open spec fn fits(self, action: Action) -> bool {
        match self.stage {
            Stage::Warming => action matches Action::Sleep(ms) && ms < START_DELAY_LIMIT_MILLIS,
            Stage::Querying { index, family } => action matches Action::Resolve(domain, f)
                && domain@ == self.domains[index as int] && f == family,
            Stage::Pausing { .. } => action matches Action::Sleep(ms)
                && PAUSE_MIN_MILLIS <= ms < PAUSE_LIMIT_MILLIS,
            _ => action == Action::Done,
        }
    }
}

/// The state after a sequence of events, one after the other.
pub open spec fn drive(run: RunView, events: Seq<Event>) -> RunView
    decreases events.len(),
{
    if events.len() == 0 {
        run
    } else {
        drive(run.advance(events[0]), events.drop_first())
    }
}

/// The milliseconds recorded for a sequence of lookups, given as outcome and
/// elapsed milliseconds.
pub open spec fn recorded_all(lookups: Seq<(QueryOutcome, u128)>) -> Seq<u128> {
    lookups.map_values(|l: (QueryOutcome, u128)| recorded_millis(l.0, l.1))
}

/// The events that answer the domain at `index`: its IPv4 lookup, its IPv6
/// lookup (`lookups[2 * index]` and `lookups[2 * index + 1]`), and the pause.
pub open spec fn domain_events(lookups: Seq<(QueryOutcome, u128)>, index: int) -> Seq<Event> {
    seq![
        Event::Resolved(lookups[2 * index].0, lookups[2 * index].1),
        Event::Resolved(lookups[2 * index + 1].0, lookups[2 * index + 1].1),
        Event::Slept,
    ]
}

/// The events that answer the domains from `index` up to `count`.
pub open spec fn events_from(lookups: Seq<(QueryOutcome, u128)>, count: int, index: int) -> Seq<Event>
    decreases count - index,
{
    if index >= count {
        Seq::empty()
    } else {
        domain_events(lookups, index) + events_from(lookups, count, index + 1)
    }
}

/// The events of a whole run over `count` domains: the start, the end of the
/// first delay, then the answers for each domain in order.
pub open spec fn full_run_events(lookups: Seq<(QueryOutcome, u128)>, count: int) -> Seq<Event> {
    seq![Event::Start, Event::Slept] + events_from(lookups, count, 0)
}

/// Driving a run through two sequences of events one after the other is
/// driving it through their concatenation.
pub proof fn lemma_drive_concat(run: RunView, first: Seq<Event>, second: Seq<Event>)
    ensures
        drive(run, first + second) == drive(drive(run, first), second),
    decreases first.len(),
{
    if first.len() == 0 {
        assert(first + second =~= second);
    } else {
        assert((first + second).drop_first() =~= first.drop_first() + second);
        lemma_drive_concat(run.advance(first[0]), first.drop_first(), second);
    }
}

proof fn lemma_domains_from(run: RunView, lookups: Seq<(QueryOutcome, u128)>, index: int)
    requires
        lookups.len() == 2 * run.domains.len(),
        run.domains.len() <= usize::MAX,
        0 <= index <= run.domains.len(),
        run.stage == run.stage_from(index),
        run.durations == recorded_all(lookups.take(2 * index)),
    ensures
        drive(run, events_from(lookups, run.domains.len() as int, index)) == (RunView {
            durations: recorded_all(lookups),
            stage: Stage::Finished,
            ..run
        }),
    decreases run.domains.len() - index,
{
    let n: int = run.domains.len() as int;
    if index >= n {
        assert(lookups.take(2 * index) =~= lookups);
        assert(drive(run, Seq::<Event>::empty()) == run);
    } else {
        let evs = domain_events(lookups, index);
        lemma_drive_concat(run, evs, events_from(lookups, n, index + 1));
        let r1 = run.advance(evs[0]);
        let r2 = r1.advance(evs[1]);
        let r3 = r2.advance(evs[2]);
        assert(evs.drop_first().drop_first().drop_first() =~= Seq::<Event>::empty());
        assert(evs.drop_first()[0] == evs[1]);
        assert(evs.drop_first().drop_first()[0] == evs[2]);
        assert(drive(run, evs) == r3) by {
            assert(drive(r3, Seq::<Event>::empty()) == r3);
            assert(drive(r2, evs.drop_first().drop_first()) == r3);
            assert(drive(r1, evs.drop_first()) == r3);
        }
        assert(recorded_all(lookups.take(2 * index + 2)) =~= recorded_all(lookups.take(2 * index))
            .push(recorded_millis(lookups[2 * index].0, lookups[2 * index].1))
            .push(recorded_millis(lookups[2 * index + 1].0, lookups[2 * index + 1].1)));
        lemma_domains_from(r3, lookups, index + 1);
    }
}

/// A whole run, from its start over every domain to its end, records exactly
/// the time of each lookup as it was answered, in the order of the lookups
/// (for each domain its IPv4 lookup, then its IPv6 lookup), and ends finished.
pub proof fn lemma_full_run_records_every_lookup(domains: Seq<Seq<char>>, lookups: Seq<(QueryOutcome, u128)>)
    requires
        lookups.len() == 2 * domains.len(),
        domains.len() <= usize::MAX,
    ensures
        drive(
            RunView { domains, durations: Seq::empty(), stage: Stage::Ready },
            full_run_events(lookups, domains.len() as int),
        ) == (RunView { domains, durations: recorded_all(lookups), stage: Stage::Finished }),
{
    let start = RunView { domains, durations: Seq::empty(), stage: Stage::Ready };
    let opening = seq![Event::Start, Event::Slept];
    lemma_drive_concat(start, opening, events_from(lookups, domains.len() as int, 0));
    let warm = start.advance(Event::Start);
    let begun = warm.advance(Event::Slept);
    assert(opening.drop_first().drop_first() =~= Seq::<Event>::empty());
    assert(drive(begun, Seq::<Event>::empty()) == begun);
    assert(drive(warm, opening.drop_first()) == begun);
    assert(drive(start, opening) == begun);
    assert(lookups.take(0) =~= Seq::<(QueryOutcome, u128)>::empty());
    assert(recorded_all(lookups.take(0)) =~= Seq::<u128>::empty());
    lemma_domains_from(begun, lookups, 0);
}

/// The lookup that a run asks for in its current state: the domain and
/// family it waits on while querying, none otherwise.
pub open spec fn requested_lookup(run: RunView) -> Seq<(Seq<char>, Family)> {
    match run.stage {
        Stage::Querying { index, family } => seq![(run.domains[index as int], family)],
        _ => Seq::empty(),
    }
}

/// The lookups a run asks for while it goes through the events, in order.
pub open spec fn lookups_along(run: RunView, events: Seq<Event>) -> Seq<(Seq<char>, Family)>
    decreases events.len(),
{
    if events.len() == 0 {
        Seq::empty()
    } else {
        let next = run.advance(events[0]);
        requested_lookup(next) + lookups_along(next, events.drop_first())
    }
}

/// Each domain twice, in order: first for IPv4, then for IPv6.
pub open spec fn expected_lookups(domains: Seq<Seq<char>>) -> Seq<(Seq<char>, Family)> {
    Seq::new(2 * domains.len(), |k: int| (domains[k / 2], if k % 2 == 0 { Family::V4 } else { Family::V6 }))
}

proof fn lemma_lookups_concat(run: RunView, first: Seq<Event>, second: Seq<Event>)
    ensures
        lookups_along(run, first + second) == lookups_along(run, first) + lookups_along(drive(run, first), second),
    decreases first.len(),
{
    if first.len() == 0 {
        assert(first + second =~= second);
        assert(lookups_along(run, first) + lookups_along(drive(run, first), second) =~= lookups_along(run, second));
    } else {
        assert((first + second).drop_first() =~= first.drop_first() + second);
        let next = run.advance(first[0]);
        lemma_lookups_concat(next, first.drop_first(), second);
        assert(lookups_along(run, first + second) =~= requested_lookup(next)
            + (lookups_along(next, first.drop_first()) + lookups_along(drive(next, first.drop_first()), second)));
    }
}

proof fn lemma_lookups_from(run: RunView, lookups: Seq<(QueryOutcome, u128)>, index: int)
    requires
        lookups.len() == 2 * run.domains.len(),
        run.domains.len() <= usize::MAX,
        0 <= index <= run.domains.len(),
        run.stage == run.stage_from(index),
    ensures
        lookups_along(run, events_from(lookups, run.domains.len() as int, index)) == if index < run.domains.len() {
            expected_lookups(run.domains).subrange(2 * index + 1, 2 * run.domains.len() as int)
        } else {
            Seq::empty()
        },
    decreases run.domains.len() - index,
{
    let n = run.domains.len() as int;
    let all = expected_lookups(run.domains);
    if index < n {
        let evs = domain_events(lookups, index);
        lemma_lookups_concat(run, evs, events_from(lookups, n, index + 1));
        lemma_drive_concat(run, evs, events_from(lookups, n, index + 1));
        let r1 = run.advance(evs[0]);
        let r2 = r1.advance(evs[1]);
        let r3 = r2.advance(evs[2]);
        assert(evs.drop_first()[0] == evs[1]);
        assert(evs.drop_first().drop_first()[0] == evs[2]);
        assert(evs.drop_first().drop_first().drop_first() =~= Seq::<Event>::empty());
        assert(drive(run, evs) == r3) by {
            assert(drive(r3, Seq::<Event>::empty()) == r3);
            assert(drive(r2, evs.drop_first().drop_first()) == r3);
            assert(drive(r1, evs.drop_first()) == r3);
        }
        assert(lookups_along(r3, Seq::<Event>::empty()) =~= Seq::<(Seq<char>, Family)>::empty());
        let e2 = evs.drop_first().drop_first();
        assert(lookups_along(r2, e2) == requested_lookup(r3) + lookups_along(r3, e2.drop_first()));
        assert(lookups_along(r1, evs.drop_first()) == requested_lookup(r2) + lookups_along(r2, e2));
        assert(lookups_along(run, evs) == requested_lookup(r1) + lookups_along(r1, evs.drop_first()));
        assert(lookups_along(run, evs) =~= requested_lookup(r1) + requested_lookup(r2) + requested_lookup(r3));
        lemma_lookups_from(r3, lookups, index + 1);
        assert(all[2 * index + 1] == (run.domains[index], Family::V6));
        if index + 1 < n {
            assert(all[2 * index + 2] == (run.domains[index + 1], Family::V4));
            assert(lookups_along(run, events_from(lookups, n, index)) =~= all.subrange(2 * index + 1, 2 * n));
        } else {
            assert(lookups_along(run, events_from(lookups, n, index)) =~= all.subrange(2 * index + 1, 2 * n));
        }
    } else {
        assert(events_from(lookups, n, index) =~= Seq::<Event>::empty());
    }
}

/// A whole run asks for exactly these lookups, in this order, each once:
/// for each domain in order, first its IPv4 lookup, then its IPv6 lookup.
/// (Each request is the `Resolve` action that `step` returns on entering the
/// stage; see `RunView::fits`.)
pub proof fn lemma_full_run_lookup_order(domains: Seq<Seq<char>>, lookups: Seq<(QueryOutcome, u128)>)
    requires
        lookups.len() == 2 * domains.len(),
        domains.len() <= usize::MAX,
    ensures
        lookups_along(
            RunView { domains, durations: Seq::empty(), stage: Stage::Ready },
            full_run_events(lookups, domains.len() as int),
        ) == expected_lookups(domains),
{
    let start = RunView { domains, durations: Seq::empty(), stage: Stage::Ready };
    let opening = seq![Event::Start, Event::Slept];
    let n = domains.len() as int;
    lemma_lookups_concat(start, opening, events_from(lookups, n, 0));
    lemma_drive_concat(start, opening, events_from(lookups, n, 0));
    let warm = start.advance(Event::Start);
    let begun = warm.advance(Event::Slept);
    assert(opening.drop_first().drop_first() =~= Seq::<Event>::empty());
    assert(drive(begun, Seq::<Event>::empty()) == begun);
    assert(drive(warm, opening.drop_first()) == begun);
    assert(drive(start, opening) == begun);
    assert(lookups_along(begun, Seq::<Event>::empty()) =~= Seq::<(Seq<char>, Family)>::empty());
    assert(lookups_along(warm, opening.drop_first()) == requested_lookup(begun)
        + lookups_along(begun, opening.drop_first().drop_first()));
    assert(lookups_along(start, opening) == requested_lookup(warm) + lookups_along(warm, opening.drop_first()));
    assert(lookups_along(start, opening) =~= requested_lookup(warm) + requested_lookup(begun));
    lemma_lookups_from(begun, lookups, 0);
    let all = expected_lookups(domains);
    if n > 0 {
        assert(all[0] == (domains[0], Family::V4));
    }
    assert(lookups_along(start, full_run_events(lookups, n)) =~= all);
}

/// Every accepted event keeps a run well formed, keeps its domains, and only
/// appends to what it has recorded.
pub proof fn lemma_advance_keeps_record(run: RunView, event: Event)
    requires
        run.wf(),
        run.accepts(event),
    ensures
        run.advance(event).wf(),
        run.advance(event).domains == run.domains,
        run.durations.is_prefix_of(run.advance(event).durations),
{
}

/// A finished run holds two recorded times per domain.
pub proof fn lemma_finished_run_is_complete(run: RunView)
    requires
        run.wf(),
        run.stage == Stage::Finished,
    ensures
        run.durations.len() == 2 * run.domains.len(),
{
}

impl ServerRun {
    /// A run over the given domains that has not started.
    pub fn new(domains: Vec<String>) -> (run: ServerRun)
        ensures
            run@.domains == domains.deep_view(),
            run@.durations == Seq::<u128>::empty(),
            run@.stage == Stage::Ready,
            run@.wf(),
    {
        assert(domains.deep_view().len() == domains.len());
        ServerRun { domains, durations: Vec::new(), stage: Stage::Ready }
    }

    /// The domains this run queries, in order.
    pub fn domains(&self) -> (d: &Vec<String>)
        ensures
            d.deep_view() == self@.domains,
    {
        &self.domains
    }

    /// The milliseconds recorded so far.
    pub fn durations(&self) -> (d: &Vec<u128>)
        ensures
            d@ == self@.durations,
    {
        &self.durations
    }

    /// The current stage.
    pub fn stage(&self) -> (s: Stage)
        ensures
            s == self@.stage,
    {
        self.stage
    }

    /// Whether the run expects this event now.
    pub fn accepts(&self, event: &Event) -> (b: bool)
        ensures
            b == self@.accepts(*event),
    {
        match (self.stage, event) {
            (Stage::Ready, Event::Start) => true,
            (Stage::Warming, Event::Slept) => true,
            (Stage::Querying { .. }, Event::Resolved(_, _)) => true,
            (Stage::Pausing { .. }, Event::Slept) => true,
            (Stage::Finished, _) => true,
            _ => false,
        }
    }

    /// Takes the next step of the run: a random delay first, then for each
    /// domain in order its IPv4 lookup, its IPv6 lookup and a short random
    /// pause, then the end. Each lookup's result is recorded as it comes in.
    pub fn step(&mut self, event: Event) -> (decision: Decision)
        requires
            old(self)@.wf(),
            old(self)@.accepts(event),
        ensures
            final(self)@ == old(self)@.advance(event),
            final(self)@.wf(),
            final(self)@.fits(decision.action),
            decision.report_failure == (old(self)@.stage is Querying
                && (event matches Event::Resolved(outcome, _) && outcome == QueryOutcome::Failed)),
            decision.domain_completed == (old(self)@.stage is Pausing),
    {
        let ghost before = self@;
        match self.stage {
            Stage::Ready => {
                self.stage = Stage::Warming;
                let ms: u64 = random_millis(0, START_DELAY_LIMIT_MILLIS);
                Decision { action: Action::Sleep(ms), report_failure: false, domain_completed: false }
            },
            Stage::Warming => {
                let action = self.begin_domain(0);
                Decision { action, report_failure: false, domain_completed: false }
            },
            Stage::Querying { index, family } => {
                match event {
                    Event::Resolved(outcome, elapsed) => {
                        let report = process_result(&mut self.durations, outcome, elapsed);
                        match family {
                            Family::V4 => {
                                self.stage = Stage::Querying { index, family: Family::V6 };
                                let domain = self.domains[index].clone();
                                Decision { action: Action::Resolve(domain, Family::V6), report_failure: report, domain_completed: false }
                            },
                            Family::V6 => {
                                self.stage = Stage::Pausing { index };
                                let ms: u64 = random_millis(PAUSE_MIN_MILLIS, PAUSE_LIMIT_MILLIS);
                                Decision { action: Action::Sleep(ms), report_failure: report, domain_completed: false }
                            },
                        }
                    },
                    _ => {
                        Decision { action: Action::Done, report_failure: false, domain_completed: false }
                    },
                }
            },
            Stage::Pausing { index } => {
                assert(self.domains.deep_view().len() == self.domains.len());
                let action = self.begin_domain(index + 1);
                Decision { action, report_failure: false, domain_completed: true }
            },
            Stage::Finished => {
                Decision { action: Action::Done, report_failure: false, domain_completed: false }
            },
        }
    }

    /// Moves to the first lookup of the domain at `index`, or to the end when
    /// there is no such domain.
    fn begin_domain(&mut self, index: usize) -> (action: Action)
        requires
            index <= old(self)@.domains.len(),
            old(self)@.durations.len() == 2 * index,
        ensures
            final(self)@ == (RunView { stage: old(self)@.stage_from(index as int), ..old(self)@ }),
            final(self)@.wf(),
            final(self)@.fits(action),
    {
        if index < self.domains.len() {
            self.stage = Stage::Querying { index, family: Family::V4 };
            let domain = self.domains[index].clone();
            Action::Resolve(domain, Family::V4)
        } else {
            self.stage = Stage::Finished;
            Action::Done
        }
    }
}

} // verus!
