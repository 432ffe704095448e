//! The shared gauge and the decisions of the push scheduler.

use std::sync::atomic::AtomicU64;
use std::sync::atomic::Ordering;
use vstd::prelude::*;
use crate::encoder::{encode_labelled, label_texts, line_text, EncodeError, Label, LabelText};

verus! {

/// The period between two pushes unless another is configured, in
/// milliseconds.
pub const DEFAULT_INTERVAL_MS: u64 = 30000;

/// The gauge: one 64-bit value that producers set and the scheduler reads,
/// each with a single atomic access. The last write wins.
pub struct Pusher {
    curr_v: AtomicU64,
}

impl Default for Pusher {
    /// A gauge that holds zero.
    fn default() -> Self {
        Self { curr_v: AtomicU64::new(0) }
    }
}

impl Pusher {
    /// Sets the gauge. Never blocks; the value is visible to the next read.
    pub fn change_value(&self, value: u64) {
        self.curr_v.store(value, Ordering::SeqCst)
    }

    /// Reads the gauge as it is now.
    pub fn value(&self) -> u64 {
        self.curr_v.load(Ordering::SeqCst)
    }
}

/// What the transport handed back for one request.
#[derive(Debug, PartialEq, Eq, Clone, Copy)]
pub enum Response {
    /// The endpoint answered, with this HTTP status.
    Status(u16),
    /// No answer came: the connection failed or timed out.
    Failed,
}

/// Why a push did not succeed.
#[derive(Debug, PartialEq, Eq, Clone, Copy)]
pub enum PushError {
    /// The transport failed before any status came back.
    Transport,
    /// The endpoint answered with a status outside the success range.
    Status(u16),
}

/// What the scheduler is doing.
#[derive(Debug, PartialEq, Eq, Clone, Copy)]
pub enum Phase {
    /// Waiting for the interval to pass.
    Sleeping,
    /// A line was handed out and its send has not been reported yet.
    Pushing,
    /// Cancelled: nothing more will be pushed.
    Stopped,
}

/// What happened outside since the last step.
#[derive(Debug, PartialEq, Eq, Clone, Copy)]
pub enum Event {
    /// The interval has passed. Carries the time of the push, in
    /// milliseconds since the Unix epoch, and the gauge as read just now.
    Wake { now_ms: u64, value: u64 },
    /// The send of the last line has ended.
    Sent(Response),
    /// Shutdown was asked for.
    Cancel,
}

/// What the caller is to do next.
#[derive(Debug, PartialEq, Eq)]
pub enum Action {
    /// Send this line, then report how it went.
    Send(String),
    /// Log the failure if there is one, then sleep for so many milliseconds.
    Sleep { millis: u64, failure: Option<PushError> },
    /// The event did not belong to the phase: go on as before.
    Wait,
    /// Leave the loop.
    Stop,
}

/// An action, with the line to send as a sequence of characters.
pub enum Decision {
    Send(Seq<char>),
    Sleep { millis: u64, failure: Option<PushError> },
    Wait,
    Stop,
}

impl View for Action {
    type V = Decision;

    open spec fn view(&self) -> Decision {
        match self {
            Action::Send(line) => Decision::Send(line@),
            Action::Sleep { millis, failure } => Decision::Sleep {
                millis: *millis,
                failure: *failure,
            },
            Action::Wait => Decision::Wait,
            Action::Stop => Decision::Stop,
        }
    }
}

/// A push succeeded exactly when the endpoint answered with a status from
/// 200 to 299.
pub open spec fn push_outcome(response: Response) -> Result<(), PushError> {
    match response {
        Response::Status(code) => if 200 <= code < 300 {
            Ok(())
        } else {
            Err(PushError::Status(code))
        },
        Response::Failed => Err(PushError::Transport),
    }
}

/// `reqwest::StatusCode::from_u16` followed by `StatusCode::is_success`. The
/// first accepts the codes from 100 to 999, the second holds of those from
/// 200 to 299; a code that the first refuses counts as no success.
#[verifier::external_body]
fn status_is_success(code: u16) -> (ok: bool)
    ensures
        ok == (200 <= code < 300),
{
    match reqwest::StatusCode::from_u16(code) {
        Ok(status) => status.is_success(),
        Err(_) => false,
    }
}

/// Whether a push succeeded, and why not if it did not.
pub fn push_result(response: Response) -> (r: Result<(), PushError>)
    ensures
        r == push_outcome(response),
{
    match response {
        Response::Status(code) => if status_is_success(code) {
            Ok(())
        } else {
            Err(PushError::Status(code))
        },
        Response::Failed => Err(PushError::Transport),
    }
}

/// The scheduler as a value: what it pushes, how often, and its phase.
pub struct Schedule {
    pub name: Seq<char>,
    pub labels: Seq<LabelText>,
    pub interval_ms: u64,
    pub phase: Phase,
}

/// One step of the scheduler: the state after `event`, and what is to be
/// done. A wake-up while sleeping hands out the line of a fresh sample; the
/// end of a send, however it went, leads back to sleep; cancellation stops
/// the scheduler for good; an event that does not belong to the phase
/// changes nothing.
pub open spec fn step_spec(s: Schedule, event: Event) -> (Schedule, Decision) {
    match (s.phase, event) {
        (Phase::Stopped, _) => (s, Decision::Stop),
        (_, Event::Cancel) => (Schedule { phase: Phase::Stopped, ..s }, Decision::Stop),
        (Phase::Sleeping, Event::Wake { now_ms, value }) => (
            Schedule { phase: Phase::Pushing, ..s },
            Decision::Send(line_text(s.name, s.labels, now_ms, value)),
        ),
        (Phase::Pushing, Event::Sent(response)) => (
            Schedule { phase: Phase::Sleeping, ..s },
            Decision::Sleep {
                millis: s.interval_ms,
                failure: match push_outcome(response) {
                    Ok(_) => None,
                    Err(e) => Some(e),
                },
            },
        ),
        (Phase::Sleeping, Event::Sent(_)) => (s, Decision::Wait),
        (Phase::Pushing, Event::Wake { .. }) => (s, Decision::Wait),
    }
}

/// The push scheduler's state. It decides; the caller sleeps, reads the
/// clock and the gauge, sends, and reports back.
pub struct Scheduler {
    name: String,
    labels: Vec<Label>,
    interval_ms: u64,
    phase: Phase,
}

impl View for Scheduler {
    type V = Schedule;

    closed spec fn view(&self) -> Schedule {
        Schedule {
            name: self.name@,
            labels: label_texts(self.labels@),
            interval_ms: self.interval_ms,
            phase: self.phase,
        }
    }
}

impl Scheduler {
    #[verifier::type_invariant]
    spec fn inv(self) -> bool {
        self.labels@.len() > 0
    }

    /// A scheduler for one metric, asleep. An empty label set is refused.
    pub fn new(name: String, labels: Vec<Label>, interval_ms: u64) -> (r: Result<
        Scheduler,
        EncodeError,
    >)
        ensures
            r is Err <==> labels@.len() == 0,
            r is Err ==> r->Err_0 == EncodeError::EmptyLabelSet,
            r is Ok ==> r->Ok_0@ == (Schedule {
                name: name@,
                labels: label_texts(labels@),
                interval_ms,
                phase: Phase::Sleeping,
            }),
    {
        if labels.len() == 0 {
            return Err(EncodeError::EmptyLabelSet);
        }
        Ok(Scheduler { name, labels, interval_ms, phase: Phase::Sleeping })
    }

    /// The phase the scheduler is in.
    pub fn phase(&self) -> (phase: Phase)
        ensures
            phase == self@.phase,
    {
        self.phase
    }

    /// Takes one event and says what to do next.
    pub fn step(&mut self, event: Event) -> (action: Action)
        ensures
            old(self)@.labels.len() > 0,
            (final(self)@, action@) == step_spec(old(self)@, event),
    {
        proof {
            use_type_invariant(&*self);
        }
        match self.phase {
            Phase::Stopped => Action::Stop,
            Phase::Sleeping => match event {
                Event::Cancel => {
                    self.phase = Phase::Stopped;
                    Action::Stop
                },
                Event::Wake { now_ms, value } => {
                    let line = encode_labelled(
                        self.name.as_str(),
                        self.labels.as_slice(),
                        now_ms,
                        value,
                    );
                    self.phase = Phase::Pushing;
                    Action::Send(line)
                },
                Event::Sent(_) => Action::Wait,
            },
            Phase::Pushing => match event {
                Event::Cancel => {
                    self.phase = Phase::Stopped;
                    Action::Stop
                },
                Event::Sent(response) => {
                    let failure = match push_result(response) {
                        Ok(_) => None,
                        Err(e) => Some(e),
                    };
                    self.phase = Phase::Sleeping;
                    Action::Sleep { millis: self.interval_ms, failure }
                },
                Event::Wake { .. } => Action::Wait,
            },
        }
    }
}

/// A push that failed does not keep the next one from being attempted:
/// whatever the send reported, the scheduler goes to sleep for its interval,
/// and the wake-up that follows hands out the line of a fresh sample.
pub proof fn lemma_failure_does_not_stop_pushing(
    s: Schedule,
    response: Response,
    now_ms: u64,
    value: u64,
)
    requires
        s.phase == Phase::Pushing,
    ensures
        ({
            let (slept, first) = step_spec(s, Event::Sent(response));
            let (pushing, second) = step_spec(slept, Event::Wake { now_ms, value });
            &&& slept.phase == Phase::Sleeping
            &&& first matches Decision::Sleep { millis, failure }
            &&& millis == s.interval_ms
            &&& (failure is None <==> push_outcome(response) is Ok)
            &&& pushing.phase == Phase::Pushing
            &&& second == Decision::Send(line_text(s.name, s.labels, now_ms, value))
        }),
{
}

/// Nothing but cancellation stops the scheduler: whatever a send reports
/// and whenever it is woken, a scheduler that has not stopped does not stop.
pub proof fn lemma_only_cancel_stops(s: Schedule, event: Event)
    requires
        s.phase != Phase::Stopped,
        event != Event::Cancel,
    ensures
        step_spec(s, event).0.phase != Phase::Stopped,
        step_spec(s, event).1 != Decision::Stop,
{
}

} // verus!
