//! The decisions of the payload test helper: the timestamps of new payload jobs, which payload
//! events are the expected ones, and how long to wait for a built payload. Subscribing to the
//! payload builder, sending jobs and reading events are left to the caller, which hands the
//! outcomes in here as plain values.
use vstd::prelude::*;

verus! {

/// The timestamp the helper starts from (the Cancun activation time).
pub const CANCUN_TIMESTAMP: u64 = 1710338135;

/// How long to wait for a payload with transactions before accepting an empty one.
pub const MAX_WAIT_MILLIS: u64 = 500;

/// How long to sleep between two looks at the best payload.
pub const POLL_INTERVAL_MILLIS: u64 = 20;

/// A payload builder event, as far as the helper looks at it.
#[derive(Debug, Clone, Copy, PartialEq, Eq, Structural)]
pub enum PayloadEvent {
    /// New payload attributes, with their timestamp.
    Attributes { timestamp: u64 },
    /// A built payload.
    BuiltPayload,
}

/// What became of sending a new payload job to the builder.
#[derive(Debug, Clone, Copy, PartialEq, Eq, Structural)]
pub enum SendOutcome {
    /// The builder took the job.
    Accepted,
    /// The builder answered with an error of its own.
    Rejected,
    /// No builder answered (absent in some test setups).
    Unavailable,
}

/// What to do after a look at the best payload.
#[derive(Debug, Clone, Copy, PartialEq, Eq, Structural)]
pub enum WaitStep {
    /// Resolve the payload now.
    Resolve,
    /// Sleep for the given milliseconds and look again.
    Sleep(u64),
}

/// The state of the payload helper: the timestamp of the last payload job.
pub struct PayloadTestContext {
    pub timestamp: u64,
}

impl PayloadTestContext {
    /// Creates the helper state, starting at the Cancun timestamp.
    pub fn new() -> (r: Self)
        ensures
            r.timestamp == CANCUN_TIMESTAMP,
    {
        PayloadTestContext { timestamp: CANCUN_TIMESTAMP }
    }

    /// Starts a new payload job: the timestamp moves on by one, and the job's attributes are made
    /// for the new timestamp, which is returned.
    pub fn new_payload(&mut self) -> (r: u64)
        requires
            old(self).timestamp < u64::MAX,
        ensures
            final(self).timestamp == old(self).timestamp + 1,
            r == final(self).timestamp,
    {
        self.timestamp = self.timestamp + 1;
        self.timestamp
    }

    /// Whether sending the job ends in an error: only an error of the builder's own counts; an
    /// absent builder is ignored.
    pub fn send_fails(outcome: SendOutcome) -> (r: bool)
        ensures
            r == (outcome == SendOutcome::Rejected),
    {
        match outcome {
            SendOutcome::Rejected => true,
            _ => false,
        }
    }

    /// Whether the next event is the expected one: attributes with the timestamp of the
    /// attributes sent.
    pub fn expect_attr_event(attrs_timestamp: u64, event: PayloadEvent) -> (r: bool)
        ensures
            r == (event == PayloadEvent::Attributes { timestamp: attrs_timestamp }),
    {
        match event {
            PayloadEvent::Attributes { timestamp } => timestamp == attrs_timestamp,
            PayloadEvent::BuiltPayload => false,
        }
    }

    /// What to do after a look at the best payload: resolve it once it has transactions or once
    /// the wait has reached its limit, and otherwise sleep and look again.
    pub fn wait_for_built_payload(has_transactions: bool, elapsed_millis: u64) -> (r: WaitStep)
        ensures
            r == (if has_transactions || elapsed_millis >= MAX_WAIT_MILLIS {
                WaitStep::Resolve
            } else {
                WaitStep::Sleep(POLL_INTERVAL_MILLIS)
            }),
    {
        if has_transactions || elapsed_millis >= MAX_WAIT_MILLIS {
            WaitStep::Resolve
        } else {
            WaitStep::Sleep(POLL_INTERVAL_MILLIS)
        }
    }

    /// Whether the next event is the expected one: a built payload.
    pub fn expect_built_payload(event: PayloadEvent) -> (r: bool)
        ensures
            r == (event == PayloadEvent::BuiltPayload),
    {
        match event {
            PayloadEvent::BuiltPayload => true,
            PayloadEvent::Attributes { .. } => false,
        }
    }
}

} // verus!
