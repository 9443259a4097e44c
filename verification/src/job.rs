//! A one-shot background job: compute on another thread, pick the result up
//! in a UI frame without blocking it.
//!
//! Jobs that stream events rather than end in one result (SteamCMD runs,
//! launching the game, test runs) do not fit this type: they need a stream
//! of events and cancelling.

use vstd::prelude::*;
use std::sync::mpsc::Receiver;

verus! {

#[verifier::external_type_specification]
#[verifier::external_body]
#[verifier::reject_recursive_types(T)]
pub struct ExReceiver<T>(Receiver<T>);

/// What a look at the channel found.
#[verifier::reject_recursive_types(T)]
pub enum Received<T> {
    /// The job sent its outcome.
    Value(Result<T, String>),
    /// Nothing yet.
    Empty,
    /// The sending side is gone without a word: the job died.
    Disconnected,
}

/// Looks at the channel without waiting (`Receiver::try_recv`).
///
/// Trusted only to return: what comes back depends on the other thread, so
/// nothing is claimed of it.
#[verifier::external_body]
fn try_receive<T>(rx: &Receiver<Result<T, String>>) -> (r: Received<T>) {
    match rx.try_recv() {
        Ok(v) => Received::Value(v),
        Err(std::sync::mpsc::TryRecvError::Empty) => Received::Empty,
        Err(std::sync::mpsc::TryRecvError::Disconnected) => Received::Disconnected,
    }
}

#[verifier::reject_recursive_types(T)]
pub enum Job<T> {
    Idle,
    Running(Receiver<Result<T, String>>),
    Done(T),
    Failed(String),
}

impl<T> Default for Job<T> {
    fn default() -> (r: Self)
        ensures
            r is Idle,
    {
        Job::Idle
    }
}

/// The message of a job whose thread died without sending anything.
pub open spec fn interrupted_message() -> Seq<char> {
    "фоновая задача прервалась"@
}

impl<T> Job<T> {
    /// Settles a running job with what its channel gave. Returns whether
    /// the state changed.
    pub fn settle_with(&mut self, got: Received<T>) -> (changed: bool)
        requires
            *old(self) is Running,
        ensures
            match got {
                Received::Value(Ok(v)) => changed && *final(self) == Job::Done(v),
                Received::Value(Err(e)) => changed && (*final(self) matches Job::Failed(m) && m@ == e@),
                Received::Empty => !changed && *final(self) == *old(self),
                Received::Disconnected => changed && (*final(self) matches Job::Failed(m) && m@ == interrupted_message()),
            },
    {
        match got {
            Received::Value(Ok(value)) => {
                *self = Job::Done(value);
                true
            },
            Received::Value(Err(err)) => {
                *self = Job::Failed(err);
                true
            },
            Received::Empty => false,
            Received::Disconnected => {
                *self = Job::Failed(String::from_str("фоновая задача прервалась"));
                true
            },
        }
    }

    /// Picks the result up if it is ready. Returns whether the state
    /// changed: by that the UI decides whether to redraw.
    pub fn poll(&mut self) -> (changed: bool)
        ensures
            !(*old(self) is Running) ==> !changed && *final(self) == *old(self),
            *old(self) is Running && !changed ==> *final(self) == *old(self),
            changed ==> (*final(self) is Done || *final(self) is Failed),
    {
        let got = match self {
            Job::Running(rx) => try_receive(rx),
            _ => return false,
        };
        self.settle_with(got)
    }

    pub fn is_running(&self) -> (r: bool)
        ensures
            r == (*self is Running),
    {
        matches!(self, Job::Running(_))
    }

    pub fn is_idle(&self) -> (r: bool)
        ensures
            r == (*self is Idle),
    {
        matches!(self, Job::Idle)
    }

    pub fn result(&self) -> (r: Option<&T>)
        ensures
            match *self {
                Job::Done(v) => r == Some(&v),
                _ => r is None,
            },
    {
        match self {
            Job::Done(v) => Some(v),
            _ => None,
        }
    }

    /// Takes the result out, leaving the job empty.
    pub fn take_result(&mut self) -> (r: Option<T>)
        ensures
            match *old(self) {
                Job::Done(v) => r == Some(v) && *final(self) is Idle,
                _ => r is None && *final(self) == *old(self),
            },
    {
        if !matches!(self, Job::Done(_)) {
            return None;
        }
        let mut taken = Job::Idle;
        std::mem::swap(self, &mut taken);
        match taken {
            Job::Done(v) => Some(v),
            _ => None,
        }
    }

    pub fn error(&self) -> (r: Option<&str>)
        ensures
            match *self {
                Job::Failed(e) => r matches Some(m) && m@ == e@,
                _ => r is None,
            },
    {
        match self {
            Job::Failed(e) => Some(e.as_str()),
            _ => None,
        }
    }
}

} // verus!
