//! Waiting for a change to a watched key or prefix.
//!
//! A [`Watch`] holds the listener that a change to the watched part of a published
//! tree notifies, or nothing when the change has already happened. Waiting on it
//! consumes it: a watch resolves once.

use core::time::Duration;
use event_listener::{EventListener, Listener};
use vstd::prelude::*;

verus! {

#[verifier::external_type_specification]
#[verifier::external_body]
#[verifier::reject_recursive_types(T)]
pub struct ExEventListener<T>(EventListener<T>);

/// `Listener::wait` on an `EventListener`: blocks the current thread until the
/// listener is notified. Nothing is claimed of when, or whether, that happens.
#[verifier::external_body]
fn listener_wait(listener: EventListener) {
    listener.wait();
}

/// `Listener::wait_timeout` on an `EventListener`: blocks until the listener is
/// notified or `timeout` elapses, and reports whether it was notified. Which of the
/// two comes first depends on other threads and the clock, so nothing is claimed of
/// the result.
#[verifier::external_body]
fn listener_wait_timeout(listener: EventListener, timeout: Duration) -> (notified: bool) {
    listener.wait_timeout(timeout).is_some()
}

/// A pending observation of a key or prefix, resolved by the next published change
/// to it. A watch holding no listener has already resolved.
pub struct Watch(Option<EventListener>);

/// The pending resolution of a [`Watch`], to be driven by an asynchronous executor:
/// it completes when the held listener is notified, or at once when there is none.
pub struct Changed(Option<EventListener>);

impl Watch {
    /// A watch on the given listener; `None` makes a watch that has already
    /// resolved.
    pub fn new(listener: Option<EventListener>) -> (r: Watch)
        ensures
            r.listener() == listener,
            r.is_resolved() == listener is None,
    {
        Watch(listener)
    }

    /// The listener the watch waits on, if it has not resolved yet.
    pub closed spec fn listener(&self) -> Option<EventListener> {
        self.0
    }

    /// Whether the watch has already resolved: it holds no listener to wait on.
    pub closed spec fn is_resolved(&self) -> bool {
        self.0 is None
    }

    /// Blocks the current thread until the watched key or prefix changes; returns
    /// at once if it already has.
    pub fn block_wait(self) {
        if let Some(listener) = self.0 {
            listener_wait(listener);
        }
    }

    /// Blocks until the watched key or prefix changes or `timeout` elapses; returns
    /// `true` if it changed (or already had) and `false` on timeout.
    pub fn block_wait_timeout(self, timeout: Duration) -> (r: bool)
        ensures
            self.is_resolved() ==> r,
    {
        match self.0 {
            None => true,
            Some(listener) => listener_wait_timeout(listener, timeout),
        }
    }

    /// The asynchronous counterpart of `block_wait`: a [`Changed`] that completes
    /// when the watched key or prefix changes, at once if it already has.
    pub fn changed(self) -> (r: Changed)
        ensures
            r.listener() == self.listener(),
            r.is_ready() == self.is_resolved(),
    {
        Changed(self.0)
    }
}

impl Changed {
    /// The listener whose notification completes this, if the change has not
    /// happened yet.
    pub closed spec fn listener(&self) -> Option<EventListener> {
        self.0
    }

    /// Whether the change has already happened: there is no listener to wait on.
    pub closed spec fn is_ready(&self) -> bool {
        self.0 is None
    }

    /// Hands out the listener to wait on, if the change has not happened yet.
    pub fn into_listener(self) -> (r: Option<EventListener>)
        ensures
            r == self.listener(),
            r is None == self.is_ready(),
    {
        self.0
    }
}

} // verus!
