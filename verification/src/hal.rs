//! HAL binding lifecycle.
//!
//! The binding between the host stack and the native controller driver
//! moves between two states: `Closed` and `Opened`. Initialization opens
//! it once; a second initialization is answered with an already-initialized
//! status and does not disturb the session. Sends are legal only while
//! open. Driver failure and stack death close it again. The surrounding
//! transport performs the actual driver calls; this module decides them.

use vstd::prelude::*;

verus! {

/// Lifecycle state of the HAL binding.
#[derive(Debug, Clone, Copy, PartialEq, Eq, Structural)]
pub enum HalState {
    /// No session with the driver.
    Closed,
    /// A session is open and traffic may flow.
    Opened,
}

/// Why a lifecycle request was refused.
#[derive(Debug, Clone, Copy, PartialEq, Eq, Structural)]
pub enum HalError {
    /// Initialization while a session is already open.
    AlreadyInitialized,
    /// A send while no session is open.
    IllegalState,
}

/// The lifecycle decisions of the HAL binding.
pub struct HalLifecycle {
    state: HalState,
}

impl HalLifecycle {
    /// The current lifecycle state.
    pub closed spec fn state(&self) -> HalState {
        self.state
    }

    /// A fresh binding, closed.
    pub fn new() -> (r: HalLifecycle)
        ensures
            r.state() == HalState::Closed,
    {
        HalLifecycle { state: HalState::Closed }
    }

    /// Open a session. A closed binding opens; an open one refuses with
    /// an already-initialized status and keeps its session.
    pub fn initialize(&mut self) -> (res: Result<(), HalError>)
        ensures
            old(self).state() == HalState::Closed ==> final(self).state() == HalState::Opened
                && res is Ok,
            old(self).state() == HalState::Opened ==> final(self).state() == HalState::Opened
                && (res matches Err(e) && e == HalError::AlreadyInitialized),
    {
        match self.state {
            HalState::Closed => {
                self.state = HalState::Opened;
                Ok(())
            },
            HalState::Opened => Err(HalError::AlreadyInitialized),
        }
    }

    /// Close the session, from any state.
    pub fn close(&mut self)
        ensures
            final(self).state() == HalState::Closed,
    {
        self.state = HalState::Closed;
    }

    /// The stack client died: the session is torn down.
    pub fn client_died(&mut self)
        ensures
            final(self).state() == HalState::Closed,
    {
        self.state = HalState::Closed;
    }

    /// The driver reported the outcome of initialization: failure closes
    /// the session again.
    pub fn initialization_complete(&mut self, success: bool)
        ensures
            success ==> final(self).state() == old(self).state(),
            !success ==> final(self).state() == HalState::Closed,
    {
        if !success {
            self.state = HalState::Closed;
        }
    }

    /// Whether a send may proceed: only while a session is open. A send
    /// while closed fails with an illegal-state error.
    pub fn may_send(&self) -> (res: Result<(), HalError>)
        ensures
            self.state() == HalState::Opened ==> res is Ok,
            self.state() == HalState::Closed ==> (res matches Err(e) && e == HalError::IllegalState),
    {
        match self.state {
            HalState::Opened => Ok(()),
            HalState::Closed => Err(HalError::IllegalState),
        }
    }
}

} // verus!
