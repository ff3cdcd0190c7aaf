//! The verified core of `kwctl`, the command line tool for Kubewarden
//! policies.
//!
//! The heart of the crate is the host capability callback proxy: every call
//! that a policy makes to a capability of its host goes through it, and it
//! can pass the call on, record the exchange in a session file, or answer
//! from a session that was recorded before.
//!
//! - [`request`], [`keys`], [`order`]: capability requests and their
//!   canonical keys.
//! - [`outcome`], [`wire`], [`session`], [`recovery`]: outcomes, and the
//!   format of the session file.
//! - [`index`]: the outcomes of a session by key, first in, first out.
//! - [`proxy`], [`laws`], [`error`]: the state machine of the proxy, and
//!   what holds of its runs.
//! - [`pull`], [`flags`], [`trust`], [`scaffold`]: the rules on URIs and on
//!   the options of the command line.

pub mod error;
pub mod flags;
pub mod index;
pub mod keys;
pub mod laws;
pub mod order;
pub mod outcome;
pub mod proxy;
pub mod pull;
pub mod recovery;
pub mod request;
pub mod scaffold;
pub mod session;
pub mod trust;
pub mod wire;
