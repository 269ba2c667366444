//! The decisions of a terminal session daemon: what a client is shown, when it
//! is shown it, and what is kept for a client that comes back.
//!
//! Every module here is a state machine or a rule over plain values. Sockets,
//! threads, clocks and the terminal emulator itself belong to the program around
//! this library, which performs what these functions decide.

pub mod actor;
pub mod attachment;
pub mod backlog;
pub mod bands;
pub mod commands;
pub mod cutting;
pub mod defer;
pub mod dgram;
pub mod emulator;
pub mod forward;
pub mod gate;
pub mod ids;
pub mod invariants;
pub mod limiter;
pub mod limits;
pub mod link;
pub mod log;
pub mod mailbox;
pub mod mask;
pub mod notice;
pub mod pacing;
pub mod pools;
pub mod proxy;
pub mod ptyin;
pub mod query;
pub mod registry;
pub mod row;
pub mod screen;
pub mod search;
pub mod serve;
pub mod service;
pub mod sessions;
pub mod text;
pub mod turns;
pub mod writer;
