//! Compute passes: recording their commands, and running them on a command buffer.
//!
//! A [`pass::ComputePass`] is recorded without looking at any object. When it is run, by
//! [`global::Global::command_encoder_run_compute_pass`], its commands find their objects, are checked
//! one after the other, and turn into calls on a graphics backend. The library never talks to the
//! backend: it writes down the calls as values ([`raw`]), and tells whoever drives the backend when a
//! stretch of encoding has to begin or to end.
//!
//! What recording and running do is told twice. The contracts of the functions say what each of them
//! does, step by step. Laws say it from the outside. The modules [`verdicts`], [`readiness`],
//! [`upload`], [`handover`], [`tracking`] and [`lookup`] say which commands succeed, with which error
//! the others end, and what they leave behind. The module [`history`] says what follows for a recorded
//! pass, and the modules [`warrant`], [`nesting`], [`binding`], [`barrier`], [`exclusion`],
//! [`clearing`], [`zeroing`], [`lifetime`], [`replay`], [`transcript`], [`labels`], [`outcome`],
//! [`rehearsal`] and [`progress`] say what follows for a run as a whole.
pub mod barrier;
pub mod bind;
pub mod binding;
pub mod clearing;
pub mod command;
pub mod command_buffer;
pub mod compute_commands;
pub mod error;
pub mod exclusion;
pub mod global;
pub mod handover;
pub mod history;
pub mod hub;
pub mod id;
pub mod init_tracker;
pub mod labels;
pub mod lifetime;
pub mod lookup;
pub mod memory_init;
pub mod nesting;
pub mod outcome;
pub mod pass;
pub mod progress;
pub mod push_constant;
pub mod query;
pub mod raw;
pub mod readiness;
pub mod rehearsal;
pub mod replay;
pub mod resource;
pub mod run;
pub mod state;
pub mod state_change;
pub mod storage;
pub mod trace;
pub mod track;
pub mod tracking;
pub mod transcript;
pub mod types;
pub mod upload;
pub mod usage;
pub mod verdicts;
pub mod warrant;
pub mod zeroing;
