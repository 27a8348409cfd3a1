//! Forge keeps the decisions of a project and the forces that they rest on, as
//! plain Markdown files, and tells which decisions have lost their premises.
//!
//! A *force* is a fact about the world that holds until it changes or is
//! retired. A *decision* cites forces, and forces depend on each other. Where a
//! force falls, every decision that rests on it, directly or over other forces,
//! is stale.
//!
//! The way of a corpus through the library is [`discovery`] (which files are
//! records), [`record`] (reading them), [`linker`] (resolving their references),
//! [`graph`] (looking them up), [`judge`] (the verdicts), and [`snapshot`] (all of
//! it, with vectors for [`recall`]). [`guardian`] and [`commit`] decide what is
//! written, and [`server`] what each request is answered.
//!
//! Files, vectors of floating-point numbers and the network are outside: the
//! library takes what was read, and hands back what is to be written.
pub mod chars;
pub mod commit;
pub mod config;
pub mod cycles;
pub mod discovery;
pub mod embed;
pub mod graph;
pub mod guardian;
pub mod ids;
pub mod inspect;
pub mod judge;
pub mod linker;
pub mod logging;
pub mod order;
pub mod paths;
pub mod readback;
pub mod recall;
pub mod record;
pub mod report;
pub mod resolve;
pub mod scaffold;
pub mod score;
pub mod serialize;
pub mod server;
pub mod snapshot;
pub mod text;
