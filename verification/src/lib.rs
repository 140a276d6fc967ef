//! A personal habit and task tracker's core: the in-memory task store with
//! its invariants, the per-day completion log, the text format of the
//! backing file with a proved round trip, and the file-backed database's
//! initialization state machine. File reads and writes, the clock, and the
//! command-line surface live outside this crate and talk to it in plain
//! values.
pub mod num;
pub mod day;
pub mod store;
pub mod codec;
pub mod db;
