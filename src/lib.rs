//! A shared grid kept in sync between many clients: a binary codec, the
//! versioned wire protocol built on it, the grid that is the world state, and
//! the engine that applies clients' mutations and decides what each session
//! is sent.

pub mod binary_io;
pub mod chat;
pub mod grid;
pub mod log;
pub mod messages;
pub mod server;
