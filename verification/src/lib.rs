//! File-access monitor: the event ABI shared by the kernel program and the
//! daemon, the syscall catalog and configuration validation, the decisions
//! the kernel program takes per syscall, the hash-chained event log kept in
//! an Automerge document, and the control socket's protocol and formats.

pub mod abi;
pub mod catalog;
pub mod rules;
pub mod config;
pub mod table;
pub mod events;
pub mod text;
pub mod cli;
pub mod kernel;
pub mod ring;
pub mod base64;
pub mod ctl;
pub mod handler;
pub mod elf;
pub mod ipc;
pub mod names;
pub mod settings;
pub mod store;
