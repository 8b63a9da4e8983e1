//! Configuration and routing logic of a desktop client for the trojan proxy
//! protocol: share-URL parsing, configuration records, executable search,
//! configuration-file selection and the proxy worker's state machine.

pub mod url;
pub mod config;
pub mod paths;
pub mod proxy;
pub mod outbound;
