//! Locates the executables that a build produces, so that test code can
//! invoke them as subprocesses: assembles the build tool's argument list,
//! digests its line-delimited JSON progress stream one line at a time, and
//! keeps a name-indexed map from executable identifier to file-system path.
use vstd::prelude::*;

mod config;
mod index;
mod message;
mod order;
mod stem;

pub use config::BinTestBuilder;
pub use index::missing_executable_message;
pub use index::BinTest;
pub use message::BuildFault;
pub use message::LineMsg;
