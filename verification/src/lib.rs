//! Feed list expansion, item extraction and notification bookkeeping for an
//! RSS/Atom watcher.

use vstd::prelude::*;

pub mod text;
pub mod combine;
pub mod number;
pub mod error;
pub use error::{Error, Result};
pub mod config;
pub use config::{Config, Feed, Value};
pub mod feeds;
pub mod timestamp;
pub use timestamp::Timestamp;
pub mod item;
pub use item::{Element, Toastable};
pub mod notify;

verus! {

} // verus!
