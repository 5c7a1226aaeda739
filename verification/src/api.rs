//! The interface of a keyed store built on the objects.

use crate::object::Object;
use vstd::prelude::*;

verus! {

/// A store that files contents under keys and keeps their history.
pub trait API {
    /// Files each content under its key; gives the hash that each key
    /// now stands for.
    fn put(&mut self, changes: Vec<(String, Vec<u8>)>) -> Result<
        Vec<(String, crate::object::Hash)>,
        String,
    >;

    /// The object that stood under `key` at `time`, or stands there now
    /// where no time is given.
    fn get(&self, key: String, time: Option<u64>) -> Option<Box<Object>>;
}

} // verus!
