//! What every engine offers, and the marker that remembers which engine a
//! directory belongs to.

use vstd::prelude::*;
use crate::error::KvsError;

verus! {

/// A key-value engine. A handle is cheap to clone, clones share one state,
/// and every operation may be called from any worker.
pub trait KvsEngine: Clone + Send + 'static {
    /// Binds `value` to `key`.
    fn set(&self, key: String, value: String) -> Result<(), KvsError>;

    /// The value bound to `key`, if there is one.
    fn get(&self, key: String) -> Result<Option<String>, KvsError>;

    /// Unbinds `key`; fails with `KeyNotFound` where it is not bound.
    fn remove(&self, key: String) -> Result<(), KvsError>;
}

/// Whether a directory may be served with the engine `selected`: it bears no
/// marker yet, or its marker names that engine.
pub fn engine_agrees(marker: &Option<String>, selected: &str) -> (agrees: bool)
    ensures
        agrees == match marker {
            Some(name) => name@ == selected@,
            None => true,
        },
{
    match marker {
        Some(name) => {
            let wanted = selected.to_owned();
            *name == wanted
        },
        None => true,
    }
}

} // verus!
