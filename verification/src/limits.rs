//! Bounds on hostile input, enforced in the core so every binding inherits
//! them instead of each deriving its own defaults.

use vstd::prelude::*;

verus! {

#[derive(Debug, Clone, Copy, PartialEq, Eq)]
pub struct Limits {
    /// The validator recurses, so this is what protects the stack.
    pub max_depth: usize,
    pub max_items: usize,
    pub max_string_bytes: usize,
    pub max_object_keys: usize,
}

/// The highest `max_depth` the engine honours, whatever it is handed.
pub const MAX_DEPTH: usize = 256;

impl Limits {
    /// For trusted input. Depth stays bounded because the stack is.
    pub fn permissive() -> (r: Self)
        ensures
            r == (Limits {
                max_depth: MAX_DEPTH,
                max_items: usize::MAX,
                max_string_bytes: usize::MAX,
                max_object_keys: usize::MAX,
            }),
    {
        Limits {
            max_depth: MAX_DEPTH,
            max_items: usize::MAX,
            max_string_bytes: usize::MAX,
            max_object_keys: usize::MAX,
        }
    }

    /// The limits actually used, with `max_depth` held under [`MAX_DEPTH`].
    pub fn clamped(self) -> (r: Self)
        ensures
            r.max_depth == if self.max_depth > MAX_DEPTH { MAX_DEPTH } else { self.max_depth },
            r.max_items == self.max_items,
            r.max_string_bytes == self.max_string_bytes,
            r.max_object_keys == self.max_object_keys,
    {
        Limits {
            max_depth: if self.max_depth > MAX_DEPTH { MAX_DEPTH } else { self.max_depth },
            ..self
        }
    }
}

/// The conservative limits, for input from outside.
impl Default for Limits {
    fn default() -> (r: Self)
        ensures
            r == (Limits {
                max_depth: 64,
                max_items: 10_000,
                max_string_bytes: 1_048_576,
                max_object_keys: 1_000,
            }),
    {
        Limits { max_depth: 64, max_items: 10_000, max_string_bytes: 1_048_576, max_object_keys: 1_000 }
    }
}

} // verus!
