//! The two sentinel characters that frame every word.

use vstd::prelude::*;

verus! {

/// Marks the start of a word; it labels the root of the trie.
pub const STARTCHAR: char = '^';

/// Marks the end of a word.
pub const ENDCHAR: char = '$';

} // verus!
