//! A typing-speed trainer engine.
//!
//! The engine owns a fixed target phrase and classifies every keystroke the
//! user types against it: an exact match, a mismatch the cursor moves past,
//! an inserted "extension" character typed before a target space, or a
//! whole-word skip triggered by an early space. Backspace undoes each of
//! these classifications. The terminal front end that feeds keystrokes in
//! and renders the coloured comparison lives outside this crate.

use vstd::prelude::*;
use vstd::string::StringSliceAdditionalSpecFns;

mod clock;
pub mod engine;
pub mod laws;

verus! {

/// Reads the byte at position `i` of `string` as a character.
///
/// The engine works on single-byte character positions, so this is the
/// primitive lookup the whole crate builds on.
pub fn str_index(string: &str, i: usize) -> (c: char)
    requires
        i < string.spec_bytes().len(),
    ensures
        c as u32 == string.spec_bytes()[i as int] as u32,
{
    string.as_bytes()[i] as char
}

} // verus!
