//! The engine's laws: properties of the transition rules, proved once over
//! the mathematical state so they hold of every engine.

use vstd::prelude::*;
use crate::engine::{
    Model, SPACE, char_matches, init_model, skip_boundary, lemma_skip_boundary,
    spec_handle_char, spec_handle_backspace,
};

verus! {

/// The state reached by feeding the keystrokes `cs`, in order, to `m`.
pub open spec fn apply_chars(m: Model, cs: Seq<char>) -> Model
    decreases cs.len(),
{
    if cs.len() == 0 {
        m
    } else {
        apply_chars(spec_handle_char(m, cs[0]), cs.drop_first())
    }
}

/// An engine state over `text` at cursor `k` with nothing recorded.
pub open spec fn clean_model(text: Seq<u8>, k: int, started: bool) -> Model {
    Model {
        text: text,
        started: started,
        cursor: k,
        mismatches: Set::empty(),
        extensions: Map::empty(),
        skips: Map::empty(),
    }
}

proof fn lemma_exact_from(text: Seq<u8>, cs: Seq<char>, k: int, started: bool)
    requires
        cs.len() == text.len(),
        0 <= k <= text.len(),
        forall|j: int| 0 <= j < cs.len() ==> char_matches(#[trigger] cs[j], text[j]),
    ensures
        ({
            let f = apply_chars(clean_model(text, k, started), cs.skip(k));
            &&& f.cursor == text.len()
            &&& f.mismatches == Set::<int>::empty()
            &&& f.extensions == Map::<int, Seq<char>>::empty()
            &&& f.skips == Map::<int, int>::empty()
            &&& f.complete()
        }),
    decreases text.len() - k,
{
    if k == text.len() {
        assert(cs.skip(k).len() == 0);
    } else {
        let m = clean_model(text, k, started);
        let c = cs[k];
        assert(cs.skip(k)[0] == c);
        assert(char_matches(c, text[k]));
        assert(!(c == ' ' && text[k] != SPACE));
        assert(spec_handle_char(m, c) =~= clean_model(text, k + 1, true));
        assert(cs.skip(k).drop_first() =~= cs.skip(k + 1));
        lemma_exact_from(text, cs, k + 1, true);
    }
}

/// Keystrokes that reproduce the target exactly, character by character,
/// leave the cursor at the end of the text with no mismatch, extension or
/// skip recorded, and the engine complete.
pub proof fn lemma_exact_reproduction(text: Seq<u8>, cs: Seq<char>)
    requires
        cs.len() == text.len(),
        forall|j: int| 0 <= j < cs.len() ==> char_matches(#[trigger] cs[j], text[j]),
    ensures
        ({
            let f = apply_chars(init_model(text), cs);
            &&& f.cursor == text.len()
            &&& f.mismatches == Set::<int>::empty()
            &&& f.extensions == Map::<int, Seq<char>>::empty()
            &&& f.skips == Map::<int, int>::empty()
            &&& f.complete()
        }),
{
    lemma_exact_from(text, cs, 0, false);
    assert(cs.skip(0) =~= cs);
    assert(init_model(text) =~= clean_model(text, 0, false));
}

/// A keystroke never moves the cursor backwards.
pub proof fn lemma_cursor_never_decreases(m: Model, c: char)
    requires
        m.wf(),
        !m.complete(),
    ensures
        spec_handle_char(m, c).cursor >= m.cursor,
{
    if c == ' ' && m.text[m.cursor] != SPACE {
        lemma_skip_boundary(m.text, m.cursor);
    }
}

/// A wrong keystroke never moves the cursor backwards, and on an ordinary
/// mismatch — no pending extension, no early space, no target space —
/// records exactly the cursor position as one new mismatch. A keystroke
/// captured by a pending extension, one that opens an extension before a
/// target space, and an early space that skips a word record no mismatch
/// at all.
pub proof fn lemma_wrong_char_mismatch(m: Model, c: char)
    requires
        m.wf(),
        !m.complete(),
        !char_matches(c, m.text[m.cursor]),
    ensures
        spec_handle_char(m, c).cursor >= m.cursor,
        m.extensions.dom().contains(m.cursor)
            ==> spec_handle_char(m, c).mismatches == m.mismatches,
        (!m.extensions.dom().contains(m.cursor) && c != ' ' && m.text[m.cursor] != SPACE)
            ==> ({
                let m2 = spec_handle_char(m, c);
                &&& m2.mismatches == m.mismatches.insert(m.cursor)
                &&& !m.mismatches.contains(m.cursor)
                    ==> m2.mismatches.len() == m.mismatches.len() + 1
            }),
        (!m.extensions.dom().contains(m.cursor) && c != ' ' && m.text[m.cursor] == SPACE)
            ==> spec_handle_char(m, c).mismatches == m.mismatches,
        c == ' ' ==> spec_handle_char(m, c).mismatches == m.mismatches,
{
    lemma_cursor_never_decreases(m, c);
}

/// An early space — pressed while the target character at the cursor is
/// not a space — records exactly one skip entry, from the old cursor to
/// the first space at or after it (or the last position when none
/// remains), and moves the cursor strictly past that boundary; when no
/// space remains at all, the cursor lands on the text length. No mismatch
/// and no extension is recorded.
pub proof fn lemma_space_skip(m: Model)
    requires
        m.wf(),
        !m.complete(),
        m.text[m.cursor] != SPACE,
    ensures
        ({
            let b = skip_boundary(m.text, m.cursor);
            let m2 = spec_handle_char(m, ' ');
            &&& m.cursor <= b < m.text.len()
            &&& forall|j: int| m.cursor <= j < b ==> m.text[j] != SPACE
            &&& m.text[b] == SPACE || b == m.text.len() - 1
            &&& m2.cursor == b + 1
            &&& m2.cursor > m.cursor
            &&& m2.skips == m.skips.insert(b, m.cursor)
            &&& !m.skips.dom().contains(b)
                ==> m2.skips.dom().len() == m.skips.dom().len() + 1
            &&& m2.mismatches == m.mismatches
            &&& m2.extensions == m.extensions
            &&& (forall|j: int| m.cursor <= j < m.text.len() ==> m.text[j] != SPACE)
                ==> m2.cursor == m.text.len()
        }),
{
    lemma_skip_boundary(m.text, m.cursor);
    let b = skip_boundary(m.text, m.cursor);
    let m2 = spec_handle_char(m, ' ');
    assert(m2.skips.dom() =~= m.skips.dom().insert(b));
    if forall|j: int| m.cursor <= j < m.text.len() ==> m.text[j] != SPACE {
        assert(m.text[b] != SPACE);
    }
}

/// Backspace undoes the immediately preceding keystroke: cursor,
/// mismatches, extensions and skips all return to their values before it.
///
/// Two keystrokes leave a trace a backspace cannot undo and are left out:
/// a space pressed in the last word when no target space remains ahead
/// (its skip ends on a final non-space position, which a later backspace
/// steps over rather than restores), and a mismatch at a position that
/// somehow already carried one.
pub proof fn lemma_backspace_undoes_char(m: Model, c: char)
    requires
        m.wf(),
        !m.complete(),
        (c == ' ' && m.text[m.cursor] != SPACE)
            ==> m.text[skip_boundary(m.text, m.cursor)] == SPACE,
        (c != ' ' && !m.extensions.dom().contains(m.cursor) && m.text[m.cursor] != SPACE)
            ==> !m.mismatches.contains(m.cursor),
    ensures
        ({
            let m2 = spec_handle_backspace(spec_handle_char(m, c));
            &&& m2.text == m.text
            &&& m2.cursor == m.cursor
            &&& m2.mismatches == m.mismatches
            &&& m2.extensions == m.extensions
            &&& m2.skips == m.skips
        }),
{
    let m1 = spec_handle_char(m, c);
    let m2 = spec_handle_backspace(m1);
    if c == ' ' && m.text[m.cursor] != SPACE {
        lemma_skip_boundary(m.text, m.cursor);
        let b = skip_boundary(m.text, m.cursor);
        // a skip already ending on that space would sit behind the cursor
        assert(!m.skips.dom().contains(b));
        assert(!m.extensions.dom().contains(b + 1));
        assert(m1.skips[b] == m.cursor);
        assert(m2.skips =~= m.skips);
    } else if m.extensions.dom().contains(m.cursor) {
        let e = m.extensions[m.cursor];
        assert(e.len() > 0);
        assert(e.push(c).drop_last() =~= e);
        assert(m1.extensions.dom().contains(m1.cursor));
        assert(m2.extensions =~= m.extensions);
    } else if char_matches(c, m.text[m.cursor]) {
        assert(!m1.extensions.dom().contains(m1.cursor));
        if m.text[m.cursor] == SPACE {
            // a correctly matched space: no skip ended on it and no
            // mismatch sits on it, so stepping back restores the state
            assert(!m1.skips.dom().contains(m.cursor));
            assert(!m.mismatches.contains(m.cursor));
        }
        assert(m2.mismatches =~= m.mismatches);
    } else if m.text[m.cursor] == SPACE {
        assert(m1.extensions.dom().contains(m1.cursor));
        assert(seq![c].drop_last().len() == 0);
        assert(m2.extensions =~= m.extensions);
    } else {
        assert(!m1.extensions.dom().contains(m1.cursor));
        assert(m2.mismatches =~= m.mismatches);
    }
}

} // verus!
