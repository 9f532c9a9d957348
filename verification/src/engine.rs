//! The typing engine: a cursor over a fixed target phrase together with
//! three overlays that classify every position the cursor has passed.
//!
//! `Model` is the mathematical view of an engine: the target bytes, the
//! cursor, the set of mismatched positions, the pending extension characters
//! keyed by the target space they precede, and the recorded word skips keyed
//! by the boundary index they ended on. `spec_handle_char` and
//! `spec_handle_backspace` give the transition rules once, at the
//! specification level; the executable methods are proved to follow them
//! exactly.

use vstd::prelude::*;
use vstd::string::StringSliceAdditionalSpecFns;
use crate::clock;

verus! {

/// The byte the engine treats as the word separator.
pub const SPACE: u8 = 32;

/// The mathematical state of an engine.
#[verifier::ext_equal]
pub struct Model {
    /// The fixed target phrase, one byte per character position.
    pub text: Seq<u8>,
    /// Whether the session clock has been started by a first keystroke.
    pub started: bool,
    /// The position the engine expects to match next; `text.len()` means done.
    pub cursor: int,
    /// Positions that were typed wrong and passed anyway.
    pub mismatches: Set<int>,
    /// Characters typed before a target space was matched, keyed by the
    /// position of that space.
    pub extensions: Map<int, Seq<char>>,
    /// Word skips: the boundary position a skip ended on, mapped to the
    /// cursor position the skip started from.
    pub skips: Map<int, int>,
}

impl Model {
    /// Every state the engine can actually be in satisfies this.
    pub open spec fn wf(self) -> bool {
        &&& 0 <= self.cursor <= self.text.len()
        &&& self.mismatches.finite()
        &&& self.extensions.dom().finite()
        &&& self.skips.dom().finite()
        &&& forall|k: int| #[trigger]
            self.mismatches.contains(k)
                ==> 0 <= k < self.text.len() && self.text[k] != SPACE
        &&& forall|k: int| #[trigger]
            self.extensions.dom().contains(k)
                ==> k == self.cursor && 0 <= k < self.text.len() && self.text[k] == SPACE
                    && self.extensions[k].len() > 0
        &&& forall|k: int| #[trigger]
            self.skips.dom().contains(k)
                ==> 0 <= self.skips[k] <= k < self.text.len()
                    && (self.text[k] == SPACE ==> k < self.cursor)
        &&& forall|k: int, j: int|
            #![trigger self.skips.dom().contains(k), self.text[j]]
            self.skips.dom().contains(k) && self.skips[k] <= j < k ==> self.text[j] != SPACE
    }

    /// The whole phrase has been consumed.
    pub open spec fn complete(self) -> bool {
        self.cursor >= self.text.len()
    }
}

/// The state of a freshly constructed engine over `text`.
pub open spec fn init_model(text: Seq<u8>) -> Model {
    Model {
        text: text,
        started: false,
        cursor: 0,
        mismatches: Set::empty(),
        extensions: Map::empty(),
        skips: Map::empty(),
    }
}

/// The typed character `c` counts as a reproduction of target byte `b`.
pub open spec fn char_matches(c: char, b: u8) -> bool {
    c as u32 == b as u32
}

/// Where a space pressed at `from` lands: the first space at or after
/// `from`, or the last position of the text when no space remains.
pub open spec fn skip_boundary(text: Seq<u8>, from: int) -> int
    decreases text.len() - from,
{
    if from >= text.len() - 1 {
        from
    } else if text[from] == SPACE {
        from
    } else {
        skip_boundary(text, from + 1)
    }
}

pub proof fn lemma_skip_boundary(text: Seq<u8>, from: int)
    requires
        0 <= from < text.len(),
    ensures
        from <= skip_boundary(text, from) < text.len(),
        forall|j: int| from <= j < skip_boundary(text, from) ==> text[j] != SPACE,
        text[skip_boundary(text, from)] == SPACE || skip_boundary(text, from) == text.len() - 1,
    decreases text.len() - from,
{
    if from >= text.len() - 1 {
    } else if text[from] == SPACE {
    } else {
        lemma_skip_boundary(text, from + 1);
    }
}

/// The transition a printable keystroke `c` makes on state `m`.
///
/// The branches are a priority order: an early space skips the unfinished
/// word; a pending extension captures every further keystroke; an exact
/// match advances; a non-space against a target space opens an extension;
/// anything else is a mismatch the cursor moves past.
pub open spec fn spec_handle_char(m: Model, c: char) -> Model {
    let m1 = Model { started: true, ..m };
    if c == ' ' && m.text[m.cursor] != SPACE {
        let b = skip_boundary(m.text, m.cursor);
        Model { cursor: b + 1, skips: m.skips.insert(b, m.cursor), ..m1 }
    } else if m.extensions.dom().contains(m.cursor) {
        Model {
            extensions: m.extensions.insert(m.cursor, m.extensions[m.cursor].push(c)),
            ..m1
        }
    } else if char_matches(c, m.text[m.cursor]) {
        Model { cursor: m.cursor + 1, ..m1 }
    } else if m.text[m.cursor] == SPACE {
        Model { extensions: m.extensions.insert(m.cursor, seq![c]), ..m1 }
    } else {
        Model { cursor: m.cursor + 1, mismatches: m.mismatches.insert(m.cursor), ..m1 }
    }
}

/// The transition backspace makes on state `m`: the inverse priority order.
///
/// A pending extension loses its last character; at the start of the text
/// nothing happens; a space just behind the cursor that ended a recorded
/// skip undoes that skip; otherwise the cursor steps back and clears any
/// mismatch at the position it lands on.
pub open spec fn spec_handle_backspace(m: Model) -> Model {
    if m.extensions.dom().contains(m.cursor) {
        let shortened = m.extensions[m.cursor].drop_last();
        if shortened.len() == 0 {
            Model { extensions: m.extensions.remove(m.cursor), ..m }
        } else {
            Model { extensions: m.extensions.insert(m.cursor, shortened), ..m }
        }
    } else if m.cursor == 0 {
        m
    } else if m.text[m.cursor - 1] == SPACE && m.skips.dom().contains(m.cursor - 1) {
        Model {
            cursor: m.skips[m.cursor - 1],
            skips: m.skips.remove(m.cursor - 1),
            ..m
        }
    } else {
        Model {
            cursor: m.cursor - 1,
            mismatches: m.mismatches.remove(m.cursor - 1),
            ..m
        }
    }
}

/// A keystroke keeps the engine state well formed.
pub proof fn lemma_handle_char_preserves_wf(m: Model, c: char)
    requires
        m.wf(),
        !m.complete(),
    ensures
        spec_handle_char(m, c).wf(),
{
    if c == ' ' && m.text[m.cursor] != SPACE {
        lemma_skip_boundary(m.text, m.cursor);
        let b = skip_boundary(m.text, m.cursor);
        let m2 = spec_handle_char(m, c);
        assert forall|k: int, j: int|
            m2.skips.dom().contains(k) && m2.skips[k] <= j < k implies m2.text[j]
            != SPACE by {
            if k == b {
            } else {
                assert(m.skips.dom().contains(k) && m.text[j] == m2.text[j]);
            }
        }
    }
}

/// A backspace keeps the engine state well formed.
pub proof fn lemma_handle_backspace_preserves_wf(m: Model)
    requires
        m.wf(),
    ensures
        spec_handle_backspace(m).wf(),
{
    let m2 = spec_handle_backspace(m);
    if m.extensions.dom().contains(m.cursor) {
    } else if m.cursor == 0 {
    } else if m.text[m.cursor - 1] == SPACE && m.skips.dom().contains(m.cursor - 1) {
        // the undone skip's span holds no space, so every other skip that
        // ended on a space lies behind the restored cursor
        let s = m.skips[m.cursor - 1];
        assert forall|k: int|
            m2.skips.dom().contains(k) && m2.text[k] == SPACE implies k < m2.cursor by {
            assert(m.skips.dom().contains(k) && k < m.cursor);
            if s <= k < m.cursor - 1 {
                assert(m.skips.dom().contains(m.cursor - 1) && m.text[k] != SPACE);
            }
        }
        assert forall|k: int, j: int|
            m2.skips.dom().contains(k) && m2.skips[k] <= j < k implies m2.text[j]
            != SPACE by {
            assert(m.skips.dom().contains(k) && m.text[j] == m2.text[j]);
        }
    } else {
    }
}

/// The bytes `split_whitespace` would break words on, over ASCII text.
pub open spec fn is_whitespace_byte(b: u8) -> bool {
    b == 9 || b == 10 || b == 11 || b == 12 || b == 13 || b == 32
}

/// The number of whitespace-delimited words in `s` from position `i` on,
/// given whether position `i - 1` sat inside a word.
pub open spec fn word_count_from(s: Seq<u8>, i: int, in_word: bool) -> nat
    decreases s.len() - i,
{
    if i < 0 || i >= s.len() {
        0
    } else {
        let w = !is_whitespace_byte(s[i]);
        (if w && !in_word {
            1nat
        } else {
            0nat
        }) + word_count_from(s, i + 1, w)
    }
}

/// The number of whitespace-delimited words in `s`.
pub open spec fn word_count(s: Seq<u8>) -> nat {
    word_count_from(s, 0, false)
}

/// How one target position is presented: not yet reached, consumed and
/// right, consumed and wrong (a mismatch or part of a skipped word), under
/// the cursor, or carrying pending extension characters.
#[derive(Clone, Copy, PartialEq, Eq, Structural, Debug)]
pub enum CharClass {
    Pending,
    Correct,
    Incorrect,
    Active,
    Extended,
}

/// Position `k` lies inside the span some recorded skip jumped over,
/// endpoints included.
pub open spec fn in_skip_range(m: Model, k: int) -> bool {
    exists|e: int| #[trigger] m.skips.dom().contains(e) && m.skips[e] <= k <= e
}

/// How position `k` of the target is classified for rendering in state `m`.
pub open spec fn spec_classify(m: Model, k: int) -> CharClass {
    if m.extensions.dom().contains(k) {
        CharClass::Extended
    } else if k < m.cursor {
        if m.mismatches.contains(k) || in_skip_range(m, k) {
            CharClass::Incorrect
        } else {
            CharClass::Correct
        }
    } else if k == m.cursor {
        CharClass::Active
    } else {
        CharClass::Pending
    }
}

/// Finds the position a space pressed at `from` jumps the cursor to,
/// scanning forward for the next space exactly as `skip_boundary` does.
fn find_boundary(text: &Vec<u8>, from: usize) -> (b: usize)
    requires
        from < text@.len(),
    ensures
        b as int == skip_boundary(text@, from as int),
        from <= b < text@.len(),
{
    let mut j = from;
    while text[j] != SPACE && j < text.len() - 1
        invariant
            from <= j < text@.len(),
            skip_boundary(text@, from as int) == skip_boundary(text@, j as int),
        decreases text@.len() - j,
    {
        proof {
            assert(skip_boundary(text@, j as int) == skip_boundary(text@, j + 1));
        }
        j = j + 1;
    }
    proof {
        assert(skip_boundary(text@, j as int) == j);
    }
    j
}

/// The typing engine over one target phrase.
pub struct State {
    start: Option<std::time::Instant>,
    text: Vec<u8>,
    i: usize,
    mismatch: Vec<bool>,
    ext: Vec<char>,
    skip_start: Vec<Option<usize>>,
}

impl View for State {
    type V = Model;

    closed spec fn view(&self) -> Model {
        Model {
            text: self.text@,
            started: self.start is Some,
            cursor: self.i as int,
            mismatches: Set::new(|k: int| 0 <= k < self.mismatch@.len() && self.mismatch@[k]),
            extensions: if self.ext@.len() > 0 {
                Map::empty().insert(self.i as int, self.ext@)
            } else {
                Map::empty()
            },
            skips: Map::new(
                |k: int| 0 <= k < self.skip_start@.len() && self.skip_start@[k] is Some,
                |k: int| self.skip_start@[k].unwrap() as int,
            ),
        }
    }
}

impl State {
    /// The invariant every public method preserves: the overlay vectors
    /// cover the text, and the mathematical state is well formed.
    pub closed spec fn wf(&self) -> bool {
        &&& self.mismatch@.len() == self.text@.len()
        &&& self.skip_start@.len() == self.text@.len()
        &&& self@.wf()
    }

    /// A well-formed engine has a well-formed mathematical state.
    pub proof fn lemma_wf_model(&self)
        requires
            self.wf(),
        ensures
            self@.wf(),
    {
    }

    /// Builds an engine over `text` with the cursor at the start, no
    /// classifications recorded and the clock not yet running.
    ///
    /// The engine works on single-byte character positions, so the caller
    /// must hand it ASCII text; anything else is a misuse of the
    /// construction contract, not a runtime condition.
    pub fn new(text: &str) -> (s: Self)
        requires
            text.is_ascii(),
        ensures
            s.wf(),
            s@ == init_model(text.spec_bytes()),
    {
        let raw = text.as_bytes();
        let n = raw.len();
        let mut bytes: Vec<u8> = Vec::new();
        let mut mismatch: Vec<bool> = Vec::new();
        let mut skip_start: Vec<Option<usize>> = Vec::new();
        let mut k: usize = 0;
        while k < n
            invariant
                k <= n,
                n == raw@.len(),
                raw@ == text.spec_bytes(),
                bytes@ =~= raw@.take(k as int),
                mismatch@ =~= Seq::new(k as nat, |j: int| false),
                skip_start@ =~= Seq::new(k as nat, |j: int| None::<usize>),
            decreases n - k,
        {
            bytes.push(raw[k]);
            mismatch.push(false);
            skip_start.push(None);
            k = k + 1;
        }
        proof {
            assert(bytes@ =~= text.spec_bytes());
        }
        let s = State { start: None, text: bytes, i: 0, mismatch, ext: Vec::new(), skip_start };
        proof {
            assert(s@.mismatches =~= Set::empty());
            assert(s@.skips =~= Map::empty());
            assert(s@ =~= init_model(text.spec_bytes()));
            assert(s@.wf());
        }
        s
    }

    /// Consumes one printable keystroke, starting the session clock on the
    /// first one, and applies the transition `spec_handle_char` describes.
    pub fn handle_char(&mut self, c: char)
        requires
            old(self).wf(),
            !old(self)@.complete(),
        ensures
            final(self).wf(),
            final(self)@ == spec_handle_char(old(self)@, c),
    {
        let ghost m0 = self@;
        if self.start.is_none() {
            self.start = Some(clock::monotonic_now());
        }
        proof {
            // the cursor and the skip boundary stay below the vector length,
            // so advancing past either fits in usize
            vstd::std_specs::vec::axiom_spec_len(&self.text);
        }
        let target = self.text[self.i];
        if c == ' ' && target != SPACE {
            proof {
                if self.ext@.len() > 0 {
                    assert(m0.extensions.dom().contains(m0.cursor));
                }
                assert(self.ext@.len() == 0);
            }
            let b = find_boundary(&self.text, self.i);
            let start = self.i;
            self.skip_start[b] = Some(start);
            self.i = b + 1;
            proof {
                assert(self@.skips =~= m0.skips.insert(b as int, start as int));
                assert(self@ =~= spec_handle_char(m0, c));
                lemma_handle_char_preserves_wf(m0, c);
            }
            return;
        }
        if self.ext.len() > 0 {
            self.ext.push(c);
            proof {
                assert(self@.extensions =~= m0.extensions.insert(
                    m0.cursor,
                    m0.extensions[m0.cursor].push(c),
                ));
                assert(self@ =~= spec_handle_char(m0, c));
                lemma_handle_char_preserves_wf(m0, c);
            }
            return;
        }
        if c as u32 == target as u32 {
            self.i = self.i + 1;
            proof {
                assert(self@ =~= spec_handle_char(m0, c));
                lemma_handle_char_preserves_wf(m0, c);
            }
            return;
        }
        if target == SPACE {
            self.ext.push(c);
            proof {
                assert(self.ext@ =~= seq![c]);
                assert(self@.extensions =~= m0.extensions.insert(m0.cursor, seq![c]));
                assert(self@ =~= spec_handle_char(m0, c));
                lemma_handle_char_preserves_wf(m0, c);
            }
            return;
        }
        self.mismatch[self.i] = true;
        self.i = self.i + 1;
        proof {
            assert(self@.mismatches =~= m0.mismatches.insert(m0.cursor));
            assert(self@ =~= spec_handle_char(m0, c));
            lemma_handle_char_preserves_wf(m0, c);
        }
    }

    /// Undoes the most recent classification at the cursor, as
    /// `spec_handle_backspace` describes; at the start of the text with
    /// nothing pending it does nothing.
    pub fn handle_backspace(&mut self)
        requires
            old(self).wf(),
        ensures
            final(self).wf(),
            final(self)@ == spec_handle_backspace(old(self)@),
    {
        let ghost m0 = self@;
        if self.ext.len() > 0 {
            self.ext.pop();
            proof {
                if self.ext@.len() == 0 {
                    assert(self@.extensions =~= m0.extensions.remove(m0.cursor));
                } else {
                    assert(self@.extensions =~= m0.extensions.insert(
                        m0.cursor,
                        m0.extensions[m0.cursor].drop_last(),
                    ));
                }
                assert(self@ =~= spec_handle_backspace(m0));
                lemma_handle_backspace_preserves_wf(m0);
            }
            return;
        }
        if self.i == 0 {
            return;
        }
        if self.text[self.i - 1] == SPACE {
            if let Some(start) = self.skip_start[self.i - 1] {
                self.skip_start[self.i - 1] = None;
                self.i = start;
                proof {
                    assert(self@.skips =~= m0.skips.remove(m0.cursor - 1));
                    assert(self@ =~= spec_handle_backspace(m0));
                    lemma_handle_backspace_preserves_wf(m0);
                }
                return;
            }
        }
        self.i = self.i - 1;
        self.mismatch[self.i] = false;
        proof {
            assert(self@.mismatches =~= m0.mismatches.remove(m0.cursor - 1));
            assert(self@ =~= spec_handle_backspace(m0));
            lemma_handle_backspace_preserves_wf(m0);
        }
    }

    /// True once the cursor has consumed the whole phrase.
    pub fn should_exit(&self) -> (r: bool)
        ensures
            r == self@.complete(),
    {
        self.i >= self.text.len()
    }

    /// The position the engine expects to match next.
    pub fn cursor(&self) -> (r: usize)
        ensures
            r == self@.cursor,
    {
        self.i
    }

    /// The length of the target phrase.
    pub fn target_len(&self) -> (r: usize)
        ensures
            r == self@.text.len(),
    {
        self.text.len()
    }

    /// Whether a first keystroke has started the session clock.
    pub fn started(&self) -> (r: bool)
        ensures
            r == self@.started,
    {
        self.start.is_some()
    }

    /// Milliseconds since the session clock started, or `None` before the
    /// first keystroke.
    pub fn elapsed_millis(&self) -> (r: Option<u64>)
        ensures
            r is Some <==> self@.started,
    {
        match &self.start {
            Some(started_at) => Some(clock::millis_since(started_at)),
            None => None,
        }
    }

    /// Whether position `k` is recorded as a mismatch.
    pub fn mismatch_at(&self, k: usize) -> (r: bool)
        requires
            self.wf(),
            k < self@.text.len(),
        ensures
            r == self@.mismatches.contains(k as int),
    {
        self.mismatch[k]
    }

    /// The recorded start of a skip that ended at position `k`, if any.
    pub fn skip_at(&self, k: usize) -> (r: Option<usize>)
        requires
            self.wf(),
            k < self@.text.len(),
        ensures
            r is Some <==> self@.skips.dom().contains(k as int),
            r is Some ==> r.unwrap() as int == self@.skips[k as int],
    {
        self.skip_start[k]
    }

    /// The extension characters pending at position `k`, if any.
    pub fn extension_at(&self, k: usize) -> (r: Option<Vec<char>>)
        requires
            self.wf(),
        ensures
            r is Some <==> self@.extensions.dom().contains(k as int),
            r is Some ==> r.unwrap()@ == self@.extensions[k as int],
    {
        if self.ext.len() > 0 && k == self.i {
            let mut out: Vec<char> = Vec::new();
            let mut j: usize = 0;
            while j < self.ext.len()
                invariant
                    j <= self.ext@.len(),
                    out@ =~= self.ext@.take(j as int),
                decreases self.ext@.len() - j,
            {
                out.push(self.ext[j]);
                j = j + 1;
            }
            proof {
                assert(out@ =~= self.ext@);
            }
            Some(out)
        } else {
            None
        }
    }

    /// The number of whitespace-delimited words the cursor has passed,
    /// counted over the consumed prefix of the target.
    pub fn words_completed(&self) -> (r: usize)
        requires
            self.wf(),
        ensures
            r == word_count(self@.text.take(self@.cursor)),
    {
        let ghost prefix = self@.text.take(self@.cursor);
        let mut count: usize = 0;
        let mut in_word = false;
        let mut k: usize = 0;
        while k < self.i
            invariant
                self.wf(),
                k <= self.i <= self.text@.len(),
                count <= k,
                prefix == self@.text.take(self@.cursor),
                prefix.len() == self.i as int,
                count + word_count_from(prefix, k as int, in_word) == word_count(prefix),
            decreases self.i - k,
        {
            let b = self.text[k];
            let w = !(b == 9 || b == 10 || b == 11 || b == 12 || b == 13 || b == 32);
            proof {
                assert(prefix[k as int] == self@.text[k as int]);
                assert(word_count_from(prefix, k as int, in_word) == (
                    if w && !in_word {
                        1nat
                    } else {
                        0nat
                    }
                ) + word_count_from(prefix, k + 1, w));
            }
            if w && !in_word {
                count = count + 1;
            }
            in_word = w;
            k = k + 1;
        }
        count
    }

    /// Position `k` lies inside the span of some recorded skip.
    fn in_any_skip(&self, k: usize) -> (r: bool)
        requires
            self.wf(),
        ensures
            r == in_skip_range(self@, k as int),
    {
        let mut e: usize = 0;
        while e < self.skip_start.len()
            invariant
                self.wf(),
                e <= self.skip_start@.len(),
                forall|j: int|
                    0 <= j < e ==> !(#[trigger] self@.skips.dom().contains(j)
                        && self@.skips[j] <= k as int <= j),
            decreases self.skip_start@.len() - e,
        {
            if let Some(start) = self.skip_start[e] {
                if start <= k && k <= e {
                    proof {
                        assert(self@.skips.dom().contains(e as int)
                            && self@.skips[e as int] <= k as int <= e as int);
                    }
                    return true;
                }
            }
            e = e + 1;
        }
        proof {
            assert forall|j: int| !(#[trigger] self@.skips.dom().contains(j)
                && self@.skips[j] <= k as int <= j) by {
                if self@.skips.dom().contains(j) {
                    assert(0 <= j < self.skip_start@.len());
                }
            }
        }
        false
    }

    /// How position `k` is presented, following the rendering contract:
    /// pending extensions first, then consumed positions as right or wrong,
    /// the cursor position, and everything beyond it as pending.
    pub fn classify(&self, k: usize) -> (r: CharClass)
        requires
            self.wf(),
            k < self@.text.len(),
        ensures
            r == spec_classify(self@, k as int),
    {
        if self.ext.len() > 0 && k == self.i {
            CharClass::Extended
        } else if k < self.i {
            if self.mismatch[k] || self.in_any_skip(k) {
                CharClass::Incorrect
            } else {
                CharClass::Correct
            }
        } else if k == self.i {
            CharClass::Active
        } else {
            CharClass::Pending
        }
    }
}

} // verus!
