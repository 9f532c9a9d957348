use typing_trainer::engine::{CharClass, State};
use typing_trainer::str_index;

fn type_str(s: &mut State, keys: &str) {
    for c in keys.chars() {
        s.handle_char(c);
    }
}

#[test]
fn perfect_typing_completes() {
    let mut s = State::new("ab cd");
    type_str(&mut s, "ab cd");
    assert_eq!(s.cursor(), 5);
    assert!(s.should_exit());
    for k in 0..5 {
        assert!(!s.mismatch_at(k));
        assert!(s.skip_at(k).is_none());
        assert!(s.extension_at(k).is_none());
    }
}

#[test]
fn mismatch_then_backspace() {
    // target "ab cd": a, b match; the space matches; x against c is a
    // mismatch the cursor moves past; backspace undoes it.
    let mut s = State::new("ab cd");
    type_str(&mut s, "ab");
    assert_eq!(s.cursor(), 2);
    for k in 0..5 {
        assert!(!s.mismatch_at(k));
    }
    s.handle_char(' ');
    assert_eq!(s.cursor(), 3);
    s.handle_char('x');
    assert!(s.mismatch_at(3));
    assert_eq!(s.cursor(), 4);
    s.handle_backspace();
    assert_eq!(s.cursor(), 3);
    for k in 0..5 {
        assert!(!s.mismatch_at(k));
    }
}

#[test]
fn early_space_skips_word() {
    // Space while inside a word jumps past the next target space: one skip
    // entry, no per-character mismatches.
    let mut s = State::new("ab cd");
    s.handle_char(' ');
    assert_eq!(s.cursor(), 3);
    assert_eq!(s.skip_at(2), Some(0));
    for k in 0..5 {
        assert!(!s.mismatch_at(k));
    }
}

#[test]
fn skip_from_mid_word() {
    let mut s = State::new("ab cd");
    s.handle_char('a');
    s.handle_char(' ');
    assert_eq!(s.cursor(), 3);
    assert_eq!(s.skip_at(2), Some(1));
}

#[test]
fn skip_with_no_space_remaining() {
    // No further space in the target: the boundary is the last position
    // and the cursor lands one past it, on the text length.
    let mut s = State::new("abc");
    s.handle_char(' ');
    assert_eq!(s.cursor(), 3);
    assert_eq!(s.skip_at(2), Some(0));
    assert!(s.should_exit());
}

#[test]
fn backspace_undoes_skip() {
    let mut s = State::new("ab cd");
    s.handle_char(' ');
    assert_eq!(s.cursor(), 3);
    s.handle_backspace();
    assert_eq!(s.cursor(), 0);
    assert!(s.skip_at(2).is_none());
}

#[test]
fn extension_grows_and_shrinks() {
    // target "a bc": after a the cursor sits on the space; x and y are
    // inserted extension characters, undone one per backspace.
    let mut s = State::new("a bc");
    s.handle_char('a');
    assert_eq!(s.cursor(), 1);
    s.handle_char('x');
    assert_eq!(s.cursor(), 1);
    assert_eq!(s.extension_at(1), Some(vec!['x']));
    s.handle_char('y');
    assert_eq!(s.extension_at(1), Some(vec!['x', 'y']));
    s.handle_backspace();
    assert_eq!(s.extension_at(1), Some(vec!['x']));
    s.handle_backspace();
    assert_eq!(s.extension_at(1), None);
    assert_eq!(s.cursor(), 1);
}

#[test]
fn extension_captures_space() {
    // A pending extension captures every keystroke, a space included.
    let mut s = State::new("a b");
    s.handle_char('a');
    s.handle_char('x');
    s.handle_char(' ');
    assert_eq!(s.extension_at(1), Some(vec!['x', ' ']));
    assert_eq!(s.cursor(), 1);
}

#[test]
fn wrong_char_against_nonspace_is_mismatch_not_extension() {
    // target "a bc": after a and the matched space the cursor is on b;
    // x there is a mismatch, because extensions only open on a target
    // space.
    let mut s = State::new("a bc");
    s.handle_char('a');
    s.handle_char(' ');
    assert_eq!(s.cursor(), 2);
    s.handle_char('x');
    assert!(s.mismatch_at(2));
    assert!(s.extension_at(2).is_none());
    assert_eq!(s.cursor(), 3);
    s.handle_char('y');
    assert!(s.mismatch_at(3));
    assert_eq!(s.cursor(), 4);
    assert!(s.should_exit());
}

#[test]
fn backspace_at_start_is_noop() {
    let mut s = State::new("ab");
    s.handle_backspace();
    assert_eq!(s.cursor(), 0);
    assert!(!s.mismatch_at(0));
}

#[test]
fn backspace_steps_back_over_matched_space() {
    // A correctly typed space leaves no skip entry, so backspace just
    // behind it steps back one position like any other undo.
    let mut s = State::new("a b");
    s.handle_char('a');
    s.handle_char(' ');
    assert_eq!(s.cursor(), 2);
    s.handle_backspace();
    assert_eq!(s.cursor(), 1);
    s.handle_backspace();
    assert_eq!(s.cursor(), 0);
    for k in 0..3 {
        assert!(!s.mismatch_at(k));
        assert!(s.skip_at(k).is_none());
        assert!(s.extension_at(k).is_none());
    }
}

#[test]
fn clock_starts_on_first_keystroke() {
    let mut s = State::new("ab");
    assert!(!s.started());
    assert!(s.elapsed_millis().is_none());
    s.handle_char('a');
    assert!(s.started());
    assert!(s.elapsed_millis().is_some());
}

#[test]
fn words_completed_counts_prefix_words() {
    let mut s = State::new("ab cd");
    assert_eq!(s.words_completed(), 0);
    s.handle_char('a');
    assert_eq!(s.words_completed(), 1);
    s.handle_char('b');
    assert_eq!(s.words_completed(), 1);
    s.handle_char(' ');
    assert_eq!(s.words_completed(), 1);
    s.handle_char('c');
    assert_eq!(s.words_completed(), 2);
    s.handle_char('d');
    assert_eq!(s.words_completed(), 2);
}

#[test]
fn words_completed_ignores_space_runs() {
    let mut s = State::new("a  b");
    s.handle_char('a');
    s.handle_char(' ');
    s.handle_char(' ');
    assert_eq!(s.cursor(), 3);
    assert_eq!(s.words_completed(), 1);
    s.handle_char('b');
    assert_eq!(s.words_completed(), 2);
}

#[test]
fn classify_consumed_positions() {
    let mut s = State::new("ab cd");
    s.handle_char('a');
    s.handle_char('x');
    assert_eq!(s.classify(0), CharClass::Correct);
    assert_eq!(s.classify(1), CharClass::Incorrect);
    assert_eq!(s.classify(2), CharClass::Active);
    assert_eq!(s.classify(3), CharClass::Pending);
    assert_eq!(s.classify(4), CharClass::Pending);
}

#[test]
fn classify_extension_and_skip() {
    let mut s = State::new("ab cd");
    s.handle_char('a');
    s.handle_char('b');
    s.handle_char('q');
    assert_eq!(s.classify(2), CharClass::Extended);
    let mut t = State::new("ab cd");
    t.handle_char(' ');
    // the skip span 0..=2 renders as wrong; the cursor sits just past it
    assert_eq!(t.classify(0), CharClass::Incorrect);
    assert_eq!(t.classify(1), CharClass::Incorrect);
    assert_eq!(t.classify(2), CharClass::Incorrect);
    assert_eq!(t.classify(3), CharClass::Active);
    assert_eq!(t.classify(4), CharClass::Pending);
}

#[test]
fn str_index_reads_bytes() {
    assert_eq!(str_index("abc", 0), 'a');
    assert_eq!(str_index("abc", 2), 'c');
    assert_eq!(str_index("a b", 1), ' ');
}

#[test]
fn target_len_matches_text() {
    let s = State::new("ab cd");
    assert_eq!(s.target_len(), 5);
}

#[test]
fn empty_target_is_complete_at_once() {
    let mut s = State::new("");
    assert_eq!(s.target_len(), 0);
    assert!(s.should_exit());
    assert_eq!(s.words_completed(), 0);
    s.handle_backspace();
    assert_eq!(s.cursor(), 0);
}

#[test]
fn backspace_after_skip_to_text_end_leaves_entry() {
    // A skip that ended on a final non-space position cannot be undone by
    // the space rule: backspace steps over it and the entry stays behind.
    let mut s = State::new("ab");
    s.handle_char(' ');
    assert_eq!(s.cursor(), 2);
    assert_eq!(s.skip_at(1), Some(0));
    s.handle_backspace();
    assert_eq!(s.cursor(), 1);
    assert_eq!(s.skip_at(1), Some(0));
}

#[test]
fn second_skip_overwrites_stale_entry() {
    let mut s = State::new("ab");
    s.handle_char(' ');
    s.handle_backspace();
    assert_eq!(s.cursor(), 1);
    s.handle_char(' ');
    assert_eq!(s.cursor(), 2);
    assert_eq!(s.skip_at(1), Some(1));
}

#[test]
fn two_skips_undone_in_order() {
    let mut s = State::new("ab cd ef");
    s.handle_char(' ');
    assert_eq!(s.cursor(), 3);
    s.handle_char(' ');
    assert_eq!(s.cursor(), 6);
    assert_eq!(s.skip_at(2), Some(0));
    assert_eq!(s.skip_at(5), Some(3));
    s.handle_backspace();
    assert_eq!(s.cursor(), 3);
    assert!(s.skip_at(5).is_none());
    s.handle_backspace();
    assert_eq!(s.cursor(), 0);
    assert!(s.skip_at(2).is_none());
}
