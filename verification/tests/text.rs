use wasm_typst::text::{diff, merge, tokenize, Conflict, Edit, Merged, Token};

#[test]
fn tokens_alternate_and_count_utf16_units() {
    assert_eq!(
        tokenize("a  b\n"),
        vec![
            Token { text: "a", at: 0, len: 1 },
            Token { text: "  ", at: 1, len: 2 },
            Token { text: "b", at: 3, len: 1 },
            Token { text: "\n", at: 4, len: 1 },
        ]
    );
    assert_eq!(
        tokenize("🙂 x."),
        vec![
            Token { text: "🙂", at: 0, len: 2 },
            Token { text: " ", at: 2, len: 1 },
            Token { text: "x.", at: 3, len: 2 },
        ]
    );
    assert!(tokenize("").is_empty());
}

#[test]
fn tokens_lay_out_the_text_again() {
    let text = "  lead, then\ttabs\u{a0}and\r\nlines ";
    let joined: String = tokenize(text).iter().map(|t| t.text).collect();
    assert_eq!(joined, text);
}

fn apply(old: &str, edits: &[Edit]) -> String {
    let mut units: Vec<u16> = old.encode_utf16().collect();
    for e in edits.iter().rev() {
        let insert: Vec<u16> = e.insert.encode_utf16().collect();
        units.splice(e.at..e.at + e.delete, insert);
    }
    String::from_utf16(&units).unwrap()
}

#[test]
fn a_changed_word_is_one_edit() {
    assert_eq!(diff("a b c", "a X c"), vec![Edit { at: 2, delete: 1, insert: "X".into() }]);
}

#[test]
fn the_same_text_has_no_edits() {
    assert!(diff("same text", "same text").is_empty());
    assert!(diff("", "").is_empty());
}

#[test]
fn an_insertion_into_nothing_is_one_edit() {
    assert_eq!(diff("", "hi there"), vec![Edit { at: 0, delete: 0, insert: "hi there".into() }]);
    assert_eq!(diff("gone", ""), vec![Edit { at: 0, delete: 4, insert: "".into() }]);
}

#[test]
fn positions_are_utf16_units() {
    assert_eq!(diff("🙂 a", "🙂 b"), vec![Edit { at: 3, delete: 1, insert: "b".into() }]);
}

#[test]
fn punctuation_carries_with_its_word() {
    assert_eq!(
        diff("the interval. Then", "the interval, Then"),
        vec![Edit { at: 4, delete: 9, insert: "interval,".into() }]
    );
}

#[test]
fn edits_applied_back_to_front_give_the_new_text() {
    let cases = [
        ("one two three four", "one 2 three four five"),
        ("a b c d e f", "x b y d z f"),
        ("word", "other words entirely"),
        ("  spaced   out  ", " spaced out "),
        ("🙂 émoji and ünïcode", "🙃 emoji and unicode 🙂"),
    ];
    for (old, new) in cases {
        let edits = diff(old, new);
        assert_eq!(apply(old, &edits), new, "{old:?} -> {new:?}");
        for pair in edits.windows(2) {
            assert!(pair[0].at + pair[0].delete <= pair[1].at);
        }
    }
}

#[test]
fn when_the_session_did_not_move_the_file_is_right() {
    assert_eq!(
        merge("a b c", "a X c", "a b c"),
        Merged { text: "a X c".into(), conflicts: vec![] }
    );
}

#[test]
fn when_the_file_did_not_move_the_session_is_right() {
    assert_eq!(
        merge("a b c", "a b c", "a b Y"),
        Merged { text: "a b Y".into(), conflicts: vec![] }
    );
}

#[test]
fn edits_to_different_words_both_go_through() {
    assert_eq!(
        merge("a b c", "a X c", "a b Y"),
        Merged { text: "a X Y".into(), conflicts: vec![] }
    );
}

#[test]
fn the_same_edit_on_both_sides_is_agreement() {
    assert_eq!(
        merge("a b c", "a Z c", "a Z c"),
        Merged { text: "a Z c".into(), conflicts: vec![] }
    );
}

#[test]
fn both_sides_moving_one_word_is_a_conflict_the_session_wins() {
    assert_eq!(
        merge("a b c", "a X c", "a Y c"),
        Merged {
            text: "a Y c".into(),
            conflicts: vec![Conflict { at: 2, len: 1, local: "X".into(), remote: "Y".into() }],
        }
    );
}

#[test]
fn a_conflict_is_placed_in_utf16_units() {
    let merged = merge("🙂 b c", "🙂 X c", "🙂 Yy c");
    assert_eq!(merged.text, "🙂 Yy c");
    assert_eq!(merged.conflicts, vec![Conflict { at: 3, len: 2, local: "X".into(), remote: "Yy".into() }]);
}

#[test]
fn an_insertion_beside_a_deletion_is_not_a_collision() {
    // The file deletes "b " and the session inserts "new " before "c": the
    // session's insertion sits at the seam where the file's deletion ends.
    let merged = merge("a b c", "a c", "a b new c");
    assert!(merged.conflicts.is_empty(), "{merged:?}");
    assert_eq!(merged.text, "a new c");
}

#[test]
fn a_moved_word_keeps_every_other_token() {
    // The longest run both sides share is "b c d": the diff takes "a " off
    // the front and puts " a" on the end rather than rewriting the middle.
    assert_eq!(
        diff("a b c d", "b c d a"),
        vec![
            Edit { at: 0, delete: 2, insert: "".into() },
            Edit { at: 7, delete: 0, insert: " a".into() },
        ]
    );
}

#[test]
fn texts_with_nothing_in_common_are_one_replacement() {
    let old: String = "a ".repeat(550);
    let new: String = "b\n".repeat(550);
    let edits = diff(&old, &new);
    assert_eq!(edits, vec![Edit { at: 0, delete: 1100, insert: new.clone() }]);
    assert_eq!(apply(&old, &edits), new);
}

#[test]
fn one_changed_word_is_one_replacement() {
    assert_eq!(diff("the cat sat", "the dog sat"), vec![Edit { at: 4, delete: 3, insert: "dog".into() }]);
}

#[test]
fn both_sides_making_the_same_text_agree() {
    assert_eq!(
        merge("a b c", "a Z d", "a Z d"),
        Merged { text: "a Z d".into(), conflicts: vec![] }
    );
}

#[test]
fn an_insertion_at_the_seam_of_a_deletion_goes_through() {
    assert_eq!(
        merge("a b c", "a c", "a Z b c"),
        Merged { text: "a Z c".into(), conflicts: vec![] }
    );
}

#[test]
fn a_deleted_word_takes_the_space_after_it() {
    // The common head "a " is kept whole; the deletion starts after it.
    assert_eq!(diff("a b c", "a c"), vec![Edit { at: 2, delete: 2, insert: "".into() }]);
}
