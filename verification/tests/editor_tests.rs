//! The line editor, key by key.
use shell::line_editor::{EditAction, LineEditor};

fn output(a: EditAction) -> Vec<u8> {
    match a {
        EditAction::Output(b) => b,
        _ => panic!("expected output"),
    }
}

fn type_text(e: &mut LineEditor, text: &str) {
    for b in text.bytes() {
        let echoed = output(e.feed(b));
        assert_eq!(echoed, vec![b]);
    }
}

fn tab(e: &mut LineEditor) -> (bool, Vec<u8>, Vec<u8>) {
    match e.feed(b'\t') {
        EditAction::Complete(r) => (r.commands, r.dir, r.prefix),
        _ => panic!("expected a completion request"),
    }
}

fn cands(v: &[(&str, bool)]) -> Vec<(String, bool)> {
    v.iter().map(|(n, d)| (n.to_string(), *d)).collect()
}

#[test]
fn printable_bytes_are_echoed_and_kept() {
    let mut e = LineEditor::new("$ ");
    type_text(&mut e, "ls -l");
    assert_eq!(e.buffer().as_slice(), b"ls -l");
}

#[test]
fn enter_finishes_the_line() {
    let mut e = LineEditor::new("$ ");
    type_text(&mut e, "pwd");
    match e.feed(b'\r') {
        EditAction::Done(b) => assert_eq!(b, b"\n".to_vec()),
        _ => panic!("expected done"),
    }
    assert_eq!(e.buffer().as_slice(), b"pwd\n");
}

#[test]
fn backspace_erases_the_last_byte() {
    let mut e = LineEditor::new("$ ");
    type_text(&mut e, "ab");
    assert_eq!(output(e.feed(0x7f)), b"\x08 \x08".to_vec());
    assert_eq!(e.buffer().as_slice(), b"a");
    assert_eq!(output(e.feed(0x08)), b"\x08 \x08".to_vec());
    assert_eq!(output(e.feed(0x7f)), Vec::<u8>::new());
    assert!(e.buffer().is_empty());
}

#[test]
fn ctrl_d_ends_input_only_on_an_empty_line() {
    let mut e = LineEditor::new("$ ");
    assert!(matches!(e.feed(0x04), EditAction::EndOfInput));
    type_text(&mut e, "x");
    assert_eq!(output(e.feed(0x04)), Vec::<u8>::new());
    assert_eq!(e.buffer().as_slice(), b"x");
}

#[test]
fn escape_sequences_are_swallowed() {
    let mut e = LineEditor::new("$ ");
    type_text(&mut e, "a");
    // Arrow up: ESC [ A
    for b in [0x1bu8, b'[', b'A'] {
        assert_eq!(output(e.feed(b)), Vec::<u8>::new());
    }
    // ESC O with a parameter byte before the final byte.
    for b in [0x1bu8, b'O', b'1', b'P'] {
        assert_eq!(output(e.feed(b)), Vec::<u8>::new());
    }
    // ESC followed by another byte drops that byte.
    for b in [0x1bu8, b'z'] {
        assert_eq!(output(e.feed(b)), Vec::<u8>::new());
    }
    type_text(&mut e, "b");
    assert_eq!(e.buffer().as_slice(), b"ab");
}

#[test]
fn tab_on_first_word_asks_for_commands() {
    let mut e = LineEditor::new("$ ");
    type_text(&mut e, "ech");
    assert_eq!(tab(&mut e), (true, vec![], b"ech".to_vec()));
}

#[test]
fn tab_on_later_word_asks_for_files() {
    let mut e = LineEditor::new("$ ");
    type_text(&mut e, "cat re");
    assert_eq!(tab(&mut e), (false, vec![], b"re".to_vec()));
}

#[test]
fn tab_after_slash_splits_directory() {
    let mut e = LineEditor::new("$ ");
    type_text(&mut e, "cat path/to/fi");
    assert_eq!(tab(&mut e), (false, b"path/to/".to_vec(), b"fi".to_vec()));
    let mut e2 = LineEditor::new("$ ");
    type_text(&mut e2, "./ru");
    assert_eq!(tab(&mut e2), (false, b"./".to_vec(), b"ru".to_vec()));
}

#[test]
fn single_candidate_completes_with_space() {
    let mut e = LineEditor::new("$ ");
    type_text(&mut e, "ech");
    tab(&mut e);
    let out = e.complete(&cands(&[("echo", false)]));
    assert_eq!(out, b"o ".to_vec());
    assert_eq!(e.buffer().as_slice(), b"echo ");
}

#[test]
fn single_directory_candidate_completes_with_slash() {
    let mut e = LineEditor::new("$ ");
    type_text(&mut e, "cd pa");
    tab(&mut e);
    let out = e.complete(&cands(&[("path", true)]));
    assert_eq!(out, b"th/".to_vec());
    assert_eq!(e.buffer().as_slice(), b"cd path/");
}

#[test]
fn no_candidate_rings_the_bell() {
    let mut e = LineEditor::new("$ ");
    type_text(&mut e, "zz");
    tab(&mut e);
    assert_eq!(e.complete(&[]), b"\x07".to_vec());
    assert_eq!(e.buffer().as_slice(), b"zz");
}

#[test]
fn several_candidates_extend_to_common_prefix() {
    let mut e = LineEditor::new("$ ");
    type_text(&mut e, "xyz_");
    tab(&mut e);
    let out = e.complete(&cands(&[("xyz_foo", false), ("xyz_foo_bar", false)]));
    assert_eq!(out, b"foo".to_vec());
    assert_eq!(e.buffer().as_slice(), b"xyz_foo");
}

#[test]
fn second_tab_lists_candidates() {
    let mut e = LineEditor::new("$ ");
    type_text(&mut e, "e");
    let c = cands(&[("echo", false), ("exit", false)]);
    tab(&mut e);
    assert_eq!(e.complete(&c), b"\x07".to_vec());
    tab(&mut e);
    assert_eq!(e.complete(&c), b"\necho  exit\n$ e".to_vec());
    assert_eq!(e.buffer().as_slice(), b"e");
}

#[test]
fn a_key_between_tabs_resets_the_listing() {
    let mut e = LineEditor::new("$ ");
    type_text(&mut e, "e");
    let c = cands(&[("echo", false), ("exit", false)]);
    tab(&mut e);
    assert_eq!(e.complete(&c), b"\x07".to_vec());
    type_text(&mut e, "x");
    assert_eq!(output(e.feed(0x7f)), b"\x08 \x08".to_vec());
    tab(&mut e);
    assert_eq!(e.complete(&c), b"\x07".to_vec());
}

#[test]
fn unprintable_bytes_are_ignored() {
    let mut e = LineEditor::new("$ ");
    // 0x80 is not printable ASCII: it is neither echoed nor kept.
    assert_eq!(output(e.feed(0x80)), Vec::<u8>::new());
    assert!(e.buffer().is_empty());
    assert!(matches!(e.feed(b'\t'), EditAction::Complete(_)));
}

#[test]
fn backspace_undoes_typing() {
    let mut e = LineEditor::new("> ");
    type_text(&mut e, "abc");
    type_text(&mut e, "d");
    output(e.feed(0x7f));
    assert_eq!(e.buffer().as_slice(), b"abc");
}

#[test]
fn common_prefix_inside_a_character_is_not_completed() {
    let mut e = LineEditor::new("$ ");
    type_text(&mut e, "cat a");
    tab(&mut e);
    // "aé" and "aè" share "a" and the first byte of their second
    // character; only "a" ends on a character boundary.
    let c = cands(&[("aé", false), ("aè", false)]);
    assert_eq!(e.complete(&c), b"\x07".to_vec());
    assert_eq!(e.buffer().as_slice(), b"cat a");
}
