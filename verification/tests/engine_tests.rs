use libfmt::engine::Engine;
use libfmt::token::{BeginToken, Break, BreakToken, Token};

#[test]
fn plain_text_passes_through() {
    let mut e = Engine::new(40, 4);
    e.word("hello");
    assert_eq!(e.finish(), "hello");
}

#[test]
fn fitting_group_renders_breaks_as_spaces() {
    let mut e = Engine::new(40, 4);
    e.cbox(4);
    e.word("foo");
    e.space();
    e.word("bar");
    e.end();
    assert_eq!(e.finish(), "foo bar");
}

#[test]
fn consistent_group_breaks_all_points() {
    let mut e = Engine::new(10, 4);
    e.cbox(4);
    e.word("aaaa");
    e.space();
    e.word("bbbb");
    e.space();
    e.word("cccc");
    e.end();
    let out = e.finish();
    assert_eq!(out, "aaaa\n    bbbb\n    cccc");
    for line in out.lines() {
        assert!(line.len() <= 10);
    }
}

#[test]
fn inconsistent_group_breaks_only_where_needed() {
    let mut e = Engine::new(10, 4);
    e.ibox(0);
    e.word("aa");
    e.space();
    e.word("bb");
    e.space();
    e.word("cccccc");
    e.end();
    let out = e.finish();
    assert_eq!(out, "aa bb\ncccccc");
    for line in out.lines() {
        assert!(line.len() <= 10);
    }
}

#[test]
fn never_break_is_never_a_newline() {
    let mut e = Engine::new(5, 4);
    e.ibox(0);
    e.word("xxxx");
    e.neverbreak();
    e.word("yyyy");
    e.end();
    let out = e.finish();
    assert!(!out.contains('\n'));
    assert_eq!(out, "xxxxyyyy");
}

#[test]
fn hardbreak_is_always_taken() {
    let mut e = Engine::new(40, 4);
    e.ibox(0);
    e.word("a");
    e.hardbreak();
    e.word("b");
    e.end();
    assert_eq!(e.finish(), "a\nb");
}

#[test]
fn trailing_comma_appears_before_taken_break() {
    let mut e = Engine::new(2, 4);
    e.cbox(0);
    e.word("111");
    e.trailing_comma(true);
    e.end();
    assert_eq!(e.finish(), "111,\n");
}

#[test]
fn trailing_comma_vanishes_when_break_not_taken() {
    let mut e = Engine::new(40, 4);
    e.cbox(0);
    e.word("1");
    e.trailing_comma(true);
    e.end();
    assert_eq!(e.finish(), "1");
}

#[test]
fn trailing_comma_not_last_is_comma_space() {
    let mut e = Engine::new(40, 4);
    e.cbox(0);
    e.word("1");
    e.trailing_comma(false);
    e.word("2");
    e.end();
    assert_eq!(e.finish(), "1, 2");
}

#[test]
fn empty_group_with_only_a_break_collapses() {
    let mut e = Engine::new(40, 4);
    e.word("a");
    e.cbox(4);
    e.hardbreak_if_nonempty();
    e.end();
    e.word("b");
    assert_eq!(e.finish(), "ab");
}

#[test]
fn nonempty_group_keeps_its_leading_break() {
    let mut e = Engine::new(40, 4);
    e.word("{");
    e.cbox(4);
    e.hardbreak_if_nonempty();
    e.word("x");
    e.end();
    e.word("}");
    let out = e.finish();
    assert!(out.contains('\n'));
    assert_eq!(out, "{\n    x}");
}

#[test]
fn nbsp_is_literal_space() {
    let mut e = Engine::new(3, 4);
    e.ibox(0);
    e.word("a");
    e.nbsp();
    e.word("bcd");
    e.end();
    // the non-breaking space can never become a newline even though the
    // content overflows the width
    assert_eq!(e.finish(), "a bcd");
}

#[test]
fn play_runs_a_balanced_token_list() {
    let mut e = Engine::new(40, 4);
    let toks = vec![
        Token::Begin(BeginToken { offset: 4, breaks: Break::Consistent }),
        Token::Text(String::from("x")),
        Token::Break(BreakToken {
            offset: 0,
            blank_space: 1,
            pre_break: None,
            if_nonempty: false,
            never_break: false,
        }),
        Token::Text(String::from("y")),
        Token::End,
    ];
    e.play(&toks);
    assert_eq!(e.finish(), "x y");
}

#[test]
fn zerobreak_adds_no_space_when_fitting() {
    let mut e = Engine::new(40, 4);
    e.ibox(0);
    e.word("a");
    e.zerobreak();
    e.word("b");
    e.end();
    assert_eq!(e.finish(), "ab");
}

#[test]
fn space_if_nonempty_dropped_right_before_end() {
    let mut e = Engine::new(40, 4);
    e.cbox(0);
    e.word("a");
    e.space_if_nonempty();
    e.end();
    e.word("b");
    assert_eq!(e.finish(), "ab");
}

#[test]
fn oversized_atom_is_printed_as_is() {
    let mut e = Engine::new(4, 4);
    e.ibox(0);
    e.word("abcdefgh");
    e.end();
    // best-effort overflow: a single atomic token wider than the line is
    // written unbroken
    assert_eq!(e.finish(), "abcdefgh");
}

#[test]
fn break_offset_update_deepens_the_next_line() {
    let mut e = Engine::new(4, 4);
    e.cbox(2);
    e.word("aaa");
    e.space();
    e.update_break_offset(2);
    e.word("bbb");
    e.end();
    // the break's own offset adds to the group indentation of two columns
    assert_eq!(e.finish(), "aaa\n    bbb");
}

#[test]
fn closing_a_group_restores_the_enclosing_indentation() {
    let mut e = Engine::new(6, 4);
    e.cbox(2);
    e.word("aa");
    e.space();
    e.cbox(2);
    e.word("bb");
    e.space();
    e.word("cc");
    e.end();
    e.space();
    e.word("dd");
    e.end();
    assert_eq!(e.finish(), "aa\n  bb\n    cc\n  dd");
}
