use lintkit::dedent::{dedent, is_whitespace, len_utf8};

#[test]
fn common_indentation_is_removed() {
    assert_eq!(dedent("    a\n      b\n    c\n"), "a\n  b\nc");
}

#[test]
fn blank_lines_are_dropped() {
    assert_eq!(dedent("\n  x\n\n   \n   y\n\n"), "x\n y");
}

#[test]
fn least_indentation_may_come_last() {
    assert_eq!(dedent("      a\n    b"), "  a\nb");
}

#[test]
fn unindented_text_keeps_its_lines() {
    assert_eq!(dedent("a\n b\nc"), "a\n b\nc");
}

#[test]
fn empty_and_blank_texts_give_nothing() {
    assert_eq!(dedent(""), "");
    assert_eq!(dedent("   \n\t\n"), "");
}

#[test]
fn carriage_returns_before_line_feeds_are_line_endings() {
    assert_eq!(dedent("  a\r\n  b\r\n"), "a\nb");
}

#[test]
fn a_lone_carriage_return_stays_in_the_line() {
    assert_eq!(dedent("  a\r  b"), "a\r  b");
}

#[test]
fn tabs_count_as_one_character_of_indentation() {
    assert_eq!(dedent("\t\tx\n\t  y"), "x\n y");
}

#[test]
fn indentation_is_taken_off_as_bytes() {
    // Three ideographic spaces are three characters of indentation, and the
    // first of them alone is three bytes long.
    assert_eq!(dedent("\u{3000}\u{3000}\u{3000}x"), "\u{3000}\u{3000}x");
}

#[test]
fn is_whitespace_agrees_with_std() {
    for u in 0u32..=0x10ffff {
        if let Some(c) = char::from_u32(u) {
            assert_eq!(is_whitespace(c), c.is_whitespace(), "{u:#x}");
        }
    }
}

#[test]
fn len_utf8_agrees_with_std() {
    for u in 0u32..=0x10ffff {
        if let Some(c) = char::from_u32(u) {
            assert_eq!(len_utf8(c), c.len_utf8(), "{u:#x}");
        }
    }
}

#[test]
fn dedenting_twice_gives_the_same_text() {
    let text = "\n    fn f() {\n        1\n    }\n\n";
    let once = dedent(text);
    assert_eq!(once, "fn f() {\n    1\n}");
    assert_eq!(dedent(&once), once);
}

#[test]
fn a_carriage_return_ending_a_dedented_line_is_not_kept_by_a_second_dedent() {
    let once = dedent("a\r\r\nb");
    assert_eq!(once, "a\r\nb");
    assert_eq!(dedent(&once), "a\nb");
}

#[test]
fn a_uniform_extra_indentation_is_removed_again() {
    let text = "  a\n\n    b\n  c";
    for k in 0..4 {
        let indented: Vec<String> = text.lines().map(|line| " ".repeat(k) + line).collect();
        assert_eq!(dedent(&indented.join("\n")), dedent(text));
    }
}
