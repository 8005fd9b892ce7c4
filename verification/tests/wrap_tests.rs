use libtext::wrap;

const ESC: &str = "\u{1b}";

fn esc(body: &str) -> String {
    format!("{}{}", ESC, body)
}

#[test]
fn blank_line_preserved() {
    let out = wrap("a\n\nb", 10, true, false, 0);
    assert_eq!(out, vec!["a".to_string(), "".to_string(), "b".to_string()]);
}

#[test]
fn ellipsis_height_cap() {
    let out = wrap("line1\nline2\nline3", 10, true, true, 2);
    assert_eq!(out, vec!["line1".to_string(), "...".to_string()]);
}

#[test]
fn maintain_off_truncates() {
    let out = wrap("abcdef", 3, false, false, 0);
    assert_eq!(out, vec!["abc".to_string()]);
}

#[test]
fn maintain_on_wraps() {
    let out = wrap("abcdef", 3, true, false, 0);
    assert_eq!(out, vec!["abc".to_string(), "def".to_string()]);
}

#[test]
fn escape_preserved_across_wrap() {
    let input = format!("{}abcdef", esc("[31m"));
    let out = wrap(&input, 3, true, false, 0);
    let first = format!("{}abc{}", esc("[31m"), esc("[0m"));
    let second = format!("{}def{}", esc("[31m"), esc("[0m"));
    assert_eq!(out, vec![first, second]);
}

#[test]
fn empty_input_is_one_empty_line() {
    let out = wrap("", 5, true, false, 0);
    assert_eq!(out, vec!["".to_string()]);
}

#[test]
fn trailing_newline_keeps_empty_line() {
    let out = wrap("a\n", 5, true, false, 0);
    assert_eq!(out, vec!["a".to_string(), "".to_string()]);
}

#[test]
fn width_zero_breaks_before_every_char() {
    let out = wrap("ab", 0, true, false, 0);
    assert_eq!(out, vec!["".to_string(), "a".to_string(), "b".to_string()]);
}

#[test]
fn width_zero_maintain_off() {
    let out = wrap("ab", 0, false, false, 0);
    assert_eq!(out, vec!["".to_string()]);
}

#[test]
fn unterminated_escape_is_literal() {
    let input = format!("{}abc", esc("[31"));
    let out = wrap(&input, 10, true, false, 0);
    assert_eq!(out, vec![input]);
}

#[test]
fn escape_without_bracket_is_literal() {
    let input = format!("{}x", ESC);
    let out = wrap(&input, 5, true, false, 0);
    assert_eq!(out, vec![input]);
}

#[test]
fn reset_clears_active_style() {
    let input = format!("{}a{}bcd", esc("[31m"), esc("[0m"));
    let out = wrap(&input, 2, true, false, 0);
    let first = format!("{}a{}b", esc("[31m"), esc("[0m"));
    assert_eq!(out, vec![first, "cd".to_string()]);
}

#[test]
fn non_sgr_terminator_is_literal() {
    let input = format!("{}J", esc("[2"));
    let out = wrap(&input, 10, true, false, 0);
    assert_eq!(out, vec![input]);
}

#[test]
fn ellipsis_keeps_real_content_on_last_input_line() {
    let out = wrap("abcdef", 3, true, true, 0);
    assert_eq!(out, vec!["abc".to_string()]);
}

#[test]
fn ellipsis_marks_truncation_mid_text() {
    let out = wrap("abcdef", 3, true, true, 2);
    assert_eq!(out, vec!["abc".to_string(), "...".to_string()]);
}

#[test]
fn height_without_ellipsis_is_ignored() {
    let out = wrap("a\nb\nc", 5, true, false, 1);
    assert_eq!(out, vec!["a".to_string(), "b".to_string(), "c".to_string()]);
}

#[test]
fn wide_characters_wrap_by_display_width() {
    let out = wrap("\u{3042}\u{3044}\u{3046}", 4, true, false, 0);
    assert_eq!(out, vec!["\u{3042}\u{3044}".to_string(), "\u{3046}".to_string()]);
}

#[test]
fn ellipsis_at_natural_line_end() {
    let out = wrap("ab\ncd\nef", 4, true, true, 2);
    assert_eq!(out, vec!["ab".to_string(), "...".to_string()]);
}

#[test]
fn style_reemitted_on_each_continuation_line() {
    let input = format!("{}abcdefghi", esc("[1m"));
    let out = wrap(&input, 3, true, false, 0);
    assert_eq!(out.len(), 3);
    for line in &out {
        assert!(line.starts_with(&esc("[1m")));
        assert!(line.ends_with(&esc("[0m")));
    }
    assert_eq!(out[1], format!("{}def{}", esc("[1m"), esc("[0m")));
}

#[test]
fn width_bound_holds_on_every_line() {
    let out = wrap("hello world, quite a long text", 4, true, false, 0);
    for line in &out {
        // ASCII text: display width equals character count
        assert!(line.chars().count() <= 4);
    }
}

#[test]
fn greedy_character_wrap_without_escapes() {
    let out = wrap("abcdefg", 2, true, false, 0);
    assert_eq!(
        out,
        vec!["ab".to_string(), "cd".to_string(), "ef".to_string(), "g".to_string()]
    );
}

#[test]
fn wrapping_an_output_line_again_is_identity() {
    let first = wrap("abcdef", 4, true, false, 0);
    assert_eq!(first, vec!["abcd".to_string(), "ef".to_string()]);
    for piece in &first {
        assert_eq!(wrap(piece, 4, true, false, 0), vec![piece.clone()]);
    }
}

#[test]
fn no_line_leaves_a_style_open() {
    let input = format!("{}abcd{}ef", esc("[31m"), esc("[0m"));
    let out = wrap(&input, 3, true, false, 0);
    for line in &out {
        // after the last style-setting sequence a reset must follow
        if let Some(pos) = line.rfind(&esc("[31m")) {
            let tail = &line[pos..];
            assert!(tail.contains(&esc("[0m")));
        }
    }
}

#[test]
fn ellipsis_output_never_exceeds_height() {
    for h in 1..5 {
        let out = wrap("aaaa\nbbbb\ncccc\ndddd", 2, true, true, h);
        assert!(out.len() <= h);
    }
}

#[test]
fn visible_width_bound_with_styles() {
    let input = format!("{}abcdefgh", esc("[35m"));
    let out = wrap(&input, 3, true, false, 0);
    assert_eq!(out.len(), 3);
    for line in &out {
        let stripped = line.replace(&esc("[35m"), "").replace(&esc("[0m"), "");
        assert!(stripped.chars().count() <= 3);
    }
}

#[test]
fn ellipsis_capped_line_keeps_reset() {
    let out = wrap(&esc("[31m"), 7, true, true, 0);
    assert_eq!(out, vec![format!("{}{}", esc("[31m"), esc("[0m"))]);
}

#[test]
fn ellipsis_capped_continuation_is_closed() {
    let input = format!("{}abcd\nx", esc("[31m"));
    let out = wrap(&input, 3, true, true, 2);
    let first = format!("{}abc{}", esc("[31m"), esc("[0m"));
    let second = format!("{}d{}", esc("[31m"), esc("[0m"));
    assert_eq!(out, vec![first, second]);
}
