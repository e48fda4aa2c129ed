use minigrep::split_first_line;

fn lines(text: &str) -> Vec<&str> {
    let mut out = Vec::new();
    let mut rest = text;
    while let Some((line, tail)) = split_first_line(rest) {
        out.push(line);
        rest = tail;
    }
    out
}

#[test]
fn the_empty_text_has_no_first_line() {
    assert_eq!(None, split_first_line(""));
}

#[test]
fn a_line_feed_ends_a_line() {
    assert_eq!(Some(("one", "two\nthree")), split_first_line("one\ntwo\nthree"));
    assert_eq!(Some(("", "rest")), split_first_line("\nrest"));
    assert_eq!(Some(("only", "")), split_first_line("only\n"));
}

#[test]
fn a_carriage_return_before_a_line_feed_belongs_to_the_ending() {
    assert_eq!(Some(("one", "two")), split_first_line("one\r\ntwo"));
    assert_eq!(Some(("", "")), split_first_line("\r\n"));
    assert_eq!(Some(("one\r", "two")), split_first_line("one\r\r\ntwo"));
}

#[test]
fn a_lone_carriage_return_is_an_ordinary_character() {
    assert_eq!(Some(("one\rtwo", "")), split_first_line("one\rtwo"));
    assert_eq!(Some(("one\r", "")), split_first_line("one\r"));
    assert_eq!(Some(("a\rb", "c")), split_first_line("a\rb\nc"));
}

#[test]
fn the_last_line_need_not_be_terminated() {
    assert_eq!(Some(("last", "")), split_first_line("last"));
    assert_eq!(vec!["a", "b"], lines("a\nb"));
    assert_eq!(vec!["a", "b"], lines("a\nb\n"));
    assert_eq!(vec!["a", "b", ""], lines("a\nb\n\n"));
}

#[test]
fn lines_may_hold_any_characters() {
    assert_eq!(Some(("héllo", "wörld")), split_first_line("héllo\nwörld"));
    assert_eq!(Some(("日本語", "テキスト\n")), split_first_line("日本語\r\nテキスト\n"));
    assert_eq!(Some(("😀", "")), split_first_line("😀\n"));
}

#[test]
fn lines_agree_with_the_standard_library() {
    let samples = [
        "",
        "\n",
        "\r\n",
        "\r",
        "a\r",
        "a\r\n\r\nb",
        "\n\n\n",
        "no newline at all",
        "mixed\nendings\r\nhere\n",
        "é\r\nü\n日本\r",
    ];

    for text in samples {
        let expected: Vec<&str> = text.lines().collect();
        assert_eq!(expected, lines(text));
    }
}
