use lexicon::line::{classify, is_delimiter_line, LineKind};
use lexicon::text::{
    append_chars, chars_of, find_char, is_whitespace, lines_of, slice_of, string_of, trim_bounds,
};

fn chars(text: &str) -> Vec<char> {
    text.chars().collect()
}

fn lines(text: &str) -> Vec<String> {
    lines_of(&chars(text)).iter().map(|line| line.iter().collect()).collect()
}

fn trimmed(text: &str) -> String {
    let all = chars(text);
    let (from, to) = trim_bounds(&all, 0, all.len());
    string_of(&all, from, to)
}

#[test]
fn characters_of_a_string() {
    assert_eq!(chars_of("a\u{e9}\u{1f600}\t"), vec!['a', '\u{e9}', '\u{1f600}', '\t']);
    assert_eq!(chars_of(""), Vec::<char>::new());
}

#[test]
fn string_of_characters() {
    let all = chars("h\u{e9}llo w\u{f6}rld");
    assert_eq!(string_of(&all, 0, all.len()), "h\u{e9}llo w\u{f6}rld");
    assert_eq!(string_of(&all, 1, 5), "\u{e9}llo");
    assert_eq!(string_of(&all, 3, 3), "");
    assert_eq!(slice_of(&all, 6, 8), vec!['w', '\u{f6}']);
    let mut text = "so: ".to_string();
    append_chars(&mut text, &all, 6, 11);
    assert_eq!(text, "so: w\u{f6}rld");
    append_chars(&mut text, &all, 2, 2);
    assert_eq!(text, "so: w\u{f6}rld");
}

#[test]
fn white_space_is_what_std_calls_white_space() {
    let mut count = 0;
    for code in 0..=0x10FFFFu32 {
        if let Some(c) = char::from_u32(code) {
            assert_eq!(is_whitespace(c), c.is_whitespace(), "on U+{:04X}", code);
            if is_whitespace(c) {
                count += 1;
            }
        }
    }
    assert_eq!(count, 25);
    assert!(is_whitespace(' '));
    assert!(is_whitespace('\t'));
    assert!(is_whitespace('\u{3000}'));
    assert!(!is_whitespace('\u{200B}'));
    assert!(!is_whitespace('x'));
}

#[test]
fn trimming_is_what_std_calls_trimming() {
    let texts = [
        "",
        " ",
        "a",
        "  a  ",
        "\t a b \r\n",
        "\u{a0}\u{2003}caf\u{e9} au lait\u{3000}\u{85}",
        " \u{200B} ",
        "   in generation 0.  The following one fits:   ",
        "\n\n\n",
    ];
    for text in texts {
        assert_eq!(trimmed(text), text.trim(), "on {:?}", text);
    }
    assert_eq!(trimmed("  a  b  "), "a  b");
    let all = chars("x  yz  w");
    assert_eq!(trim_bounds(&all, 1, 6), (3, 5));
    assert_eq!(trim_bounds(&all, 1, 3), (3, 3));
    assert_eq!(trim_bounds(&all, 4, 4), (4, 4));
}

#[test]
fn finding_a_character() {
    let all = chars("a:b:c");
    assert_eq!(find_char(&all, 0, 5, ':'), 1);
    assert_eq!(find_char(&all, 2, 5, ':'), 3);
    assert_eq!(find_char(&all, 4, 5, ':'), 5);
    assert_eq!(find_char(&all, 0, 1, ':'), 1);
    assert_eq!(find_char(&all, 3, 3, ':'), 3);
}

#[test]
fn lines_are_what_std_calls_lines() {
    let texts = [
        "",
        "\n",
        "a",
        "a\n",
        "a\nb",
        "a\n\nb\n",
        "\n\na\n\n",
        "a\r\nb\r\n",
        "a\rb\n",
        "a\r",
        "a\r\r\nb",
        "\r\n",
        "\r",
        "a\n\r",
        "a\n\r\n",
        "caf\u{e9}\u{2028}au\nlait\u{85}\n",
    ];
    for text in texts {
        let expected: Vec<String> = text.lines().map(|line| line.to_string()).collect();
        assert_eq!(lines(text), expected, "on {:?}", text);
    }
    assert_eq!(lines("a\r\n\nb\r"), vec!["a", "", "b\r"]);
    assert_eq!(lines("\n"), vec![""]);
    assert_eq!(lines(""), Vec::<String>::new());
}

#[test]
fn roles_of_lines() {
    let kind = |line: &str| classify(&chars(line));
    assert_eq!(kind("----"), LineKind::Delimiter);
    assert_eq!(kind("------------------------------"), LineKind::Delimiter);
    assert_eq!(kind("---"), LineKind::Other);
    assert_eq!(kind("----x"), LineKind::Other);
    assert_eq!(kind("-----\t"), LineKind::Other);
    assert_eq!(kind(":a: b"), LineKind::Header);
    assert_eq!(kind(":"), LineKind::Header);
    assert_eq!(kind(":----"), LineKind::Header);
    assert_eq!(kind("\t.*."), LineKind::GridRow);
    assert_eq!(kind("\t"), LineKind::GridRow);
    assert_eq!(kind("\t   text"), LineKind::GridRow);
    assert_eq!(kind("   text"), LineKind::Continuation);
    assert_eq!(kind("   "), LineKind::Continuation);
    assert_eq!(kind("      \ttext"), LineKind::Continuation);
    assert_eq!(kind("  text"), LineKind::Other);
    assert_eq!(kind("  \ttext"), LineKind::Other);
    assert_eq!(kind(" "), LineKind::Other);
    assert_eq!(kind(""), LineKind::Blank);
    assert_eq!(kind("text"), LineKind::Other);
    assert_eq!(kind("\r"), LineKind::Other);
    assert!(is_delimiter_line(&chars("-----")));
    assert!(!is_delimiter_line(&chars("-- --")));
    assert!(!is_delimiter_line(&chars("")));
}
