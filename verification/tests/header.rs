use lexicon::header::{parse_header, read_term_name};
use regex::Regex;

fn header(name: &str, tags: &[&str], description: &str) -> Option<(String, Vec<String>, String)> {
    Some((
        name.to_string(),
        tags.iter().map(|tag| tag.to_string()).collect(),
        description.to_string(),
    ))
}

fn read(line: &str) -> Option<(String, Vec<String>, String)> {
    read_term_name(line.to_string())
}

/// The header grammar as a regular expression.
fn read_by_pattern(line: &str) -> Option<(String, Vec<String>, String)> {
    let pattern = Regex::new(r"^:(?P<name>[^:]+): (\((?P<tags>[^)]+)\))?(?P<desc>.*)$").unwrap();
    pattern.captures(line).map(|found| {
        let name = found.name("name").unwrap().as_str().to_string();
        let tags = match found.name("tags") {
            Some(list) => list.as_str().split(", ").map(|tag| tag.to_string()).collect(),
            None => Vec::new(),
        };
        let description = found.name("desc").unwrap().as_str().trim().to_string();
        (name, tags, description)
    })
}

#[test]
fn header_without_tags() {
    assert_eq!(read(":0hd Demonoid:  See {Demonoid}."), header("0hd Demonoid", &[], "See {Demonoid}."));
    assert_eq!(read(":X: See {Y}."), header("X", &[], "See {Y}."));
    assert_eq!(read(":a: "), header("a", &[], ""));
    assert_eq!(read(":a:  \t "), header("a", &[], ""));
    assert_eq!(read(": a : b"), header(" a ", &[], "b"));
    assert_eq!(read(":a: b: c"), header("a", &[], "b: c"));
}

#[test]
fn header_with_tags() {
    assert_eq!(read(":Gosper glider gun: (p30)  The first"), header("Gosper glider gun", &["p30"], "The first"));
    assert_eq!(read(":pufferfish: (c/2, p12)  A puffer"), header("pufferfish", &["c/2", "p12"], "A puffer"));
    assert_eq!(read(":a: (p46)"), header("a", &["p46"], ""));
    assert_eq!(read(":a: (p46)text"), header("a", &["p46"], "text"));
    assert_eq!(read(":a: (x, y, x) (z) w "), header("a", &["x", "y", "x"], "(z) w"));
    assert_eq!(read(":a: (c/12 diagonally, p96)  See"), header("a", &["c/12 diagonally", "p96"], "See"));
}

#[test]
fn tag_list_is_split_at_comma_and_space_only() {
    assert_eq!(read(":a: (x,y) z"), header("a", &["x,y"], "z"));
    assert_eq!(read(":a: (x , y) z"), header("a", &["x ", "y"], "z"));
    assert_eq!(read(":a: (x,  y) z"), header("a", &["x", " y"], "z"));
    assert_eq!(read(":a: (, ) z"), header("a", &["", ""], "z"));
    assert_eq!(read(":a: (x, ) z"), header("a", &["x", ""], "z"));
    assert_eq!(read(":a: (, x) z"), header("a", &["", "x"], "z"));
    assert_eq!(read(":a: (x, , y) z"), header("a", &["x", "", "y"], "z"));
    assert_eq!(read(":a: (,) z"), header("a", &[","], "z"));
    assert_eq!(read(":a: ( ) z"), header("a", &[" "], "z"));
    assert_eq!(read(":a: (x,, y) z"), header("a", &["x,", "y"], "z"));
}

#[test]
fn parentheses_that_are_no_tag_list() {
    assert_eq!(read(":a: () z"), header("a", &[], "() z"));
    assert_eq!(read(":a: (never closed"), header("a", &[], "(never closed"));
    assert_eq!(read(":a:  (p46) two spaces"), header("a", &[], "(p46) two spaces"));
    assert_eq!(read(":a: text (p46)"), header("a", &[], "text (p46)"));
    assert_eq!(read(":a: ("), header("a", &[], "("));
    assert_eq!(read(":a: )("), header("a", &[], ")("));
}

#[test]
fn lines_that_are_no_header() {
    assert_eq!(read(""), None);
    assert_eq!(read(":"), None);
    assert_eq!(read("::"), None);
    assert_eq!(read(":: "), None);
    assert_eq!(read(":: x"), None);
    assert_eq!(read(":a"), None);
    assert_eq!(read(":a:"), None);
    assert_eq!(read(":a:b"), None);
    assert_eq!(read(":a:\tb"), None);
    assert_eq!(read(":a :b: c"), None);
    assert_eq!(read("a: b"), None);
    assert_eq!(read(" :a: b"), None);
    assert_eq!(read(":no closing colon here"), None);
}

#[test]
fn header_held_as_characters() {
    let line: Vec<char> = ":na\u{ef}ve: (p\u{b2}, \u{3c0})  caf\u{e9} \u{2003}".chars().collect();
    assert_eq!(parse_header(&line), header("na\u{ef}ve", &["p\u{b2}", "\u{3c0}"], "caf\u{e9}"));
    let line: Vec<char> = Vec::new();
    assert_eq!(parse_header(&line), None);
}

#[test]
fn header_grammar_agrees_with_its_pattern() {
    let lines = [
        "",
        ":",
        "::",
        ":: ",
        ":a",
        ":a:",
        ":a: ",
        ":a:b",
        ":a:  b  ",
        ":a: b: c",
        ":a :b: c",
        ": : :",
        ":a: (",
        ":a: ()",
        ":a: () z",
        ":a: (x",
        ":a: (x)",
        ":a: (x)y",
        ":a: (x) y",
        ":a: (x)  y\t",
        ":a: (x, y)  z",
        ":a: (x,y, ,, z) w",
        ":a: (, ) z",
        ":a: (x, ) z",
        ":a: ((x)) y",
        ":a: (x) (y) z",
        ":a:  (x) y",
        ":a: x (y)",
        ":a: (:) y",
        ":a(b): (c) d",
        ":0hd Demonoid:  See {Demonoid}.",
        ":Gosper glider gun: (p30)  The first known {gun}, found by Bill Gosper:",
        ":pufferfish: (c/2, p12)  A puffer discovered by Richard Schank in",
        ":caf\u{e9}: (\u{3c0}, \u{b2})\u{a0}\u{2003}text\u{3000}",
        ":a: \u{85}x\u{85}",
        ":a: (x\ty)\r",
        "a: b",
        " :a: b",
        "\t:a: b",
        "----",
    ];
    for line in lines {
        assert_eq!(read(line), read_by_pattern(line), "on {:?}", line);
    }
}

#[test]
fn header_grammar_agrees_with_its_pattern_on_all_short_lines() {
    let alphabet = [':', ' ', '(', ')', ',', 'x'];
    let mut lines: Vec<String> = vec![String::new()];
    let mut from = 0;
    for _ in 0..7 {
        let upto = lines.len();
        for i in from..upto {
            for c in alphabet {
                let mut longer = lines[i].clone();
                longer.push(c);
                lines.push(longer);
            }
        }
        from = upto;
    }
    assert_eq!(lines.len(), 335923);
    let pattern = Regex::new(r"^:(?P<name>[^:]+): (\((?P<tags>[^)]+)\))?(?P<desc>.*)$").unwrap();
    for line in lines {
        let expected = pattern.captures(&line).map(|found| {
            let tags: Vec<String> = match found.name("tags") {
                Some(list) => list.as_str().split(", ").map(|tag| tag.to_string()).collect(),
                None => Vec::new(),
            };
            (
                found.name("name").unwrap().as_str().to_string(),
                tags,
                found.name("desc").unwrap().as_str().trim().to_string(),
            )
        });
        assert_eq!(read_term_name(line.clone()), expected, "on {:?}", line);
    }
}
