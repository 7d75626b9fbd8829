use lexicon::{parse_lexicon, Lexicon};

fn lexicon_text() -> String {
    let lines = [
        "Life Lexicon",
        "",
        "An excerpt with five of its entries.",
        "",
        "-----------------------------------------------------------------------",
        "",
        ":0hd Demonoid:  See {Demonoid}.",
        "",
        ":Garden of Eden:  A configuration of ON and OFF cells that can only occur",
        "   in generation 0.  The following one fits in a 12 by 11 box:",
        "\t.*.***..**.*",
        "\t*.*.*.*..*.*",
        "\t**..*.*.***.",
        "\t.*.*.**.*..*",
        "\t*.**..*.*.**",
        "\t.*.*.*..**.*",
        "\t**.*.**.*.*.",
        "\t*..**.*.*.**",
        "\t.**.*...*.*.",
        "\t*.*.**.*.*.*",
        "\t.*..*.**.**.",
        "\t**.*..*.*..*",
        "   Steven Eker found a smaller one later:",
        "\t*.*.*.",
        "\t.*.*.*",
        "",
        ":Gosper glider gun:  The first known {gun}, and indeed the first known",
        "   finite pattern displaying {infinite growth}, found by Bill Gosper and",
        "   his team at MIT in November 1970.",
        "\t........................*...........",
        "\t......................*.*...........",
        "\t............**......**............**",
        "\t...........*...*....**............**",
        "\t**........*.....*...**..............",
        "\t**........*...*.**....*.*...........",
        "\t..........*.....*.......*...........",
        "\t...........*...*....................",
        "\t............**......................",
        "",
        ":Mickey Mouse: (p1)  The following {still life}, named by Mark Niemiec:",
        "\t.**....**.",
        "\t*..*..*..*",
        "\t*..****..*",
        "\t.**....**.",
        "\t...****...",
        "\t...*..*...",
        "\t....**....",
        "",
        ":pufferfish: (c/2, p12)  A puffer discovered by Richard Schank in",
        "   November 2014, from a symmetric soup search using an early version of",
        "   {apgsearch}.  It consists of a pair of {B-heptomino}es stabilised by a",
        "   backend that leaves only pairs of blocks behind.  It is simple enough",
        "   to be easily synthesized with gliders. See {soup} for a random initial",
        "   pattern, generated by {apgsearch} and recorded in {Catagolue}, that",
        "   produces a pufferfish.",
        "\t...*.........*...",
        "\t..***.......***..",
        "\t.**..*.....*..**.",
        "\t...***.....***...",
        "",
        "-----------------------------------------------------------------------",
        "",
        "Bibliography",
    ];
    let mut text = String::new();
    for line in lines {
        text.push_str(line);
        text.push('\n');
    }
    text
}

fn get_test_lexicon() -> Lexicon {
    let lexicon = parse_lexicon(lexicon_text());
    assert_eq!(lexicon.is_ok(), true);
    lexicon.unwrap()
}

#[test]
fn demonoid() {
    let lexicon = get_test_lexicon();
    let demonoid = lexicon.get_term("0hd Demonoid".to_string());
    assert_eq!(demonoid.is_some(), true);
    let demonoid = demonoid.unwrap();
    assert_eq!(demonoid.name, "0hd Demonoid".to_string());
    assert_eq!(demonoid.description, "See {Demonoid}.".to_string());
    assert_eq!(demonoid.cells.len(), 0);
    assert_eq!(demonoid.height, 0);
    assert_eq!(demonoid.width, 0);
    assert_eq!(demonoid.tags, Vec::<String>::new());
}

#[test]
fn gosper_glider_gun() {
    let lexicon = get_test_lexicon();
    let gun = lexicon.get_term("Gosper glider gun".to_string());
    assert_eq!(gun.is_some(), true);
    let gun = gun.unwrap();
    assert_eq!(gun.name, "Gosper glider gun".to_string());
    assert_eq!(gun.cells.len(), 36);
    assert_eq!(gun.height, 9);
    assert_eq!(gun.width, 36);
    assert_eq!(gun.tags, Vec::<String>::new());
}

#[test]
fn mickey_mouse() {
    let lexicon = get_test_lexicon();
    let mickey = lexicon.get_term("Mickey Mouse".to_string());
    assert_eq!(mickey.is_some(), true);
    let mickey = mickey.unwrap();
    assert_eq!(
        mickey.description,
        "The following {still life}, named by Mark Niemiec:".to_string()
    );
    assert_eq!(mickey.tags, vec!["p1".to_string()]);
}

#[test]
fn pufferfish() {
    let lexicon = get_test_lexicon();
    let pufferfish = lexicon.get_term("pufferfish".to_string());
    assert_eq!(pufferfish.is_some(), true);
    let pufferfish = pufferfish.unwrap();
    assert_eq!(pufferfish.tags, vec!["c/2".to_string(), "p12".to_string()]);
    assert_eq!(pufferfish.description, "A puffer discovered by Richard Schank in November 2014, from a symmetric soup search using an early version of {apgsearch}.  It consists of a pair of {B-heptomino}es stabilised by a backend that leaves only pairs of blocks behind.  It is simple enough to be easily synthesized with gliders. See {soup} for a random initial pattern, generated by {apgsearch} and recorded in {Catagolue}, that produces a pufferfish.".to_string());
}

#[test]
fn garden_of_eden() {
    let lexicon = get_test_lexicon();
    let garden = lexicon.get_term("Garden of Eden".to_string()).unwrap();
    assert_eq!(garden.height, 12);
}

#[test]
fn unknown_term_is_not_found() {
    let lexicon = get_test_lexicon();
    assert_eq!(lexicon.terms.len(), 5);
    assert!(lexicon.get_term("unknwon pattern".to_string()).is_none());
    assert!(lexicon.get_term("gosper glider gun".to_string()).is_none());
    assert!(lexicon.get_term("pufferfish ".to_string()).is_none());
}
