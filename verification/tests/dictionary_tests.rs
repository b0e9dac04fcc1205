use wordbush::dictionary::{build_word_radix, try_build_word_radix, word_from_line, MAX_WORDS};

fn lines(v: &[&str]) -> Vec<String> {
    v.iter().map(|s| s.to_string()).collect()
}

#[test]
fn word_from_line_drops_two_bytes() {
    assert_eq!(word_from_line(&String::from("hej\r\n")), "hej");
    assert_eq!(word_from_line(&String::from("hej\n")), "he");
    assert_eq!(word_from_line(&String::from("\r\n")), "");
    // "é" has two bytes: "é\n" has three, so one character is kept
    assert_eq!(word_from_line(&String::from("é\n")), "é");
    // six bytes less two is more than the three characters: all are kept
    assert_eq!(word_from_line(&String::from("ééé")), "ééé");
}

#[test]
fn build_loads_every_line() {
    let (root, n) = build_word_radix(&lines(&["hej\r\n", "hejsa\r\n", "ord\r\n"]));
    assert_eq!(n, 3);
    for w in ["hej", "hejsa", "ord"] {
        assert_eq!(root.lookup(&String::from(w)), Ok(()));
    }
    assert_eq!(root.lookup(&String::from("hejs")), Err("Key not found in tree"));
}

#[test]
fn build_of_no_line_is_empty() {
    let (root, n) = build_word_radix(&Vec::new());
    assert_eq!(n, 0);
    assert!(root.child('a').is_none());
}

#[test]
fn try_build_refuses_a_short_line() {
    assert!(try_build_word_radix(&lines(&["hej\r\n", "x"])).is_none());
    assert!(try_build_word_radix(&lines(&["hej\r\n", "\r\n"])).is_none());
    assert!(try_build_word_radix(&lines(&["hej\r\n", "a\r\n"])).is_some());
}

#[test]
fn build_stops_at_the_limit() {
    assert_eq!(MAX_WORDS, 1_000_000);
}

#[test]
fn ascii_dictionary_loads_every_word() {
    let ws = ["aal\r\n", "aalii\r\n", "aam\r\n", "aardvark\r\n", "ab\r\n", "zymurgy\r\n"];
    let lines = lines(&ws);
    let (root, n) = try_build_word_radix(&lines).unwrap();
    assert_eq!(n, ws.len());
    for w in ["aal", "aalii", "aam", "aardvark", "ab", "zymurgy"] {
        assert_eq!(root.lookup(&String::from(w)), Ok(()));
    }
}
