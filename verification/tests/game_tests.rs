use wordbush::game::{run, Game, GameData, GameOutput, Phase, MAX_COMBO};
use wordbush::radix::Radix;

fn dictionary(words: &[&str]) -> Radix {
    let mut root = Radix::new();
    for w in words {
        root.insert(w.to_string());
    }
    root
}

fn play(game: &mut Game, dict: &Radix, line: &str) -> Vec<GameOutput> {
    let line = format!("{line}\n");
    assert!(game.can_step(dict, &line));
    game.step(dict, &line)
}

fn describe(out: &[GameOutput]) -> Vec<String> {
    out.iter().map(|o| format!("{o:?}")).collect()
}

#[test]
fn game_data_starts_empty() {
    let data = GameData::new();
    assert!(data.word.iter().all(|c| *c == '\0'));
}

#[test]
fn run_does_nothing() {
    assert_eq!(run(Radix::new()), Ok(()));
}

#[test]
fn game_asks_for_a_start_word() {
    let (game, out) = Game::new();
    assert_eq!(game.phase(), Phase::Opening);
    assert_eq!(describe(&out), vec!["AskStartWord"]);
}

#[test]
fn game_rejects_a_start_word_outside_the_dictionary() {
    let dict = dictionary(&["hej"]);
    let (mut game, _) = Game::new();
    let out = play(&mut game, &dict, "xyz");
    assert_eq!(describe(&out), vec!["StartWordRejected"]);
    assert_eq!(game.phase(), Phase::Opening);
}

#[test]
fn game_plays_a_round() {
    let dict = dictionary(&["hej", "ej", "en", "jo", "ja"]);
    let (mut game, _) = Game::new();

    let out = play(&mut game, &dict, "hej");
    assert_eq!(
        describe(&out),
        vec![
            "Status { word: \"hej\", points: 0, combo: 1 }".to_string(),
            "Character('e')".to_string()
        ]
    );

    let out = play(&mut game, &dict, "zz");
    assert_eq!(describe(&out), vec!["NotAWord { combo: 1 }"]);

    let out = play(&mut game, &dict, "jo");
    assert_eq!(describe(&out), vec!["WrongLetter { combo: 1 }"]);

    let out = play(&mut game, &dict, "hej");
    assert_eq!(describe(&out), vec!["WrongLetter { combo: 1 }"]);

    let out = play(&mut game, &dict, "en");
    assert_eq!(
        describe(&out),
        vec![
            "Registered { word: \"en\", awarded: 2, points: 2, combo: 2 }".to_string(),
            "Character('j')".to_string()
        ]
    );

    let out = play(&mut game, &dict, "jo");
    assert_eq!(
        describe(&out),
        vec![
            "Registered { word: \"jo\", awarded: 4, points: 6, combo: 3 }".to_string(),
            "Status { word: \"jo\", points: 6, combo: 3 }".to_string(),
            "Character('o')".to_string()
        ]
    );
    assert_eq!(game.points(), 6);
    assert_eq!(game.combo(), 3);
}

#[test]
fn game_rejects_a_used_word() {
    let dict = dictionary(&["aba", "ba", "ab"]);
    let (mut game, _) = Game::new();
    play(&mut game, &dict, "aba");
    // current character is 'b'
    let out = play(&mut game, &dict, "ba");
    assert_eq!(describe(&out)[0], "Registered { word: \"ba\", awarded: 2, points: 2, combo: 2 }");
    // current character is 'a'; "aba" was the start word
    let out = play(&mut game, &dict, "aba");
    assert_eq!(describe(&out), vec!["AlreadyUsed { combo: 1 }"]);
    assert_eq!(game.combo(), 1);
}

#[test]
fn game_compares_first_letters_lowercased() {
    let dict = dictionary(&["hej", "ej"]);
    let (mut game, _) = Game::new();
    play(&mut game, &dict, "hej");
    let out = play(&mut game, &dict, "Ej");
    assert_eq!(describe(&out)[0], "Registered { word: \"Ej\", awarded: 2, points: 2, combo: 2 }");
}

#[test]
fn combo_stops_at_its_maximum() {
    let dict = dictionary(&["aaaaaaaaaaaa", "a", "aa", "aaa", "aaaa", "aaaaa", "aaaaaa", "aaaaaaa", "aaaaaaaa", "aaaaaaaaa", "aaaaaaaaaa"]);
    let (mut game, _) = Game::new();
    play(&mut game, &dict, "aaaaaaaaaaaa");
    for w in ["a", "aa", "aaa", "aaaa", "aaaaa", "aaaaaa", "aaaaaaa", "aaaaaaaa", "aaaaaaaaa"] {
        play(&mut game, &dict, w);
    }
    assert_eq!(game.combo(), MAX_COMBO);
    assert_eq!(game.points(), 1 + 2 * 2 + 3 * 3 + 4 * 4 + 5 * 5 + 6 * 6 + 7 * 7 + 8 * 8 + 8 * 9);
}

#[test]
fn single_byte_word_is_matched_from_its_first_character() {
    let dict = dictionary(&["a", "ab"]);
    let (mut game, _) = Game::new();
    let out = play(&mut game, &dict, "a");
    assert_eq!(
        describe(&out),
        vec!["Status { word: \"a\", points: 0, combo: 1 }".to_string(), "Character('a')".to_string()]
    );
    let out = play(&mut game, &dict, "ab");
    assert_eq!(
        describe(&out),
        vec![
            "Registered { word: \"ab\", awarded: 2, points: 2, combo: 2 }".to_string(),
            "Status { word: \"ab\", points: 2, combo: 2 }".to_string(),
            "Character('b')".to_string()
        ]
    );
}

#[test]
fn game_with_a_word_of_no_character_to_match_ends() {
    // "é" is one character of two bytes: its first character is skipped,
    // so the round has nothing to match and the game ends
    let dict = dictionary(&["é"]);
    let (mut game, _) = Game::new();
    let out = play(&mut game, &dict, "é");
    assert_eq!(
        describe(&out),
        vec![
            "Status { word: \"é\", points: 0, combo: 1 }".to_string(),
            "Status { word: \"\", points: 0, combo: 1 }".to_string()
        ]
    );
    assert_eq!(game.phase(), Phase::Finished);
    let line = String::from("x\n");
    assert!(game.can_step(&dict, &line));
    assert!(game.step(&dict, &line).is_empty());
}

#[test]
fn empty_input_while_playing_cannot_be_stepped() {
    let dict = dictionary(&["hej"]);
    let (mut game, _) = Game::new();
    play(&mut game, &dict, "hej");
    assert!(!game.can_step(&dict, &String::from("\n")));
}
