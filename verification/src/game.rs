use vstd::prelude::*;

use vstd::utf8::{char_is_scalar, char_u32_cast, encode_scalar, encode_utf8, is_ascii_chars};

use crate::radix::{
    empty_view, insert_ok, spec_insert, spec_lookup, spec_lookup_ascii, LookupOutcome, Radix, RadixView,
};
use crate::text::{
    ascii_lowercase, byte_count, byte_len, char_at, chars_of, lemma_chars_le_bytes, lowercase_first, string_from,
    to_lowercase_first, utf8_len,
};

verus! {

/// Most points a word can multiply by: the combo stops growing there.
pub const MAX_COMBO: usize = 8;

/// Where a game stands.
#[derive(PartialEq, Eq, Structural, Clone, Copy, Debug)]
pub enum Phase {
    /// Waiting for a word from the dictionary to start with.
    Opening,
    /// Waiting for a word that starts with the current character.
    Playing,
    /// The game is over.
    Finished,
}

/// What the game tells the player.
#[derive(Debug)]
pub enum GameOutput {
    /// "Input a word to start:"
    AskStartWord,
    /// "Input is not a word, please try again."
    StartWordRejected,
    /// "Your word is {word}. Points: {points}. Combo: {combo}."
    Status { word: String, points: usize, combo: usize },
    /// The character that the next word has to start with.
    Character(char),
    /// "Your input is not a word. Combo: {combo}"
    NotAWord { combo: usize },
    /// "Your word needs to start with the same letter as your current character. Combo: {combo}"
    WrongLetter { combo: usize },
    /// "You have already used that word. Combo: {combo}"
    AlreadyUsed { combo: usize },
    /// "Registered word {word}. Points awarded: {awarded}. Total points: {points}. Combo: {combo}"
    Registered { word: String, awarded: usize, points: usize, combo: usize },
}

/// The value of a `GameOutput`.
pub enum OutputView {
    AskStartWord,
    StartWordRejected,
    Status { word: Seq<char>, points: nat, combo: nat },
    Character(char),
    NotAWord { combo: nat },
    WrongLetter { combo: nat },
    AlreadyUsed { combo: nat },
    Registered { word: Seq<char>, awarded: nat, points: nat, combo: nat },
}

impl View for GameOutput {
    type V = OutputView;

    open spec fn view(&self) -> OutputView {
        match self {
            GameOutput::AskStartWord => OutputView::AskStartWord,
            GameOutput::StartWordRejected => OutputView::StartWordRejected,
            GameOutput::Status { word, points, combo } => OutputView::Status {
                word: word@,
                points: *points as nat,
                combo: *combo as nat,
            },
            GameOutput::Character(c) => OutputView::Character(*c),
            GameOutput::NotAWord { combo } => OutputView::NotAWord { combo: *combo as nat },
            GameOutput::WrongLetter { combo } => OutputView::WrongLetter { combo: *combo as nat },
            GameOutput::AlreadyUsed { combo } => OutputView::AlreadyUsed { combo: *combo as nat },
            GameOutput::Registered { word, awarded, points, combo } => OutputView::Registered {
                word: word@,
                awarded: *awarded as nat,
                points: *points as nat,
                combo: *combo as nat,
            },
        }
    }
}

/// The outputs, as values.
pub open spec fn outputs_view(v: Seq<GameOutput>) -> Seq<OutputView> {
    v.map_values(|o: GameOutput| o@)
}

/// One game: the words used so far, the current word and the position of
/// the character to match in it, points, combo, and the last word accepted.
pub struct Game {
    phase: Phase,
    used_words: Radix,
    primary: String,
    position: usize,
    points: usize,
    combo: usize,
    last_word: String,
}

/// The value of a `Game`.
pub struct GameView {
    pub phase: Phase,
    pub used: RadixView,
    pub primary: Seq<char>,
    pub position: nat,
    pub points: nat,
    pub combo: nat,
    pub last: Seq<char>,
}

impl View for Game {
    type V = GameView;

    closed spec fn view(&self) -> GameView {
        GameView {
            phase: self.phase,
            used: self.used_words@,
            primary: self.primary@,
            position: self.position as nat,
            points: self.points as nat,
            combo: self.combo as nat,
            last: self.last_word@,
        }
    }
}

/// A line as read, without its last character (the line break).
pub open spec fn without_last(line: Seq<char>) -> Seq<char> {
    if line.len() > 0 {
        line.drop_last()
    } else {
        line
    }
}

/// Where the characters to match start in a word: at the second one, but at
/// the first when the word is a single byte long.
pub open spec fn start_position(word: Seq<char>) -> nat {
    if byte_count(word) == 1 {
        0
    } else {
        1
    }
}

/// A round on the current word begins: the status is told, then the first
/// character to match; when there is none, the game ends if the current
/// word is the last one accepted, and otherwise that word becomes the
/// current one and a new round begins.
pub open spec fn spec_enter(g: GameView) -> (GameView, Seq<OutputView>)
    decreases (if g.primary == g.last { 0int } else { 1int }),
{
    let status = OutputView::Status { word: g.primary, points: g.points, combo: g.combo };
    let p = start_position(g.primary);
    if p < g.primary.len() {
        (
            GameView { phase: Phase::Playing, position: p, ..g },
            seq![status, OutputView::Character(g.primary[p as int])],
        )
    } else if g.primary == g.last {
        (GameView { phase: Phase::Finished, ..g }, seq![status])
    } else {
        let (g2, out) = spec_enter(GameView { primary: g.last, ..g });
        (g2, seq![status] + out)
    }
}

/// Where a game begins: waiting for a start word, no word used, no points,
/// combo 1.
pub open spec fn initial_game() -> GameView {
    GameView {
        phase: Phase::Opening,
        used: empty_view(),
        primary: Seq::empty(),
        position: 0,
        points: 0,
        combo: 1,
        last: Seq::empty(),
    }
}

/// What holds of every game: while playing, the position is one of the
/// current word's characters; the combo is between 1 and `MAX_COMBO`.
pub open spec fn game_inv(g: GameView) -> bool {
    &&& g.phase == Phase::Playing ==> g.position < g.primary.len()
    &&& 1 <= g.combo <= MAX_COMBO
}

/// The game after the player's `line` (as read, line break included) and
/// what it tells the player, given the dictionary `dict`.
///
/// Opening: a word of the dictionary starts the game, which puts it among
/// the used words; any other input is rejected. Playing: the word must be
/// in the dictionary, start with the current character (compared
/// lowercased) and not be used yet, else the combo falls back to 1. A word
/// that passes earns the combo times its length in bytes, raises the combo
/// up to `MAX_COMBO`, becomes the last word accepted, and moves on to the
/// next character; when there is none, the game ends if the current word is
/// the last one accepted, and otherwise that word starts a new round.
pub open spec fn spec_step(g: GameView, dict: RadixView, line: Seq<char>) -> (GameView, Seq<OutputView>) {
    let w = without_last(line);
    match g.phase {
        Phase::Opening => {
            if spec_lookup(dict, w) == LookupOutcome::Found {
                spec_enter(
                    GameView {
                        phase: Phase::Playing,
                        used: spec_insert(empty_view(), w),
                        primary: w,
                        position: 0,
                        points: 0,
                        combo: 1,
                        last: Seq::empty(),
                    },
                )
            } else {
                (g, seq![OutputView::StartWordRejected])
            }
        },
        Phase::Playing => {
            let c = g.primary[g.position as int];
            if spec_lookup(dict, w) != LookupOutcome::Found {
                (GameView { combo: 1, ..g }, seq![OutputView::NotAWord { combo: 1 }])
            } else if lowercase_first(w[0]) != lowercase_first(c) {
                (GameView { combo: 1, ..g }, seq![OutputView::WrongLetter { combo: 1 }])
            } else if spec_lookup(g.used, w) == LookupOutcome::Found {
                (GameView { combo: 1, ..g }, seq![OutputView::AlreadyUsed { combo: 1 }])
            } else {
                let awarded: nat = g.combo * (byte_count(w) as nat);
                let combo: nat = if g.combo < MAX_COMBO { g.combo + 1 } else { g.combo };
                let points: nat = g.points + awarded;
                let g1 = GameView {
                    used: spec_insert(g.used, w),
                    points: points,
                    combo: combo,
                    last: w,
                    position: g.position + 1,
                    ..g
                };
                let reg = OutputView::Registered { word: w, awarded: awarded, points: points, combo: combo };
                if g1.position < g1.primary.len() {
                    (g1, seq![reg, OutputView::Character(g1.primary[g1.position as int])])
                } else if g1.primary == g1.last {
                    (GameView { phase: Phase::Finished, ..g1 }, seq![reg])
                } else {
                    let (g2, out) = spec_enter(GameView { primary: g1.last, ..g1 });
                    (g2, seq![reg] + out)
                }
            }
        },
        Phase::Finished => (g, seq![]),
    }
}

/// The inputs on which a step completes: an accepted start word is not
/// empty; while playing, the word is not empty and, when it passes, it can be
/// inserted among the used words and the points it earns fit a `usize`.
pub open spec fn step_ok(g: GameView, dict: RadixView, line: Seq<char>) -> bool {
    let w = without_last(line);
    match g.phase {
        Phase::Opening => spec_lookup(dict, w) == LookupOutcome::Found ==> w.len() > 0,
        Phase::Playing => {
            &&& w.len() > 0
            &&& (spec_lookup(dict, w) == LookupOutcome::Found && lowercase_first(w[0])
                == lowercase_first(g.primary[g.position as int]) && spec_lookup(g.used, w)
                != LookupOutcome::Found) ==> {
                &&& insert_ok(g.used, w)
                &&& g.points + g.combo * byte_count(w) <= usize::MAX
            }
        },
        Phase::Finished => true,
    }
}

/// A round keeps the combo, and leaves the game playing only at one of the
/// current word's characters.
proof fn lemma_enter_inv(g: GameView)
    requires
        1 <= g.combo <= MAX_COMBO,
    ensures
        game_inv(spec_enter(g).0),
        spec_enter(g).0.points == g.points,
        spec_enter(g).0.used == g.used,
    decreases (if g.primary == g.last { 0int } else { 1int }),
{
    let p = start_position(g.primary);
    if !(p < g.primary.len()) && g.primary != g.last {
        lemma_enter_inv(GameView { primary: g.last, ..g });
    }
}

/// Room for the word that a client sends at the start of a game.
pub struct GameData {
    pub word: [char; 64],
}

impl GameData {
    /// A `GameData` whose word is all null characters.
    pub fn new() -> (r: GameData)
        ensures
            forall|i: int| 0 <= i < 64 ==> r.word@[i] == '\0',
    {
        GameData { word: ['\0'; 64] }
    }
}

/// Serves games with the dictionary `word_radix`; there is nothing to do
/// yet, so it succeeds at once.
pub fn run(word_radix: Radix) -> (r: Result<(), ()>)
    ensures
        r is Ok,
{
    Ok(())
}

/// Points never go down while a game is played: a step leaves a game that
/// has started with at least the points it had.
pub proof fn law_points_never_decrease(g: GameView, dict: RadixView, line: Seq<char>)
    requires
        g.phase != Phase::Opening,
        game_inv(g),
    ensures
        spec_step(g, dict, line).0.points >= g.points,
{
    if g.phase == Phase::Playing {
        let w = without_last(line);
        if spec_lookup(dict, w) == LookupOutcome::Found && lowercase_first(w[0]) == lowercase_first(
            g.primary[g.position as int],
        ) && spec_lookup(g.used, w) != LookupOutcome::Found {
            let awarded: nat = g.combo * (byte_count(w) as nat);
            let combo: nat = if g.combo < MAX_COMBO { g.combo + 1 } else { g.combo };
            let g1 = GameView {
                used: spec_insert(g.used, w),
                points: g.points + awarded,
                combo: combo,
                last: w,
                position: g.position + 1,
                ..g
            };
            lemma_enter_inv(GameView { primary: g1.last, ..g1 });
        }
    }
}

/// One output.
proof fn lemma_one_output(a: OutputView)
    ensures
        seq![a].len() == 1,
        seq![a][0] == a,
{
}

/// The first of two outputs.
proof fn lemma_two_outputs(a: OutputView, b: OutputView)
    ensures
        seq![a, b].len() == 2,
        seq![a, b][0] == a,
        seq![a, b][1] == b,
{
}

/// A round on the word accepted last: the status, then its first character
/// to match, or the end of the game when it has none.
proof fn lemma_enter_current_is_last(g: GameView)
    requires
        g.primary == g.last,
    ensures
        ({
            let status = OutputView::Status { word: g.primary, points: g.points, combo: g.combo };
            let p = start_position(g.primary);
            &&& spec_enter(g).1.len() >= 1
            &&& spec_enter(g).1[0] == status
            &&& spec_enter(g).0.primary == g.primary
            &&& p < g.primary.len() ==> spec_enter(g).0.phase == Phase::Playing && spec_enter(g).0.position == p
            &&& p >= g.primary.len() ==> spec_enter(g).0.phase == Phase::Finished
        }),
{
    broadcast use vstd::seq::group_seq_axioms;

    let status = OutputView::Status { word: g.primary, points: g.points, combo: g.combo };
    let p = start_position(g.primary);
    if p < g.primary.len() {
        let c = g.primary[p as int];
        let out = seq![status, OutputView::Character(c)];
        lemma_two_outputs(status, OutputView::Character(c));
        assert(spec_enter(g) == (GameView { phase: Phase::Playing, position: p, ..g }, out));
        assert(out[0] == status);
    } else {
        assert(spec_enter(g) == (GameView { phase: Phase::Finished, ..g }, seq![status]));
        assert(seq![status][0] == status);
    }
}

/// What the start word does: a word of the dictionary starts the game with
/// it as the current word, among the used words, with no points and combo 1;
/// the status is told, and the round asks for its characters from
/// `start_position` on (the second one, or the first of a one-byte word).
/// Any other start word is rejected and the game keeps waiting.
pub proof fn law_start(g: GameView, dict: RadixView, line: Seq<char>)
    requires
        g.phase == Phase::Opening,
    ensures
        ({
            let w = without_last(line);
            let (g2, out) = spec_step(g, dict, line);
            &&& spec_lookup(dict, w) == LookupOutcome::Found ==> {
                &&& g2.used == spec_insert(empty_view(), w)
                &&& g2.points == 0
                &&& g2.combo == 1
                &&& out[0] == OutputView::Status { word: w, points: 0, combo: 1 }
                &&& start_position(w) < w.len() ==> {
                    &&& g2.phase == Phase::Playing
                    &&& g2.primary == w
                    &&& g2.position == start_position(w)
                    &&& out.len() == 2
                    &&& out[1] == OutputView::Character(w[start_position(w) as int])
                }
            }
            &&& spec_lookup(dict, w) != LookupOutcome::Found ==> g2 == g && out == seq![
                OutputView::StartWordRejected,
            ]
        }),
{
    let w = without_last(line);
    if spec_lookup(dict, w) == LookupOutcome::Found {
        let g0 = GameView {
            phase: Phase::Playing,
            used: spec_insert(empty_view(), w),
            primary: w,
            position: 0,
            points: 0,
            combo: 1,
            last: Seq::empty(),
        };
        let status = OutputView::Status { word: w, points: 0, combo: 1 };
        let p = start_position(w);
        if p < w.len() {
            lemma_two_outputs(status, OutputView::Character(w[p as int]));
        } else if w == g0.last {
            lemma_one_output(status);
        } else {
            lemma_enter_current_is_last(GameView { primary: g0.last, ..g0 });
            lemma_one_output(status);
            let (g2, out) = spec_enter(GameView { primary: g0.last, ..g0 });
            assert((seq![status] + out)[0] == status);
        }
    }
}

/// The player's word is accepted: it is in the dictionary, starts with the
/// current character (compared lowercased), and is not used yet.
pub open spec fn accepted(g: GameView, dict: RadixView, w: Seq<char>) -> bool {
    &&& spec_lookup(dict, w) == LookupOutcome::Found
    &&& lowercase_first(w[0]) == lowercase_first(g.primary[g.position as int])
    &&& spec_lookup(g.used, w) != LookupOutcome::Found
}

/// What an answer does while playing. An accepted word goes among the used
/// words, earns the combo times its byte length, raises the combo by one up
/// to `MAX_COMBO`, becomes the last word accepted and is registered; then the
/// next character of the current word is asked for, or, at its end, the game
/// is over when the word is the current one, and otherwise the word becomes
/// the current one and its round begins with its status (it is over when the
/// new word has no character to match). Any other word leaves the game as it
/// was but for the combo, which falls back to 1, and is answered with one
/// rejection.
pub proof fn law_answer(g: GameView, dict: RadixView, line: Seq<char>)
    requires
        g.phase == Phase::Playing,
        game_inv(g),
        without_last(line).len() > 0,
    ensures
        ({
            let w = without_last(line);
            let (g2, out) = spec_step(g, dict, line);
            let awarded = g.combo * (byte_count(w) as nat);
            let combo: nat = if g.combo < MAX_COMBO { g.combo + 1 } else { g.combo };
            &&& accepted(g, dict, w) ==> {
                &&& g2.used == spec_insert(g.used, w)
                &&& g2.points == g.points + awarded
                &&& g2.combo == combo
                &&& g2.last == w
                &&& out[0] == OutputView::Registered { word: w, awarded: awarded, points: g.points + awarded, combo: combo }
                &&& g.position + 1 < g.primary.len() ==> {
                    &&& g2.phase == Phase::Playing
                    &&& g2.primary == g.primary
                    &&& g2.position == g.position + 1
                    &&& out.len() == 2
                    &&& out[1] == OutputView::Character(g.primary[g.position + 1int])
                }
                &&& g.position + 1 >= g.primary.len() && g.primary == w ==> {
                    &&& g2.phase == Phase::Finished
                    &&& out.len() == 1
                }
                &&& g.position + 1 >= g.primary.len() && g.primary != w ==> {
                    &&& g2.primary == w
                    &&& out[1] == OutputView::Status { word: w, points: g.points + awarded, combo: combo }
                    &&& (start_position(w) < w.len() ==> g2.phase == Phase::Playing && g2.position
                        == start_position(w))
                    &&& (start_position(w) >= w.len() ==> g2.phase == Phase::Finished)
                }
            }
            &&& !accepted(g, dict, w) ==> {
                &&& g2 == GameView { combo: 1, ..g }
                &&& out.len() == 1
            }
        }),
{
    let w = without_last(line);
    if accepted(g, dict, w) {
        let awarded = g.combo * (byte_count(w) as nat);
        let combo: nat = if g.combo < MAX_COMBO { g.combo + 1 } else { g.combo };
        let g1 = GameView {
            used: spec_insert(g.used, w),
            points: g.points + awarded,
            combo: combo,
            last: w,
            position: g.position + 1,
            ..g
        };
        let reg = OutputView::Registered { word: w, awarded: awarded, points: g.points + awarded, combo: combo };
        if g1.position < g1.primary.len() {
            lemma_two_outputs(reg, OutputView::Character(g1.primary[g1.position as int]));
        } else if g1.primary == g1.last {
            lemma_one_output(reg);
        } else {
            let g3 = GameView { primary: g1.last, ..g1 };
            lemma_enter_current_is_last(g3);
            let (g2, out) = spec_enter(g3);
            assert(spec_step(g, dict, line) == (g2, seq![reg] + out));
            lemma_one_output(reg);
            assert((seq![reg] + out)[0] == reg);
            assert((seq![reg] + out)[1] == out[0]);
        }
    } else {
        if spec_lookup(dict, w) != LookupOutcome::Found {
            lemma_one_output(OutputView::NotAWord { combo: 1 });
        } else if lowercase_first(w[0]) != lowercase_first(g.primary[g.position as int]) {
            lemma_one_output(OutputView::WrongLetter { combo: 1 });
        } else {
            lemma_one_output(OutputView::AlreadyUsed { combo: 1 });
        }
    }
}

/// The bytes of one character: one exactly when it is ASCII, and at most
/// four.
proof fn lemma_one_char_bytes(w: Seq<char>)
    requires
        w.len() == 1,
    ensures
        utf8_len(w) <= 4,
        utf8_len(w) == 1 <==> w[0] <= '\u{7f}',
{
    broadcast use vstd::seq::group_seq_axioms;

    let c = w[0] as u32;
    assert(w.drop_first().len() == 0);
    assert(encode_utf8(w.drop_first()) =~= Seq::<u8>::empty());
    assert(encode_utf8(w) =~= encode_scalar(c));
    let e = encode_scalar(c);
    assert(utf8_len(w) == e.len());
    char_u32_cast(w[0], c);
    char_is_scalar(w[0]);
    assert((w[0] <= '\u{7f}') == (c <= 0x7f));
    if c <= 0x7f {
        assert(e.len() == 1);
    } else {
        assert(2 <= e.len() <= 4);
    }
}

/// Where a round starts in its word: at the second character of a word of
/// two characters or more, at the first character of a word that is one
/// ASCII character, and past the one character of a word whose character
/// takes more than one byte (so that the round asks for none).
pub proof fn law_start_position(w: Seq<char>)
    requires
        utf8_len(w) <= usize::MAX,
    ensures
        w.len() >= 2 ==> start_position(w) == 1,
        w.len() == 1 && w[0] <= '\u{7f}' ==> start_position(w) == 0,
        w.len() == 1 && w[0] > '\u{7f}' ==> start_position(w) == 1,
        w.len() == 0 ==> start_position(w) == 1,
{
    lemma_chars_le_bytes(w);
    if w.len() == 1 {
        lemma_one_char_bytes(w);
    }
    if w.len() == 0 {
        assert(encode_utf8(w) =~= Seq::<u8>::empty());
    }
}

/// The first round asks for the start word's second character: a start word
/// of two characters or more that the dictionary holds puts the game at
/// position 1, and the status is followed by that character; a start word
/// of one ASCII character is asked from that character.
pub proof fn law_first_round(g: GameView, dict: RadixView, line: Seq<char>)
    requires
        g.phase == Phase::Opening,
        spec_lookup(dict, without_last(line)) == LookupOutcome::Found,
        utf8_len(without_last(line)) <= usize::MAX,
    ensures
        ({
            let w = without_last(line);
            let (g2, out) = spec_step(g, dict, line);
            &&& out[0] == OutputView::Status { word: w, points: 0, combo: 1 }
            &&& w.len() >= 2 ==> {
                &&& g2.phase == Phase::Playing
                &&& g2.position == 1
                &&& out.len() == 2
                &&& out[1] == OutputView::Character(w[1])
            }
            &&& w.len() == 1 && w[0] <= '\u{7f}' ==> {
                &&& g2.phase == Phase::Playing
                &&& g2.position == 0
                &&& out.len() == 2
                &&& out[1] == OutputView::Character(w[0])
            }
        }),
{
    law_start(g, dict, line);
    law_start_position(without_last(line));
}

/// At the start of a game every line can be played on a dictionary whose root
/// holds no characters and ends no word: a start word that is found is not
/// empty, and a line that holds no word (the player only pressed Enter) finds
/// nothing and is answered with a rejection. An ASCII key is looked up by its
/// ASCII lowercase, as `Radix::lookup` ensures of every key.
pub proof fn law_opening_plays_every_line(g: GameView, dict: RadixView, line: Seq<char>)
    requires
        g.phase == Phase::Opening,
        dict.chars.len() == 0,
        !dict.is_word,
        is_ascii_chars(without_last(line)) ==> spec_lookup(dict, without_last(line)) == spec_lookup_ascii(
            dict,
            without_last(line),
        ),
    ensures
        step_ok(g, dict, line),
        without_last(line).len() == 0 ==> spec_step(g, dict, line).0 == g && spec_step(g, dict, line).1
            == seq![OutputView::StartWordRejected],
{
    let w = without_last(line);
    if w.len() == 0 {
        assert(is_ascii_chars(w));
        assert(ascii_lowercase(w) =~= dict.chars);
        assert(spec_lookup_ascii(dict, w) == LookupOutcome::NotAWord);
    }
}

/// `line` without its last character, if it has one.
fn strip_last(line: &String) -> (r: String)
    ensures
        r@ == without_last(line@),
{
    let v = chars_of(line.as_str());
    if v.len() > 0 {
        let r = string_from(&v, 0, v.len() - 1);
        assert(r@ =~= line@.drop_last());
        r
    } else {
        line.clone()
    }
}

impl Game {
    /// A game waiting for its start word, and the prompt for it.
    pub fn new() -> (r: (Game, Vec<GameOutput>))
        ensures
            r.0@ == initial_game(),
            outputs_view(r.1@) == seq![OutputView::AskStartWord],
    {
        let g = Game {
            phase: Phase::Opening,
            used_words: Radix::new(),
            primary: String::new(),
            position: 0,
            points: 0,
            combo: 1,
            last_word: String::new(),
        };
        let mut out: Vec<GameOutput> = Vec::new();
        out.push(GameOutput::AskStartWord);
        assert(outputs_view(out@) =~= seq![OutputView::AskStartWord]);
        (g, out)
    }

    /// Where the game stands.
    pub fn phase(&self) -> (r: Phase)
        ensures
            r == self@.phase,
    {
        self.phase
    }

    /// The points earned so far.
    pub fn points(&self) -> (r: usize)
        ensures
            r == self@.points,
    {
        self.points
    }

    /// The current combo.
    pub fn combo(&self) -> (r: usize)
        ensures
            r == self@.combo,
    {
        self.combo
    }

    /// Begins a round on the current word (see `spec_enter`).
    #[verifier::spinoff_prover]
    fn enter(&mut self) -> (out: Vec<GameOutput>)
        ensures
            (final(self)@, outputs_view(out@)) == spec_enter(old(self)@),
        decreases (if old(self)@.primary == old(self)@.last { 0int } else { 1int }),
    {
        let ghost g = self@;
        let mut said: Vec<GameOutput> = Vec::new();
        said.push(GameOutput::Status { word: self.primary.clone(), points: self.points, combo: self.combo });
        let pc = chars_of(self.primary.as_str());
        let p: usize = if byte_len(&self.primary) == 1 { 0 } else { 1 };
        let ghost status = OutputView::Status { word: g.primary, points: g.points, combo: g.combo };
        assert(outputs_view(said@) =~= seq![status]);
        if p < pc.len() {
            let c = char_at(&pc, p);
            said.push(GameOutput::Character(c));
            self.phase = Phase::Playing;
            self.position = p;
            assert(outputs_view(said@) =~= seq![status, OutputView::Character(g.primary[p as int])]);
        } else if self.primary == self.last_word {
            self.phase = Phase::Finished;
        } else {
            self.primary = self.last_word.clone();
            let mut more = self.enter();
            let ghost rest = more@;
            said.append(&mut more);
            assert(outputs_view(said@) =~= seq![status] + outputs_view(rest));
        }
        said
    }

    /// Whether `step` completes on `line` (see `step_ok`).
    #[verifier::spinoff_prover]
    pub fn can_step(&self, dict: &Radix, line: &String) -> (r: bool)
        requires
            game_inv(self@),
        ensures
            r == step_ok(self@, dict@, line@),
            self@.phase == Phase::Opening && dict@.chars.len() == 0 && !dict@.is_word ==> r,
    {
        let w = strip_last(line);
        match self.phase {
            Phase::Opening => {
                let found = dict.lookup(&w).is_ok();
                assert(found == (spec_lookup(dict@, w@) == LookupOutcome::Found));
                proof {
                    if dict@.chars.len() == 0 && !dict@.is_word {
                        law_opening_plays_every_line(self@, dict@, line@);
                    }
                }
                !found || chars_of(w.as_str()).len() > 0
            },
            Phase::Playing => {
                let wc = chars_of(w.as_str());
                if wc.len() == 0 {
                    return false;
                }
                let pc = chars_of(self.primary.as_str());
                assert(self.position < pc.len());
                let passes = dict.lookup(&w).is_ok()
                    && to_lowercase_first(char_at(&wc, 0)) == to_lowercase_first(char_at(&pc, self.position))
                    && !self.used_words.lookup(&w).is_ok();
                assert(passes == (spec_lookup(dict@, w@) == LookupOutcome::Found && lowercase_first(w@[0])
                == lowercase_first(self@.primary[self@.position as int]) && spec_lookup(self@.used, w@)
                != LookupOutcome::Found));
                if !passes {
                    return true;
                }
                if !self.used_words.can_insert(&w) {
                    assert(!step_ok(self@, dict@, line@));
                    return false;
                }
                let len = byte_len(&w);
                assert(insert_ok(self@.used, w@));
                assert(len * self.combo == self.combo * len) by (nonlinear_arith);
                match len.checked_mul(self.combo) {
                    None => {
                        assert(self@.points + self@.combo * byte_count(w@) > usize::MAX);
                        false
                    },
                    Some(awarded) => match self.points.checked_add(awarded) {
                        None => false,
                        Some(_) => {
                            assert(step_ok(self@, dict@, line@));
                            true
                        },
                    },
                }
            },
            Phase::Finished => true,
        }
    }

    /// Plays the player's `line` (as read, line break included) against the
    /// dictionary `dict` (see `spec_step`), and tells what the game says.
    pub fn step(&mut self, dict: &Radix, line: &String) -> (out: Vec<GameOutput>)
        requires
            game_inv(old(self)@),
            step_ok(old(self)@, dict@, line@),
        ensures
            game_inv(final(self)@),
            (final(self)@, outputs_view(out@)) == spec_step(old(self)@, dict@, line@),
    {
        let ghost g = self@;
        let w = strip_last(line);
        let mut said: Vec<GameOutput> = Vec::new();
        match self.phase {
            Phase::Opening => {
                if dict.lookup(&w).is_ok() {
                    let mut used = Radix::new();
                    used.insert(w.clone());
                    self.used_words = used;
                    self.primary = w;
                    self.position = 0;
                    self.points = 0;
                    self.combo = 1;
                    self.last_word = String::new();
                    self.phase = Phase::Playing;
                    let ghost before = self@;
                    proof {
                        lemma_enter_inv(before);
                    }
                    said = self.enter();
                } else {
                    said.push(GameOutput::StartWordRejected);
                    assert(outputs_view(said@) =~= seq![OutputView::StartWordRejected]);
                }
            },
            Phase::Playing => {
                let wc = chars_of(w.as_str());
                let pc = chars_of(self.primary.as_str());
                let first = char_at(&wc, 0);
                let current = char_at(&pc, self.position);
                if !dict.lookup(&w).is_ok() {
                    self.combo = 1;
                    said.push(GameOutput::NotAWord { combo: 1 });
                    assert(outputs_view(said@) =~= seq![OutputView::NotAWord { combo: 1 }]);
                } else if to_lowercase_first(first) != to_lowercase_first(current) {
                    self.combo = 1;
                    said.push(GameOutput::WrongLetter { combo: 1 });
                    assert(outputs_view(said@) =~= seq![OutputView::WrongLetter { combo: 1 }]);
                } else if self.used_words.lookup(&w).is_ok() {
                    self.combo = 1;
                    said.push(GameOutput::AlreadyUsed { combo: 1 });
                    assert(outputs_view(said@) =~= seq![OutputView::AlreadyUsed { combo: 1 }]);
                } else {
                    self.used_words.insert(w.clone());
                    let awarded = self.combo * byte_len(&w);
                    if self.combo < MAX_COMBO {
                        self.combo = self.combo + 1;
                    }
                    self.points = self.points + awarded;
                    self.last_word = w.clone();
                    self.position = self.position + 1;
                    said.push(
                        GameOutput::Registered {
                            word: w,
                            awarded: awarded,
                            points: self.points,
                            combo: self.combo,
                        },
                    );
                    let ghost reg = said@[0]@;
                    let ghost g1 = self@;
                    assert(outputs_view(said@) =~= seq![reg]);
                    if self.position < pc.len() {
                        let c = char_at(&pc, self.position);
                        said.push(GameOutput::Character(c));
                        assert(outputs_view(said@) =~= seq![reg, OutputView::Character(g1.primary[g1.position as int])]);
                    } else if self.primary == self.last_word {
                        self.phase = Phase::Finished;
                    } else {
                        self.primary = self.last_word.clone();
                        let ghost before = self@;
                        proof {
                            lemma_enter_inv(before);
                        }
                        let mut more = self.enter();
                        let ghost rest = more@;
                        said.append(&mut more);
                        assert(outputs_view(said@) =~= seq![reg] + outputs_view(rest));
                    }
                }
            },
            Phase::Finished => {
                assert(outputs_view(said@) =~= Seq::<OutputView>::empty());
            },
        }
        said
    }
}

} // verus!
