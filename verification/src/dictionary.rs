use vstd::prelude::*;
use vstd::utf8::is_ascii_chars;

use crate::radix::{empty_view, insert_ok, spec_insert, Radix, RadixView};
use crate::radix_laws::{
    branching, lemma_ascii_byte_count, lemma_ascii_insert_ok, lemma_empty_stores_nothing,
    lemma_insert_keeps_branching, lemma_insert_keeps_wf, lemma_insert_stores, skips_match, stores,
    wf_children,
};
use crate::text::{byte_count, byte_len, chars_of, string_from};

verus! {

/// The most words that a dictionary loads.
pub const MAX_WORDS: usize = 1_000_000;

/// The word on a dictionary line: its characters but as many as the line's
/// byte length less 2 (the line break "\r\n" of a line of ASCII).
pub open spec fn spec_word_from_line(line: Seq<char>) -> Seq<char> {
    let k = byte_count(line) - 2;
    if k <= line.len() {
        line.take(k)
    } else {
        line
    }
}

/// The word on an ASCII line is the line without its last two characters
/// (its line break "\r\n").
pub proof fn law_word_from_ascii_line(line: Seq<char>)
    requires
        is_ascii_chars(line),
        2 <= line.len() <= usize::MAX,
    ensures
        spec_word_from_line(line) == line.take(line.len() - 2),
{
    lemma_ascii_byte_count(line);
}

/// The word on a dictionary line (see `spec_word_from_line`).
pub fn word_from_line(line: &String) -> (w: String)
    requires
        byte_count(line@) >= 2,
    ensures
        w@ == spec_word_from_line(line@),
{
    let k = byte_len(line) - 2;
    let v = chars_of(line.as_str());
    if k <= v.len() {
        string_from(&v, 0, k)
    } else {
        assert(v@.subrange(0, v@.len() as int) =~= v@);
        string_from(&v, 0, v.len())
    }
}

/// The characters of each line.
pub open spec fn line_views(lines: Seq<String>) -> Seq<Seq<char>> {
    lines.map_values(|l: String| l@)
}

/// How many of `n` lines are loaded.
pub open spec fn loaded_count(n: nat) -> nat {
    if n < MAX_WORDS {
        n
    } else {
        MAX_WORDS as nat
    }
}

/// A dictionary loads all the lines it is given up to a million of them: of
/// `n` lines, every one when there are fewer than a million, and the first
/// million otherwise.
pub proof fn law_loaded_count(n: nat)
    ensures
        n < 1_000_000 ==> loaded_count(n) == n,
        n >= 1_000_000 ==> loaded_count(n) == 1_000_000,
        loaded_count(n) <= n,
{
}

/// The tree after the words of the first `n` lines are inserted, in order,
/// into an empty one.
pub open spec fn spec_build(lines: Seq<Seq<char>>, n: nat) -> RadixView
    decreases n,
{
    if n == 0 {
        empty_view()
    } else {
        spec_insert(spec_build(lines, (n - 1) as nat), spec_word_from_line(lines[n - 1]))
    }
}

/// Line `i` can be loaded after the ones before it: it has at least two
/// bytes, and its word can be inserted.
pub open spec fn line_ok(lines: Seq<Seq<char>>, i: nat) -> bool {
    &&& byte_count(lines[i as int]) >= 2
    &&& insert_ok(spec_build(lines, i), spec_word_from_line(lines[i as int]))
}

/// Every line that is loaded can be.
pub open spec fn build_ok(lines: Seq<Seq<char>>) -> bool {
    forall|i: nat| i < loaded_count(lines.len()) ==> #[trigger] line_ok(lines, i)
}

/// Loads the words of the lines, up to `MAX_WORDS` of them, into a new tree
/// and tells how many it loaded; `None` when a line that it would load has
/// fewer than two bytes or a word that cannot be inserted.
pub fn try_build_word_radix(lines: &Vec<String>) -> (r: Option<(Radix, usize)>)
    ensures
        match r {
            Some((t, n)) => {
                &&& build_ok(line_views(lines@))
                &&& n == loaded_count(lines@.len())
                &&& t@ == spec_build(line_views(lines@), n as nat)
            },
            None => !build_ok(line_views(lines@)),
        },
{
    let ghost views = line_views(lines@);
    let mut root = Radix::new();
    let mut i: usize = 0;
    while i < lines.len() && i < MAX_WORDS
        invariant
            i <= lines.len(),
            i <= MAX_WORDS,
            views == line_views(lines@),
            root@ == spec_build(views, i as nat),
            forall|j: nat| j < i ==> #[trigger] line_ok(views, j),
        decreases lines.len() - i,
    {
        let line = &lines[i];
        assert(views[i as int] == line@);
        if byte_len(line) < 2 {
            assert(!line_ok(views, i as nat));
            return None;
        }
        let word = word_from_line(line);
        if !root.can_insert(&word) {
            assert(!line_ok(views, i as nat));
            return None;
        }
        root.insert(word);
        assert(line_ok(views, i as nat));
        i = i + 1;
    }
    assert(i == loaded_count(lines@.len()));
    Some((root, i))
}

/// Loads the words of the lines, up to `MAX_WORDS` of them, into a new tree
/// (see `spec_build`), and tells how many it loaded.
pub fn build_word_radix(lines: &Vec<String>) -> (r: (Radix, usize))
    requires
        build_ok(line_views(lines@)),
    ensures
        r.1 == loaded_count(lines@.len()),
        r.0@ == spec_build(line_views(lines@), r.1 as nat),
{
    match try_build_word_radix(lines) {
        Some(r) => r,
        None => {
            assert(false);
            (Radix::new(), 0)
        },
    }
}

/// A loaded dictionary holds exactly the words of the lines loaded: after
/// loading `n` lines, each of which could be loaded and whose insertion skips
/// match their prefixes, a word is stored if and only if it is the word of one
/// of those lines.
pub proof fn law_loaded_words_stored(lines: Seq<Seq<char>>, n: nat, t: Seq<char>)
    requires
        n <= lines.len(),
        forall|i: nat| i < n ==> #[trigger] line_ok(lines, i),
        forall|i: nat|
            i < n ==> #[trigger] skips_match(spec_build(lines, i), spec_word_from_line(lines[i as int])),
    ensures
        stores(spec_build(lines, n), t) <==> exists|j: int|
            0 <= j < n && t == #[trigger] spec_word_from_line(lines[j]),
    decreases n,
{
    if n > 0 {
        let m = (n - 1) as nat;
        let w = spec_word_from_line(lines[m as int]);
        assert(line_ok(lines, m));
        assert(skips_match(spec_build(lines, m), w));
        law_loaded_words_stored(lines, m, t);
        lemma_insert_stores(spec_build(lines, m), w);
        assert(stores(spec_build(lines, n), t) <==> (stores(spec_build(lines, m), t) || t == w));
        if t == w {
            assert(0 <= m < n && t == spec_word_from_line(lines[m as int]));
        }
        if exists|j: int| 0 <= j < n && t == #[trigger] spec_word_from_line(lines[j]) {
            let j = choose|j: int| 0 <= j < n && t == #[trigger] spec_word_from_line(lines[j]);
            if j < m {
                assert(0 <= j < m && t == spec_word_from_line(lines[j]));
            }
        }
    }
}

/// The lines are ASCII, of at least 3 characters each, and fit a `usize`.
pub open spec fn ascii_lines(lines: Seq<Seq<char>>) -> bool {
    forall|i: int|
        0 <= i < lines.len() ==> {
            &&& is_ascii_chars(#[trigger] lines[i])
            &&& 3 <= lines[i].len() <= usize::MAX
        }
}

/// Loading the first `n` ASCII lines keeps the tree well formed and
/// branching, and each line can be loaded with skips that match.
proof fn lemma_ascii_build(lines: Seq<Seq<char>>, n: nat)
    requires
        ascii_lines(lines),
        n <= lines.len(),
    ensures
        wf_children(spec_build(lines, n)),
        branching(spec_build(lines, n)),
        forall|i: nat| i < n ==> #[trigger] line_ok(lines, i),
        forall|i: nat|
            i < n ==> #[trigger] skips_match(spec_build(lines, i), spec_word_from_line(lines[i as int])),
    decreases n,
{
    if n == 0 {
        lemma_empty_stores_nothing(Seq::empty());
    } else {
        let m = (n - 1) as nat;
        lemma_ascii_build(lines, m);
        let line = lines[m as int];
        let w = spec_word_from_line(line);
        assert(is_ascii_chars(line));
        lemma_ascii_byte_count(line);
        assert(w == line.take(line.len() - 2));
        assert(is_ascii_chars(w));
        lemma_ascii_insert_ok(spec_build(lines, m), w);
        lemma_insert_keeps_wf(spec_build(lines, m), w);
        lemma_insert_keeps_branching(spec_build(lines, m), w);
        assert(line_ok(lines, m));
        assert forall|i: nat| i < n implies #[trigger] line_ok(lines, i) by {
            if i < m {
                assert(line_ok(lines, i));
            }
        }
        assert forall|i: nat| i < n implies #[trigger] skips_match(
            spec_build(lines, i),
            spec_word_from_line(lines[i as int]),
        ) by {
            if i < m {
                assert(skips_match(spec_build(lines, i), spec_word_from_line(lines[i as int])));
            }
        }
    }
}

/// A dictionary of ASCII lines, each of at least 3 characters, always loads,
/// and the tree it gives is well formed, branching, and stores exactly the
/// words of the lines loaded: the word of every line among the first million
/// is stored.
pub proof fn law_ascii_dictionary_loads(lines: Seq<Seq<char>>)
    requires
        ascii_lines(lines),
    ensures
        build_ok(lines),
        wf_children(spec_build(lines, loaded_count(lines.len()))),
        branching(spec_build(lines, loaded_count(lines.len()))),
        forall|t: Seq<char>|
            stores(spec_build(lines, loaded_count(lines.len())), t) <==> exists|j: int|
                0 <= j < loaded_count(lines.len()) && t == #[trigger] spec_word_from_line(lines[j]),
        forall|j: int|
            0 <= j < lines.len() && j < 1_000_000 ==> stores(
                spec_build(lines, loaded_count(lines.len())),
                #[trigger] spec_word_from_line(lines[j]),
            ),
{
    let n = loaded_count(lines.len());
    lemma_ascii_build(lines, n);
    assert forall|t: Seq<char>|
        stores(spec_build(lines, n), t) <==> exists|j: int|
            0 <= j < n && t == #[trigger] spec_word_from_line(lines[j]) by {
        law_loaded_words_stored(lines, n, t);
    }
    assert forall|j: int| 0 <= j < lines.len() && j < 1_000_000 implies stores(
        spec_build(lines, n),
        #[trigger] spec_word_from_line(lines[j]),
    ) by {
        law_loaded_count(lines.len());
        law_loaded_words_stored(lines, n, spec_word_from_line(lines[j]));
    }
}

} // verus!
