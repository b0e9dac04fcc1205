use vstd::prelude::*;
use vstd::utf8::{encode_utf8, is_ascii_chars};

verus! {

/// Number of bytes of the UTF-8 encoding of `s` (what `str::len` returns).
pub open spec fn utf8_len(s: Seq<char>) -> nat {
    encode_utf8(s).len()
}

/// The byte length of a string as `str::len` reports it, a `usize`.
pub open spec fn byte_count(s: Seq<char>) -> usize {
    utf8_len(s) as usize
}

/// The lowercase equivalent of a string, as `str::to_lowercase` computes it
/// under the Unicode rules of the standard library.
pub uninterp spec fn lowercase(s: Seq<char>) -> Seq<char>;

/// The first character of the lowercase mapping of `c`, as
/// `char::to_lowercase` yields it.
pub uninterp spec fn lowercase_first(c: char) -> char;

/// The lowercase of an ASCII character: `A` to `Z` become `a` to `z`, the
/// others stay.
pub open spec fn ascii_lower_char(c: char) -> char {
    if 'A' <= c && c <= 'Z' {
        ((c as u32) + 32) as char
    } else {
        c
    }
}

/// Each character lowercased as an ASCII character.
pub open spec fn ascii_lowercase(s: Seq<char>) -> Seq<char> {
    s.map_values(|c: char| ascii_lower_char(c))
}

/// `s` is made of ASCII characters none of which is an uppercase letter.
pub open spec fn lowercase_ascii_word(s: Seq<char>) -> bool {
    forall|i: int| 0 <= i < s.len() ==> '\0' <= #[trigger] s[i] <= '\u{7f}' && !('A' <= s[i] && s[i] <= 'Z')
}

/// A lowercase ASCII word is its own ASCII lowercase, and so is each of its
/// suffixes.
pub proof fn lemma_lowercase_ascii_word(s: Seq<char>, i: int)
    requires
        lowercase_ascii_word(s),
        0 <= i <= s.len(),
    ensures
        lowercase_ascii_word(s.skip(i)),
        is_ascii_chars(s),
        ascii_lowercase(s) == s,
{
    assert(ascii_lowercase(s) =~= s);
}

/// The ASCII lowercase of ASCII characters is ASCII, and taking it commutes
/// with dropping a prefix.
pub proof fn lemma_ascii_lowercase(s: Seq<char>, i: int)
    requires
        is_ascii_chars(s),
        0 <= i <= s.len(),
    ensures
        is_ascii_chars(ascii_lowercase(s)),
        is_ascii_chars(s.skip(i)),
        ascii_lowercase(s).skip(i) == ascii_lowercase(s.skip(i)),
{
    assert(ascii_lowercase(s).skip(i) =~= ascii_lowercase(s.skip(i)));
    assert forall|j: int| 0 <= j < s.len() implies '\0' <= #[trigger] ascii_lowercase(s)[j] <= '\u{7f}' by {
        assert('\0' <= s[j] <= '\u{7f}');
    }
    assert forall|j: int| 0 <= j < s.skip(i).len() implies '\0' <= #[trigger] s.skip(i)[j] <= '\u{7f}' by {
        assert('\0' <= s[i + j] <= '\u{7f}');
    }
}

/// The first `n` characters that `a` and `b` have in common, counted from
/// position `i` on.
pub open spec fn common_prefix_from(a: Seq<char>, b: Seq<char>, i: nat) -> nat
    decreases a.len() - i,
{
    if i < a.len() && i < b.len() && a[i as int] == b[i as int] {
        common_prefix_from(a, b, i + 1)
    } else {
        i
    }
}

/// Length, in characters, of the longest common prefix of `a` and `b`.
pub open spec fn common_prefix_len(a: Seq<char>, b: Seq<char>) -> nat {
    common_prefix_from(a, b, 0)
}

/// `s` without its first `n` characters, or nothing when `n` reaches past
/// its end (what `s.chars().skip(n)` collects).
pub open spec fn skip_chars(s: Seq<char>, n: nat) -> Seq<char> {
    if n < s.len() {
        s.skip(n as int)
    } else {
        Seq::empty()
    }
}

/// A string has at least as many bytes as characters.
pub proof fn lemma_chars_le_bytes(s: Seq<char>)
    ensures
        s.len() <= utf8_len(s),
    decreases s.len(),
{
    if s.len() > 0 {
        lemma_chars_le_bytes(s.drop_first());
    }
}

proof fn lemma_common_prefix_from(a: Seq<char>, b: Seq<char>, i: nat)
    requires
        i <= a.len(),
        i <= b.len(),
        forall|j: int| 0 <= j < i ==> a[j] == b[j],
    ensures
        ({
            let n = common_prefix_from(a, b, i);
            &&& i <= n <= a.len()
            &&& n <= b.len()
            &&& forall|j: int| 0 <= j < n ==> a[j] == b[j]
            &&& (n < a.len() && n < b.len() ==> a[n as int] != b[n as int])
        }),
    decreases a.len() - i,
{
    if i < a.len() && i < b.len() && a[i as int] == b[i as int] {
        lemma_common_prefix_from(a, b, i + 1);
    }
}

/// What the longest common prefix is: a prefix of both, after which the two
/// differ or one of them ends.
pub proof fn lemma_common_prefix_len(a: Seq<char>, b: Seq<char>)
    ensures
        ({
            let n = common_prefix_len(a, b);
            &&& n <= a.len()
            &&& n <= b.len()
            &&& a.take(n as int) == b.take(n as int)
            &&& forall|j: int| 0 <= j < n ==> a[j] == b[j]
            &&& (n < a.len() && n < b.len() ==> a[n as int] != b[n as int])
        }),
{
    lemma_common_prefix_from(a, b, 0);
    let n = common_prefix_len(a, b);
    assert(a.take(n as int) =~= b.take(n as int));
}

/// Length of the longest common prefix of two character sequences.
pub fn common_prefix(a: &Vec<char>, b: &Vec<char>) -> (n: usize)
    ensures
        n == common_prefix_len(a@, b@),
{
    let mut i: usize = 0;
    while i < a.len() && i < b.len() && a[i] == b[i]
        invariant
            i <= a.len(),
            common_prefix_from(a@, b@, i as nat) == common_prefix_len(a@, b@),
        decreases a.len() - i,
    {
        i = i + 1;
    }
    i
}

/// The characters of a string, in order.
pub fn chars_of(s: &str) -> (v: Vec<char>)
    ensures
        v@ == s@,
{
    let mut v: Vec<char> = Vec::new();
    for c in it: s.chars()
        invariant
            v@ == it.seq().take(it.index() as int),
            it.seq() == s@,
    {
        v.push(c);
    }
    v
}

/// The character at position `i`.
pub fn char_at(v: &Vec<char>, i: usize) -> (c: char)
    requires
        i < v.len(),
    ensures
        c == v@[i as int],
{
    v[i]
}

/// `String::push`: appends one character.
#[verifier::external_body]
pub fn push_char(s: &mut String, c: char)
    ensures
        final(s)@ == old(s)@.push(c),
{
    s.push(c)
}

/// `str::to_lowercase`; its result is named by `lowercase`. Of ASCII
/// strings, the Unicode lowercase mapping turns `A` to `Z` into `a` to `z`
/// and keeps the other characters.
#[verifier::external_body]
pub fn to_lowercase(s: &str) -> (r: String)
    ensures
        r@ == lowercase(s@),
        is_ascii_chars(s@) ==> r@ == ascii_lowercase(s@),
{
    s.to_lowercase()
}

/// The first character that `char::to_lowercase` yields (it always yields
/// at least one); named by `lowercase_first`. Of an ASCII character it is
/// the character with `A` to `Z` turned into `a` to `z`.
#[verifier::external_body]
pub fn to_lowercase_first(c: char) -> (r: char)
    ensures
        r == lowercase_first(c),
        c <= '\u{7f}' ==> r == ascii_lower_char(c),
{
    c.to_lowercase().next().unwrap()
}

/// The string made of the characters `v[lo..hi]`.
pub fn string_from(v: &Vec<char>, lo: usize, hi: usize) -> (s: String)
    requires
        lo <= hi <= v.len(),
    ensures
        s@ == v@.subrange(lo as int, hi as int),
{
    let mut s = String::new();
    let mut i = lo;
    while i < hi
        invariant
            lo <= i <= hi <= v.len(),
            s@ == v@.subrange(lo as int, i as int),
        decreases hi - i,
    {
        push_char(&mut s, v[i]);
        i = i + 1;
        assert(s@ =~= v@.subrange(lo as int, i as int));
    }
    s
}

/// Number of bytes of the UTF-8 encoding of a string.
pub fn byte_len(s: &String) -> (n: usize)
    ensures
        n == byte_count(s@),
{
    s.as_str().len()
}

} // verus!
