use vstd::prelude::*;
use vstd::utf8::is_ascii_chars;

use crate::radix::{key_of, spec_lookup, spec_lookup_ascii, LookupOutcome, RadixView};
use crate::radix_laws::{is_prefix, lemma_key_of_injective, lemma_stores_via_child, lowercase_closed, stores, wf_children};
use crate::text::{
    ascii_lower_char, ascii_lowercase, common_prefix_len, lemma_ascii_lowercase, lemma_common_prefix_len,
    lemma_lowercase_ascii_word, lowercase, lowercase_ascii_word,
};

verus! {

/// The node at which the path of `t` below `v` ends: `t` is followed child
/// by child for as long as the child filed under its first remaining
/// character starts what remains.
pub open spec fn end_node(v: RadixView, t: Seq<char>) -> RadixView
    decreases v,
{
    if t.len() == 0 {
        v
    } else {
        let k = key_of(t[0]);
        if v.children.contains_key(k) && is_prefix(v.children[k].chars, t) {
            end_node(v.children[k], t.skip(v.children[k].chars.len() as int))
        } else {
            v
        }
    }
}

/// The path of `t` below `v` ends exactly at a node: following `t` from the
/// end of `v`'s own characters, child by child, uses it up.
pub open spec fn reaches(v: RadixView, t: Seq<char>) -> bool
    decreases v,
{
    if t.len() == 0 {
        true
    } else {
        let k = key_of(t[0]);
        &&& v.children.contains_key(k)
        &&& is_prefix(v.children[k].chars, t)
        &&& reaches(v.children[k], t.skip(v.children[k].chars.len() as int))
    }
}

/// `e` is a suffix of `s`.
pub open spec fn ends_with(s: Seq<char>, e: Seq<char>) -> bool {
    e.len() <= s.len() && s.skip(s.len() - e.len()) == e
}

/// The key `lk`, looked up below `v`, lands at the node that the path `s`
/// below `v` reaches: the key is no longer than `v`'s characters followed by
/// `s`, starts with the same character, and ends, as they do, with all the
/// characters of that node, which are not empty when the key is not.
pub open spec fn lands_along(v: RadixView, lk: Seq<char>, s: Seq<char>) -> bool {
    &&& reaches(v, s)
    &&& lk.len() <= v.chars.len() + s.len()
    &&& lk.len() > 0 ==> end_node(v, s).chars.len() > 0 && lk[0] == (v.chars + s)[0]
    &&& ends_with(lk, end_node(v, s).chars)
    &&& ends_with(v.chars + s, end_node(v, s).chars)
}

/// A word is stored below `v` exactly when its path reaches a node that ends
/// a word.
pub proof fn lemma_stores_reaches(v: RadixView, t: Seq<char>)
    ensures
        stores(v, t) == (reaches(v, t) && end_node(v, t).is_word),
    decreases v,
{
    if t.len() > 0 {
        let k = key_of(t[0]);
        if v.children.contains_key(k) && is_prefix(v.children[k].chars, t) {
            lemma_stores_reaches(v.children[k], t.skip(v.children[k].chars.len() as int));
        }
    }
}

/// Following the characters of a child and then `u` goes through that child.
proof fn lemma_end_via_child(v: RadixView, k: u32, u: Seq<char>)
    requires
        wf_children(v),
        v.children.contains_key(k),
    ensures
        end_node(v, v.children[k].chars + u) == end_node(v.children[k], u),
        reaches(v, v.children[k].chars + u) == reaches(v.children[k], u),
{
    let c = v.children[k];
    let t = c.chars + u;
    lemma_stores_via_child(v, k, u);
    assert(t[0] == c.chars[0]);
    assert(t.take(c.chars.len() as int) =~= c.chars);
    assert(t.skip(c.chars.len() as int) =~= u);
}

/// The step from a child to its parent: when the rest `sub` of the key `lk`
/// after its first `n` characters lands along `t` below the child `c` filed
/// under `k`, the key lands along `c`'s characters and `t` below `v`, at the
/// same node.
proof fn lemma_lands_along_parent(v: RadixView, lk: Seq<char>, n: nat, k: u32, t: Seq<char>)
    requires
        wf_children(v),
        v.children.contains_key(k),
        n <= v.chars.len(),
        n < lk.len(),
        forall|j: int| 0 <= j < n ==> v.chars[j] == lk[j],
        n == 0 ==> v.chars.len() == 0,
        key_of(lk[n as int]) == k,
        lands_along(v.children[k], lk.skip(n as int), t),
    ensures
        lands_along(v, lk, v.children[k].chars + t),
        end_node(v, v.children[k].chars + t) == end_node(v.children[k], t),
{
    let c = v.children[k];
    let sub = lk.skip(n as int);
    let s = c.chars + t;
    let e = end_node(c, t).chars;
    lemma_end_via_child(v, k, t);
    assert(end_node(v, s).chars == e);
    assert(c.chars.len() > 0);
    lemma_key_of_injective(c.chars[0], lk[n as int]);
    assert(sub[0] == lk[n as int]);
    assert((c.chars + t)[0] == c.chars[0]);
    if n > 0 {
        assert(lk[0] == v.chars[0]);
        assert((v.chars + s)[0] == v.chars[0]);
    } else {
        assert(v.chars + s =~= s);
        assert(lk[0] == sub[0]);
    }
    assert(lk.skip(lk.len() - e.len()) =~= sub.skip(sub.len() - e.len()));
    assert((v.chars + s).skip((v.chars + s).len() - e.len()) =~= s.skip(s.len() - e.len()));
}

/// Where a lookup that does not answer "not found" lands: at a node that the
/// path of some `s` below `v` reaches, the lowercase key landing along `s`;
/// the lookup finds a word exactly when that node ends one.
proof fn lemma_lookup_lands(v: RadixView, key: Seq<char>)
    requires
        wf_children(v),
        lowercase_closed(lowercase(key)),
        spec_lookup(v, key) != LookupOutcome::NotFound,
    ensures
        exists|s: Seq<char>|
            #[trigger] lands_along(v, lowercase(key), s) && end_node(v, s).is_word == (spec_lookup(v, key)
                == LookupOutcome::Found),
    decreases v,
{
    let lk = lowercase(key);
    if lk == v.chars {
        let s = Seq::<char>::empty();
        assert(v.chars + s =~= v.chars);
        assert(lk.skip(0) =~= lk);
        assert(lands_along(v, lk, s));
    } else {
        let n = common_prefix_len(v.chars, lk);
        lemma_common_prefix_len(v.chars, lk);
        let sub = lk.skip(n as int);
        let k = key_of(sub[0]);
        let c = v.children[k];
        assert(lowercase(lk.skip(n as int)) == lk.skip(n as int));
        assert forall|i: int| 0 <= i <= sub.len() implies #[trigger] lowercase(sub.skip(i)) == sub.skip(i) by {
            assert(sub.skip(i) =~= lk.skip(n + i));
        }
        assert(lowercase(sub) == sub);
        lemma_lookup_lands(c, sub);
        let t = choose|t: Seq<char>|
            #[trigger] lands_along(c, lowercase(sub), t) && end_node(c, t).is_word == (spec_lookup(c, sub)
                == LookupOutcome::Found);
        lemma_lands_along_parent(v, lk, n, k, t);
    }
}

/// Lookup finds only what is stored, as far as it reads the key: when the
/// lookup of `key` below `v` finds a word, and the lowercase key is its own
/// lowercase throughout, some word `s` is stored below `v` along which the
/// lowercase key lands (see `lands_along`). So a key that runs on past the
/// end of every stored word, or that stops inside the characters of a node,
/// is not found.
pub proof fn law_lookup_finds_only_stored(v: RadixView, key: Seq<char>)
    requires
        wf_children(v),
        lowercase_closed(lowercase(key)),
        spec_lookup(v, key) == LookupOutcome::Found,
    ensures
        exists|s: Seq<char>| #[trigger] lands_along(v, lowercase(key), s) && stores(v, s),
{
    lemma_lookup_lands(v, key);
    let s = choose|s: Seq<char>|
        #[trigger] lands_along(v, lowercase(key), s) && end_node(v, s).is_word == (spec_lookup(v, key)
            == LookupOutcome::Found);
    lemma_stores_reaches(v, s);
}

/// A key is answered "found, but not a word" only where it lands at a node
/// that ends no word: some path `s` below `v` reaches that node, and the
/// lowercase key lands along it (see `lands_along`).
pub proof fn law_lookup_not_a_word_lands_at_node(v: RadixView, key: Seq<char>)
    requires
        wf_children(v),
        lowercase_closed(lowercase(key)),
        spec_lookup(v, key) == LookupOutcome::NotAWord,
    ensures
        exists|s: Seq<char>| #[trigger] lands_along(v, lowercase(key), s) && !end_node(v, s).is_word,
{
    lemma_lookup_lands(v, key);
}

/// Lookup answers every path that ends at a node: below any node `v`, the
/// key made of `v`'s characters and a path `t` that reaches a node, when it
/// is its own lowercase throughout, is found when that node ends a word, and
/// is answered "found, but not a word" otherwise.
pub proof fn law_lookup_of_reached_node(v: RadixView, t: Seq<char>)
    requires
        reaches(v, t),
        lowercase_closed(v.chars + t),
    ensures
        spec_lookup(v, v.chars + t) == (if end_node(v, t).is_word {
            LookupOutcome::Found
        } else {
            LookupOutcome::NotAWord
        }),
    decreases v,
{
    let key = v.chars + t;
    assert(key.skip(0) =~= key);
    assert(lowercase(key) == key);
    if t.len() == 0 {
        assert(key =~= v.chars);
    } else {
        let m = v.chars.len();
        lemma_common_prefix_len(v.chars, key);
        let n = common_prefix_len(v.chars, key);
        if n < m {
            assert(key[n as int] == v.chars[n as int]);
        }
        assert(n == m);
        assert(key.skip(n as int) =~= t);
        let c = v.children[key_of(t[0])];
        let rest = t.skip(c.chars.len() as int);
        assert(t =~= c.chars + rest);
        assert forall|i: int| 0 <= i <= (c.chars + rest).len() implies #[trigger] lowercase(
            (c.chars + rest).skip(i),
        ) == (c.chars + rest).skip(i) by {
            assert(key.skip(m + i) =~= t.skip(i));
        }
        law_lookup_of_reached_node(c, rest);
    }
}

/// Taking the ASCII lowercase twice changes nothing more.
proof fn lemma_ascii_lowercase_twice(s: Seq<char>)
    ensures
        ascii_lowercase(ascii_lowercase(s)) == ascii_lowercase(s),
{
    assert forall|i: int| 0 <= i < s.len() implies #[trigger] ascii_lower_char(ascii_lower_char(s[i]))
        == ascii_lower_char(s[i]) by {
        let c = s[i];
        if 'A' <= c && c <= 'Z' {
            assert(ascii_lower_char(c) as u32 == (c as u32) + 32);
        }
    }
    assert(ascii_lowercase(ascii_lowercase(s)) =~= ascii_lowercase(s));
}

/// `lemma_lookup_lands` for the lookup of an ASCII key by its ASCII
/// lowercase.
proof fn lemma_lookup_ascii_lands(v: RadixView, key: Seq<char>)
    requires
        wf_children(v),
        is_ascii_chars(key),
        spec_lookup_ascii(v, key) != LookupOutcome::NotFound,
    ensures
        exists|s: Seq<char>|
            #[trigger] lands_along(v, ascii_lowercase(key), s) && end_node(v, s).is_word == (spec_lookup_ascii(
                v,
                key,
            ) == LookupOutcome::Found),
    decreases v,
{
    let lk = ascii_lowercase(key);
    if lk == v.chars {
        let s = Seq::<char>::empty();
        assert(v.chars + s =~= v.chars);
        assert(lk.skip(0) =~= lk);
        assert(lands_along(v, lk, s));
    } else {
        let n = common_prefix_len(v.chars, lk);
        lemma_common_prefix_len(v.chars, lk);
        let sub = lk.skip(n as int);
        let k = key_of(sub[0]);
        let c = v.children[k];
        lemma_ascii_lowercase(key, 0);
        lemma_ascii_lowercase(lk, n as int);
        lemma_ascii_lowercase_twice(key);
        assert(ascii_lowercase(sub) == sub);
        lemma_lookup_ascii_lands(c, sub);
        let t = choose|t: Seq<char>|
            #[trigger] lands_along(c, ascii_lowercase(sub), t) && end_node(c, t).is_word == (
            spec_lookup_ascii(c, sub) == LookupOutcome::Found);
        lemma_lands_along_parent(v, lk, n, k, t);
    }
}

/// Lookup of an ASCII key finds only what is stored, as far as it reads the
/// key: when the lookup of `key` below `v` finds a word, some word `s` is
/// stored below `v` along which the key's ASCII lowercase lands (see
/// `lands_along`).
pub proof fn law_lookup_ascii_finds_only_stored(v: RadixView, key: Seq<char>)
    requires
        wf_children(v),
        is_ascii_chars(key),
        spec_lookup_ascii(v, key) == LookupOutcome::Found,
    ensures
        exists|s: Seq<char>| #[trigger] lands_along(v, ascii_lowercase(key), s) && stores(v, s),
{
    lemma_lookup_ascii_lands(v, key);
    let s = choose|s: Seq<char>|
        #[trigger] lands_along(v, ascii_lowercase(key), s) && end_node(v, s).is_word == (spec_lookup_ascii(
            v,
            key,
        ) == LookupOutcome::Found);
    lemma_stores_reaches(v, s);
}

/// An ASCII key is answered "found, but not a word" only where its ASCII
/// lowercase lands at a node that ends no word (see `lands_along`).
pub proof fn law_lookup_ascii_not_a_word_lands_at_node(v: RadixView, key: Seq<char>)
    requires
        wf_children(v),
        is_ascii_chars(key),
        spec_lookup_ascii(v, key) == LookupOutcome::NotAWord,
    ensures
        exists|s: Seq<char>| #[trigger] lands_along(v, ascii_lowercase(key), s) && !end_node(v, s).is_word,
{
    lemma_lookup_ascii_lands(v, key);
}

/// Lookup of ASCII keys answers every path that ends at a node: below any
/// node `v`, the key made of `v`'s characters and a path `t` that reaches a
/// node, when it is made of lowercase ASCII characters, is found when that
/// node ends a word, and is answered "found, but not a word" otherwise.
pub proof fn law_lookup_ascii_of_reached_node(v: RadixView, t: Seq<char>)
    requires
        reaches(v, t),
        lowercase_ascii_word(v.chars + t),
    ensures
        spec_lookup_ascii(v, v.chars + t) == (if end_node(v, t).is_word {
            LookupOutcome::Found
        } else {
            LookupOutcome::NotAWord
        }),
    decreases v,
{
    let key = v.chars + t;
    lemma_lowercase_ascii_word(key, 0);
    if t.len() == 0 {
        assert(key =~= v.chars);
    } else {
        let m = v.chars.len();
        lemma_common_prefix_len(v.chars, key);
        let n = common_prefix_len(v.chars, key);
        if n < m {
            assert(key[n as int] == v.chars[n as int]);
        }
        assert(n == m);
        assert(key.skip(n as int) =~= t);
        let c = v.children[key_of(t[0])];
        let rest = t.skip(c.chars.len() as int);
        assert(t =~= c.chars + rest);
        lemma_lowercase_ascii_word(key, m as int);
        law_lookup_ascii_of_reached_node(c, rest);
    }
}

/// Lookup ignores case: two keys with the same lowercase are answered alike.
pub proof fn law_lookup_ignores_case(v: RadixView, a: Seq<char>, b: Seq<char>)
    requires
        lowercase(a) == lowercase(b),
    ensures
        spec_lookup(v, a) == spec_lookup(v, b),
{
}

/// Lookup of ASCII keys ignores case: two keys with the same ASCII lowercase,
/// such as "HeJ" and "hej", are answered alike.
pub proof fn law_lookup_ascii_ignores_case(v: RadixView, a: Seq<char>, b: Seq<char>)
    requires
        ascii_lowercase(a) == ascii_lowercase(b),
    ensures
        spec_lookup_ascii(v, a) == spec_lookup_ascii(v, b),
{
}

} // verus!
