use vstd::prelude::*;
use vstd::utf8::{char_u32_cast, is_ascii_chars, is_ascii_chars_encode_utf8};
use vstd::set::*;

use crate::radix::{
    empty_view, insert_ok, key_of, leaf, spec_insert, spec_lookup, spec_lookup_ascii, LookupOutcome,
    RadixView,
};
use crate::text::{
    byte_count, common_prefix_len, lemma_common_prefix_len, lemma_lowercase_ascii_word, lowercase,
    lowercase_ascii_word, skip_chars,
};

verus! {

/// `t` is a word stored below `v`: following `t` from the end of `v`'s own
/// characters, child by child (each filed under the first character that
/// remains), ends at a node that is marked as a word.
pub open spec fn stores(v: RadixView, t: Seq<char>) -> bool
    decreases v,
{
    if t.len() == 0 {
        v.is_word
    } else {
        let k = key_of(t[0]);
        &&& v.children.contains_key(k)
        &&& v.children[k].chars.len() <= t.len()
        &&& t.take(v.children[k].chars.len() as int) == v.children[k].chars
        &&& stores(v.children[k], t.skip(v.children[k].chars.len() as int))
    }
}

/// Every suffix of `s` is its own lowercase.
pub open spec fn lowercase_closed(s: Seq<char>) -> bool {
    forall|i: int| 0 <= i <= s.len() ==> #[trigger] lowercase(s.skip(i)) == s.skip(i)
}

/// Every node below `v` has characters, and is filed under the code of the
/// first of them.
pub open spec fn wf_children(v: RadixView) -> bool
    decreases v,
{
    forall|k: u32| #[trigger]
        v.children.contains_key(k) ==> {
            &&& v.children[k].chars.len() > 0
            &&& key_of(v.children[k].chars[0]) == k
            &&& wf_children(v.children[k])
        }
}

/// Each time insertion of `w` below `v` skips characters by the byte length
/// of a common prefix, that byte length equals the prefix's length in
/// characters.
pub open spec fn skips_match(v: RadixView, w: Seq<char>) -> bool
    decreases v,
{
    w.len() > 0 ==> {
        let k = key_of(w[0]);
        v.children.contains_key(k) ==> {
            let c = v.children[k];
            let n = common_prefix_len(c.chars, w);
            let b = byte_count(w.take(n as int)) as nat;
            if w == c.chars || (n < w.len() && n < c.chars.len()) {
                true
            } else if n == w.len() {
                b == n
            } else {
                b == n && skips_match(c, skip_chars(w, b))
            }
        }
    }
}

/// Distinct characters are filed under distinct keys.
pub proof fn lemma_key_of_injective(a: char, b: char)
    ensures
        key_of(a) == key_of(b) <==> a == b,
{
    if key_of(a) == key_of(b) {
        char_u32_cast(a, a as u32);
        char_u32_cast(b, b as u32);
    }
}

/// Whether `v` stores a nonempty word depends only on its children; the
/// empty one, only on its mark.
proof fn lemma_stores_same_below(v1: RadixView, v2: RadixView, t: Seq<char>)
    requires
        v1.children == v2.children,
        t.len() == 0 ==> v1.is_word == v2.is_word,
    ensures
        stores(v1, t) == stores(v2, t),
{
}

/// `a` is a prefix of `t`.
pub open spec fn is_prefix(a: Seq<char>, t: Seq<char>) -> bool {
    a.len() <= t.len() && t.take(a.len() as int) == a
}

/// Being a prefix, split at position `n` of the prefix.
proof fn lemma_prefix_split(t: Seq<char>, a: Seq<char>, n: int)
    requires
        0 <= n <= a.len(),
    ensures
        is_prefix(a, t) <==> (is_prefix(a.take(n), t) && is_prefix(a.skip(n), t.skip(n))),
        is_prefix(a, t) ==> t.skip(n).skip(a.len() - n) == t.skip(a.len() as int),
{
    if is_prefix(a, t) {
        assert(t.take(n) =~= a.take(n));
        assert(t.skip(n).take(a.len() - n) =~= a.skip(n));
        assert(t.skip(n).skip(a.len() - n) =~= t.skip(a.len() as int));
    }
    if is_prefix(a.take(n), t) && is_prefix(a.skip(n), t.skip(n)) {
        assert forall|i: int| 0 <= i < a.len() implies t[i] == a[i] by {
            if i < n {
                assert(t.take(n)[i] == a.take(n)[i]);
            } else {
                assert(t.skip(n).take(a.len() - n)[i - n] == a.skip(n)[i - n]);
            }
        }
        assert(t.take(a.len() as int) =~= a);
    }
}

/// The words stored below `v` that start with a character filed under a
/// key other than `k` do not change when only the child under `k` does.
proof fn lemma_stores_other_key(v1: RadixView, v2: RadixView, k: u32, t: Seq<char>)
    requires
        t.len() > 0,
        key_of(t[0]) != k,
        v2.children == v1.children.insert(k, v2.children[k]),
    ensures
        stores(v1, t) == stores(v2, t),
{
}

/// Insertion adds exactly its word: after inserting `w` below `v`, the words
/// stored below it are those stored before, and `w`.
pub proof fn lemma_insert_stores(v: RadixView, w: Seq<char>)
    requires
        insert_ok(v, w),
        skips_match(v, w),
    ensures
        forall|t: Seq<char>|
            #![trigger stores(spec_insert(v, w), t)]
            #![trigger stores(v, t)]
            stores(spec_insert(v, w), t) <==> (stores(v, t) || t == w),
    decreases v, 1nat,
{
    let k = key_of(w[0]);
    let new = spec_insert(v, w);
    assert(new.children == v.children.insert(k, new.children[k]));
    assert forall|t: Seq<char>| stores(new, t) <==> (stores(v, t) || t == w) by {
        if t.len() > 0 {
            lemma_key_of_injective(t[0], w[0]);
            if key_of(t[0]) != k {
                lemma_stores_other_key(v, new, k, t);
            } else {
                lemma_insert_stores_at_key(v, w, t);
            }
        }
    }
}

/// The case of `lemma_insert_stores` for words under the key of `w`.
proof fn lemma_insert_stores_at_key(v: RadixView, w: Seq<char>, t: Seq<char>)
    requires
        insert_ok(v, w),
        skips_match(v, w),
        t.len() > 0,
        t[0] == w[0],
    ensures
        stores(spec_insert(v, w), t) <==> (stores(v, t) || t == w),
    decreases v, 0nat,
{
    let k = key_of(w[0]);
    let new = spec_insert(v, w);
    let nc = new.children[k];
    assert(stores(new, t) == (is_prefix(nc.chars, t) && stores(nc, t.skip(nc.chars.len() as int))));
    if !v.children.contains_key(k) {
        assert(nc == leaf(w));
        if is_prefix(w, t) && t.skip(w.len() as int).len() == 0 {
            assert(t =~= w);
        }
        if t == w {
            assert(t.take(w.len() as int) =~= w);
        }
    } else {
        let c = v.children[k];
        let n = common_prefix_len(c.chars, w);
        let b = byte_count(w.take(n as int)) as nat;
        lemma_common_prefix_len(c.chars, w);
        assert(stores(v, t) == (is_prefix(c.chars, t) && stores(c, t.skip(c.chars.len() as int))));
        if w == c.chars {
            let rest = t.skip(c.chars.len() as int);
            if is_prefix(c.chars, t) {
                if rest.len() == 0 {
                    assert(t =~= w);
                } else {
                    lemma_stores_same_below(nc, c, rest);
                    assert(t.len() != w.len());
                }
            }
            if t == w {
                assert(t.take(w.len() as int) =~= w);
                assert(rest.len() == 0);
            }
        } else if n < w.len() && n < c.chars.len() {
            lemma_insert_stores_split(v, w, t);
        } else if n == w.len() {
            let p = nc;
            let rest = p.children[key_of(c.chars[n as int])];
            assert(b == n);
            assert(p.chars == w);
            assert(rest.chars == c.chars.skip(n as int));
            assert(c.chars.take(n as int) == w.take(n as int));
            assert(w.take(n as int) =~= w);
            lemma_prefix_split(t, c.chars, n as int);
            let t1 = t.skip(n as int);
            if is_prefix(w, t) {
                if t1.len() == 0 {
                    assert(t =~= w);
                } else {
                    assert(t1[0] == t[n as int]);
                    lemma_key_of_injective(t1[0], c.chars[n as int]);
                    if t1[0] == c.chars[n as int] {
                        assert(stores(p, t1) == (is_prefix(rest.chars, t1) && stores(rest, t1.skip(rest.chars.len() as int))));
                        lemma_stores_same_below(rest, c, t1.skip(rest.chars.len() as int));
                    } else {
                        assert(!p.children.contains_key(key_of(t1[0])));
                        assert(!is_prefix(c.chars, t));
                    }
                    assert(t.len() != w.len());
                }
            } else {
                assert(!is_prefix(c.chars, t));
                if t == w {
                    assert(t.take(w.len() as int) =~= w);
                }
            }
        } else {
            let w1 = skip_chars(w, b);
            assert(n == c.chars.len());
            assert(b == n);
            assert(w1 == w.skip(n as int));
            assert(nc == spec_insert(c, w1));
            assert(nc.chars == c.chars);
            lemma_insert_stores(c, w1);
            assert(c.chars.take(n as int) == w.take(n as int));
            assert(c.chars =~= w.take(n as int));
            let t1 = t.skip(n as int);
            if t == w {
                assert(t.take(n as int) =~= c.chars);
                assert(t1 =~= w1);
            }
            if is_prefix(c.chars, t) && t1 == w1 {
                assert(t.len() == w.len());
                assert forall|i: int| 0 <= i < t.len() implies t[i] == w[i] by {
                    if i < n {
                        assert(t.take(n as int)[i] == w.take(n as int)[i]);
                    } else {
                        assert(t1[i - n] == w1[i - n]);
                    }
                }
                assert(t =~= w);
            }
        }
    }
}

/// The byte length of an ASCII sequence that fits a `usize` is its length.
pub proof fn lemma_ascii_byte_count(s: Seq<char>)
    requires
        is_ascii_chars(s),
        s.len() <= usize::MAX,
    ensures
        byte_count(s) == s.len(),
{
    is_ascii_chars_encode_utf8(s);
}

/// An ASCII word, not empty, can be inserted below any node whose children
/// are well formed, and each skip of that insertion matches its prefix.
pub proof fn lemma_ascii_insert_ok(v: RadixView, w: Seq<char>)
    requires
        wf_children(v),
        w.len() > 0,
        is_ascii_chars(w),
        w.len() <= usize::MAX,
    ensures
        insert_ok(v, w),
        skips_match(v, w),
    decreases v,
{
    let k = key_of(w[0]);
    if v.children.contains_key(k) {
        let c = v.children[k];
        let n = common_prefix_len(c.chars, w);
        lemma_common_prefix_len(c.chars, w);
        assert(is_ascii_chars(w.take(n as int)));
        lemma_ascii_byte_count(w.take(n as int));
        lemma_key_of_injective(c.chars[0], w[0]);
        if w != c.chars && !(n < w.len() && n < c.chars.len()) && n != w.len() {
            if n < c.chars.len() {
                assert(n == w.len());
            }
            if n == c.chars.len() && n == w.len() {
                assert(c.chars =~= w);
            }
            let w1 = skip_chars(w, n);
            assert(is_ascii_chars(w1));
            lemma_ascii_insert_ok(c, w1);
        }
        if n == w.len() && w != c.chars {
            if n == c.chars.len() {
                assert(c.chars =~= w);
            }
        }
    }
}

/// Being well formed below a node depends only on its children.
proof fn lemma_wf_same_children(v1: RadixView, v2: RadixView)
    requires
        v1.children == v2.children,
    ensures
        wf_children(v1) == wf_children(v2),
{
}

/// Insertion keeps the children of a node well formed.
pub proof fn lemma_insert_keeps_wf(v: RadixView, w: Seq<char>)
    requires
        wf_children(v),
        insert_ok(v, w),
    ensures
        wf_children(spec_insert(v, w)),
    decreases v,
{
    let k = key_of(w[0]);
    let new = spec_insert(v, w);
    if v.children.contains_key(k) {
        let c = v.children[k];
        let n = common_prefix_len(c.chars, w);
        let b = byte_count(w.take(n as int)) as nat;
        lemma_common_prefix_len(c.chars, w);
        let p = new.children[k];
        assert(wf_children(c));
        if w == c.chars {
            lemma_wf_same_children(p, c);
        } else if n < w.len() && n < c.chars.len() {
            let kc = key_of(c.chars[n as int]);
            let kw = key_of(w[n as int]);
            lemma_key_of_injective(c.chars[n as int], w[n as int]);
            assert(p.children[kc].children == c.children);
            lemma_wf_same_children(p.children[kc], c);
            assert(wf_children(p.children[kw]));
            assert(wf_children(p));
        } else if n == w.len() {
            let rest = p.children[key_of(skip_chars(c.chars, b)[0])];
            assert(rest.children == c.children);
            lemma_wf_same_children(rest, c);
            assert(wf_children(p));
        } else {
            lemma_insert_keeps_wf(c, skip_chars(w, b));
        }
    }
    assert forall|j: u32| #[trigger] new.children.contains_key(j) implies {
        &&& new.children[j].chars.len() > 0
        &&& key_of(new.children[j].chars[0]) == j
        &&& wf_children(new.children[j])
    } by {
        if j == k {
            if v.children.contains_key(k) {
                let c = v.children[k];
                let n = common_prefix_len(c.chars, w);
                lemma_key_of_injective(c.chars[0], w[0]);
            }
        }
    }
}

/// Lookup finds every stored word that is its own lowercase throughout:
/// below any node `v`, the key made of `v`'s characters and a word `t`
/// stored below `v` is found.
pub proof fn lemma_lookup_finds_stored(v: RadixView, t: Seq<char>)
    requires
        stores(v, t),
        lowercase_closed(v.chars + t),
    ensures
        spec_lookup(v, v.chars + t) == LookupOutcome::Found,
    decreases v,
{
    let key = v.chars + t;
    assert(key.skip(0) =~= key);
    assert(lowercase(key) == key);
    if t.len() == 0 {
        assert(key =~= v.chars);
    } else {
        let m = v.chars.len();
        lemma_common_prefix_len(v.chars, key);
        let n = common_prefix_len(v.chars, key);
        if n < m {
            assert(key[n as int] == v.chars[n as int]);
        }
        assert(n == m);
        assert(key.skip(n as int) =~= t);
        let c = v.children[key_of(t[0])];
        let rest = t.skip(c.chars.len() as int);
        assert(t =~= c.chars + rest);
        assert forall|i: int| 0 <= i <= (c.chars + rest).len() implies #[trigger] lowercase(
            (c.chars + rest).skip(i),
        ) == (c.chars + rest).skip(i) by {
            assert(key.skip(m + i) =~= t.skip(i));
        }
        lemma_lookup_finds_stored(c, rest);
    }
}

/// A new tree stores no word, and its children are well formed.
pub proof fn lemma_empty_stores_nothing(t: Seq<char>)
    ensures
        !stores(empty_view(), t),
        wf_children(empty_view()),
        branching(empty_view()),
{
}

/// Insertion keeps the node's own characters and mark, and of its children
/// changes only the one filed under the first character of the word, which
/// it adds when missing.
pub proof fn law_insert_touches_one_child(v: RadixView, w: Seq<char>)
    requires
        w.len() > 0,
    ensures
        spec_insert(v, w).chars == v.chars,
        spec_insert(v, w).is_word == v.is_word,
        spec_insert(v, w).children.dom() == v.children.dom().insert(key_of(w[0])),
        forall|j: u32|
            j != key_of(w[0]) && #[trigger] v.children.contains_key(j) ==> spec_insert(v, w).children[j]
                == v.children[j],
{
    assert(spec_insert(v, w).children.dom() =~= v.children.dom().insert(key_of(w[0])));
}

/// What a lookup gives back of an insertion: after inserting `w` into a tree
/// whose root holds no characters, `w` is stored and, when it is its own
/// lowercase throughout, lookup finds it; every word stored before is still
/// stored.
pub proof fn law_insert_then_lookup(v: RadixView, w: Seq<char>)
    requires
        v.chars.len() == 0,
        insert_ok(v, w),
        skips_match(v, w),
    ensures
        stores(spec_insert(v, w), w),
        lowercase_closed(w) ==> spec_lookup(spec_insert(v, w), w) == LookupOutcome::Found,
        forall|t: Seq<char>| stores(v, t) ==> stores(spec_insert(v, w), t),
{
    lemma_insert_stores(v, w);
    let new = spec_insert(v, w);
    assert(stores(new, w) <==> (stores(v, w) || w == w));
    assert(new.chars == v.chars);
    assert(new.chars + w =~= w);
    if lowercase_closed(w) {
        lemma_lookup_finds_stored(new, w);
    }
}

/// For a tree whose root holds no characters and whose nodes are well
/// formed, any ASCII word that is its own lowercase throughout can be
/// inserted, is found by lookup afterwards, and leaves the tree well formed.
pub proof fn law_ascii_word_found_after_insert(v: RadixView, w: Seq<char>)
    requires
        v.chars.len() == 0,
        wf_children(v),
        w.len() > 0,
        is_ascii_chars(w),
        w.len() <= usize::MAX,
        lowercase_closed(w),
    ensures
        insert_ok(v, w),
        spec_lookup(spec_insert(v, w), w) == LookupOutcome::Found,
        wf_children(spec_insert(v, w)),
{
    lemma_ascii_insert_ok(v, w);
    law_insert_then_lookup(v, w);
    lemma_insert_keeps_wf(v, w);
}

/// Lookup of ASCII keys finds every stored word made of lowercase ASCII
/// characters: below any node `v`, the key made of `v`'s characters and a
/// word `t` stored below `v` is found.
pub proof fn lemma_lookup_ascii_finds_stored(v: RadixView, t: Seq<char>)
    requires
        stores(v, t),
        lowercase_ascii_word(v.chars + t),
    ensures
        spec_lookup_ascii(v, v.chars + t) == LookupOutcome::Found,
    decreases v,
{
    let key = v.chars + t;
    lemma_lowercase_ascii_word(key, 0);
    if t.len() == 0 {
        assert(key =~= v.chars);
    } else {
        let m = v.chars.len();
        lemma_common_prefix_len(v.chars, key);
        let n = common_prefix_len(v.chars, key);
        if n < m {
            assert(key[n as int] == v.chars[n as int]);
        }
        assert(n == m);
        assert(key.skip(n as int) =~= t);
        let c = v.children[key_of(t[0])];
        let rest = t.skip(c.chars.len() as int);
        assert(t =~= c.chars + rest);
        lemma_lowercase_ascii_word(key, m as int);
        lemma_lookup_ascii_finds_stored(c, rest);
    }
}

/// The tree after inserting the words of `ws`, in order, below `v`.
pub open spec fn spec_insert_all(v: RadixView, ws: Seq<Seq<char>>) -> RadixView
    decreases ws.len(),
{
    if ws.len() == 0 {
        v
    } else {
        spec_insert(spec_insert_all(v, ws.drop_last()), ws.last())
    }
}

/// Words that can be inserted one after another into a new tree: each is
/// nonempty, fits a `usize`, and is made of lowercase ASCII characters.
pub open spec fn insertable_words(ws: Seq<Seq<char>>) -> bool {
    forall|i: int|
        0 <= i < ws.len() ==> {
            &&& #[trigger] ws[i].len() > 0
            &&& ws[i].len() <= usize::MAX
            &&& lowercase_ascii_word(ws[i])
        }
}

/// Membership in a sequence with one more word at its end.
proof fn lemma_contains_last(ws: Seq<Seq<char>>, t: Seq<char>)
    requires
        ws.len() > 0,
    ensures
        ws.contains(t) <==> (ws.drop_last().contains(t) || t == ws.last()),
{
    let prev = ws.drop_last();
    if ws.contains(t) {
        let j = choose|j: int| 0 <= j < ws.len() && ws[j] == t;
        if j < prev.len() {
            assert(prev[j] == t);
        }
    }
    if prev.contains(t) {
        let j = choose|j: int| 0 <= j < prev.len() && prev[j] == t;
        assert(ws[j] == t);
    }
    if t == ws.last() {
        assert(ws[ws.len() - 1] == t);
    }
}

/// The tree that insertable words make: each insertion completes, the tree
/// stays well formed and branching with a root of no characters, and stores
/// exactly the words.
proof fn lemma_insert_all(ws: Seq<Seq<char>>)
    requires
        insertable_words(ws),
    ensures
        forall|i: int|
            0 <= i < ws.len() ==> insert_ok(
                spec_insert_all(empty_view(), ws.take(i)),
                #[trigger] ws[i],
            ),
        wf_children(spec_insert_all(empty_view(), ws)),
        branching(spec_insert_all(empty_view(), ws)),
        spec_insert_all(empty_view(), ws).chars.len() == 0,
        forall|t: Seq<char>| stores(spec_insert_all(empty_view(), ws), t) <==> ws.contains(t),
    decreases ws.len(),
{
    let all = spec_insert_all(empty_view(), ws);
    if ws.len() == 0 {
        assert forall|t: Seq<char>| stores(all, t) <==> ws.contains(t) by {
            lemma_empty_stores_nothing(t);
        }
    } else {
        let prev = ws.drop_last();
        let w = ws.last();
        assert forall|i: int| 0 <= i < prev.len() implies {
            &&& #[trigger] prev[i].len() > 0
            &&& prev[i].len() <= usize::MAX
            &&& lowercase_ascii_word(prev[i])
        } by {
            assert(prev[i] == ws[i]);
        }
        lemma_insert_all(prev);
        let before = spec_insert_all(empty_view(), prev);
        assert(ws[ws.len() - 1].len() > 0);
        lemma_lowercase_ascii_word(w, 0);
        lemma_ascii_insert_ok(before, w);
        lemma_insert_keeps_wf(before, w);
        lemma_insert_keeps_branching(before, w);
        lemma_insert_stores(before, w);
        assert(all == spec_insert(before, w));
        assert forall|i: int| 0 <= i < ws.len() implies insert_ok(
            spec_insert_all(empty_view(), ws.take(i)),
            #[trigger] ws[i],
        ) by {
            if i < prev.len() {
                assert(ws.take(i) =~= prev.take(i));
                assert(prev[i] == ws[i]);
            } else {
                assert(ws.take(i) =~= prev);
            }
        }
        assert forall|t: Seq<char>| stores(all, t) <==> ws.contains(t) by {
            lemma_contains_last(ws, t);
        }
    }
}

/// Words inserted one after another into a new tree: when each is a
/// nonempty word of lowercase ASCII characters, every insertion completes,
/// the tree stores exactly those words, stays well formed and branching, and
/// lookup finds each of them.
pub proof fn law_inserted_words_are_found(ws: Seq<Seq<char>>)
    requires
        insertable_words(ws),
    ensures
        forall|i: int|
            0 <= i < ws.len() ==> insert_ok(
                spec_insert_all(empty_view(), ws.take(i)),
                #[trigger] ws[i],
            ),
        wf_children(spec_insert_all(empty_view(), ws)),
        branching(spec_insert_all(empty_view(), ws)),
        forall|t: Seq<char>| stores(spec_insert_all(empty_view(), ws), t) <==> ws.contains(t),
        forall|i: int|
            0 <= i < ws.len() ==> spec_lookup_ascii(spec_insert_all(empty_view(), ws), #[trigger] ws[i])
                == LookupOutcome::Found,
{
    lemma_insert_all(ws);
    let all = spec_insert_all(empty_view(), ws);
    assert forall|i: int| 0 <= i < ws.len() implies spec_lookup_ascii(
        all,
        #[trigger] ws[i],
    ) == LookupOutcome::Found by {
        assert(ws.contains(ws[i]));
        assert(all.chars + ws[i] =~= ws[i]);
        lemma_lookup_ascii_finds_stored(all, ws[i]);
    }
}

/// Below `v`, every node has finitely many children, and every node that
/// ends no word has at least two.
pub open spec fn branching(v: RadixView) -> bool
    decreases v,
{
    forall|k: u32| #[trigger]
        v.children.contains_key(k) ==> {
            &&& v.children[k].children.dom().finite()
            &&& (!v.children[k].is_word ==> v.children[k].children.dom().len() >= 2)
            &&& branching(v.children[k])
        }
}

/// Being branching below a node depends only on its children.
proof fn lemma_branching_same_children(v1: RadixView, v2: RadixView)
    requires
        v1.children == v2.children,
    ensures
        branching(v1) == branching(v2),
{
}

/// Insertion keeps every node that ends no word with at least two children:
/// it only adds children, and a node it splits off ends no word and gets two.
pub proof fn lemma_insert_keeps_branching(v: RadixView, w: Seq<char>)
    requires
        wf_children(v),
        branching(v),
        insert_ok(v, w),
    ensures
        branching(spec_insert(v, w)),
    decreases v,
{
    let k = key_of(w[0]);
    let new = spec_insert(v, w);
    if v.children.contains_key(k) {
        let c = v.children[k];
        let n = common_prefix_len(c.chars, w);
        let b = byte_count(w.take(n as int)) as nat;
        lemma_common_prefix_len(c.chars, w);
        let p = new.children[k];
        assert(branching(c));
        assert(wf_children(c));
        if w == c.chars {
            lemma_branching_same_children(p, c);
        } else if n < w.len() && n < c.chars.len() {
            let kc = key_of(c.chars[n as int]);
            let kw = key_of(w[n as int]);
            lemma_key_of_injective(c.chars[n as int], w[n as int]);
            lemma_branching_same_children(p.children[kc], c);
            assert(p.children.dom() =~= set![kc, kw]);
            assert(p.children.dom().len() == 2) by {
                assert(set![kc, kw].remove(kc) =~= set![kw]);
            }
            let fresh = p.children[kw];
            assert(fresh.children.dom() =~= Set::<u32>::empty());
            assert(branching(fresh));
            assert forall|j: u32| #[trigger] p.children.contains_key(j) implies {
                &&& p.children[j].children.dom().finite()
                &&& (!p.children[j].is_word ==> p.children[j].children.dom().len() >= 2)
                &&& branching(p.children[j])
            } by {
                assert(j == kc || j == kw);
            }
            assert(branching(p));
        } else if n == w.len() {
            let rest = p.children[key_of(skip_chars(c.chars, b)[0])];
            lemma_branching_same_children(rest, c);
            assert(p.children.dom() =~= set![key_of(skip_chars(c.chars, b)[0])]);
            assert(branching(p));
        } else {
            let w1 = skip_chars(w, b);
            lemma_insert_keeps_branching(c, w1);
            let k1 = key_of(w1[0]);
            assert(p.children.dom() =~= c.children.dom().insert(k1));
            if !c.children.dom().contains(k1) {
                assert(p.children.dom().len() == c.children.dom().len() + 1);
            } else {
                assert(c.children.dom().insert(k1) =~= c.children.dom());
            }
        }
    }
    assert forall|j: u32| #[trigger] new.children.contains_key(j) implies {
        &&& new.children[j].children.dom().finite()
        &&& (!new.children[j].is_word ==> new.children[j].children.dom().len() >= 2)
        &&& branching(new.children[j])
    } by {
        if j != k {
            assert(v.children.contains_key(j));
        }
    }
}

/// A node filed under `k` below `v` stores `u` exactly when `v` stores the
/// node's characters followed by `u`.
pub proof fn lemma_stores_via_child(v: RadixView, k: u32, u: Seq<char>)
    requires
        wf_children(v),
        v.children.contains_key(k),
    ensures
        stores(v, v.children[k].chars + u) == stores(v.children[k], u),
{
    let c = v.children[k];
    let t = c.chars + u;
    assert(c.chars.len() > 0);
    assert(t[0] == c.chars[0]);
    assert(t.take(c.chars.len() as int) =~= c.chars);
    assert(t.skip(c.chars.len() as int) =~= u);
}

/// A node that ends a word, or that has at least two children, below a well
/// formed branching tree stores some word.
proof fn lemma_stores_some(c: RadixView)
    requires
        wf_children(c),
        branching(c),
        c.children.dom().finite(),
        !c.is_word ==> c.children.dom().len() >= 2,
    ensures
        exists|u: Seq<char>| stores(c, u),
    decreases c,
{
    if c.is_word {
        assert(stores(c, Seq::empty()));
    } else {
        let k = c.children.dom().choose();
        let d = c.children[k];
        lemma_stores_some(d);
        let u = choose|u: Seq<char>| stores(d, u);
        lemma_stores_via_child(c, k, u);
    }
}

/// Two children filed under distinct keys, each storing a word, when the node
/// ends no word.
proof fn lemma_two_children(c: RadixView) -> (r: (u32, u32))
    requires
        c.children.dom().finite(),
        c.children.dom().len() >= 2,
    ensures
        r.0 != r.1,
        c.children.contains_key(r.0),
        c.children.contains_key(r.1),
{
    let x = c.children.dom().choose();
    let rest = c.children.dom().remove(x);
    assert(rest.len() >= 1);
    let y = rest.choose();
    (x, y)
}

/// The characters of the node filed under `k` are fixed by the words stored
/// under `k`: two well formed branching trees that store the same words have,
/// under each key, nodes with the same characters.
proof fn lemma_same_words_same_chars(v1: RadixView, v2: RadixView, k: u32)
    requires
        wf_children(v1),
        wf_children(v2),
        branching(v1),
        branching(v2),
        v1.children.contains_key(k),
        v2.children.contains_key(k),
        forall|t: Seq<char>| stores(v1, t) == stores(v2, t),
    ensures
        v1.children[k].chars == v2.children[k].chars,
{
    let c1 = v1.children[k];
    let c2 = v2.children[k];
    let a = c1.chars;
    let b = c2.chars;
    if a != b {
        lemma_common_prefix_len(a, b);
        let m = common_prefix_len(a, b);
        if m == a.len() && m == b.len() {
            assert(a =~= b);
        }
        if m == a.len() {
            assert(a.take(m as int) =~= a);
        }
        if m == b.len() {
            assert(b.take(m as int) =~= b);
        }
        lemma_ends_below(v1, v2, k);
        lemma_ends_below(v2, v1, k);
        if m < a.len() && m < b.len() {
            lemma_stores_some(c1);
            let u = choose|u: Seq<char>| stores(c1, u);
            lemma_stores_via_child(v1, k, u);
            let t = a + u;
            assert(t[m as int] == a[m as int]);
            assert(t.take(b.len() as int)[m as int] == b[m as int]);
        }
    }
}

/// Under key `k`, every word that `v2` stores starts with the characters of
/// the node that `v2` files there, and so the node of `v1` under `k` ends no
/// word unless its characters are that long, and its two children (when it
/// ends no word) go on past the characters of `v2`'s node at different
/// characters.
proof fn lemma_ends_below(v1: RadixView, v2: RadixView, k: u32)
    requires
        wf_children(v1),
        wf_children(v2),
        branching(v1),
        branching(v2),
        v1.children.contains_key(k),
        v2.children.contains_key(k),
        forall|t: Seq<char>| stores(v1, t) == stores(v2, t),
    ensures
        ({
            let a = v1.children[k].chars;
            let b = v2.children[k].chars;
            a.len() < b.len() ==> a != b.take(a.len() as int)
        }),
{
    let c1 = v1.children[k];
    let c2 = v2.children[k];
    let a = c1.chars;
    let b = c2.chars;
    if a.len() < b.len() && a == b.take(a.len() as int) {
        // every word under `k` starts with `b`
        assert forall|u: Seq<char>| stores(c1, u) implies is_prefix(b, a + u) by {
            lemma_stores_via_child(v1, k, u);
            let t = a + u;
            assert(stores(v2, t));
            assert(t[0] == a[0]);
        }
        if c1.is_word {
            assert(stores(c1, Seq::<char>::empty()));
            assert(a + Seq::<char>::empty() =~= a);
        } else {
            assert(branching(c1));
            assert(wf_children(c1));
            let (x, y) = lemma_two_children(c1);
            assert(c1.children.contains_key(x));
            assert(c1.children.contains_key(y));
            let dx = c1.children[x];
            let dy = c1.children[y];
            lemma_stores_some(dx);
            lemma_stores_some(dy);
            let ux = choose|u: Seq<char>| stores(dx, u);
            let uy = choose|u: Seq<char>| stores(dy, u);
            lemma_stores_via_child(c1, x, ux);
            lemma_stores_via_child(c1, y, uy);
            let tx = a + (dx.chars + ux);
            let ty = a + (dy.chars + uy);
            assert(is_prefix(b, tx));
            assert(is_prefix(b, ty));
            let m = a.len() as int;
            assert(tx[m] == dx.chars[0]);
            assert(ty[m] == dy.chars[0]);
            assert(tx.take(b.len() as int)[m] == b[m]);
            assert(ty.take(b.len() as int)[m] == b[m]);
            lemma_key_of_injective(dx.chars[0], dy.chars[0]);
        }
    }
}

/// Well formed branching trees are fixed by the words they store: two such
/// nodes with the same characters and mark that store the same words are
/// equal.
pub proof fn lemma_same_words_same_tree(v1: RadixView, v2: RadixView)
    requires
        wf_children(v1),
        wf_children(v2),
        branching(v1),
        branching(v2),
        v1.chars == v2.chars,
        v1.is_word == v2.is_word,
        forall|t: Seq<char>| stores(v1, t) == stores(v2, t),
    ensures
        v1 == v2,
    decreases v1,
{
    assert forall|k: u32| v1.children.contains_key(k) implies v2.children.contains_key(k) by {
        let c1 = v1.children[k];
        lemma_stores_some(c1);
        let u = choose|u: Seq<char>| stores(c1, u);
        lemma_stores_via_child(v1, k, u);
        let t = c1.chars + u;
        assert(stores(v2, t));
        assert(t[0] == c1.chars[0]);
    }
    assert forall|k: u32| v2.children.contains_key(k) implies v1.children.contains_key(k) by {
        let c2 = v2.children[k];
        lemma_stores_some(c2);
        let u = choose|u: Seq<char>| stores(c2, u);
        lemma_stores_via_child(v2, k, u);
        let t = c2.chars + u;
        assert(stores(v1, t));
        assert(t[0] == c2.chars[0]);
    }
    assert forall|k: u32| v1.children.contains_key(k) implies v1.children[k] == v2.children[k] by {
        lemma_same_words_same_chars(v1, v2, k);
        let c1 = v1.children[k];
        let c2 = v2.children[k];
        assert forall|u: Seq<char>| stores(c1, u) == stores(c2, u) by {
            lemma_stores_via_child(v1, k, u);
            lemma_stores_via_child(v2, k, u);
        }
        assert(stores(c1, Seq::<char>::empty()) == c1.is_word);
        assert(stores(c2, Seq::<char>::empty()) == c2.is_word);
        lemma_same_words_same_tree(c1, c2);
    }
    assert(v1.children =~= v2.children);
}

/// The order of two insertions does not matter: inserting two nonempty ASCII
/// words into a well formed branching tree, one after the other, gives the
/// same tree in either order; and insertion keeps the tree well formed and
/// branching.
pub proof fn law_insert_commutes(v: RadixView, a: Seq<char>, b: Seq<char>)
    requires
        wf_children(v),
        branching(v),
        a.len() > 0,
        b.len() > 0,
        is_ascii_chars(a),
        is_ascii_chars(b),
        a.len() <= usize::MAX,
        b.len() <= usize::MAX,
    ensures
        spec_insert(spec_insert(v, a), b) == spec_insert(spec_insert(v, b), a),
{
    let va = spec_insert(v, a);
    let vb = spec_insert(v, b);
    lemma_ascii_insert_ok(v, a);
    lemma_ascii_insert_ok(v, b);
    lemma_insert_keeps_wf(v, a);
    lemma_insert_keeps_wf(v, b);
    lemma_insert_keeps_branching(v, a);
    lemma_insert_keeps_branching(v, b);
    lemma_insert_stores(v, a);
    lemma_insert_stores(v, b);
    lemma_ascii_insert_ok(va, b);
    lemma_ascii_insert_ok(vb, a);
    let r1 = spec_insert(va, b);
    let r2 = spec_insert(vb, a);
    lemma_insert_keeps_wf(va, b);
    lemma_insert_keeps_wf(vb, a);
    lemma_insert_keeps_branching(va, b);
    lemma_insert_keeps_branching(vb, a);
    lemma_insert_stores(va, b);
    lemma_insert_stores(vb, a);
    assert forall|t: Seq<char>| stores(r1, t) == stores(r2, t) by {
        assert(stores(r1, t) == (stores(va, t) || t == b));
        assert(stores(r2, t) == (stores(vb, t) || t == a));
        assert(stores(va, t) == (stores(v, t) || t == a));
        assert(stores(vb, t) == (stores(v, t) || t == b));
    }
    lemma_same_words_same_tree(r1, r2);
}

/// The split case of `lemma_insert_stores_at_key`.
proof fn lemma_insert_stores_split(v: RadixView, w: Seq<char>, t: Seq<char>)
    requires
        insert_ok(v, w),
        t.len() > 0,
        t[0] == w[0],
        v.children.contains_key(key_of(w[0])),
        w != v.children[key_of(w[0])].chars,
        common_prefix_len(v.children[key_of(w[0])].chars, w) < w.len(),
        common_prefix_len(v.children[key_of(w[0])].chars, w) < v.children[key_of(w[0])].chars.len(),
    ensures
        stores(spec_insert(v, w), t) <==> (stores(v, t) || t == w),
{
    let k = key_of(w[0]);
    let c = v.children[k];
    let n = common_prefix_len(c.chars, w);
    lemma_common_prefix_len(c.chars, w);
    let new = spec_insert(v, w);
    let p = new.children[k];
    let kc = key_of(c.chars[n as int]);
    let kw = key_of(w[n as int]);
    lemma_key_of_injective(c.chars[n as int], w[n as int]);
    let rest = p.children[kc];
    let fresh = p.children[kw];
    assert(p.chars == w.take(n as int));
    assert(rest.chars == c.chars.skip(n as int));
    assert(fresh == leaf(w.skip(n as int)));
    assert(c.chars.take(n as int) == w.take(n as int));
    lemma_prefix_split(t, c.chars, n as int);
    lemma_prefix_split(t, w, n as int);
    assert(w.take(n as int).len() == n);
    let t1 = t.skip(n as int);
    assert(stores(new, t) == (is_prefix(p.chars, t) && stores(p, t1)));
    assert(stores(v, t) == (is_prefix(c.chars, t) && stores(c, t.skip(c.chars.len() as int))));
    if is_prefix(p.chars, t) {
        if t1.len() == 0 {
            assert(!stores(p, t1));
            assert(!is_prefix(c.chars, t));
            assert(t.len() != w.len());
        } else {
            assert(t1[0] == t[n as int]);
            lemma_key_of_injective(t1[0], c.chars[n as int]);
            lemma_key_of_injective(t1[0], w[n as int]);
            if t1[0] == c.chars[n as int] {
                assert(stores(p, t1) == (is_prefix(rest.chars, t1) && stores(rest, t1.skip(rest.chars.len() as int))));
                lemma_stores_same_below(rest, c, t1.skip(rest.chars.len() as int));
                assert(t != w);
            } else if t1[0] == w[n as int] {
                assert(stores(p, t1) == (is_prefix(fresh.chars, t1) && stores(fresh, t1.skip(fresh.chars.len() as int))));
                if is_prefix(fresh.chars, t1) && t1.skip(fresh.chars.len() as int).len() == 0 {
                    assert(t.skip(w.len() as int).len() == 0);
                    assert(t =~= w);
                }
                if t == w {
                    assert(t.take(w.len() as int) =~= w);
                    assert(t1 =~= fresh.chars);
                    assert(t1.take(fresh.chars.len() as int) =~= fresh.chars);
                }
                assert(!is_prefix(c.chars, t));
            } else {
                assert(!p.children.contains_key(key_of(t1[0])));
                assert(!is_prefix(c.chars, t));
                assert(t != w);
            }
        }
    } else {
        assert(!is_prefix(c.chars, t));
        if t == w {
            assert(t.take(n as int) =~= w.take(n as int));
        }
    }
}

} // verus!
