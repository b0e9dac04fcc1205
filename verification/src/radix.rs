use std::collections::HashMap;
use vstd::prelude::*;
use vstd::std_specs::iter::IteratorSpec;
use vstd::utf8::is_ascii_chars;

use crate::text::{
    ascii_lowercase, byte_count, byte_len, chars_of, lemma_ascii_lowercase, common_prefix, common_prefix_len, lemma_common_prefix_len,
    lowercase, skip_chars, string_from, to_lowercase,
};

verus! {

broadcast use vstd::std_specs::hash::group_hash_axioms;

/// A node of a radix tree of words. The root holds no characters; every
/// other node holds the characters that lead to it from its parent, and is
/// filed under the code of its first character.
#[derive(Debug)]
pub struct Radix {
    chars: String,
    children: HashMap<u32, Radix>,
    is_word: bool,
}

/// The mathematical value of a node: its characters, its children by the
/// code of their first character, and whether it ends a word.
pub struct RadixView {
    pub chars: Seq<char>,
    pub children: Map<u32, RadixView>,
    pub is_word: bool,
}

/// What a lookup finds.
#[derive(PartialEq, Eq, Structural, Clone, Copy, Debug)]
pub enum LookupOutcome {
    Found,
    NotAWord,
    NotFound,
}

/// The value of a node, its children taken by value in turn.
pub closed spec fn view_of(r: Radix) -> RadixView
    decreases r,
{
    RadixView {
        chars: r.chars@,
        children: Map::new(
            |k: u32| r.children@.contains_key(k),
            |k: u32|
                if r.children@.contains_key(k) {
                    view_of(r.children@[k])
                } else {
                    empty_view()
                },
        ),
        is_word: r.is_word,
    }
}

impl View for Radix {
    type V = RadixView;

    closed spec fn view(&self) -> RadixView {
        view_of(*self)
    }
}

/// A node with no characters, no children, that ends no word.
pub open spec fn empty_view() -> RadixView {
    RadixView { chars: Seq::empty(), children: Map::empty(), is_word: false }
}

/// A node that ends the word `w` and has no children.
pub open spec fn leaf(w: Seq<char>) -> RadixView {
    RadixView { chars: w, children: Map::empty(), is_word: true }
}

/// The code under which a node whose characters start with `c` is filed.
pub open spec fn key_of(c: char) -> u32 {
    c as u32
}

/// Lookup of `key` at node `v`: the key is lowercased; if it equals the
/// node's characters, the node's word mark decides; otherwise the part of
/// the key after its common prefix with the node's characters is looked up
/// in the child filed under its first character.
pub open spec fn spec_lookup(v: RadixView, key: Seq<char>) -> LookupOutcome
    decreases v,
{
    let lk = lowercase(key);
    if lk == v.chars {
        if v.is_word {
            LookupOutcome::Found
        } else {
            LookupOutcome::NotAWord
        }
    } else {
        let n = common_prefix_len(v.chars, lk);
        if (n == 0 && v.chars.len() != 0) || n == lk.len() {
            LookupOutcome::NotFound
        } else {
            let sub = lk.skip(n as int);
            let k = key_of(sub[0]);
            if v.children.contains_key(k) {
                spec_lookup(v.children[k], sub)
            } else {
                LookupOutcome::NotFound
            }
        }
    }
}

/// `spec_lookup` of an ASCII key, with each lowercasing done as the ASCII
/// lowercase (what `str::to_lowercase` does on ASCII strings).
pub open spec fn spec_lookup_ascii(v: RadixView, key: Seq<char>) -> LookupOutcome
    decreases v,
{
    let lk = ascii_lowercase(key);
    if lk == v.chars {
        if v.is_word {
            LookupOutcome::Found
        } else {
            LookupOutcome::NotAWord
        }
    } else {
        let n = common_prefix_len(v.chars, lk);
        if (n == 0 && v.chars.len() != 0) || n == lk.len() {
            LookupOutcome::NotFound
        } else {
            let sub = lk.skip(n as int);
            let k = key_of(sub[0]);
            if v.children.contains_key(k) {
                spec_lookup_ascii(v.children[k], sub)
            } else {
                LookupOutcome::NotFound
            }
        }
    }
}

/// Insertion of the word `w` below node `v`. The child filed under the
/// first character of `w` is: created as a leaf when missing; marked as a
/// word when its characters are `w`; split at the common prefix when each
/// goes on past it; put under a new word node `w` when `w` is a proper
/// prefix of its characters; and otherwise given the rest of `w` below it.
/// In the last two cases the characters skipped are as many as the common
/// prefix has bytes in UTF-8.
pub open spec fn spec_insert(v: RadixView, w: Seq<char>) -> RadixView
    decreases v,
{
    let k = key_of(w[0]);
    if !v.children.contains_key(k) {
        RadixView { chars: v.chars, children: v.children.insert(k, leaf(w)), is_word: v.is_word }
    } else {
        let c = v.children[k];
        let n = common_prefix_len(c.chars, w);
        let b = byte_count(w.take(n as int)) as nat;
        if w == c.chars {
            let marked = RadixView { chars: c.chars, children: c.children, is_word: true };
            RadixView { chars: v.chars, children: v.children.insert(k, marked), is_word: v.is_word }
        } else if n < w.len() && n < c.chars.len() {
            let rest = RadixView { chars: c.chars.skip(n as int), children: c.children, is_word: c.is_word };
            let fresh = leaf(w.skip(n as int));
            let parent = RadixView {
                chars: w.take(n as int),
                children: map![key_of(c.chars[n as int]) => rest, key_of(w[n as int]) => fresh],
                is_word: false,
            };
            RadixView { chars: v.chars, children: v.children.insert(k, parent), is_word: v.is_word }
        } else if n == w.len() {
            let rest = RadixView { chars: skip_chars(c.chars, b), children: c.children, is_word: c.is_word };
            let parent = RadixView {
                chars: w,
                children: map![key_of(rest.chars[0]) => rest],
                is_word: true,
            };
            RadixView { chars: v.chars, children: v.children.insert(k, parent), is_word: v.is_word }
        } else {
            RadixView {
                chars: v.chars,
                children: v.children.insert(k, spec_insert(c, skip_chars(w, b))),
                is_word: v.is_word,
            }
        }
    }
}

/// The inputs on which insertion of `w` below `v` completes: `w` is not
/// empty, and the node it would create or split gets characters to be filed
/// under (a split needs a common first character, a new word node above a
/// child needs characters left after the skip), and, when it goes on below
/// a child, so does the insertion of the rest.
pub open spec fn insert_ok(v: RadixView, w: Seq<char>) -> bool
    decreases v,
{
    if w.len() == 0 {
        false
    } else {
        let k = key_of(w[0]);
        if !v.children.contains_key(k) {
            true
        } else {
            let c = v.children[k];
            let n = common_prefix_len(c.chars, w);
            let b = byte_count(w.take(n as int)) as nat;
            if w == c.chars {
                true
            } else if n < w.len() && n < c.chars.len() {
                n > 0
            } else if n == w.len() {
                b < c.chars.len()
            } else {
                b < w.len() && insert_ok(c, skip_chars(w, b))
            }
        }
    }
}

/// The message of a lookup that does not find a word, by outcome.
pub open spec fn lookup_result_matches(r: Result<(), &str>, o: LookupOutcome) -> bool {
    match o {
        LookupOutcome::Found => r is Ok,
        LookupOutcome::NotAWord => r matches Err(m) && m@ == "Key found, but is not marked as a word"@,
        LookupOutcome::NotFound => r matches Err(m) && m@ == "Key not found in tree"@,
    }
}

impl Radix {
    /// The value of a node is made of its fields.
    proof fn lemma_view_fields(&self)
        ensures
            self@.chars == self.chars@,
            self@.is_word == self.is_word,
            self@.children.dom() == self.children@.dom(),
            forall|k: u32| #[trigger]
                self.children@.contains_key(k) ==> self@.children[k] == self.children@[k]@,
    {
        assert(self@.children.dom() =~= self.children@.dom());
    }

    /// Looks `key` up, lowercased: `Ok` when it ends a word,
    /// `Err("Key found, but is not marked as a word")` when it ends at a
    /// node that is no word, `Err("Key not found in tree")` otherwise.
    pub fn lookup<'a>(&'a self, key: &String) -> (r: Result<(), &'a str>)
        ensures
            lookup_result_matches(r, spec_lookup(self@, key@)),
            is_ascii_chars(key@) ==> spec_lookup(self@, key@) == spec_lookup_ascii(self@, key@),
        decreases self@,
    {
        proof {
            self.lemma_view_fields();
        }
        let lower_key = to_lowercase(key.as_str());
        let own = chars_of(self.chars.as_str());
        let lk = chars_of(lower_key.as_str());
        let n = common_prefix(&own, &lk);
        if lower_key == self.chars {
            if !self.is_word {
                return Err("Key found, but is not marked as a word");
            }
            return Ok(());
        }
        if (n == 0 && own.len() != 0) || n == lk.len() {
            return Err("Key not found in tree");
        }
        proof {
            lemma_common_prefix_len(own@, lk@);
        }
        let subkey = string_from(&lk, n, lk.len());
        assert(subkey@ =~= lk@.skip(n as int));
        proof {
            if is_ascii_chars(key@) {
                lemma_ascii_lowercase(key@, 0);
                lemma_ascii_lowercase(ascii_lowercase(key@), n as int);
            }
        }
        let k = lk[n] as u32;
        match self.children.get(&k) {
            Some(child) => child.lookup(&subkey),
            None => Err("Key not found in tree"),
        }
    }

    /// Whether `insert` completes on `word` at this node (see `insert_ok`).
    pub fn can_insert(&self, word: &String) -> (r: bool)
        ensures
            r == insert_ok(self@, word@),
        decreases self@,
    {
        proof {
            self.lemma_view_fields();
        }
        let w = chars_of(word.as_str());
        if w.len() == 0 {
            return false;
        }
        let key = w[0] as u32;
        match self.children.get(&key) {
            None => true,
            Some(child) => {
                proof {
                    child.lemma_view_fields();
                }
                if *word == child.chars {
                    return true;
                }
                let c = chars_of(child.chars.as_str());
                let n = common_prefix(&c, &w);
                proof {
                    lemma_common_prefix_len(c@, w@);
                }
                let common = string_from(&w, 0, n);
                assert(common@ =~= w@.take(n as int));
                let b = byte_len(&common);
                if n < w.len() && n < c.len() {
                    n > 0
                } else if n == w.len() {
                    b < c.len()
                } else if b < w.len() {
                    let sub = string_from(&w, b, w.len());
                    assert(sub@ =~= skip_chars(w@, b as nat));
                    child.can_insert(&sub)
                } else {
                    false
                }
            },
        }
    }

    /// The characters of this node.
    pub fn chars(&self) -> (r: &String)
        ensures
            r@ == self@.chars,
    {
        proof {
            self.lemma_view_fields();
        }
        &self.chars
    }

    /// Whether this node ends a word.
    pub fn is_word(&self) -> (r: bool)
        ensures
            r == self@.is_word,
    {
        proof {
            self.lemma_view_fields();
        }
        self.is_word
    }

    /// The child filed under the character `c`, if any.
    pub fn child(&self, c: char) -> (r: Option<&Radix>)
        ensures
            match r {
                Some(x) => self@.children.contains_key(key_of(c)) && x@ == self@.children[key_of(c)],
                None => !self@.children.contains_key(key_of(c)),
            },
    {
        proof {
            self.lemma_view_fields();
        }
        self.children.get(&(c as u32))
    }

    /// A copy of the tree, node by node.
    pub fn deep_clone(&self) -> (r: Radix)
        ensures
            r@ == self@,
        decreases self@,
    {
        proof {
            self.lemma_view_fields();
        }
        let mut kids: HashMap<u32, Radix> = HashMap::new();
        let ghost ks: Seq<u32> = vstd::std_specs::hash::spec_keys_iter(&self.children).remaining().unref();
        let ghost mut done: int = 0;
        for k in it: self.children.keys()
            invariant
                it.seq().unref() == ks,
                ks.to_set() == self.children@.dom(),
                forall|j: u32| #[trigger]
                    self.children@.contains_key(j) ==> self@.children.contains_key(j)
                        && self@.children[j] == self.children@[j]@,
                done == it.index(),
                forall|j: u32|
                    #[trigger] kids@.contains_key(j) ==> self.children@.contains_key(j) && kids@[j]@
                        == self.children@[j]@,
                forall|i: int| 0 <= i < done ==> kids@.contains_key(#[trigger] ks[i]),
        {
            assert(ks[done] == *k);
            assert(ks.to_set().contains(*k));
            let child = self.children.get(k).unwrap();
            assert(child@ == self@.children[*k]);
            let copy = child.deep_clone();
            kids.insert(*k, copy);
            proof {
                done = done + 1;
            }
        }
        proof {
            assert forall|j: u32| self.children@.contains_key(j) implies kids@.contains_key(j) by {
                assert(ks.to_set().contains(j));
                let i = choose|i: int| 0 <= i < ks.len() && ks[i] == j;
                assert(kids@.contains_key(ks[i]));
            }
        }
        let r = Radix { chars: self.chars.clone(), children: kids, is_word: self.is_word };
        proof {
            r.lemma_view_fields();
            assert(r@.children =~= self@.children);
        }
        r
    }

    /// An empty tree: no characters, no children, no word.
    pub fn new() -> (r: Radix)
        ensures
            r@ == empty_view(),
    {
        let r = Radix { chars: String::new(), children: HashMap::new(), is_word: false };
        proof {
            r.lemma_view_fields();
            assert(r@.children =~= Map::empty());
        }
        r
    }

    /// Inserts `insertion_word` below this node (see `spec_insert`).
    pub fn insert(&mut self, insertion_word: String)
        requires
            insert_ok(old(self)@, insertion_word@),
        ensures
            final(self)@ == spec_insert(old(self)@, insertion_word@),
        decreases old(self)@,
    {
        proof {
            self.lemma_view_fields();
        }
        let ghost old_self = *self;
        let w = chars_of(insertion_word.as_str());
        let key = w[0] as u32;
        let removed = self.children.remove(&key);
        match removed {
            None => {
                let leaf_node = Radix { chars: insertion_word, children: HashMap::new(), is_word: true };
                proof {
                    leaf_node.lemma_view_fields();
                    assert(leaf_node@.children =~= Map::empty());
                }
                self.children.insert(key, leaf_node);
                proof {
                    self.lemma_view_fields();
                    assert(self@.children =~= old_self@.children.insert(key, leaf_node@));
                }
            },
            Some(mut child) => {
                proof {
                    child.lemma_view_fields();
                    assert(child@ == old_self@.children[key]);
                }
                if insertion_word == child.chars {
                    child.is_word = true;
                    proof {
                        child.lemma_view_fields();
                        assert(child@.children =~= old_self@.children[key].children);
                    }
                    self.children.insert(key, child);
                    proof {
                        self.lemma_view_fields();
                        assert(self@.children =~= old_self@.children.insert(key, child@));
                    }
                    return;
                }
                let c = chars_of(child.chars.as_str());
                let n = common_prefix(&c, &w);
                proof {
                    lemma_common_prefix_len(c@, w@);
                }
                let common = string_from(&w, 0, n);
                assert(common@ =~= w@.take(n as int));
                let b = byte_len(&common);
                if n < w.len() && n < c.len() {
                    let rest = Radix {
                        chars: string_from(&c, n, c.len()),
                        children: child.children,
                        is_word: child.is_word,
                    };
                    let fresh = Radix {
                        chars: string_from(&w, n, w.len()),
                        children: HashMap::new(),
                        is_word: true,
                    };
                    let rest_key = c[n] as u32;
                    let fresh_key = w[n] as u32;
                    proof {
                        rest.lemma_view_fields();
                        fresh.lemma_view_fields();
                        assert(rest@.chars =~= c@.skip(n as int));
                        assert(rest@.children =~= old_self@.children[key].children);
                        assert(fresh@.chars =~= w@.skip(n as int));
                        assert(fresh@.children =~= Map::empty());
                    }
                    let mut kids: HashMap<u32, Radix> = HashMap::new();
                    kids.insert(rest_key, rest);
                    kids.insert(fresh_key, fresh);
                    let parent = Radix { chars: common, children: kids, is_word: false };
                    proof {
                        parent.lemma_view_fields();
                        assert(parent@.children =~= map![rest_key => rest@, fresh_key => fresh@]);
                    }
                    self.children.insert(key, parent);
                    proof {
                        self.lemma_view_fields();
                        assert(self@.children =~= old_self@.children.insert(key, parent@));
                    }
                } else if n == w.len() {
                    assert(common@ =~= w@);
                    let rest = Radix {
                        chars: string_from(&c, b, c.len()),
                        children: child.children,
                        is_word: child.is_word,
                    };
                    let rest_key = c[b] as u32;
                    proof {
                        rest.lemma_view_fields();
                        assert(rest@.chars =~= skip_chars(c@, b as nat));
                        assert(rest@.children =~= old_self@.children[key].children);
                    }
                    let mut kids: HashMap<u32, Radix> = HashMap::new();
                    kids.insert(rest_key, rest);
                    let parent = Radix { chars: insertion_word, children: kids, is_word: true };
                    proof {
                        parent.lemma_view_fields();
                        assert(parent@.children =~= map![rest_key => rest@]);
                    }
                    self.children.insert(key, parent);
                    proof {
                        self.lemma_view_fields();
                        assert(self@.children =~= old_self@.children.insert(key, parent@));
                    }
                } else {
                    let sub = string_from(&w, b, w.len());
                    assert(sub@ =~= skip_chars(w@, b as nat));
                    child.insert(sub);
                    proof {
                        child.lemma_view_fields();
                    }
                    self.children.insert(key, child);
                    proof {
                        self.lemma_view_fields();
                        assert(self@.children =~= old_self@.children.insert(key, child@));
                    }
                }
            },
        }
    }
}

impl Clone for Radix {
    /// A copy of the tree (see `deep_clone`).
    fn clone(&self) -> (r: Radix)
        ensures
            r@ == self@,
    {
        self.deep_clone()
    }
}

} // verus!
