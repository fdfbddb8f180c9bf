//! Maps keyed by text: each key at most once, entries in the order keys first arrived.
use vstd::prelude::*;
use crate::bytes::bytes_eq;

verus! {

/// The keys of `entries` are pairwise distinct.
pub open spec fn distinct_keys<T>(entries: Seq<(String, T)>) -> bool {
    forall|i: int, j: int|
        0 <= i < j < entries.len() ==> (#[trigger] entries[i]).0@ != (#[trigger] entries[j]).0@
}

/// `entries` has an entry for `key`.
pub open spec fn has_key<T>(entries: Seq<(String, T)>, key: Seq<char>) -> bool {
    exists|i: int| 0 <= i < entries.len() && (#[trigger] entries[i]).0@ == key
}

/// `entries` after storing `value` under `key`: in place of the entry for `key` where
/// there is one, else appended.
pub open spec fn entries_insert<T>(entries: Seq<(String, T)>, key: String, value: T) -> Seq<(String, T)> {
    if has_key(entries, key@) {
        let i = choose|i: int| 0 <= i < entries.len() && (#[trigger] entries[i]).0@ == key@;
        entries.update(i, (key, value))
    } else {
        entries.push((key, value))
    }
}

#[derive(Debug, PartialEq)]
pub struct StringMap<T> {
    entries: Vec<(String, T)>,
}

impl<T> View for StringMap<T> {
    type V = Seq<(String, T)>;

    closed spec fn view(&self) -> Seq<(String, T)> {
        self.entries@
    }
}

impl<T> StringMap<T> {
    /// No key occurs twice.
    #[verifier::type_invariant]
    pub open spec fn keys_distinct(self) -> bool {
        distinct_keys(self@)
    }

    pub fn new() -> (r: Self)
        ensures
            r@ == Seq::<(String, T)>::empty(),
    {
        StringMap { entries: Vec::new() }
    }

    pub fn len(&self) -> (r: usize)
        ensures
            r == self@.len(),
    {
        self.entries.len()
    }

    pub fn is_empty(&self) -> (r: bool)
        ensures
            r == (self@.len() == 0),
    {
        self.entries.len() == 0
    }

    /// The entries, in the order their keys first arrived.
    pub fn entries(&self) -> (r: &[(String, T)])
        ensures
            r@ == self@,
    {
        self.entries.as_slice()
    }

    /// The value stored under `key`.
    pub fn get(&self, key: &str) -> (r: Option<&T>)
        ensures
            match r {
                Some(v) => exists|i: int|
                    0 <= i < self@.len() && (#[trigger] self@[i]).0@ == key@ && self@[i].1 == *v,
                None => !has_key(self@, key@),
            },
    {
        let mut i: usize = 0;
        while i < self.entries.len()
            invariant
                i <= self@.len(),
                forall|j: int| 0 <= j < i ==> (#[trigger] self@[j]).0@ != key@,
            decreases self@.len() - i,
        {
            if str_eq(self.entries[i].0.as_str(), key) {
                return Some(&self.entries[i].1);
            }
            i = i + 1;
        }
        None
    }

    /// Stores `value` under `key`, replacing any value stored there before.
    pub fn insert(&mut self, key: String, value: T)
        ensures
            final(self)@ == entries_insert(old(self)@, key, value),
    {
        proof {
            use_type_invariant(&*self);
        }
        let mut entries: Vec<(String, T)> = Vec::new();
        std::mem::swap(&mut entries, &mut self.entries);
        let ghost es = entries@;
        assert(es == old(self)@);
        let mut i: usize = 0;
        while i < entries.len()
            invariant
                entries@ == es,
                es == old(self)@,
                distinct_keys(es),
                i <= es.len(),
                forall|j: int| 0 <= j < i ==> (#[trigger] es[j]).0@ != key@,
            decreases es.len() - i,
        {
            if entries[i].0 == key {
                proof {
                    assert(has_key(es, key@));
                    let c = choose|c: int| 0 <= c < es.len() && (#[trigger] es[c]).0@ == key@;
                    assert(c == i) by {
                        if c < i {
                            assert(es[c].0@ != key@);
                        } else if c > i {
                            assert(es[i as int].0@ != es[c].0@);
                        }
                    }
                }
                entries.set(i, (key, value));
                proof {
                    let r = entries_insert(es, key, value);
                    assert(entries@ =~= r);
                    assert forall|a: int, b: int| 0 <= a < b < r.len() implies (#[trigger] r[a]).0@
                        != (#[trigger] r[b]).0@ by {
                        assert(es[a].0@ != es[b].0@);
                    }
                }
                self.entries = entries;
                return;
            }
            i = i + 1;
        }
        entries.push((key, value));
        proof {
            let r = entries_insert(es, key, value);
            assert(!has_key(es, key@));
            assert(entries@ =~= r);
            assert forall|a: int, b: int| 0 <= a < b < r.len() implies (#[trigger] r[a]).0@ != (
            #[trigger] r[b]).0@ by {
                if b < es.len() {
                    assert(es[a].0@ != es[b].0@);
                }
            }
        }
        self.entries = entries;
    }
}

impl<T> Default for StringMap<T> {
    fn default() -> (r: Self)
        ensures
            r@ == Seq::<(String, T)>::empty(),
    {
        StringMap { entries: Vec::new() }
    }
}

/// Two strings hold the same characters.
pub fn str_eq(a: &str, b: &str) -> (r: bool)
    ensures
        r == (a@ == b@),
{
    let x = a.as_bytes();
    let y = b.as_bytes();
    let r = bytes_eq(x, y);
    proof {
        vstd::utf8::encode_utf8_decode_utf8(a@);
        vstd::utf8::encode_utf8_decode_utf8(b@);
    }
    r
}

/// The characters of `s`, in order.
pub fn chars_of(s: &str) -> (v: Vec<char>)
    ensures
        v@ == s@,
{
    let mut v: Vec<char> = Vec::new();
    for c in it: s.chars()
        invariant
            v@ == it.seq().take(it.index() as int),
    {
        v.push(c);
        assert(v@ =~= it.seq().take(it.index() as int + 1));
    }
    v
}

/// `String::from_iter` over characters: the string of exactly these characters.
#[verifier::external_body]
pub(crate) fn string_of(chars: &[char]) -> (r: String)
    ensures
        r@ == chars@,
{
    chars.iter().collect()
}

} // verus!
