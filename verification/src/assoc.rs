//! Association lists keyed by text and kept in strictly increasing key
//! order: the shape of a `BTreeMap<String, V>` walked in order.
use vstd::prelude::*;
use crate::text::{text_lt, compare_text, Order, chars_of, lemma_text_lt_transitive,
    lemma_text_lt_irreflexive, lemma_text_lt_asymmetric, lemma_text_lt_total};

verus! {

/// Keys strictly increase along the list.
pub open spec fn keys_sorted<V>(s: Seq<(Seq<char>, V)>) -> bool {
    forall|i: int, j: int| 0 <= i < j < s.len() ==> text_lt(#[trigger] s[i].0, #[trigger] s[j].0)
}

/// The value stored under `k`.
pub open spec fn lookup<V>(s: Seq<(Seq<char>, V)>, k: Seq<char>) -> Option<V>
    decreases s.len(),
{
    if s.len() == 0 {
        None
    } else if s.last().0 == k {
        Some(s.last().1)
    } else {
        lookup(s.drop_last(), k)
    }
}

/// Whether some entry has key `k`.
pub open spec fn has_key<V>(s: Seq<(Seq<char>, V)>, k: Seq<char>) -> bool {
    exists|i: int| 0 <= i < s.len() && #[trigger] s[i].0 == k
}

pub proof fn lemma_lookup_at<V>(s: Seq<(Seq<char>, V)>, i: int)
    requires
        keys_sorted(s),
        0 <= i < s.len(),
    ensures
        lookup(s, s[i].0) == Some(s[i].1),
    decreases s.len(),
{
    if i < s.len() - 1 {
        assert(text_lt(s[i].0, s[s.len() - 1].0));
        lemma_text_lt_irreflexive(s[i].0);
        assert(s.last().0 != s[i].0);
        assert(keys_sorted(s.drop_last())) by {
            assert forall|a: int, b: int| 0 <= a < b < s.drop_last().len() implies
                text_lt(#[trigger] s.drop_last()[a].0, #[trigger] s.drop_last()[b].0) by {
                assert(s.drop_last()[a] == s[a]);
                assert(s.drop_last()[b] == s[b]);
            }
        }
        lemma_lookup_at(s.drop_last(), i);
        assert(s.drop_last()[i] == s[i]);
    }
}

pub proof fn lemma_lookup_has_key<V>(s: Seq<(Seq<char>, V)>, k: Seq<char>)
    ensures
        (lookup(s, k) is Some) == has_key(s, k),
    decreases s.len(),
{
    if s.len() > 0 {
        lemma_lookup_has_key(s.drop_last(), k);
        if s.last().0 == k {
            assert(s[s.len() - 1].0 == k);
        } else {
            if has_key(s, k) {
                let i = choose|i: int| 0 <= i < s.len() && #[trigger] s[i].0 == k;
                assert(i < s.len() - 1);
                assert(s.drop_last()[i].0 == k);
            }
            if has_key(s.drop_last(), k) {
                let i = choose|i: int| 0 <= i < s.drop_last().len() && #[trigger] s.drop_last()[i].0 == k;
                assert(s[i].0 == k);
            }
        }
    }
}

pub proof fn lemma_sorted_drop_last<V>(s: Seq<(Seq<char>, V)>)
    requires
        keys_sorted(s),
        s.len() > 0,
    ensures
        keys_sorted(s.drop_last()),
{
    assert forall|a: int, b: int| 0 <= a < b < s.drop_last().len() implies
        text_lt(#[trigger] s.drop_last()[a].0, #[trigger] s.drop_last()[b].0) by {
        assert(s.drop_last()[a] == s[a]);
        assert(s.drop_last()[b] == s[b]);
    }
}

/// Two sorted lists that store the same value under every key are the same list.
pub proof fn lemma_sorted_lookup_ext<V>(s: Seq<(Seq<char>, V)>, t: Seq<(Seq<char>, V)>)
    requires
        keys_sorted(s),
        keys_sorted(t),
        forall|k: Seq<char>| lookup(s, k) == lookup(t, k),
    ensures
        s == t,
    decreases s.len() + t.len(),
{
    if s.len() == 0 && t.len() == 0 {
        assert(s == t);
    } else if s.len() == 0 {
        assert(lookup(t, t.last().0) is Some);
        assert(lookup(s, t.last().0) is None);
    } else if t.len() == 0 {
        assert(lookup(s, s.last().0) is Some);
        assert(lookup(t, s.last().0) is None);
    } else {
        let a = s.last();
        let b = t.last();
        lemma_lookup_has_key(t, a.0);
        lemma_lookup_has_key(s, b.0);
        assert(lookup(t, a.0) is Some);
        assert(lookup(s, b.0) is Some);
        let i = choose|i: int| 0 <= i < t.len() && #[trigger] t[i].0 == a.0;
        let j = choose|j: int| 0 <= j < s.len() && #[trigger] s[j].0 == b.0;
        if a.0 != b.0 {
            // a.0 sits at i < last in t, so a.0 < b.0; b.0 sits at j < last in s, so b.0 < a.0
            assert(i != t.len() - 1);
            assert(j != s.len() - 1);
            assert(text_lt(t[i].0, t[t.len() - 1].0));
            assert(text_lt(s[j].0, s[s.len() - 1].0));
            lemma_text_lt_asymmetric(a.0, b.0);
            assert(false);
        }
        assert(lookup(s, a.0) == Some(a.1));
        assert(lookup(t, b.0) == Some(b.1));
        lemma_sorted_drop_last(s);
        lemma_sorted_drop_last(t);
        assert forall|k: Seq<char>| lookup(s.drop_last(), k) == lookup(t.drop_last(), k) by {
            if k == a.0 {
                lemma_lookup_has_key(s.drop_last(), k);
                lemma_lookup_has_key(t.drop_last(), k);
                if has_key(s.drop_last(), k) {
                    let x = choose|x: int| 0 <= x < s.drop_last().len() && #[trigger] s.drop_last()[x].0 == k;
                    assert(s[x].0 == k);
                    assert(text_lt(s[x].0, s[s.len() - 1].0));
                    lemma_text_lt_irreflexive(k);
                }
                if has_key(t.drop_last(), k) {
                    let x = choose|x: int| 0 <= x < t.drop_last().len() && #[trigger] t.drop_last()[x].0 == k;
                    assert(t[x].0 == k);
                    assert(text_lt(t[x].0, t[t.len() - 1].0));
                    lemma_text_lt_irreflexive(k);
                }
            } else {
                assert(lookup(s, k) == lookup(s.drop_last(), k));
                assert(lookup(t, k) == lookup(t.drop_last(), k));
            }
        }
        lemma_sorted_lookup_ext(s.drop_last(), t.drop_last());
        assert(s == s.drop_last().push(a));
        assert(t == t.drop_last().push(b));
    }
}

/// Inserting a new key at its place keeps the list sorted and changes only that key.
pub proof fn lemma_insert_sorted<V>(s: Seq<(Seq<char>, V)>, pos: int, k: Seq<char>, v: V)
    requires
        keys_sorted(s),
        0 <= pos <= s.len(),
        forall|j: int| 0 <= j < pos ==> text_lt(#[trigger] s[j].0, k),
        pos < s.len() ==> text_lt(k, s[pos].0),
    ensures
        keys_sorted(s.insert(pos, (k, v))),
        lookup(s.insert(pos, (k, v)), k) == Some(v),
        forall|k2: Seq<char>| k2 != k ==> lookup(s.insert(pos, (k, v)), k2) == lookup(s, k2),
        !has_key(s, k),
{
    let t = s.insert(pos, (k, v));
    assert forall|i: int, j: int| 0 <= i < j < t.len() implies text_lt(#[trigger] t[i].0, #[trigger] t[j].0) by {
        if j < pos {
            assert(t[i] == s[i] && t[j] == s[j]);
        } else if j == pos {
            assert(t[i] == s[i]);
        } else if i == pos {
            assert(t[j] == s[j - 1]);
            if j - 1 > pos {
                lemma_text_lt_transitive(k, s[pos].0, s[j - 1].0);
            }
        } else if i < pos {
            assert(t[i] == s[i] && t[j] == s[j - 1]);
        } else {
            assert(t[i] == s[i - 1] && t[j] == s[j - 1]);
        }
    }
    assert(t[pos] == (k, v));
    lemma_lookup_at(t, pos);
    assert(!has_key(s, k)) by {
        if has_key(s, k) {
            let i = choose|i: int| 0 <= i < s.len() && #[trigger] s[i].0 == k;
            lemma_text_lt_irreflexive(k);
            if i < pos {
            } else {
                if i > pos {
                    lemma_text_lt_transitive(k, s[pos].0, s[i].0);
                }
            }
        }
    }
    assert forall|k2: Seq<char>| k2 != k implies lookup(t, k2) == lookup(s, k2) by {
        lemma_lookup_has_key(s, k2);
        lemma_lookup_has_key(t, k2);
        if has_key(s, k2) {
            let i = choose|i: int| 0 <= i < s.len() && #[trigger] s[i].0 == k2;
            lemma_lookup_at(s, i);
            let i2 = if i < pos { i } else { i + 1 };
            assert(t[i2] == s[i]);
            lemma_lookup_at(t, i2);
        } else if has_key(t, k2) {
            let i = choose|i: int| 0 <= i < t.len() && #[trigger] t[i].0 == k2;
            if i < pos {
                assert(s[i] == t[i]);
            } else if i > pos {
                assert(s[i - 1] == t[i]);
            }
        }
    }
}

/// Replacing the value at `pos` keeps the list sorted and changes only that key.
pub proof fn lemma_update_sorted<V>(s: Seq<(Seq<char>, V)>, pos: int, v: V)
    requires
        keys_sorted(s),
        0 <= pos < s.len(),
    ensures
        keys_sorted(s.update(pos, (s[pos].0, v))),
        lookup(s.update(pos, (s[pos].0, v)), s[pos].0) == Some(v),
        forall|k2: Seq<char>| k2 != s[pos].0 ==> lookup(s.update(pos, (s[pos].0, v)), k2) == lookup(s, k2),
{
    let k = s[pos].0;
    let t = s.update(pos, (k, v));
    assert forall|i: int, j: int| 0 <= i < j < t.len() implies text_lt(#[trigger] t[i].0, #[trigger] t[j].0) by {
        assert(t[i].0 == s[i].0 && t[j].0 == s[j].0);
    }
    lemma_lookup_at(t, pos);
    assert forall|k2: Seq<char>| k2 != k implies lookup(t, k2) == lookup(s, k2) by {
        lemma_lookup_has_key(s, k2);
        lemma_lookup_has_key(t, k2);
        if has_key(s, k2) {
            let i = choose|i: int| 0 <= i < s.len() && #[trigger] s[i].0 == k2;
            lemma_lookup_at(s, i);
            assert(t[i] == s[i]);
            lemma_lookup_at(t, i);
        } else if has_key(t, k2) {
            let i = choose|i: int| 0 <= i < t.len() && #[trigger] t[i].0 == k2;
            assert(s[i] == t[i]);
        }
    }
}

/// The keys of a vector of text-keyed pairs.
pub open spec fn key_at<V>(s: Seq<(String, V)>, i: int) -> Seq<char> {
    s[i].0@
}

/// Where `key` is, or where it belongs, in a list sorted by key.
pub fn find_key<V>(entries: &Vec<(String, V)>, key: &[char]) -> (r: (bool, usize))
    requires
        forall|i: int, j: int| 0 <= i < j < entries@.len() ==>
            text_lt(#[trigger] key_at(entries@, i), #[trigger] key_at(entries@, j)),
    ensures
        r.1 <= entries@.len(),
        forall|j: int| 0 <= j < r.1 ==> text_lt(#[trigger] key_at(entries@, j), key@),
        r.0 ==> r.1 < entries@.len() && key_at(entries@, r.1 as int) == key@,
        !r.0 ==> (r.1 < entries@.len() ==> text_lt(key@, key_at(entries@, r.1 as int))),
{
    let mut i: usize = 0;
    while i < entries.len()
        invariant
            i <= entries@.len(),
            forall|j: int| 0 <= j < i ==> text_lt(#[trigger] key_at(entries@, j), key@),
        decreases entries.len() - i,
    {
        let k = chars_of(entries[i].0.as_str());
        match compare_text(k.as_slice(), key) {
            Order::Less => {},
            Order::Equal => {
                return (true, i);
            },
            Order::Greater => {
                proof {
                    lemma_text_lt_total(k@, key@);
                }
                return (false, i);
            },
        }
        i = i + 1;
    }
    (false, i)
}

} // verus!
