//! The mathematical model of a store: a snapshot is a sequence of
//! `(key, version, value)` triples, and the store it stands for is the map
//! that the triples build when they are applied in order.

use vstd::prelude::*;
use crate::order::{key_bytes, key_lt, bytes_lt};
use crate::order::{lemma_bytes_lt_irreflexive, lemma_bytes_lt_transitive, lemma_key_bytes_injective};

verus! {

/// One record of a snapshot: key, version, value.
pub type Triple = (Seq<char>, u64, Seq<u8>);

/// What a store holds: for each key its version and value.
pub type Contents = Map<Seq<char>, (u64, Seq<u8>)>;

/// The store that a snapshot stands for. A later triple replaces an
/// earlier one with the same key.
pub open spec fn map_of(s: Seq<Triple>) -> Contents
    decreases s.len(),
{
    if s.len() == 0 {
        Map::empty()
    } else {
        map_of(s.drop_last()).insert(s.last().0, (s.last().1, s.last().2))
    }
}

/// The keys of a snapshot come in strictly increasing order.
pub open spec fn sorted(s: Seq<Triple>) -> bool {
    forall|i: int, j: int| 0 <= i < j < s.len() ==> key_lt(#[trigger] s[i].0, #[trigger] s[j].0)
}

/// Some triple of the snapshot has the key `k`.
pub open spec fn has_key(s: Seq<Triple>, k: Seq<char>) -> bool {
    exists|i: int| 0 <= i < s.len() && (#[trigger] s[i]).0 == k
}

/// Some triple of the snapshot has a key whose bytes are `b`.
pub open spec fn has_key_bytes(s: Seq<Triple>, b: Seq<u8>) -> bool {
    exists|i: int| 0 <= i < s.len() && key_bytes((#[trigger] s[i]).0) == b
}

/// The keys of a map are exactly the keys of the snapshot it was built from.
pub proof fn lemma_map_of_keys(s: Seq<Triple>)
    ensures
        forall|k: Seq<char>| #[trigger] map_of(s).contains_key(k) <==> has_key(s, k),
        map_of(s).dom().finite(),
    decreases s.len(),
{
    if s.len() == 0 {
        assert forall|k: Seq<char>| #[trigger] map_of(s).contains_key(k) <==> has_key(s, k) by {}
    } else {
        let t = s.drop_last();
        lemma_map_of_keys(t);
        assert forall|k: Seq<char>| #[trigger] map_of(s).contains_key(k) <==> has_key(s, k) by {
            if map_of(s).contains_key(k) {
                if k == s.last().0 {
                    assert(s[s.len() - 1].0 == k);
                } else {
                    assert(map_of(t).contains_key(k));
                    assert(has_key(t, k));
                    let i = choose|i: int| 0 <= i < t.len() && (#[trigger] t[i]).0 == k;
                    assert(s[i].0 == k);
                }
            }
            if has_key(s, k) {
                let i = choose|i: int| 0 <= i < s.len() && (#[trigger] s[i]).0 == k;
                if i < s.len() - 1 {
                    assert(t[i].0 == k);
                    assert(has_key(t, k));
                }
            }
        }
    }
}

/// In a sorted snapshot no key occurs twice.
pub proof fn lemma_sorted_distinct(s: Seq<Triple>)
    requires
        sorted(s),
    ensures
        forall|i: int, j: int|
            0 <= i < s.len() && 0 <= j < s.len() && i != j ==> (#[trigger] s[i]).0 != (#[trigger] s[j]).0,
{
    assert forall|i: int, j: int|
        0 <= i < s.len() && 0 <= j < s.len() && i != j implies (#[trigger] s[i]).0 != (#[trigger] s[j]).0 by {
        lemma_bytes_lt_irreflexive(key_bytes(s[i].0));
        if i < j {
            assert(key_lt(s[i].0, s[j].0));
        } else {
            assert(key_lt(s[j].0, s[i].0));
        }
    }
}

/// In a sorted snapshot each triple is what the map holds under its key.
pub proof fn lemma_map_of_entry(s: Seq<Triple>, i: int)
    requires
        sorted(s),
        0 <= i < s.len(),
    ensures
        map_of(s).contains_key(s[i].0),
        map_of(s)[s[i].0] == (s[i].1, s[i].2),
    decreases s.len(),
{
    lemma_sorted_distinct(s);
    if i < s.len() - 1 {
        let t = s.drop_last();
        assert(sorted(t)) by {
            assert forall|a: int, b: int| 0 <= a < b < t.len() implies key_lt(
                #[trigger] t[a].0,
                #[trigger] t[b].0,
            ) by {
                assert(key_lt(s[a].0, s[b].0));
            }
        }
        lemma_map_of_entry(t, i);
        assert(t[i] == s[i]);
        assert(s[s.len() - 1].0 != s[i].0);
    }
}

/// A sorted snapshot stands for the map `m` when `m` has exactly its keys
/// and holds each triple under its key.
pub proof fn lemma_map_of_is(s: Seq<Triple>, m: Contents)
    requires
        sorted(s),
        forall|k: Seq<char>| #[trigger] m.contains_key(k) <==> has_key(s, k),
        forall|i: int| 0 <= i < s.len() ==> m[(#[trigger] s[i]).0] == (s[i].1, s[i].2),
    ensures
        map_of(s) == m,
{
    lemma_map_of_keys(s);
    assert forall|k: Seq<char>| map_of(s).contains_key(k) implies #[trigger] map_of(s)[k] == m[k] by {
        assert(has_key(s, k));
        let i = choose|i: int| 0 <= i < s.len() && (#[trigger] s[i]).0 == k;
        lemma_map_of_entry(s, i);
    }
    assert(map_of(s) =~= m);
}

/// A key of a sorted snapshot is found by its bytes.
pub proof fn lemma_has_key_bytes(s: Seq<Triple>, k: Seq<char>)
    ensures
        has_key(s, k) <==> has_key_bytes(s, key_bytes(k)),
{
    if has_key(s, k) {
        let i = choose|i: int| 0 <= i < s.len() && (#[trigger] s[i]).0 == k;
        assert(key_bytes(s[i].0) == key_bytes(k));
    }
    if has_key_bytes(s, key_bytes(k)) {
        let i = choose|i: int| 0 <= i < s.len() && key_bytes((#[trigger] s[i]).0) == key_bytes(k);
        lemma_key_bytes_injective(s[i].0, k);
        assert(s[i].0 == k);
    }
}

/// Putting a new key at its place keeps the snapshot sorted and adds the
/// key to the map.
pub proof fn lemma_insert(s: Seq<Triple>, pos: int, e: Triple)
    requires
        sorted(s),
        0 <= pos <= s.len(),
        forall|i: int| 0 <= i < pos ==> key_lt((#[trigger] s[i]).0, e.0),
        forall|i: int| pos <= i < s.len() ==> key_lt(e.0, (#[trigger] s[i]).0),
    ensures
        sorted(s.insert(pos, e)),
        !map_of(s).contains_key(e.0),
        map_of(s.insert(pos, e)) == map_of(s).insert(e.0, (e.1, e.2)),
{
    let t = s.insert(pos, e);
    assert forall|i: int, j: int| 0 <= i < j < t.len() implies key_lt(
        #[trigger] t[i].0,
        #[trigger] t[j].0,
    ) by {
        if j < pos {
            assert(key_lt(s[i].0, s[j].0));
        } else if j == pos {
            assert(key_lt(s[i].0, e.0));
        } else if i < pos {
            assert(key_lt(s[i].0, s[j - 1].0));
        } else if i == pos {
            assert(key_lt(e.0, s[j - 1].0));
        } else {
            assert(key_lt(s[i - 1].0, s[j - 1].0));
        }
    }
    lemma_map_of_keys(s);
    if map_of(s).contains_key(e.0) {
        let i = choose|i: int| 0 <= i < s.len() && (#[trigger] s[i]).0 == e.0;
        lemma_bytes_lt_irreflexive(key_bytes(e.0));
        if i < pos {
            assert(key_lt(s[i].0, e.0));
        } else {
            assert(key_lt(e.0, s[i].0));
        }
    }
    let m = map_of(s).insert(e.0, (e.1, e.2));
    assert forall|k: Seq<char>| #[trigger] m.contains_key(k) <==> has_key(t, k) by {
        if m.contains_key(k) {
            if k == e.0 {
                assert(t[pos].0 == k);
            } else {
                let i = choose|i: int| 0 <= i < s.len() && (#[trigger] s[i]).0 == k;
                if i < pos {
                    assert(t[i].0 == k);
                } else {
                    assert(t[i + 1].0 == k);
                }
            }
        }
        if has_key(t, k) {
            let i = choose|i: int| 0 <= i < t.len() && (#[trigger] t[i]).0 == k;
            if i < pos {
                assert(s[i].0 == k);
            } else if i > pos {
                assert(s[i - 1].0 == k);
            }
        }
    }
    assert forall|i: int| 0 <= i < t.len() implies m[(#[trigger] t[i]).0] == (t[i].1, t[i].2) by {
        if i < pos {
            lemma_map_of_entry(s, i);
        } else if i > pos {
            lemma_map_of_entry(s, i - 1);
        }
    }
    lemma_map_of_is(t, m);
}

/// Replacing version and value of a triple keeps the snapshot sorted and
/// replaces what the map holds under its key.
pub proof fn lemma_update(s: Seq<Triple>, pos: int, e: Triple)
    requires
        sorted(s),
        0 <= pos < s.len(),
        e.0 == s[pos].0,
    ensures
        sorted(s.update(pos, e)),
        map_of(s).contains_key(e.0),
        map_of(s.update(pos, e)) == map_of(s).insert(e.0, (e.1, e.2)),
{
    let t = s.update(pos, e);
    assert forall|i: int, j: int| 0 <= i < j < t.len() implies key_lt(
        #[trigger] t[i].0,
        #[trigger] t[j].0,
    ) by {
        assert(key_lt(s[i].0, s[j].0));
    }
    lemma_map_of_keys(s);
    lemma_map_of_entry(s, pos);
    lemma_sorted_distinct(s);
    let m = map_of(s).insert(e.0, (e.1, e.2));
    assert forall|k: Seq<char>| #[trigger] m.contains_key(k) <==> has_key(t, k) by {
        if m.contains_key(k) {
            if k == e.0 {
                assert(t[pos].0 == k);
            } else {
                let i = choose|i: int| 0 <= i < s.len() && (#[trigger] s[i]).0 == k;
                assert(t[i].0 == k);
            }
        }
        if has_key(t, k) {
            let i = choose|i: int| 0 <= i < t.len() && (#[trigger] t[i]).0 == k;
            assert(s[i].0 == k);
        }
    }
    assert forall|i: int| 0 <= i < t.len() implies m[(#[trigger] t[i]).0] == (t[i].1, t[i].2) by {
        if i != pos {
            lemma_map_of_entry(s, i);
            assert(s[i].0 != s[pos].0);
        }
    }
    lemma_map_of_is(t, m);
}

/// Taking a triple out keeps the snapshot sorted and removes its key from
/// the map.
pub proof fn lemma_remove(s: Seq<Triple>, pos: int)
    requires
        sorted(s),
        0 <= pos < s.len(),
    ensures
        sorted(s.remove(pos)),
        map_of(s.remove(pos)) == map_of(s).remove(s[pos].0),
{
    let t = s.remove(pos);
    assert forall|i: int, j: int| 0 <= i < j < t.len() implies key_lt(
        #[trigger] t[i].0,
        #[trigger] t[j].0,
    ) by {
        let a = if i < pos { i } else { i + 1 };
        let b = if j < pos { j } else { j + 1 };
        assert(key_lt(s[a].0, s[b].0));
    }
    lemma_map_of_keys(s);
    lemma_sorted_distinct(s);
    let m = map_of(s).remove(s[pos].0);
    assert forall|k: Seq<char>| #[trigger] m.contains_key(k) <==> has_key(t, k) by {
        if m.contains_key(k) {
            let i = choose|i: int| 0 <= i < s.len() && (#[trigger] s[i]).0 == k;
            if i < pos {
                assert(t[i].0 == k);
            } else {
                assert(t[i - 1].0 == k);
            }
        }
        if has_key(t, k) {
            let i = choose|i: int| 0 <= i < t.len() && (#[trigger] t[i]).0 == k;
            let a = if i < pos { i } else { i + 1 };
            assert(s[a].0 == k);
            assert(s[a].0 != s[pos].0);
        }
    }
    assert forall|i: int| 0 <= i < t.len() implies m[(#[trigger] t[i]).0] == (t[i].1, t[i].2) by {
        let a = if i < pos { i } else { i + 1 };
        lemma_map_of_entry(s, a);
        assert(s[a].0 != s[pos].0);
    }
    lemma_map_of_is(t, m);
}

/// Between two keys of a sorted snapshot, order follows position.
pub proof fn lemma_sorted_before(s: Seq<Triple>, i: int, j: int, b: Seq<u8>)
    requires
        sorted(s),
        0 <= i <= j < s.len(),
        bytes_lt(key_bytes(s[j].0), b),
    ensures
        bytes_lt(key_bytes(s[i].0), b),
{
    if i < j {
        assert(key_lt(s[i].0, s[j].0));
        lemma_bytes_lt_transitive(key_bytes(s[i].0), key_bytes(s[j].0), b);
    }
}

/// Between two keys of a sorted snapshot, order follows position.
pub proof fn lemma_sorted_after(s: Seq<Triple>, i: int, j: int, b: Seq<u8>)
    requires
        sorted(s),
        0 <= i <= j < s.len(),
        bytes_lt(b, key_bytes(s[i].0)),
    ensures
        bytes_lt(b, key_bytes(s[j].0)),
{
    if i < j {
        assert(key_lt(s[i].0, s[j].0));
        lemma_bytes_lt_transitive(b, key_bytes(s[i].0), key_bytes(s[j].0));
    }
}

/// A prefix of a sorted snapshot is sorted.
pub proof fn lemma_sorted_take(s: Seq<Triple>, n: int)
    requires
        sorted(s),
        0 <= n <= s.len(),
    ensures
        sorted(s.take(n)),
{
    let t = s.take(n);
    assert forall|a: int, b: int| 0 <= a < b < t.len() implies key_lt(
        #[trigger] t[a].0,
        #[trigger] t[b].0,
    ) by {
        assert(key_lt(s[a].0, s[b].0));
    }
}

/// A sorted snapshot has as many triples as its map has keys.
pub proof fn lemma_map_of_len(s: Seq<Triple>)
    requires
        sorted(s),
    ensures
        map_of(s).dom().finite(),
        map_of(s).dom().len() == s.len(),
    decreases s.len(),
{
    lemma_map_of_keys(s);
    if s.len() > 0 {
        let t = s.drop_last();
        lemma_sorted_take(s, s.len() - 1);
        assert(t =~= s.take(s.len() - 1));
        lemma_map_of_len(t);
        lemma_map_of_keys(t);
        lemma_sorted_distinct(s);
        if has_key(t, s.last().0) {
            let i = choose|i: int| 0 <= i < t.len() && (#[trigger] t[i]).0 == s.last().0;
            assert(s[i].0 == s[s.len() - 1].0);
        }
        assert(map_of(s).dom() =~= map_of(t).dom().insert(s.last().0));
    } else {
        assert(map_of(s).dom() =~= Set::<Seq<char>>::empty());
    }
}

} // verus!
