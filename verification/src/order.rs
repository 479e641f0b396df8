//! The order in which the store keeps its keys: byte by byte over the
//! UTF-8 encoding, shorter before longer on a common prefix. With it the
//! facts that carry statements about the text of a key over to its bytes
//! and back.

use vstd::prelude::*;
use vstd::utf8::{encode_scalar, encode_utf8};

verus! {

/// `a` sorts strictly before `b` when compared byte by byte.
pub open spec fn bytes_lt(a: Seq<u8>, b: Seq<u8>) -> bool
    decreases a.len(),
{
    if b.len() == 0 {
        false
    } else if a.len() == 0 {
        true
    } else if a[0] != b[0] {
        a[0] < b[0]
    } else {
        bytes_lt(a.skip(1), b.skip(1))
    }
}

/// The bytes a key is compared by.
pub open spec fn key_bytes(key: Seq<char>) -> Seq<u8> {
    encode_utf8(key)
}

/// `a` sorts strictly before `b` as a key of the store.
pub open spec fn key_lt(a: Seq<char>, b: Seq<char>) -> bool {
    bytes_lt(key_bytes(a), key_bytes(b))
}

/// Outcome of comparing two keys.
#[derive(Clone, Copy, Debug, PartialEq, Eq, Structural)]
pub enum KeyOrder {
    Less,
    Equal,
    Greater,
}

/// Nothing sorts before itself.
pub proof fn lemma_bytes_lt_irreflexive(a: Seq<u8>)
    ensures
        !bytes_lt(a, a),
    decreases a.len(),
{
    if a.len() > 0 {
        lemma_bytes_lt_irreflexive(a.skip(1));
    }
}

/// Of two byte strings at most one sorts before the other.
pub proof fn lemma_bytes_lt_asymmetric(a: Seq<u8>, b: Seq<u8>)
    requires
        bytes_lt(a, b),
    ensures
        !bytes_lt(b, a),
    decreases a.len(),
{
    if a.len() > 0 && b.len() > 0 && a[0] == b[0] {
        lemma_bytes_lt_asymmetric(a.skip(1), b.skip(1));
    }
}

/// What sorts before a byte string sorts before all that it sorts before.
pub proof fn lemma_bytes_lt_transitive(a: Seq<u8>, b: Seq<u8>, c: Seq<u8>)
    requires
        bytes_lt(a, b),
        bytes_lt(b, c),
    ensures
        bytes_lt(a, c),
    decreases a.len(),
{
    if a.len() > 0 && b.len() > 0 && c.len() > 0 && a[0] == b[0] && b[0] == c[0] {
        lemma_bytes_lt_transitive(a.skip(1), b.skip(1), c.skip(1));
    }
}

/// Two keys with the same bytes are the same key.
pub proof fn lemma_key_bytes_injective(a: Seq<char>, b: Seq<char>)
    requires
        key_bytes(a) == key_bytes(b),
    ensures
        a == b,
{
    vstd::utf8::encode_utf8_decode_utf8(a);
    vstd::utf8::encode_utf8_decode_utf8(b);
}

/// Dropping a common first part does not change how two byte strings compare.
proof fn lemma_bytes_lt_skip(a: Seq<u8>, b: Seq<u8>, n: int)
    requires
        0 <= n <= a.len(),
        n <= b.len(),
        a.take(n) == b.take(n),
    ensures
        bytes_lt(a, b) == bytes_lt(a.skip(n), b.skip(n)),
    decreases n,
{
    if n == 0 {
        assert(a.skip(0) =~= a);
        assert(b.skip(0) =~= b);
    } else {
        assert(a[0] == a.take(n)[0]);
        assert(b[0] == b.take(n)[0]);
        assert(a.skip(1).take(n - 1) =~= a.take(n).skip(1));
        assert(b.skip(1).take(n - 1) =~= b.take(n).skip(1));
        lemma_bytes_lt_skip(a.skip(1), b.skip(1), n - 1);
        assert(a.skip(1).skip(n - 1) =~= a.skip(n));
        assert(b.skip(1).skip(n - 1) =~= b.skip(n));
    }
}

/// Compares two byte strings in the order of the store.
pub fn compare_bytes(a: &[u8], b: &[u8]) -> (r: KeyOrder)
    ensures
        r == KeyOrder::Less <==> bytes_lt(a@, b@),
        r == KeyOrder::Equal <==> a@ == b@,
        r == KeyOrder::Greater <==> bytes_lt(b@, a@),
{
    let mut i: usize = 0;
    while i < a.len() && i < b.len()
        invariant
            i <= a@.len(),
            i <= b@.len(),
            a@.take(i as int) == b@.take(i as int),
        decreases a@.len() - i,
    {
        if a[i] != b[i] {
            proof {
                lemma_bytes_lt_skip(a@, b@, i as int);
                lemma_bytes_lt_skip(b@, a@, i as int);
                assert(a@.skip(i as int)[0] == a@[i as int]);
                assert(b@.skip(i as int)[0] == b@[i as int]);
            }
            if a[i] < b[i] {
                return KeyOrder::Less;
            } else {
                return KeyOrder::Greater;
            }
        }
        assert(a@.take(i + 1) =~= a@.take(i as int).push(a@[i as int]));
        assert(b@.take(i + 1) =~= b@.take(i as int).push(b@[i as int]));
        i += 1;
    }
    proof {
        lemma_bytes_lt_skip(a@, b@, i as int);
        lemma_bytes_lt_skip(b@, a@, i as int);
        lemma_bytes_lt_irreflexive(a@);
        if i == a@.len() && i == b@.len() {
            assert(a@ =~= a@.take(i as int));
            assert(b@ =~= b@.take(i as int));
        }
    }
    if i < b.len() {
        KeyOrder::Less
    } else if i < a.len() {
        KeyOrder::Greater
    } else {
        KeyOrder::Equal
    }
}

/// Whether `a` begins with `prefix`.
pub fn starts_with(a: &[u8], prefix: &[u8]) -> (r: bool)
    ensures
        r == prefix@.is_prefix_of(a@),
{
    if prefix.len() > a.len() {
        return false;
    }
    let mut i: usize = 0;
    while i < prefix.len()
        invariant
            prefix@.len() <= a@.len(),
            i <= prefix@.len(),
            prefix@.take(i as int) == a@.take(i as int),
        decreases prefix@.len() - i,
    {
        if a[i] != prefix[i] {
            assert(a@.subrange(0, prefix@.len() as int)[i as int] != prefix@[i as int]);
            return false;
        }
        assert(a@.take(i + 1) =~= a@.take(i as int).push(a@[i as int]));
        assert(prefix@.take(i + 1) =~= prefix@.take(i as int).push(prefix@[i as int]));
        i += 1;
    }
    assert(prefix@ =~= prefix@.take(i as int));
    assert(a@.subrange(0, prefix@.len() as int) =~= a@.take(i as int));
    true
}

/// The bytes of two texts put together are the bytes of the one followed
/// by the bytes of the other.
pub proof fn lemma_key_bytes_concat(a: Seq<char>, b: Seq<char>)
    ensures
        key_bytes(a + b) == key_bytes(a) + key_bytes(b),
    decreases a.len(),
{
    if a.len() == 0 {
        assert(a + b =~= b);
        assert(key_bytes(a) + key_bytes(b) =~= key_bytes(b));
    } else {
        lemma_key_bytes_concat(a.drop_first(), b);
        assert((a + b).drop_first() =~= a.drop_first() + b);
        assert((a + b)[0] == a[0]);
        assert(key_bytes(a + b) =~= key_bytes(a) + key_bytes(b));
    }
}

/// A text begins with another exactly when its bytes begin with the bytes
/// of the other.
pub proof fn lemma_prefix_bytes(p: Seq<char>, k: Seq<char>)
    ensures
        p.is_prefix_of(k) <==> key_bytes(p).is_prefix_of(key_bytes(k)),
    decreases p.len(),
{
    if p.is_prefix_of(k) {
        assert(k =~= p + k.skip(p.len() as int));
        lemma_key_bytes_concat(p, k.skip(p.len() as int));
        assert(key_bytes(p).is_prefix_of(key_bytes(p) + key_bytes(k.skip(p.len() as int))));
    }
    if key_bytes(p).is_prefix_of(key_bytes(k)) {
        if p.len() == 0 {
            assert(p.is_prefix_of(k));
        } else {
            let bp = key_bytes(p);
            let bk = key_bytes(k);
            vstd::utf8::encode_utf8_first_scalar(p);
            assert(bp.len() > 0);
            assert(k.len() > 0);
            vstd::utf8::encode_utf8_first_scalar(k);
            let n = vstd::utf8::length_of_first_scalar(bp);
            assert(n <= bp.len());
            assert(forall|i: int| 0 <= i < bp.len() ==> bp[i] == bk.subrange(0, bp.len() as int)[i]);
            assert(bp[0] == bk[0]);
            assert(vstd::utf8::decode_first_scalar(bp) == vstd::utf8::decode_first_scalar(bk));
            vstd::utf8::char_u32_cast(p[0], p[0] as u32);
            vstd::utf8::char_u32_cast(k[0], k[0] as u32);
            assert(p[0] == k[0]);
            let e = vstd::utf8::encode_scalar(p[0] as u32);
            assert(bp == e + key_bytes(p.drop_first()));
            assert(bk == e + key_bytes(k.drop_first()));
            let rp = key_bytes(p.drop_first());
            let rk = key_bytes(k.drop_first());
            assert(rp.is_prefix_of(rk)) by {
                assert(rp.len() <= rk.len());
                assert forall|i: int| 0 <= i < rp.len() implies rp[i] == rk[i] by {
                    assert(bp[e.len() + i] == rp[i]);
                    assert(bk[e.len() + i] == rk[i]);
                    assert(bk.subrange(0, bp.len() as int)[e.len() + i] == bk[e.len() + i]);
                }
                assert(rp =~= rk.subrange(0, rp.len() as int));
            }
            lemma_prefix_bytes(p.drop_first(), k.drop_first());
            assert(p.is_prefix_of(k)) by {
                let q = p.drop_first();
                let l = k.drop_first();
                assert(q =~= l.subrange(0, q.len() as int));
                assert forall|i: int| 0 <= i < p.len() implies p[i] == k[i] by {
                    if i > 0 {
                        assert(p[i] == q[i - 1]);
                        assert(k[i] == l[i - 1]);
                        assert(l.subrange(0, q.len() as int)[i - 1] == l[i - 1]);
                    }
                }
                assert(p =~= k.subrange(0, p.len() as int));
            }
        }
    }
}

/// The bytes of one character: the character itself where it is ASCII,
/// else two to four bytes that all have the top bit set.
pub proof fn lemma_char_bytes(c: char)
    ensures
        key_bytes(seq![c]) == encode_scalar(c as u32),
        (c as u32) < 0x80 ==> key_bytes(seq![c]) == seq![c as u8],
        (c as u32) >= 0x80 ==> key_bytes(seq![c]).len() >= 2 && forall|i: int|
            0 <= i < key_bytes(seq![c]).len() ==> #[trigger] key_bytes(seq![c])[i] >= 0x80,
{
    let v = c as u32;
    let s = seq![c];
    assert(s.drop_first() =~= Seq::<char>::empty());
    assert(encode_utf8(s.drop_first()) =~= Seq::<u8>::empty()) by {
        reveal_with_fuel(vstd::utf8::encode_utf8, 2);
    }
    assert(key_bytes(s) =~= encode_scalar(v)) by {
        reveal_with_fuel(vstd::utf8::encode_utf8, 2);
    }
    vstd::utf8::char_is_scalar(c);
    if v < 0x80 {
        assert((v & 0x7F) as u8 == v as u8) by (bit_vector)
            requires
                v < 0x80,
        ;
        assert(encode_scalar(v) =~= seq![c as u8]);
    } else {
        assert((0xC0u8 | ((v >> 6) & 0x1F) as u8) >= 0x80) by (bit_vector);
        assert((0xE0u8 | ((v >> 12) & 0x0F) as u8) >= 0x80) by (bit_vector);
        assert((0xF0u8 | ((v >> 18) & 0x7) as u8) >= 0x80) by (bit_vector);
        assert((0x80u8 | (v & 0x3F) as u8) >= 0x80) by (bit_vector);
        assert((0x80u8 | ((v >> 6) & 0x3F) as u8) >= 0x80) by (bit_vector);
        assert((0x80u8 | ((v >> 12) & 0x3F) as u8) >= 0x80) by (bit_vector);
    }
}

/// The bytes of a text with one more character at its end.
pub proof fn lemma_key_bytes_push(a: Seq<char>, c: char)
    ensures
        key_bytes(a.push(c)) == key_bytes(a) + key_bytes(seq![c]),
{
    assert(a.push(c) =~= a + seq![c]);
    lemma_key_bytes_concat(a, seq![c]);
}

/// A character is its code: ASCII characters have the codes below 128,
/// and `/` has the code 47.
pub proof fn lemma_char_code(c: char)
    ensures
        '\0' <= c,
        (c as u32) < 0x80 <==> c <= '\u{7f}',
        (c as u32) < 0x80 ==> (c as u8) as u32 == c as u32,
        c as u32 == 0x2f <==> c == '/',
{
}

} // verus!
