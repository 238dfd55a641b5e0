//! Byte strings: their order, their equality, and the fixed-width integers written in them.
use vstd::prelude::*;

verus! {

/// How two byte strings compare in lexicographic order.
#[derive(Clone, Copy, PartialEq, Eq, Structural, Debug)]
pub enum Order {
    Less,
    Equal,
    Greater,
}

/// Whether `a` and `b` agree on their first `n` bytes.
pub open spec fn agree(a: Seq<u8>, b: Seq<u8>, n: int) -> bool {
    forall|i: int| 0 <= i < n ==> a[i] == b[i]
}

/// Whether `a` and `b` first part at `n`, with `a` the smaller one there.
pub open spec fn parts_below(a: Seq<u8>, b: Seq<u8>, n: int) -> bool {
    &&& 0 <= n <= a.len()
    &&& n < b.len()
    &&& agree(a, b, n)
    &&& (n == a.len() || a[n] < b[n])
}

/// Lexicographic order on byte strings: `a` is a proper prefix of `b`, or holds the smaller byte
/// at the first place where they differ.
pub open spec fn lex_lt(a: Seq<u8>, b: Seq<u8>) -> bool {
    exists|n: int| parts_below(a, b, n)
}

/// Whether a list of byte strings is strictly ascending in lexicographic order.
pub open spec fn ascending(keys: Seq<Seq<u8>>) -> bool {
    forall|i: int, j: int| 0 <= i < j < keys.len() ==> #[trigger] lex_lt(keys[i], keys[j])
}

/// No byte string is below itself.
pub proof fn lemma_lex_irreflexive(a: Seq<u8>)
    ensures
        !lex_lt(a, a),
{
}

/// Two byte strings are never each below the other.
pub proof fn lemma_lex_asymmetric(a: Seq<u8>, b: Seq<u8>)
    requires
        lex_lt(a, b),
    ensures
        !lex_lt(b, a),
{
    let n = choose|n: int| parts_below(a, b, n);
    if lex_lt(b, a) {
        let m = choose|m: int| parts_below(b, a, m);
        if n < m {
            assert(a[n] == b[n]);
        } else if m < n {
            assert(a[m] == b[m]);
        }
    }
}

/// Lexicographic order is transitive.
pub proof fn lemma_lex_transitive(a: Seq<u8>, b: Seq<u8>, c: Seq<u8>)
    requires
        lex_lt(a, b),
        lex_lt(b, c),
    ensures
        lex_lt(a, c),
{
    let n = choose|n: int| parts_below(a, b, n);
    let m = choose|m: int| parts_below(b, c, m);
    let k = if n < m {
        n
    } else {
        m
    };
    assert(parts_below(a, c, k));
}

/// Of two different byte strings one is below the other.
pub proof fn lemma_lex_total(a: Seq<u8>, b: Seq<u8>)
    ensures
        lex_lt(a, b) || a == b || lex_lt(b, a),
{
    lemma_lex_total_from(a, b, 0);
}

proof fn lemma_lex_total_from(a: Seq<u8>, b: Seq<u8>, n: int)
    requires
        0 <= n <= a.len(),
        n <= b.len(),
        agree(a, b, n),
    ensures
        lex_lt(a, b) || a == b || lex_lt(b, a),
    decreases a.len() - n,
{
    if n == a.len() && n == b.len() {
        assert(a =~= b);
    } else if n == a.len() || n < b.len() && a[n] < b[n] {
        assert(parts_below(a, b, n));
    } else if n == b.len() || b[n] < a[n] {
        assert(parts_below(b, a, n));
    } else {
        lemma_lex_total_from(a, b, n + 1);
    }
}

/// A list that is strictly ascending holds no byte string twice.
pub proof fn lemma_ascending_distinct(keys: Seq<Seq<u8>>)
    requires
        ascending(keys),
    ensures
        keys.no_duplicates(),
{
    assert forall|i: int, j: int| 0 <= i < j < keys.len() implies keys[i] != keys[j] by {
        assert(lex_lt(keys[i], keys[j]));
        lemma_lex_irreflexive(keys[i]);
    }
}

/// Ascending lists of the same byte strings are the same list.
pub proof fn lemma_ascending_unique(a: Seq<Seq<u8>>, b: Seq<Seq<u8>>)
    requires
        ascending(a),
        ascending(b),
        forall|key: Seq<u8>| #[trigger] a.contains(key) <==> b.contains(key),
    ensures
        a == b,
    decreases a.len(),
{
    if a.len() == 0 {
        if b.len() > 0 {
            assert(b.contains(b[0]));
            assert(a.contains(b[0]));
        }
        assert(a =~= b);
    } else {
        let last = a.last();
        assert(a.contains(last));
        assert(b.contains(last));
        let top = b.last();
        assert(b.contains(top));
        assert(a.contains(top));
        lemma_last_is_greatest(a, top);
        lemma_last_is_greatest(b, last);
        if last != top {
            lemma_lex_asymmetric(last, top);
        }
        let c = a.drop_last();
        let d = b.drop_last();
        assert(ascending(c)) by {
            assert forall|i: int, j: int| 0 <= i < j < c.len() implies #[trigger] lex_lt(c[i], c[j]) by {
                assert(lex_lt(a[i], a[j]));
            }
        }
        assert(ascending(d)) by {
            assert forall|i: int, j: int| 0 <= i < j < d.len() implies #[trigger] lex_lt(d[i], d[j]) by {
                assert(lex_lt(b[i], b[j]));
            }
        }
        assert forall|key: Seq<u8>| #[trigger] c.contains(key) <==> d.contains(key) by {
            lemma_contains_but_last(a, key);
            lemma_contains_but_last(b, key);
            assert(a.contains(key) <==> b.contains(key));
        }
        lemma_ascending_unique(c, d);
        assert(a =~= c.push(last));
        assert(b =~= d.push(last));
    }
}

/// The last byte string of an ascending list is above the others.
proof fn lemma_last_is_greatest(keys: Seq<Seq<u8>>, key: Seq<u8>)
    requires
        ascending(keys),
        keys.contains(key),
    ensures
        key == keys.last() || lex_lt(key, keys.last()),
{
    let i = choose|i: int| 0 <= i < keys.len() && keys[i] == key;
    if i < keys.len() - 1 {
        assert(lex_lt(keys[i], keys[keys.len() - 1]));
    }
}

/// An ascending list without its last byte string holds the others.
proof fn lemma_contains_but_last(keys: Seq<Seq<u8>>, key: Seq<u8>)
    requires
        ascending(keys),
        keys.len() > 0,
    ensures
        keys.drop_last().contains(key) <==> keys.contains(key) && key != keys.last(),
{
    let rest = keys.drop_last();
    if rest.contains(key) {
        let i = choose|i: int| 0 <= i < rest.len() && rest[i] == key;
        assert(keys[i] == key);
        assert(lex_lt(keys[i], keys[keys.len() - 1]));
        lemma_lex_irreflexive(key);
    }
    if keys.contains(key) && key != keys.last() {
        let i = choose|i: int| 0 <= i < keys.len() && keys[i] == key;
        assert(rest[i] == key);
    }
}

/// Two byte strings under one prefix compare as what follows the prefix.
pub proof fn lemma_lex_same_prefix(prefix: Seq<u8>, a: Seq<u8>, b: Seq<u8>)
    requires
        lex_lt(a, b),
    ensures
        lex_lt(prefix + a, prefix + b),
{
    let n = choose|n: int| parts_below(a, b, n);
    let m = prefix.len() + n;
    assert forall|i: int| 0 <= i < m implies (prefix + a)[i] == (prefix + b)[i] by {
        if i >= prefix.len() {
            assert(a[i - prefix.len()] == b[i - prefix.len()]);
        }
    }
    assert(parts_below(prefix + a, prefix + b, m));
}

/// Where two prefixes of one length are in order, so are the byte strings that they start.
pub proof fn lemma_lex_lower_prefix(p: Seq<u8>, a: Seq<u8>, q: Seq<u8>, b: Seq<u8>)
    requires
        p.len() == q.len(),
        lex_lt(p, q),
    ensures
        lex_lt(p + a, q + b),
{
    let n = choose|n: int| parts_below(p, q, n);
    assert(parts_below(p + a, q + b, n));
}

/// Compares two byte strings lexicographically.
pub fn lex_order(a: &[u8], b: &[u8]) -> (order: Order)
    ensures
        match order {
            Order::Less => lex_lt(a@, b@),
            Order::Equal => a@ == b@,
            Order::Greater => lex_lt(b@, a@),
        },
{
    let mut i: usize = 0;
    while i < a.len() && i < b.len()
        invariant
            i <= a@.len(),
            i <= b@.len(),
            agree(a@, b@, i as int),
        decreases a@.len() - i,
    {
        if a[i] < b[i] {
            assert(parts_below(a@, b@, i as int));
            return Order::Less;
        }
        if b[i] < a[i] {
            assert(parts_below(b@, a@, i as int));
            return Order::Greater;
        }
        i += 1;
    }
    if a.len() == b.len() {
        assert(a@ =~= b@);
        Order::Equal
    } else if a.len() < b.len() {
        assert(parts_below(a@, b@, i as int));
        Order::Less
    } else {
        assert(parts_below(b@, a@, i as int));
        Order::Greater
    }
}

/// Whether two byte strings are the same.
pub fn bytes_equal(a: &[u8], b: &[u8]) -> (equal: bool)
    ensures
        equal == (a@ == b@),
{
    if a.len() != b.len() {
        return false;
    }
    let mut i: usize = 0;
    while i < a.len()
        invariant
            i <= a@.len(),
            a@.len() == b@.len(),
            agree(a@, b@, i as int),
        decreases a@.len() - i,
    {
        if a[i] != b[i] {
            return false;
        }
        i += 1;
    }
    assert(a@ =~= b@);
    true
}

/// A copy of a byte string.
pub fn to_bytes(bytes: &[u8]) -> (copy: Vec<u8>)
    ensures
        copy@ == bytes@,
{
    let mut copy: Vec<u8> = Vec::new();
    copy.extend_from_slice(bytes);
    assert(copy@ =~= bytes@);
    copy
}

/// The four bytes of `x`, the most significant one first.
pub open spec fn be_bytes(x: u32) -> Seq<u8> {
    seq![
        (x / 0x100_0000) as u8,
        (x / 0x1_0000 % 0x100) as u8,
        (x / 0x100 % 0x100) as u8,
        (x % 0x100) as u8,
    ]
}

/// The four bytes of `x`, the least significant one first.
pub open spec fn le_bytes(x: u32) -> Seq<u8> {
    seq![
        (x % 0x100) as u8,
        (x / 0x100 % 0x100) as u8,
        (x / 0x1_0000 % 0x100) as u8,
        (x / 0x100_0000) as u8,
    ]
}

/// The four bytes of an integer, the most significant one first, have its value.
pub proof fn lemma_be_bytes_value(x: u32)
    ensures
        be_bytes(x).len() == 4,
        x == 0x100_0000 * be_bytes(x)[0] + 0x1_0000 * be_bytes(x)[1] + 0x100 * be_bytes(x)[2]
            + be_bytes(x)[3],
{
    let high = x / 0x1_0000;
    let low = x % 0x1_0000;
    assert(x / 0x100_0000 == high / 0x100);
    assert(x / 0x1_0000 % 0x100 == high % 0x100);
    assert(x / 0x100 % 0x100 == low / 0x100);
    assert(x % 0x100 == low % 0x100);
}

/// Big-endian bytes compare as the integers that they stand for.
pub proof fn lemma_be_bytes_ordered(x: u32, y: u32)
    requires
        x < y,
    ensures
        lex_lt(be_bytes(x), be_bytes(y)),
{
    let a = be_bytes(x);
    let b = be_bytes(y);
    lemma_be_bytes_value(x);
    lemma_be_bytes_value(y);
    let n: int = if a[0] != b[0] {
        0
    } else if a[1] != b[1] {
        1
    } else if a[2] != b[2] {
        2
    } else {
        3
    };
    assert(a[n] < b[n]);
    assert(parts_below(a, b, n));
}

/// The four big-endian bytes of an integer.
pub fn to_be_bytes(x: u32) -> (bytes: Vec<u8>)
    ensures
        bytes@ == be_bytes(x),
{
    let mut bytes: Vec<u8> = Vec::with_capacity(4);
    bytes.push((x / 0x100_0000) as u8);
    bytes.push((x / 0x1_0000 % 0x100) as u8);
    bytes.push((x / 0x100 % 0x100) as u8);
    bytes.push((x % 0x100) as u8);
    assert(bytes@ =~= be_bytes(x));
    bytes
}

/// Appends the four little-endian bytes of an integer.
pub fn push_le_bytes(bytes: &mut Vec<u8>, x: u32)
    ensures
        final(bytes)@ == old(bytes)@ + le_bytes(x),
{
    bytes.push((x % 0x100) as u8);
    bytes.push((x / 0x100 % 0x100) as u8);
    bytes.push((x / 0x1_0000 % 0x100) as u8);
    bytes.push((x / 0x100_0000) as u8);
    assert(bytes@ =~= old(bytes)@ + le_bytes(x));
}

/// The integer whose little-endian bytes these four are.
pub open spec fn le_value(b0: u8, b1: u8, b2: u8, b3: u8) -> u32 {
    (b0 + 0x100 * b1 + 0x1_0000 * b2 + 0x100_0000 * b3) as u32
}

/// Reading back the four little-endian bytes of an integer gives the integer.
pub proof fn lemma_le_value_of_le_bytes(x: u32)
    ensures
        le_value(le_bytes(x)[0], le_bytes(x)[1], le_bytes(x)[2], le_bytes(x)[3]) == x,
{
}

/// Reads the little-endian integer at an offset.
pub fn le_value_at(bytes: &[u8], at: usize) -> (x: u32)
    requires
        at + 4 <= bytes@.len(),
    ensures
        x == le_value(bytes@[at as int], bytes@[at + 1], bytes@[at + 2], bytes@[at + 3]),
{
    bytes[at] as u32 + 0x100 * (bytes[at + 1] as u32) + 0x1_0000 * (bytes[at + 2] as u32)
        + 0x100_0000 * (bytes[at + 3] as u32)
}

/// Of two byte strings that agree up to a place, the one with the smaller byte there, or that ends
/// there, is below the other.
pub proof fn lemma_lex_decided(a: Seq<u8>, b: Seq<u8>, n: int)
    requires
        0 <= n <= a.len(),
        n < b.len(),
        forall|i: int| 0 <= i < n ==> a[i] == b[i],
        n < a.len() ==> a[n] < b[n],
    ensures
        lex_lt(a, b),
        !lex_lt(b, a),
{
    assert(parts_below(a, b, n));
    lemma_lex_asymmetric(a, b);
}

} // verus!
