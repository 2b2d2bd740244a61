//! The order of keys: byte strings compared byte by byte, a proper prefix first.
use vstd::prelude::*;

verus! {

/// Whether `a` comes before `b`.
pub open spec fn key_less(a: Seq<u8>, b: Seq<u8>) -> bool
    decreases a.len(),
{
    if b.len() == 0 {
        false
    } else if a.len() == 0 {
        true
    } else if a[0] != b[0] {
        a[0] < b[0]
    } else {
        key_less(a.drop_first(), b.drop_first())
    }
}

/// Whether `a` comes before `b` or is `b`.
pub open spec fn key_at_most(a: Seq<u8>, b: Seq<u8>) -> bool {
    !key_less(b, a)
}

/// Whether `key` lies in the range from `start` up to, not including, `end`.
pub open spec fn key_in_range(key: Seq<u8>, start: Seq<u8>, end: Seq<u8>) -> bool {
    key_at_most(start, key) && key_less(key, end)
}

/// Law: no key comes before itself.
pub proof fn law_key_less_irreflexive(a: Seq<u8>)
    ensures
        !key_less(a, a),
    decreases a.len(),
{
    if a.len() > 0 {
        law_key_less_irreflexive(a.drop_first());
    }
}

/// Law: of two different keys exactly one comes before the other.
pub proof fn law_key_less_total(a: Seq<u8>, b: Seq<u8>)
    ensures
        a != b <==> (key_less(a, b) || key_less(b, a)),
        !(key_less(a, b) && key_less(b, a)),
    decreases a.len(),
{
    if a.len() == 0 || b.len() == 0 {
        if a.len() == b.len() {
            assert(a =~= b);
        }
    } else {
        law_key_less_total(a.drop_first(), b.drop_first());
        if a[0] == b[0] && a.drop_first() == b.drop_first() {
            assert(a =~= seq![a[0]] + a.drop_first());
            assert(b =~= seq![b[0]] + b.drop_first());
        }
    }
}

/// Law: the order is transitive.
pub proof fn law_key_less_transitive(a: Seq<u8>, b: Seq<u8>, c: Seq<u8>)
    requires
        key_less(a, b),
        key_less(b, c),
    ensures
        key_less(a, c),
    decreases a.len(),
{
    if a.len() > 0 && b.len() > 0 && c.len() > 0 && a[0] == b[0] && b[0] == c[0] {
        law_key_less_transitive(a.drop_first(), b.drop_first(), c.drop_first());
    }
}

/// A common prefix has no say in the order.
proof fn lemma_key_less_skip(a: Seq<u8>, b: Seq<u8>, n: nat)
    requires
        n <= a.len(),
        n <= b.len(),
        a.take(n as int) == b.take(n as int),
    ensures
        key_less(a, b) == key_less(a.skip(n as int), b.skip(n as int)),
    decreases n,
{
    if n == 0 {
        assert(a.skip(0) =~= a);
        assert(b.skip(0) =~= b);
    } else {
        let m = (n - 1) as int;
        assert(a[0] == a.take(n as int)[0] && b[0] == b.take(n as int)[0]);
        assert(a.drop_first().take(m) =~= a.take(n as int).drop_first());
        assert(b.drop_first().take(m) =~= b.take(n as int).drop_first());
        lemma_key_less_skip(a.drop_first(), b.drop_first(), m as nat);
        assert(a.drop_first().skip(m) =~= a.skip(n as int));
        assert(b.drop_first().skip(m) =~= b.skip(n as int));
    }
}

/// Whether `a` comes before `b`.
pub fn less(a: &[u8], b: &[u8]) -> (r: bool)
    ensures
        r == key_less(a@, b@),
{
    let mut i: usize = 0;
    while i < a.len() && i < b.len() && a[i] == b[i]
        invariant
            i <= a.len(),
            i <= b.len(),
            a@.take(i as int) == b@.take(i as int),
        decreases a.len() - i,
    {
        assert(a@.take(i + 1) =~= a@.take(i as int).push(a@[i as int]));
        assert(b@.take(i + 1) =~= b@.take(i as int).push(b@[i as int]));
        i = i + 1;
    }
    proof {
        lemma_key_less_skip(a@, b@, i as nat);
    }
    if i == b.len() {
        false
    } else if i == a.len() {
        true
    } else {
        a[i] < b[i]
    }
}

/// Whether `a` and `b` hold the same bytes.
pub fn same_bytes(a: &[u8], b: &[u8]) -> (r: bool)
    ensures
        r == (a@ == b@),
{
    if a.len() != b.len() {
        return false;
    }
    let mut i: usize = 0;
    while i < a.len()
        invariant
            i <= a.len(),
            a.len() == b.len(),
            forall|j: int| 0 <= j < i ==> a@[j] == b@[j],
        decreases a.len() - i,
    {
        if a[i] != b[i] {
            return false;
        }
        i = i + 1;
    }
    assert(a@ =~= b@);
    true
}

/// Law: the order is that of the bytes as numbers: of two keys that agree before `i`, that with the
/// lower byte at `i` comes first.
pub proof fn law_first_different_byte_decides(a: Seq<u8>, b: Seq<u8>, i: int)
    requires
        0 <= i < a.len(),
        i < b.len(),
        forall|j: int| 0 <= j < i ==> #[trigger] a[j] == b[j],
        a[i] != b[i],
    ensures
        key_less(a, b) <==> (a[i] as int) < (b[i] as int),
        key_less(b, a) <==> (b[i] as int) < (a[i] as int),
{
    assert(a.take(i) =~= b.take(i));
    lemma_key_less_skip(a, b, i as nat);
    lemma_key_less_skip(b, a, i as nat);
}

/// Law: a key comes before every longer key that begins with it.
pub proof fn law_prefix_comes_first(a: Seq<u8>, b: Seq<u8>)
    requires
        a.len() < b.len(),
        forall|j: int| 0 <= j < a.len() ==> #[trigger] a[j] == b[j],
    ensures
        key_less(a, b),
        !key_less(b, a),
{
    let n = a.len() as int;
    assert(a.take(n) =~= b.take(n));
    lemma_key_less_skip(a, b, n as nat);
    lemma_key_less_skip(b, a, n as nat);
}

/// Law: a range has its start, every key behind it that comes before its end, and no other key.
pub proof fn law_range_is_half_open(key: Seq<u8>, start: Seq<u8>, end: Seq<u8>)
    ensures
        key_in_range(key, start, end) <==> (key == start || key_less(start, key)) && key_less(
            key,
            end,
        ),
        key_at_most(start, key) <==> key == start || key_less(start, key),
{
    law_key_less_total(start, key);
    law_key_less_irreflexive(key);
}

} // verus!
