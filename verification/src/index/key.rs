//! The order of keys: byte strings, compared byte by byte, a prefix first.
use vstd::prelude::*;

verus! {

/// Whether `a` comes strictly before `b`.
pub open spec fn key_lt(a: Seq<u8>, b: Seq<u8>) -> bool
    decreases a.len(),
{
    if b.len() == 0 {
        false
    } else if a.len() == 0 {
        true
    } else {
        a[0] < b[0] || (a[0] == b[0] && key_lt(a.drop_first(), b.drop_first()))
    }
}

/// Whether `a` comes before `b` or is `b`.
pub open spec fn key_le(a: Seq<u8>, b: Seq<u8>) -> bool {
    a == b || key_lt(a, b)
}

pub proof fn lemma_key_irreflexive(a: Seq<u8>)
    ensures
        !key_lt(a, a),
    decreases a.len(),
{
    if a.len() > 0 {
        lemma_key_irreflexive(a.drop_first());
    }
}

pub proof fn lemma_key_transitive(a: Seq<u8>, b: Seq<u8>, c: Seq<u8>)
    requires
        key_lt(a, b),
        key_lt(b, c),
    ensures
        key_lt(a, c),
    decreases a.len(),
{
    if a.len() > 0 && a[0] == b[0] && b[0] == c[0] {
        lemma_key_transitive(a.drop_first(), b.drop_first(), c.drop_first());
    }
}

pub proof fn lemma_key_total(a: Seq<u8>, b: Seq<u8>)
    ensures
        key_lt(a, b) || a == b || key_lt(b, a),
    decreases a.len(),
{
    if a.len() == 0 && b.len() == 0 {
        assert(a =~= b);
    } else if a.len() > 0 && b.len() > 0 && a[0] == b[0] {
        lemma_key_total(a.drop_first(), b.drop_first());
        if a.drop_first() == b.drop_first() {
            assert(a =~= seq![a[0]] + a.drop_first());
            assert(b =~= seq![b[0]] + b.drop_first());
        }
    }
}

/// No two keys each come before the other.
pub proof fn lemma_key_asymmetric(a: Seq<u8>, b: Seq<u8>)
    requires
        key_lt(a, b),
    ensures
        !key_lt(b, a),
        a != b,
{
    lemma_key_irreflexive(a);
    if key_lt(b, a) {
        lemma_key_transitive(a, b, a);
    }
}

/// Chains of comparisons, at most one of them not strict.
pub proof fn lemma_key_chain(a: Seq<u8>, b: Seq<u8>, c: Seq<u8>)
    ensures
        key_le(a, b) && key_lt(b, c) ==> key_lt(a, c),
        key_lt(a, b) && key_le(b, c) ==> key_lt(a, c),
        key_le(a, b) && key_le(b, c) ==> key_le(a, c),
{
    if key_lt(a, b) && key_lt(b, c) {
        lemma_key_transitive(a, b, c);
    }
}

/// Whether two byte strings agree up to a place at which the first has ended, or has the smaller byte.
pub open spec fn parts_below(a: Seq<u8>, b: Seq<u8>, at: int) -> bool {
    &&& 0 <= at <= a.len()
    &&& at < b.len()
    &&& forall|i: int| 0 <= i < at ==> #[trigger] a[i] == b[i]
    &&& at == a.len() || a[at] < b[at]
}

/// The first byte in which two keys differ decides which comes first, and a key comes before all
/// that go on from it.
pub proof fn law_first_difference_decides(a: Seq<u8>, b: Seq<u8>, at: int)
    requires
        parts_below(a, b, at),
    ensures
        key_lt(a, b),
        !key_lt(b, a),
        a != b,
    decreases at,
{
    if at > 0 {
        let x = a.drop_first();
        let y = b.drop_first();
        assert forall|i: int| 0 <= i < at - 1 implies #[trigger] x[i] == y[i] by {
            assert(a[i + 1] == b[i + 1]);
        }
        assert(a[0] == b[0]);
        law_first_difference_decides(x, y, at - 1);
    }
    lemma_key_asymmetric(a, b);
}

/// Of two keys that stand in order, the first is the one that is smaller where they first differ.
pub proof fn law_order_shows_in_a_difference(a: Seq<u8>, b: Seq<u8>) -> (at: int)
    requires
        key_lt(a, b),
    ensures
        parts_below(a, b, at),
    decreases a.len(),
{
    if a.len() == 0 || a[0] < b[0] {
        0
    } else {
        let x = a.drop_first();
        let y = b.drop_first();
        let rest = law_order_shows_in_a_difference(x, y);
        assert forall|i: int| 0 <= i < rest + 1 implies #[trigger] a[i] == b[i] by {
            if i > 0 {
                assert(x[i - 1] == y[i - 1]);
            }
        }
        rest + 1
    }
}

/// How two keys compare.
#[derive(Debug, Clone, Copy, PartialEq, Eq, Structural)]
pub enum KeyOrder {
    Before,
    Same,
    After,
}

/// Compares two keys.
pub fn order_keys(a: &[u8], b: &[u8]) -> (order: KeyOrder)
    ensures
        match order {
            KeyOrder::Before => key_lt(a@, b@) && a@ != b@ && !key_lt(b@, a@),
            KeyOrder::Same => a@ == b@ && !key_lt(a@, b@),
            KeyOrder::After => key_lt(b@, a@) && a@ != b@ && !key_lt(a@, b@),
        },
{
    let mut index: usize = 0;
    proof {
        assert(a@.skip(0) =~= a@);
        assert(b@.skip(0) =~= b@);
    }
    while index < a.len() && index < b.len() && a[index] == b[index]
        invariant
            index <= a@.len(),
            index <= b@.len(),
            a@.take(index as int) == b@.take(index as int),
            key_lt(a@, b@) == key_lt(a@.skip(index as int), b@.skip(index as int)),
            key_lt(b@, a@) == key_lt(b@.skip(index as int), a@.skip(index as int)),
        decreases a@.len() - index,
    {
        proof {
            let left = a@.skip(index as int);
            let right = b@.skip(index as int);
            assert(left.drop_first() =~= a@.skip(index + 1));
            assert(right.drop_first() =~= b@.skip(index + 1));
            assert(a@.take(index + 1) =~= a@.take(index as int).push(a@[index as int]));
            assert(b@.take(index + 1) =~= b@.take(index as int).push(b@[index as int]));
        }
        index = index + 1;
    }
    proof {
        lemma_key_irreflexive(a@);
        if index == a@.len() && index == b@.len() {
            assert(a@.take(index as int) =~= a@);
            assert(b@.take(index as int) =~= b@);
        }
    }
    if index == a.len() {
        if index == b.len() {
            KeyOrder::Same
        } else {
            proof {
                lemma_key_asymmetric(a@, b@);
            }
            KeyOrder::Before
        }
    } else if index == b.len() {
        proof {
            lemma_key_asymmetric(b@, a@);
        }
        KeyOrder::After
    } else if a[index] < b[index] {
        proof {
            lemma_key_asymmetric(a@, b@);
        }
        KeyOrder::Before
    } else {
        proof {
            lemma_key_asymmetric(b@, a@);
        }
        KeyOrder::After
    }
}

} // verus!
