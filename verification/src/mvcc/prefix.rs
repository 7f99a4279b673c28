//! Keys under a prefix.
use crate::bytes::copy_range;
use crate::index::key;
use crate::index::range;
use crate::mvcc::key_map::KeyMap;
use vstd::prelude::*;

verus! {

/// Whether a key starts with a prefix.
pub open spec fn starts_with(k: Seq<u8>, prefix: Seq<u8>) -> bool {
    k.len() >= prefix.len() && k.subrange(0, prefix.len() as int) == prefix
}

/// The first key behind all keys with a prefix; there is none if the prefix holds nothing but the
/// largest byte.
pub open spec fn prefix_bound(prefix: Seq<u8>) -> Option<Seq<u8>>
    decreases prefix.len(),
{
    if prefix.len() == 0 {
        None
    } else if prefix.last() != u8::MAX {
        Some(prefix.drop_last().push((prefix.last() + 1) as u8))
    } else {
        prefix_bound(prefix.drop_last())
    }
}

/// Whether a key starts with a prefix.
pub fn has_prefix(wanted: &[u8], prefix: &[u8]) -> (starts: bool)
    ensures
        starts == starts_with(wanted@, prefix@),
{
    if wanted.len() < prefix.len() {
        return false;
    }
    let ghost head = wanted@.subrange(0, prefix@.len() as int);
    let mut index: usize = 0;
    while index < prefix.len()
        invariant
            index <= prefix@.len() <= wanted@.len(),
            head == wanted@.subrange(0, prefix@.len() as int),
            forall|i: int| 0 <= i < index ==> #[trigger] head[i] == prefix@[i],
        decreases prefix@.len() - index,
    {
        if wanted[index] != prefix[index] {
            assert(head[index as int] != prefix@[index as int]);
            return false;
        }
        index = index + 1;
    }
    assert(head =~= prefix@);
    true
}

/// The first key behind all keys with a prefix.
pub fn prefix_end(prefix: &[u8]) -> (end: Option<Vec<u8>>)
    ensures
        match end {
            Some(end) => prefix_bound(prefix@) == Some(end@),
            None => prefix_bound(prefix@) is None,
        },
{
    let mut length: usize = prefix.len();
    proof {
        assert(prefix@.take(length as int) =~= prefix@);
    }
    while length > 0
        invariant
            length <= prefix@.len(),
            prefix_bound(prefix@) == prefix_bound(prefix@.take(length as int)),
        decreases length,
    {
        let last: u8 = prefix[length - 1];
        proof {
            let part = prefix@.take(length as int);
            assert(part.last() == last);
            assert(part.drop_last() =~= prefix@.take(length - 1));
        }
        if last != u8::MAX {
            let mut end = copy_range(prefix, 0, length - 1);
            end.push(last + 1);
            assert(prefix@.subrange(0, length - 1) =~= prefix@.take(length - 1));
            return Some(end);
        }
        length = length - 1;
    }
    None
}

/// Where two byte strings first differ decides their order.
proof fn lemma_first_difference(a: Seq<u8>, b: Seq<u8>, at: int)
    requires
        0 <= at < a.len(),
        at < b.len(),
        forall|i: int| 0 <= i < at ==> a[i] == b[i],
        a[at] < b[at],
    ensures
        key::key_lt(a, b),
    decreases at,
{
    if at > 0 {
        lemma_first_difference(a.drop_first(), b.drop_first(), at - 1);
    }
}

proof fn lemma_proper_prefix(a: Seq<u8>, b: Seq<u8>)
    requires
        a.len() < b.len(),
        forall|i: int| 0 <= i < a.len() ==> a[i] == b[i],
    ensures
        key::key_lt(a, b),
    decreases a.len(),
{
    if a.len() > 0 {
        lemma_proper_prefix(a.drop_first(), b.drop_first());
    }
}

/// Keys that differ, and where.
proof fn lemma_difference(a: Seq<u8>, b: Seq<u8>) -> (at: int)
    requires
        key::key_lt(a, b),
    ensures
        0 <= at <= a.len(),
        at < b.len(),
        forall|i: int| 0 <= i < at ==> a[i] == b[i],
        at < a.len() ==> a[at] < b[at],
    decreases a.len(),
{
    if a.len() > 0 && b.len() > 0 && a[0] == b[0] {
        let found = lemma_difference(a.drop_first(), b.drop_first());
        assert forall|i: int| 0 <= i < found + 1 implies a[i] == b[i] by {
            if i > 0 {
                assert(a.drop_first()[i - 1] == b.drop_first()[i - 1]);
            }
        }
        found + 1
    } else {
        0
    }
}

/// The keys from a prefix up to its bound are exactly those that start with the prefix.
pub proof fn law_prefix_range(prefix: Seq<u8>, k: Seq<u8>)
    ensures
        range::in_range(k, Some(prefix), prefix_bound(prefix)) <==> starts_with(k, prefix),
{
    if starts_with(k, prefix) {
        let head = k.subrange(0, prefix.len() as int);
        assert forall|i: int| 0 <= i < prefix.len() implies k[i] == prefix[i] by {
            assert(head[i] == prefix[i]);
        }
        if k.len() == prefix.len() {
            assert(k =~= prefix);
        } else {
            lemma_proper_prefix(prefix, k);
        }
        if prefix_bound(prefix) is Some {
            lemma_before_bound(prefix, k);
        }
    }
    if range::in_range(k, Some(prefix), prefix_bound(prefix)) && k != prefix {
        let at = lemma_difference(prefix, k);
        if at < prefix.len() {
            lemma_past_bound(prefix, k, at);
        } else {
            assert(k.subrange(0, prefix.len() as int) =~= prefix);
        }
    }
    if k == prefix {
        assert(k.subrange(0, prefix.len() as int) =~= prefix);
    }
}

/// A key with a prefix is before the prefix's bound.
proof fn lemma_before_bound(prefix: Seq<u8>, k: Seq<u8>)
    requires
        prefix_bound(prefix) is Some,
        k.len() >= prefix.len(),
        forall|i: int| 0 <= i < prefix.len() ==> k[i] == prefix[i],
    ensures
        key::key_lt(k, prefix_bound(prefix)->0),
    decreases prefix.len(),
{
    if prefix.last() != u8::MAX {
        lemma_first_difference(k, prefix_bound(prefix)->0, prefix.len() - 1);
    } else {
        lemma_before_bound(prefix.drop_last(), k);
    }
}

/// A key that is larger than a prefix at some place is not before the prefix's bound.
proof fn lemma_past_bound(prefix: Seq<u8>, k: Seq<u8>, at: int)
    requires
        0 <= at < prefix.len(),
        at < k.len(),
        forall|i: int| 0 <= i < at ==> k[i] == prefix[i],
        prefix[at] < k[at],
    ensures
        prefix_bound(prefix) matches Some(bound) && !key::key_lt(k, bound),
    decreases prefix.len(),
{
    if prefix.last() == u8::MAX {
        lemma_past_bound(prefix.drop_last(), k, at);
    } else {
        let bound = prefix_bound(prefix)->0;
        if key::key_lt(k, bound) {
            let other = lemma_difference(k, bound);
            if at < prefix.len() - 1 {
                if other < at {
                    assert(k[other] == bound[other]);
                } else if other > at {
                    assert(k[at] == bound[at]);
                }
            } else if other < at {
                assert(k[other] == bound[other]);
            } else if other > at {
                assert(false);
            }
        }
    }
}

/// The places of the keys of a map that start with a prefix.
pub struct Run {
    pub first: usize,
    pub end: usize,
}

/// Finds the keys of a map that start with a prefix; they stand together.
pub fn prefix_run<V>(map: &KeyMap<V>, prefix: &[u8]) -> (run: Run)
    requires
        map.wf(),
    ensures
        run.first <= run.end <= map.order().len(),
        forall|i: int|
            0 <= i < map.order().len() ==> (run.first <= i < run.end <==> starts_with(
                #[trigger] map.order()[i],
                prefix@,
            )),
{
    let first: usize = map.place(prefix).at;
    let end: usize = match prefix_end(prefix) {
        Some(bound) => map.place(bound.as_slice()).at,
        None => map.len(),
    };
    proof {
        let order = map.order();
        assert forall|i: int| 0 <= i < order.len() implies (first <= i < end <==> starts_with(
            #[trigger] order[i],
            prefix@,
        )) by {
            law_prefix_range(prefix@, order[i]);
            if i < first {
                key::lemma_key_asymmetric(order[i], prefix@);
                key::lemma_key_irreflexive(order[i]);
            }
            if let Some(bound) = prefix_bound(prefix@) {
                if i >= end {
                    assert(key::key_le(bound, order[i]));
                    if key::key_lt(order[i], bound) {
                        key::lemma_key_asymmetric(order[i], bound);
                        key::lemma_key_irreflexive(bound);
                    }
                }
            }
        }
    }
    if first <= end {
        Run { first, end }
    } else {
        Run { first, end: first }
    }
}

} // verus!
