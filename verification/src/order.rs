//! A stable ordering of records by a composite key: three integers, then a text label.

use vstd::prelude::*;

use crate::text::{
    lemma_seq_less_asymmetric, lemma_seq_less_irreflexive, lemma_seq_less_total,
    lemma_seq_less_transitive, order_text, seq_less, TextOrder,
};

verus! {

/// A sort key compared field by field: `first`, `second`, `third`, then `label` as text.
#[derive(Debug, Clone)]
pub struct SortKey {
    pub first: i64,
    pub second: i64,
    pub third: i64,
    pub label: String,
}

/// Strict lexicographic order on keys.
pub open spec fn key_less(a: SortKey, b: SortKey) -> bool {
    if a.first != b.first {
        a.first < b.first
    } else if a.second != b.second {
        a.second < b.second
    } else if a.third != b.third {
        a.third < b.third
    } else {
        seq_less(a.label@, b.label@)
    }
}

/// Keys that compare equal.
pub open spec fn key_same(a: SortKey, b: SortKey) -> bool {
    a.first == b.first && a.second == b.second && a.third == b.third && a.label@ == b.label@
}

/// Record `i` comes before record `j`: by key, and by position among equal keys (a stable sort).
pub open spec fn comes_before(keys: Seq<SortKey>, i: int, j: int) -> bool {
    key_less(keys[i], keys[j]) || (key_same(keys[i], keys[j]) && i < j)
}

/// `order` lists each of the positions `0..n` exactly once, each record before the next.
pub open spec fn is_stable_order(keys: Seq<SortKey>, order: Seq<usize>) -> bool {
    &&& order.len() == keys.len()
    &&& forall|k: int| 0 <= k < order.len() ==> #[trigger] order[k] < keys.len()
    &&& forall|k: int, l: int| 0 <= k < l < order.len() ==> comes_before(keys, #[trigger] order[k] as int, #[trigger] order[l] as int)
    &&& forall|x: int| 0 <= x < keys.len() ==> #[trigger] lists(order, x)
}

/// Position `x` occurs in `order`.
pub open spec fn lists(order: Seq<usize>, x: int) -> bool {
    exists|k: int| 0 <= k < order.len() && order[k] == x
}

pub proof fn lemma_comes_before_transitive(keys: Seq<SortKey>, i: int, j: int, k: int)
    requires
        0 <= i < keys.len(),
        0 <= j < keys.len(),
        0 <= k < keys.len(),
        comes_before(keys, i, j),
        comes_before(keys, j, k),
    ensures
        comes_before(keys, i, k),
{
    let (a, b, c) = (keys[i], keys[j], keys[k]);
    if a.first == b.first && b.first == c.first && a.second == b.second && b.second == c.second
        && a.third == b.third && b.third == c.third {
        if seq_less(a.label@, b.label@) && seq_less(b.label@, c.label@) {
            lemma_seq_less_transitive(a.label@, b.label@, c.label@);
        }
    }
}

pub proof fn lemma_comes_before_irreflexive(keys: Seq<SortKey>, i: int)
    requires
        0 <= i < keys.len(),
    ensures
        !comes_before(keys, i, i),
{
    lemma_seq_less_irreflexive(keys[i].label@);
}

pub proof fn lemma_comes_before_total(keys: Seq<SortKey>, i: int, j: int)
    requires
        0 <= i < keys.len(),
        0 <= j < keys.len(),
        i != j,
    ensures
        comes_before(keys, i, j) || comes_before(keys, j, i),
        !(comes_before(keys, i, j) && comes_before(keys, j, i)),
{
    lemma_seq_less_total(keys[i].label@, keys[j].label@);
    if seq_less(keys[i].label@, keys[j].label@) {
        lemma_seq_less_asymmetric(keys[i].label@, keys[j].label@);
    }
    if seq_less(keys[j].label@, keys[i].label@) {
        lemma_seq_less_asymmetric(keys[j].label@, keys[i].label@);
    }
}

/// Whether record `i` comes before record `j`, for `i < j`.
fn before_later(keys: &Vec<SortKey>, i: usize, j: usize) -> (b: bool)
    requires
        i < j < keys.len(),
    ensures
        b == comes_before(keys@, i as int, j as int),
{
    let (a, c) = (&keys[i], &keys[j]);
    if a.first != c.first {
        a.first < c.first
    } else if a.second != c.second {
        a.second < c.second
    } else if a.third != c.third {
        a.third < c.third
    } else {
        match order_text(a.label.as_str(), c.label.as_str()) {
            TextOrder::Less => true,
            TextOrder::Equal => true,
            TextOrder::Greater => {
                proof { lemma_seq_less_asymmetric(c.label@, a.label@); }
                false
            },
        }
    }
}

/// The positions of `keys` in stable sorted order: ascending by key, equal keys in their
/// input order.
pub fn stable_order(keys: &Vec<SortKey>) -> (order: Vec<usize>)
    ensures
        is_stable_order(keys@, order@),
{
    let n = keys.len();
    let mut order: Vec<usize> = Vec::new();
    let mut i: usize = 0;
    while i < n
        invariant
            n == keys.len(),
            0 <= i <= n,
            order@.len() == i,
            forall|k: int| 0 <= k < order@.len() ==> #[trigger] order@[k] < i,
            forall|k: int, l: int| 0 <= k < l < order@.len() ==> comes_before(keys@, #[trigger] order@[k] as int, #[trigger] order@[l] as int),
            forall|x: int| 0 <= x < i ==> #[trigger] lists(order@, x),
        decreases n - i,
    {
        // Insert `i` after every record that comes before it.
        let mut p: usize = 0;
        while p < order.len() && before_later(keys, order[p], i)
            invariant
                n == keys.len(),
                i < n,
                0 <= p <= order@.len(),
                forall|k: int| 0 <= k < order@.len() ==> #[trigger] order@[k] < i,
                forall|k: int| 0 <= k < p ==> comes_before(keys@, #[trigger] order@[k] as int, i as int),
            decreases order@.len() - p,
        {
            p = p + 1;
        }
        let ghost old_order = order@;
        proof {
            if p < old_order.len() {
                lemma_comes_before_total(keys@, old_order[p as int] as int, i as int);
            }
        }
        order.insert(p, i);
        proof {
            let o = order@;
            assert(o == old_order.insert(p as int, i));
            assert forall|k: int| 0 <= k < o.len() implies #[trigger] o[k] < i + 1 by {
                if k < p { assert(o[k] == old_order[k]); } else if k > p { assert(o[k] == old_order[k - 1]); }
            }
            assert forall|k: int, l: int| 0 <= k < l < o.len() implies comes_before(keys@, #[trigger] o[k] as int, #[trigger] o[l] as int) by {
                if l < p {
                    assert(o[k] == old_order[k] && o[l] == old_order[l]);
                } else if l == p {
                    assert(o[k] == old_order[k]);
                } else if k == p {
                    assert(o[l] == old_order[l - 1]);
                    if l - 1 > p {
                        assert(comes_before(keys@, old_order[p as int] as int, old_order[l - 1] as int));
                        lemma_comes_before_transitive(keys@, i as int, old_order[p as int] as int, old_order[l - 1] as int);
                    }
                } else if k < p {
                    assert(o[k] == old_order[k] && o[l] == old_order[l - 1]);
                } else {
                    assert(o[k] == old_order[k - 1] && o[l] == old_order[l - 1]);
                }
            }
            assert forall|x: int| 0 <= x < i + 1 implies #[trigger] lists(o, x) by {
                if x == i {
                    assert(o[p as int] == x);
                } else {
                    assert(lists(old_order, x));
                    let k0 = choose|k: int| 0 <= k < old_order.len() && old_order[k] == x;
                    if k0 < p {
                        assert(o[k0] == x);
                    } else {
                        assert(o[k0 + 1] == x);
                    }
                }
            }
        }
        i = i + 1;
    }
    order
}

} // verus!
