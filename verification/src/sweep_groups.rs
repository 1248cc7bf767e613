//! The groups of a sweep summary: cases that ran with the same parameters are summarized
//! together, groups in increasing order of their parameter key, with the number of cases that
//! completed and failed in each.

use vstd::prelude::*;

use crate::text::{
    lemma_seq_less_irreflexive, lemma_seq_less_transitive, order_text, seq_less, string_views, TextOrder,
};

verus! {

/// The case lists of `groups`.
pub open spec fn index_lists(groups: Seq<Vec<usize>>) -> Seq<Seq<usize>> {
    groups.map_values(|g: Vec<usize>| g@)
}

/// The key of group `g`: the key of its first case.
pub open spec fn group_key(keys: Seq<Seq<char>>, groups: Seq<Seq<usize>>, g: int) -> Seq<char> {
    keys[groups[g][0] as int]
}

/// Whether `groups` splits the cases `0..n` by key: each group is a nonempty, increasing list of
/// cases that share the group's key, the groups come in strictly increasing key order, and every
/// case belongs to a group.
pub open spec fn groups_cases_by_key(keys: Seq<Seq<char>>, groups: Seq<Seq<usize>>, n: int) -> bool {
    &&& forall|g: int| 0 <= g < groups.len() ==> #[trigger] groups[g].len() > 0
    &&& forall|g: int, m: int|
        0 <= g < groups.len() && 0 <= m < groups[g].len() ==> #[trigger] groups[g][m] < n && keys[groups[g][m] as int]
            == group_key(keys, groups, g)
    &&& forall|g: int, a: int, b: int|
        0 <= g < groups.len() && 0 <= a < b < groups[g].len() ==> #[trigger] groups[g][a] < #[trigger] groups[g][b]
    &&& forall|g: int, h: int|
        0 <= g < h < groups.len() ==> seq_less(#[trigger] group_key(keys, groups, g), #[trigger] group_key(keys, groups, h))
    &&& forall|i: int| 0 <= i < n ==> #[trigger] grouped(groups, i)
}

/// Whether case `i` belongs to one of the groups.
pub open spec fn grouped(groups: Seq<Seq<usize>>, i: int) -> bool {
    exists|g: int, m: int| 0 <= g < groups.len() && 0 <= m < groups[g].len() && #[trigger] groups[g][m] == i
}

/// Adding case `i` to the group that already has its key keeps the grouping.
proof fn lemma_extend_group(keys: Seq<Seq<char>>, old: Seq<Seq<usize>>, p: int, i: usize)
    requires
        groups_cases_by_key(keys, old, i as int),
        0 <= p < old.len(),
        i < keys.len(),
        group_key(keys, old, p) == keys[i as int],
    ensures
        groups_cases_by_key(keys, old.update(p, old[p].push(i)), i + 1),
{
    let new = old.update(p, old[p].push(i));
    assert forall|g: int| 0 <= g < new.len() implies group_key(keys, new, g) == group_key(keys, old, g) by {
        if g == p {
            assert(old[p].len() > 0);
            assert(new[p][0] == old[p][0]);
        }
    }
    assert forall|g: int, m: int| 0 <= g < new.len() && 0 <= m < new[g].len() implies #[trigger] new[g][m] < i + 1
        && keys[new[g][m] as int] == group_key(keys, new, g) by {
        assert(group_key(keys, new, g) == group_key(keys, old, g));
        if g == p && m == old[p].len() {
            assert(new[g][m] == i);
        } else {
            assert(new[g][m] == old[g][m]);
        }
    }
    assert forall|g: int, a: int, b: int| 0 <= g < new.len() && 0 <= a < b < new[g].len() implies #[trigger] new[g][a]
        < #[trigger] new[g][b] by {
        if g == p && b == old[p].len() {
            assert(new[g][a] == old[g][a]);
            assert(old[g][a] < i);
        } else {
            assert(new[g][a] == old[g][a]);
            assert(new[g][b] == old[g][b]);
        }
    }
    assert forall|g: int, h: int| 0 <= g < h < new.len() implies seq_less(
        #[trigger] group_key(keys, new, g),
        #[trigger] group_key(keys, new, h),
    ) by {
        assert(group_key(keys, new, g) == group_key(keys, old, g));
        assert(group_key(keys, new, h) == group_key(keys, old, h));
    }
    assert forall|j: int| 0 <= j < i + 1 implies #[trigger] grouped(new, j) by {
        if j == i {
            assert(new[p][old[p].len() as int] == j);
        } else {
            assert(grouped(old, j));
            let (g, m) = choose|g: int, m: int| 0 <= g < old.len() && 0 <= m < old[g].len() && #[trigger] old[g][m] == j;
            assert(new[g][m] == j);
        }
    }
}

/// Opening a new group for case `i` at the position of its key keeps the grouping.
proof fn lemma_new_group(keys: Seq<Seq<char>>, old: Seq<Seq<usize>>, p: int, i: usize)
    requires
        groups_cases_by_key(keys, old, i as int),
        0 <= p <= old.len(),
        i < keys.len(),
        forall|h: int| 0 <= h < p ==> seq_less(#[trigger] group_key(keys, old, h), keys[i as int]),
        p < old.len() ==> seq_less(keys[i as int], group_key(keys, old, p)),
    ensures
        groups_cases_by_key(keys, old.insert(p, seq![i]), i + 1),
{
    let new = old.insert(p, seq![i]);
    assert forall|g: int| 0 <= g < new.len() implies group_key(keys, new, g) == if g < p {
        group_key(keys, old, g)
    } else if g == p {
        keys[i as int]
    } else {
        group_key(keys, old, g - 1)
    } by {
        if g < p {
            assert(new[g] == old[g]);
        } else if g > p {
            assert(new[g] == old[g - 1]);
        } else {
            assert(new[g] == seq![i]);
        }
    }
    assert forall|g: int| 0 <= g < new.len() implies #[trigger] new[g].len() > 0 by {
        if g < p {
            assert(new[g] == old[g]);
        } else if g > p {
            assert(new[g] == old[g - 1]);
        }
    }
    assert forall|g: int, m: int| 0 <= g < new.len() && 0 <= m < new[g].len() implies #[trigger] new[g][m] < i + 1
        && keys[new[g][m] as int] == group_key(keys, new, g) by {
        if g < p {
            assert(new[g] == old[g]);
            assert(old[g][m] < i);
        } else if g > p {
            assert(new[g] == old[g - 1]);
            assert(old[g - 1][m] < i);
        } else {
            assert(new[g] == seq![i]);
        }
    }
    assert forall|g: int, a: int, b: int| 0 <= g < new.len() && 0 <= a < b < new[g].len() implies #[trigger] new[g][a]
        < #[trigger] new[g][b] by {
        if g < p {
            assert(new[g] == old[g]);
            assert(old[g][a] < old[g][b]);
        } else if g > p {
            assert(new[g] == old[g - 1]);
            assert(old[g - 1][a] < old[g - 1][b]);
        } else {
            assert(new[g] == seq![i]);
        }
    }
    assert forall|g: int, h: int| 0 <= g < h < new.len() implies seq_less(
        #[trigger] group_key(keys, new, g),
        #[trigger] group_key(keys, new, h),
    ) by {
        if h < p {
            assert(seq_less(group_key(keys, old, g), group_key(keys, old, h)));
        } else if h == p {
            assert(seq_less(group_key(keys, old, g), keys[i as int]));
        } else if g < p {
            assert(seq_less(group_key(keys, old, g), group_key(keys, old, h - 1)));
        } else if g == p {
            if h - 1 > p {
                assert(seq_less(group_key(keys, old, p), group_key(keys, old, h - 1)));
                lemma_seq_less_transitive(keys[i as int], group_key(keys, old, p), group_key(keys, old, h - 1));
            }
        } else {
            assert(seq_less(group_key(keys, old, g - 1), group_key(keys, old, h - 1)));
        }
    }
    assert forall|j: int| 0 <= j < i + 1 implies #[trigger] grouped(new, j) by {
        if j == i {
            assert(new[p] == seq![i]);
            assert(new[p][0] == j);
        } else {
            assert(grouped(old, j));
            let (g, m) = choose|g: int, m: int| 0 <= g < old.len() && 0 <= m < old[g].len() && #[trigger] old[g][m] == j;
            if g < p {
                assert(new[g] == old[g]);
                assert(new[g][m] == j);
            } else {
                assert(new[g + 1] == old[g]);
                assert(new[g + 1][m] == j);
            }
        }
    }
}

/// Where case `i` goes: the first group whose key is not below the case's key, and whether
/// that group's key equals it.
fn key_position(keys: &Vec<String>, groups: &Vec<Vec<usize>>, i: usize) -> (r: (usize, bool))
    requires
        i < keys.len(),
        groups_cases_by_key(string_views(keys@), index_lists(groups@), i as int),
    ensures
        r.0 <= groups.len(),
        forall|h: int|
            0 <= h < r.0 ==> seq_less(#[trigger] group_key(string_views(keys@), index_lists(groups@), h), keys@[i as int]@),
        r.1 ==> r.0 < groups.len() && group_key(string_views(keys@), index_lists(groups@), r.0 as int) == keys@[i as int]@,
        !r.1 && r.0 < groups.len() ==> seq_less(
            keys@[i as int]@,
            group_key(string_views(keys@), index_lists(groups@), r.0 as int),
        ),
{
    let ghost ks = string_views(keys@);
    let ghost gs = index_lists(groups@);
    let mut p: usize = 0;
    while p < groups.len()
        invariant
            0 <= p <= groups.len(),
            i < keys.len(),
            ks == string_views(keys@),
            gs == index_lists(groups@),
            groups_cases_by_key(ks, gs, i as int),
            forall|h: int| 0 <= h < p ==> seq_less(#[trigger] group_key(ks, gs, h), keys@[i as int]@),
        decreases groups.len() - p,
    {
        assert(gs[p as int].len() > 0);
        assert(gs[p as int][0] < i);
        let first = groups[p][0];
        match order_text(keys[first].as_str(), keys[i].as_str()) {
            TextOrder::Less => {
                p = p + 1;
            },
            TextOrder::Equal => {
                return (p, true);
            },
            TextOrder::Greater => {
                return (p, false);
            },
        }
    }
    (p, false)
}

/// Groups the cases of a sweep by their parameter key: one group per distinct key, the groups in
/// increasing key order, each listing its cases in the order of the input.
pub fn group_by_key(keys: &Vec<String>) -> (groups: Vec<Vec<usize>>)
    ensures
        groups_cases_by_key(string_views(keys@), index_lists(groups@), keys@.len() as int),
{
    let ghost ks = string_views(keys@);
    let mut groups: Vec<Vec<usize>> = Vec::new();
    assert(groups_cases_by_key(ks, index_lists(groups@), 0));
    let mut i: usize = 0;
    while i < keys.len()
        invariant
            0 <= i <= keys.len(),
            ks == string_views(keys@),
            groups_cases_by_key(ks, index_lists(groups@), i as int),
        decreases keys.len() - i,
    {
        let (p, same) = key_position(keys, &groups, i);
        let ghost before = index_lists(groups@);
        if same {
            let mut members = groups.remove(p);
            members.push(i);
            groups.insert(p, members);
            proof {
                assert(index_lists(groups@) =~= before.update(p as int, before[p as int].push(i)));
                lemma_extend_group(ks, before, p as int, i);
            }
        } else {
            let mut members: Vec<usize> = Vec::new();
            members.push(i);
            groups.insert(p, members);
            proof {
                assert(members@ =~= seq![i]);
                assert(index_lists(groups@) =~= before.insert(p as int, seq![i]));
                lemma_new_group(ks, before, p as int, i);
            }
        }
        i = i + 1;
    }
    groups
}

/// Cases with the same key are summarized in the same group.
pub proof fn lemma_equal_keys_share_a_group(keys: Seq<Seq<char>>, groups: Seq<Seq<usize>>, n: int, g: int, a: int, h: int, b: int)
    requires
        groups_cases_by_key(keys, groups, n),
        0 <= g < groups.len(),
        0 <= h < groups.len(),
        0 <= a < groups[g].len(),
        0 <= b < groups[h].len(),
        keys[groups[g][a] as int] == keys[groups[h][b] as int],
    ensures
        g == h,
{
    assert(keys[groups[g][a] as int] == group_key(keys, groups, g));
    assert(keys[groups[h][b] as int] == group_key(keys, groups, h));
    lemma_seq_less_irreflexive(group_key(keys, groups, g));
    if g < h {
        assert(seq_less(group_key(keys, groups, g), group_key(keys, groups, h)));
    } else if h < g {
        assert(seq_less(group_key(keys, groups, h), group_key(keys, groups, g)));
    }
}

/// The number of the listed cases that completed.
pub open spec fn completed_count(members: Seq<usize>, completed: Seq<bool>) -> nat
    decreases members.len(),
{
    if members.len() == 0 {
        0
    } else {
        completed_count(members.drop_last(), completed) + if completed[members.last() as int] { 1nat } else { 0nat }
    }
}

/// The completed count of a group is the number of its cases that completed, whatever their
/// order: the length of the members filtered by completion.
pub proof fn lemma_completed_count_counts_completed(members: Seq<usize>, completed: Seq<bool>)
    ensures
        completed_count(members, completed) == members.filter(|m: usize| completed[m as int]).len(),
    decreases members.len(),
{
    reveal(Seq::filter);
    if members.len() > 0 {
        lemma_completed_count_counts_completed(members.drop_last(), completed);
    }
}

/// The case counts of one group of a sweep summary.
#[derive(Debug, Clone, Copy, PartialEq, Eq)]
pub struct GroupCounts {
    pub cases: usize,
    pub successful_cases: usize,
    pub failed_cases: usize,
}

/// How many of a group's cases completed and failed, given whether each case of the sweep
/// completed.
pub fn group_counts(members: &Vec<usize>, completed: &Vec<bool>) -> (c: GroupCounts)
    requires
        forall|m: int| 0 <= m < members.len() ==> #[trigger] members@[m] < completed.len(),
    ensures
        c.cases == members.len(),
        c.successful_cases == completed_count(members@, completed@),
        c.failed_cases == members.len() - completed_count(members@, completed@),
        c.successful_cases == members@.filter(|m: usize| completed@[m as int]).len(),
        c.cases == c.successful_cases + c.failed_cases,
{
    let mut successful: usize = 0;
    let mut k: usize = 0;
    while k < members.len()
        invariant
            0 <= k <= members.len(),
            forall|m: int| 0 <= m < members.len() ==> #[trigger] members@[m] < completed.len(),
            successful == completed_count(members@.take(k as int), completed@),
            successful <= k,
        decreases members.len() - k,
    {
        assert(members@.take(k + 1).drop_last() =~= members@.take(k as int));
        if completed[members[k]] {
            successful = successful + 1;
        }
        k = k + 1;
    }
    assert(members@.take(members.len() as int) =~= members@);
    proof { lemma_completed_count_counts_completed(members@, completed@); }
    GroupCounts { cases: members.len(), successful_cases: successful, failed_cases: members.len() - successful }
}

} // verus!
