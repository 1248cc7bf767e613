//! Naming the settings that differ between two runs' scenarios.

use vstd::prelude::*;

use crate::ids::{decimal_digits, push_padded_decimal};
use crate::text::{order_text, seq_less, string_views, TextOrder};

verus! {

/// The dotted path of `key` below `path`: the key itself at the top level.
pub open spec fn child_path(path: Seq<char>, key: Seq<char>) -> Seq<char> {
    if path.len() == 0 { key } else { path + "."@ + key }
}

/// The dotted path of the setting `key` below the setting `path`.
pub fn join_path(path: &str, key: &str) -> (joined: String)
    ensures
        joined@ == child_path(path@, key@),
{
    if path.is_empty() {
        String::from_str(key)
    } else {
        let mut joined = String::from_str(path);
        joined.append(".");
        joined.append(key);
        proof { reveal_strlit("."); }
        joined
    }
}

/// How one node of a settings document is built.
#[derive(Debug, Clone, PartialEq, Eq)]
pub enum SettingShape {
    /// A mapping: each text key with the position of its value.
    Mapping(Vec<(String, usize)>),
    /// A sequence: the positions of its items, in order.
    Sequence(Vec<usize>),
    /// Any other value, with a number that equal values share.
    Scalar(u64),
}

/// One node of a settings document: its rendered text and its shape.
#[derive(Debug, Clone, PartialEq, Eq)]
pub struct SettingNode {
    pub text: String,
    pub shape: SettingShape,
}

/// Whether the nodes of a document (the root first) refer only to later nodes.
pub open spec fn document_wf(nodes: Seq<SettingNode>) -> bool {
    &&& nodes.len() > 0
    &&& forall|i: int| 0 <= i < nodes.len() ==> match #[trigger] nodes[i].shape {
        SettingShape::Mapping(entries) => forall|e: int| 0 <= e < entries@.len()
            ==> i < #[trigger] entries@[e].1 < nodes.len(),
        SettingShape::Sequence(items) => forall|e: int| 0 <= e < items@.len()
            ==> i < #[trigger] items@[e] < nodes.len(),
        SettingShape::Scalar(_) => true,
    }
}

/// Two nodes that are not both mappings or both sequences differ unless they are equal
/// scalars.
pub open spec fn nodes_differ(b: SettingNode, v: SettingNode) -> bool {
    match (b.shape, v.shape) {
        (SettingShape::Scalar(x), SettingShape::Scalar(y)) => x != y,
        _ => true,
    }
}

/// `keys` with `key` added in its place in text order, unless it is already there (`keys`
/// kept in increasing order stay so).
pub open spec fn insert_key(keys: Seq<Seq<char>>, key: Seq<char>) -> Seq<Seq<char>>
    decreases keys.len(),
{
    if keys.len() == 0 {
        seq![key]
    } else if keys[0] == key {
        keys
    } else if seq_less(key, keys[0]) {
        seq![key] + keys
    } else {
        seq![keys[0]] + insert_key(keys.drop_first(), key)
    }
}

/// The distinct keys among the first `n` of `keys`, in increasing text order.
pub open spec fn sorted_keys(keys: Seq<Seq<char>>, n: int) -> Seq<Seq<char>>
    decreases n,
{
    if n <= 0 { Seq::empty() } else { insert_key(sorted_keys(keys, n - 1), keys[n - 1]) }
}

/// The key text of each mapping entry.
pub open spec fn entry_keys(entries: Seq<(String, usize)>) -> Seq<Seq<char>> {
    entries.map_values(|e: (String, usize)| e.0@)
}

/// The value position of the first entry with text key `key`.
pub open spec fn entry_for(entries: Seq<(String, usize)>, key: Seq<char>) -> Option<usize>
    decreases entries.len(),
{
    if entries.len() == 0 {
        None
    } else if entries[0].0@ == key {
        Some(entries[0].1)
    } else {
        entry_for(entries.drop_first(), key)
    }
}

/// The text a change line shows for a value: its rendered text, or `<missing>`.
pub open spec fn shown(nodes: Seq<SettingNode>, at: Option<usize>) -> Seq<char> {
    match at {
        Some(c) => nodes[c as int].text@,
        None => "<missing>"@,
    }
}

/// The path of item `k` of the sequence at `path`.
pub open spec fn item_path(path: Seq<char>, k: int) -> Seq<char> {
    path + "["@ + decimal_digits(k as nat) + "]"@
}

/// The changes between the baseline node `bi` and the variant node `vi` at `path`: in a pair
/// of mappings, the changes below each key in key order, a key on one side only showing the
/// other side as `<missing>`; in a pair of sequences, the changes of the items both have, then
/// a change of length; otherwise one line when the values differ.
pub open spec fn changes(b: Seq<SettingNode>, v: Seq<SettingNode>, path: Seq<char>, bi: int, vi: int) -> Seq<Seq<char>>
    decreases b.len() - bi, 1int, 0int,
{
    if !(0 <= bi < b.len() && 0 <= vi < v.len()) {
        Seq::empty()
    } else {
        match (b[bi].shape, v[vi].shape) {
            (SettingShape::Mapping(be), SettingShape::Mapping(ve)) => {
                let all = entry_keys(be@) + entry_keys(ve@);
                let keys = sorted_keys(all, all.len() as int);
                mapping_changes(b, v, path, bi, be@, ve@, keys, keys.len() as int)
            },
            (SettingShape::Sequence(bk), SettingShape::Sequence(vk)) => {
                let n = if bk@.len() < vk@.len() { bk@.len() } else { vk@.len() };
                let items = sequence_changes(b, v, path, bi, bk@, vk@, n as int);
                if bk@.len() != vk@.len() {
                    items.push(path + ".length: "@ + decimal_digits(bk@.len()) + " -> "@ + decimal_digits(vk@.len()))
                } else {
                    items
                }
            },
            _ => if nodes_differ(b[bi], v[vi]) {
                seq![path + ": "@ + b[bi].text@ + " -> "@ + v[vi].text@]
            } else {
                Seq::empty()
            },
        }
    }
}

/// The changes below the first `k` keys of a pair of mappings whose baseline node is `bi`.
pub open spec fn mapping_changes(
    b: Seq<SettingNode>,
    v: Seq<SettingNode>,
    path: Seq<char>,
    bi: int,
    be: Seq<(String, usize)>,
    ve: Seq<(String, usize)>,
    keys: Seq<Seq<char>>,
    k: int,
) -> Seq<Seq<char>>
    decreases b.len() - bi, 0int, k,
{
    if k <= 0 || k > keys.len() || !(0 <= bi < b.len()) {
        Seq::empty()
    } else {
        let rest = mapping_changes(b, v, path, bi, be, ve, keys, k - 1);
        let next = child_path(path, keys[k - 1]);
        match (entry_for(be, keys[k - 1]), entry_for(ve, keys[k - 1])) {
            (Some(bc), Some(vc)) => if bi < bc < b.len() {
                rest + changes(b, v, next, bc as int, vc as int)
            } else {
                rest
            },
            (l, r) => rest.push(next + ": "@ + shown(b, l) + " -> "@ + shown(v, r)),
        }
    }
}

/// The changes of the first `k` items of a pair of sequences whose baseline node is `bi`.
pub open spec fn sequence_changes(
    b: Seq<SettingNode>,
    v: Seq<SettingNode>,
    path: Seq<char>,
    bi: int,
    bk: Seq<usize>,
    vk: Seq<usize>,
    k: int,
) -> Seq<Seq<char>>
    decreases b.len() - bi, 0int, k,
{
    if k <= 0 || k > bk.len() || k > vk.len() || !(0 <= bi < b.len()) {
        Seq::empty()
    } else {
        let rest = sequence_changes(b, v, path, bi, bk, vk, k - 1);
        if bi < bk[k - 1] < b.len() {
            rest + changes(b, v, item_path(path, k - 1), bk[k - 1] as int, vk[k - 1] as int)
        } else {
            rest
        }
    }
}

/// Adds `key` to `keys` in its place, as `insert_key` does.
fn insert_key_exec(keys: &mut Vec<String>, key: &str)
    ensures
        string_views(final(keys)@) == insert_key(string_views(old(keys)@), key@),
{
    let ghost s0 = string_views(keys@);
    let mut i: usize = 0;
    assert(s0.take(0) + s0.skip(0) =~= s0);
    while i < keys.len()
        invariant
            s0 == string_views(keys@),
            keys@ == old(keys)@,
            0 <= i <= keys@.len(),
            insert_key(s0, key@) == s0.take(i as int) + insert_key(s0.skip(i as int), key@),
        decreases keys@.len() - i,
    {
        let ghost rest = s0.skip(i as int);
        assert(rest[0] == keys@[i as int]@);
        assert(rest.drop_first() =~= s0.skip(i + 1));
        match order_text(key, keys[i].as_str()) {
            TextOrder::Equal => {
                assert(insert_key(rest, key@) == rest);
                assert(s0.take(i as int) + rest =~= s0);
                return;
            },
            TextOrder::Less => {
                keys.insert(i, String::from_str(key));
                assert(string_views(keys@) =~= s0.take(i as int) + (seq![key@] + rest));
                return;
            },
            TextOrder::Greater => {
                proof { crate::text::lemma_seq_less_asymmetric(rest[0], key@); }
                assert(insert_key(rest, key@) == seq![rest[0]] + insert_key(s0.skip(i + 1), key@));
                assert(s0.take(i + 1) =~= s0.take(i as int) + seq![rest[0]]);
                assert(s0.take(i as int) + (seq![rest[0]] + insert_key(s0.skip(i + 1), key@))
                    =~= s0.take(i + 1) + insert_key(s0.skip(i + 1), key@));
            },
        }
        i = i + 1;
    }
    assert(s0.skip(i as int) =~= Seq::<Seq<char>>::empty());
    assert(s0.take(i as int) =~= s0);
    keys.push(String::from_str(key));
    assert(string_views(keys@) =~= s0 + seq![key@]);
}

/// The distinct keys of two mappings, in increasing text order.
fn mapping_keys(be: &Vec<(String, usize)>, ve: &Vec<(String, usize)>) -> (keys: Vec<String>)
    ensures
        string_views(keys@) == sorted_keys(entry_keys(be@) + entry_keys(ve@), (be@.len() + ve@.len()) as int),
{
    let ghost all = entry_keys(be@) + entry_keys(ve@);
    let mut keys: Vec<String> = Vec::new();
    let mut i: usize = 0;
    while i < be.len()
        invariant
            all == entry_keys(be@) + entry_keys(ve@),
            0 <= i <= be@.len(),
            string_views(keys@) == sorted_keys(all, i as int),
        decreases be@.len() - i,
    {
        assert(all[i as int] == be@[i as int].0@);
        insert_key_exec(&mut keys, be[i].0.as_str());
        i = i + 1;
    }
    let mut j: usize = 0;
    while j < ve.len()
        invariant
            all == entry_keys(be@) + entry_keys(ve@),
            0 <= j <= ve@.len(),
            string_views(keys@) == sorted_keys(all, be@.len() + j),
        decreases ve@.len() - j,
    {
        assert(all[be@.len() + j] == ve@[j as int].0@);
        insert_key_exec(&mut keys, ve[j].0.as_str());
        j = j + 1;
    }
    keys
}

/// The value position of the first entry of `entries` with key `key`.
fn find_entry(entries: &Vec<(String, usize)>, key: &str) -> (r: Option<usize>)
    ensures
        r == entry_for(entries@, key@),
{
    let wanted = String::from_str(key);
    let mut i: usize = 0;
    assert(entries@.skip(0) =~= entries@);
    while i < entries.len()
        invariant
            wanted@ == key@,
            0 <= i <= entries@.len(),
            entry_for(entries@, key@) == entry_for(entries@.skip(i as int), key@),
        decreases entries@.len() - i,
    {
        assert(entries@.skip(i as int)[0] == entries@[i as int]);
        assert(entries@.skip(i as int).drop_first() =~= entries@.skip(i + 1));
        if entries[i].0 == wanted {
            return Some(entries[i].1);
        }
        i = i + 1;
    }
    None
}

/// The rendered text of a value, or `<missing>`.
fn shown_exec(nodes: &Vec<SettingNode>, at: Option<usize>) -> (t: String)
    requires
        at matches Some(c) ==> c < nodes@.len(),
    ensures
        t@ == shown(nodes@, at),
{
    match at {
        Some(c) => String::from_str(nodes[c].text.as_str()),
        None => {
            proof { reveal_strlit("<missing>"); }
            String::from_str("<missing>")
        },
    }
}

/// Appends the changes between baseline node `bi` and variant node `vi` at `path`.
fn collect_changes_at(b: &Vec<SettingNode>, v: &Vec<SettingNode>, path: &str, bi: usize, vi: usize, out: &mut Vec<String>)
    requires
        document_wf(b@),
        document_wf(v@),
        bi < b@.len(),
        vi < v@.len(),
    ensures
        string_views(final(out)@) == string_views(old(out)@) + changes(b@, v@, path@, bi as int, vi as int),
    decreases b@.len() - bi, 1int, 0int,
{
    let ghost start = string_views(out@);
    proof {
        reveal_strlit(": ");
        reveal_strlit(" -> ");
        reveal_strlit(".length: ");
        reveal_strlit("[");
        reveal_strlit("]");
    }
    assert(document_wf(b@) ==> match b@[bi as int].shape {
        SettingShape::Mapping(entries) => forall|e: int| 0 <= e < entries@.len() ==> bi < #[trigger] entries@[e].1 < b@.len(),
        SettingShape::Sequence(items) => forall|e: int| 0 <= e < items@.len() ==> bi < #[trigger] items@[e] < b@.len(),
        SettingShape::Scalar(_) => true,
    });
    assert(document_wf(v@) ==> match v@[vi as int].shape {
        SettingShape::Mapping(entries) => forall|e: int| 0 <= e < entries@.len() ==> vi < #[trigger] entries@[e].1 < v@.len(),
        SettingShape::Sequence(items) => forall|e: int| 0 <= e < items@.len() ==> vi < #[trigger] items@[e] < v@.len(),
        SettingShape::Scalar(_) => true,
    });
    match (&b[bi].shape, &v[vi].shape) {
        (SettingShape::Mapping(be), SettingShape::Mapping(ve)) => {
            let keys = mapping_keys(be, ve);
            let ghost kv = string_views(keys@);
            let mut k: usize = 0;
            while k < keys.len()
                invariant
                    document_wf(b@),
                    document_wf(v@),
                    bi < b@.len(),
                    vi < v@.len(),
                    b@[bi as int].shape == SettingShape::Mapping(*be),
                    v@[vi as int].shape == SettingShape::Mapping(*ve),
                    forall|e: int| 0 <= e < be@.len() ==> bi < #[trigger] be@[e].1 < b@.len(),
                    forall|e: int| 0 <= e < ve@.len() ==> vi < #[trigger] ve@[e].1 < v@.len(),
                    kv == string_views(keys@),
                    0 <= k <= keys@.len(),
                    string_views(out@) == start + mapping_changes(b@, v@, path@, bi as int, be@, ve@, kv, k as int),
                decreases keys@.len() - k,
            {
                let ghost before = string_views(out@);
                assert(kv[k as int] == keys@[k as int]@);
                let next = join_path(path, keys[k].as_str());
                let bc = find_entry(be, keys[k].as_str());
                let vc = find_entry(ve, keys[k].as_str());
                proof {
                    lemma_entry_for_in(be@, kv[k as int]);
                    lemma_entry_for_in(ve@, kv[k as int]);
                }
                match (bc, vc) {
                    (Some(bc), Some(vc)) => {
                        collect_changes_at(b, v, next.as_str(), bc, vc, out);
                        assert(string_views(out@) =~= start + mapping_changes(b@, v@, path@, bi as int, be@, ve@, kv, k + 1));
                    },
                    _ => {
                        let mut line = next;
                        line.append(": ");
                        let left = shown_exec(b, bc);
                        line.append(left.as_str());
                        line.append(" -> ");
                        let right = shown_exec(v, vc);
                        line.append(right.as_str());
                        out.push(line);
                        assert(string_views(out@) =~= before.push(line@));
                        assert(string_views(out@) =~= start + mapping_changes(b@, v@, path@, bi as int, be@, ve@, kv, k + 1));
                    },
                }
                k = k + 1;
            }
            assert(string_views(out@) == start + changes(b@, v@, path@, bi as int, vi as int));
        },
        (SettingShape::Sequence(bk), SettingShape::Sequence(vk)) => {
            let n = if bk.len() < vk.len() { bk.len() } else { vk.len() };
            let mut k: usize = 0;
            while k < n
                invariant
                    document_wf(b@),
                    document_wf(v@),
                    bi < b@.len(),
                    vi < v@.len(),
                    b@[bi as int].shape == SettingShape::Sequence(*bk),
                    v@[vi as int].shape == SettingShape::Sequence(*vk),
                    forall|e: int| 0 <= e < bk@.len() ==> bi < #[trigger] bk@[e] < b@.len(),
                    forall|e: int| 0 <= e < vk@.len() ==> vi < #[trigger] vk@[e] < v@.len(),
                    n == if bk@.len() < vk@.len() { bk@.len() } else { vk@.len() },
                    0 <= k <= n,
                    string_views(out@) == start + sequence_changes(b@, v@, path@, bi as int, bk@, vk@, k as int),
                decreases n - k,
            {
                let mut item = String::from_str(path);
                item.append("[");
                push_padded_decimal(&mut item, k as u64, 0);
                item.append("]");
                assert(item@ == item_path(path@, k as int));
                collect_changes_at(b, v, item.as_str(), bk[k], vk[k], out);
                assert(string_views(out@) =~= start + sequence_changes(b@, v@, path@, bi as int, bk@, vk@, k + 1));
                k = k + 1;
            }
            if bk.len() != vk.len() {
                let ghost before = string_views(out@);
                let mut line = String::from_str(path);
                line.append(".length: ");
                push_padded_decimal(&mut line, bk.len() as u64, 0);
                line.append(" -> ");
                push_padded_decimal(&mut line, vk.len() as u64, 0);
                out.push(line);
                assert(string_views(out@) =~= before.push(line@));
            }
            assert(string_views(out@) =~= start + changes(b@, v@, path@, bi as int, vi as int));
        },
        _ => {
            let differ = match (&b[bi].shape, &v[vi].shape) {
                (SettingShape::Scalar(x), SettingShape::Scalar(y)) => *x != *y,
                _ => true,
            };
            if differ {
                let mut line = String::from_str(path);
                line.append(": ");
                line.append(b[bi].text.as_str());
                line.append(" -> ");
                line.append(v[vi].text.as_str());
                out.push(line);
                assert(string_views(out@) =~= start + seq![line@]);
            } else {
                assert(string_views(out@) =~= start + Seq::<Seq<char>>::empty());
            }
        },
    }
}

proof fn lemma_entry_for_in(entries: Seq<(String, usize)>, key: Seq<char>)
    ensures
        entry_for(entries, key) matches Some(c) ==> exists|e: int| 0 <= e < entries.len() && #[trigger] entries[e].1 == c,
    decreases entries.len(),
{
    if entries.len() > 0 && entries[0].0@ != key {
        lemma_entry_for_in(entries.drop_first(), key);
        if entry_for(entries.drop_first(), key) is Some {
            let c = entry_for(entries.drop_first(), key).unwrap();
            let e = choose|e: int| 0 <= e < entries.drop_first().len() && #[trigger] entries.drop_first()[e].1 == c;
            assert(entries[e + 1].1 == c);
        }
    } else if entries.len() > 0 {
        assert(entries[0].1 == entries[0].1);
    }
}

/// The settings that differ between a baseline and a variant document (each given as its
/// nodes, the root first), one line each: `path: before -> after`, in key order, with
/// `path.length: m -> n` after the items of sequences of different lengths.
pub fn collect_changes(baseline: &Vec<SettingNode>, variant: &Vec<SettingNode>) -> (lines: Vec<String>)
    requires
        document_wf(baseline@),
        document_wf(variant@),
    ensures
        string_views(lines@) == changes(baseline@, variant@, Seq::empty(), 0, 0),
{
    let mut lines: Vec<String> = Vec::new();
    assert(string_views(lines@) =~= Seq::<Seq<char>>::empty());
    proof { reveal_strlit(""); }
    assert(""@ =~= Seq::<char>::empty());
    collect_changes_at(baseline, variant, "", 0, 0, &mut lines);
    assert(string_views(lines@) =~= changes(baseline@, variant@, Seq::empty(), 0, 0));
    lines
}

} // verus!
