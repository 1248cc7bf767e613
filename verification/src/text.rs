//! Character-level helpers for identifiers and labels.

use vstd::prelude::*;

verus! {

broadcast use vstd::string::group_string_axioms;

/// The characters of `s`, in order.
pub fn chars_of(s: &str) -> (v: Vec<char>)
    ensures
        v@ == s@,
{
    let mut out: Vec<char> = Vec::new();
    for c in it: s.chars()
        invariant
            out@ == it.seq().take(it.index()),
            it.seq() == s@,
    {
        out.push(c);
    }
    out
}

} // verus!

verus! {

/// Strict lexicographic order on character sequences, comparing characters by code point.
/// This is the order of `str`'s `Ord`: UTF-8 preserves the order of code points.
pub open spec fn seq_less(a: Seq<char>, b: Seq<char>) -> bool
    decreases a.len(),
{
    if b.len() == 0 {
        false
    } else if a.len() == 0 {
        true
    } else if a[0] != b[0] {
        (a[0] as int) < (b[0] as int)
    } else {
        seq_less(a.drop_first(), b.drop_first())
    }
}

/// The result of comparing two texts.
#[derive(Debug, Clone, Copy, PartialEq, Eq)]
pub enum TextOrder {
    Less,
    Equal,
    Greater,
}

pub proof fn lemma_seq_less_irreflexive(a: Seq<char>)
    ensures
        !seq_less(a, a),
    decreases a.len(),
{
    if a.len() > 0 {
        lemma_seq_less_irreflexive(a.drop_first());
    }
}

pub proof fn lemma_seq_less_asymmetric(a: Seq<char>, b: Seq<char>)
    requires
        seq_less(a, b),
    ensures
        !seq_less(b, a),
    decreases a.len(),
{
    if a.len() > 0 && b.len() > 0 && a[0] == b[0] {
        lemma_seq_less_asymmetric(a.drop_first(), b.drop_first());
    }
}

pub proof fn lemma_seq_less_transitive(a: Seq<char>, b: Seq<char>, c: Seq<char>)
    requires
        seq_less(a, b),
        seq_less(b, c),
    ensures
        seq_less(a, c),
    decreases a.len(),
{
    if a.len() > 0 && b.len() > 0 && c.len() > 0 && a[0] == b[0] && b[0] == c[0] {
        lemma_seq_less_transitive(a.drop_first(), b.drop_first(), c.drop_first());
    }
}

pub proof fn lemma_seq_less_total(a: Seq<char>, b: Seq<char>)
    ensures
        seq_less(a, b) || seq_less(b, a) || a == b,
    decreases a.len(),
{
    if a.len() > 0 && b.len() > 0 {
        if a[0] == b[0] {
            lemma_seq_less_total(a.drop_first(), b.drop_first());
            if a.drop_first() == b.drop_first() {
                assert(a =~= seq![a[0]] + a.drop_first());
                assert(b =~= seq![b[0]] + b.drop_first());
            }
        } else {
            assert((a[0] as int) != (b[0] as int));
        }
    } else if a.len() == 0 && b.len() == 0 {
        assert(a =~= b);
    }
}

proof fn lemma_seq_less_skip(a: Seq<char>, b: Seq<char>, i: int)
    requires
        0 <= i < a.len(),
        i < b.len(),
        a[i] == b[i],
    ensures
        seq_less(a.skip(i), b.skip(i)) == seq_less(a.skip(i + 1), b.skip(i + 1)),
{
    assert(a.skip(i).drop_first() =~= a.skip(i + 1));
    assert(b.skip(i).drop_first() =~= b.skip(i + 1));
}

/// Compares two character vectors lexicographically.
pub fn order_chars(a: &Vec<char>, b: &Vec<char>) -> (r: TextOrder)
    ensures
        r == TextOrder::Less <==> seq_less(a@, b@),
        r == TextOrder::Greater <==> seq_less(b@, a@),
        r == TextOrder::Equal <==> a@ == b@,
{
    let mut i: usize = 0;
    assert(a@.skip(0) =~= a@);
    assert(b@.skip(0) =~= b@);
    while i < a.len() && i < b.len()
        invariant
            0 <= i <= a.len(),
            i <= b.len(),
            a@.take(i as int) == b@.take(i as int),
            seq_less(a@, b@) == seq_less(a@.skip(i as int), b@.skip(i as int)),
            seq_less(b@, a@) == seq_less(b@.skip(i as int), a@.skip(i as int)),
        decreases a.len() - i,
    {
        if a[i] != b[i] {
            let x = a[i];
            let y = b[i];
            assert(a@.skip(i as int)[0] == x);
            assert(b@.skip(i as int)[0] == y);
            if x < y {
                proof { lemma_seq_less_asymmetric(a@, b@); }
                assert(a@[i as int] != b@[i as int]);
                return TextOrder::Less;
            } else {
                assert((x as int) != (y as int));
                proof { lemma_seq_less_asymmetric(b@, a@); }
                return TextOrder::Greater;
            }
        }
        proof {
            lemma_seq_less_skip(a@, b@, i as int);
            lemma_seq_less_skip(b@, a@, i as int);
            assert(a@.take(i + 1) =~= a@.take(i as int).push(a@[i as int]));
            assert(b@.take(i + 1) =~= b@.take(i as int).push(b@[i as int]));
        }
        i = i + 1;
    }
    if a.len() == b.len() {
        assert(a@ =~= a@.take(i as int));
        assert(b@ =~= b@.take(i as int));
        proof { lemma_seq_less_irreflexive(a@); }
        TextOrder::Equal
    } else if i == a.len() {
        assert(a@.skip(i as int).len() == 0);
        assert(b@.skip(i as int).len() > 0);
        assert(a@ != b@) by {
            assert(a@.len() != b@.len());
        }
        TextOrder::Less
    } else {
        assert(b@.skip(i as int).len() == 0);
        assert(a@.skip(i as int).len() > 0);
        assert(a@ != b@) by {
            assert(a@.len() != b@.len());
        }
        TextOrder::Greater
    }
}

/// Compares two texts lexicographically by code point.
pub fn order_text(a: &str, b: &str) -> (r: TextOrder)
    ensures
        r == TextOrder::Less <==> seq_less(a@, b@),
        r == TextOrder::Greater <==> seq_less(b@, a@),
        r == TextOrder::Equal <==> a@ == b@,
{
    let x = chars_of(a);
    let y = chars_of(b);
    order_chars(&x, &y)
}

/// Whether `c` has the Unicode `White_Space` property: the code points U+0009 to U+000D,
/// U+0020, U+0085, U+00A0, U+1680, U+2000 to U+200A, U+2028, U+2029, U+202F, U+205F and
/// U+3000 (the 25 listed under `White_Space` in the Unicode Character Database's
/// `PropList.txt`).
pub open spec fn white_space(c: char) -> bool {
    let v = c as int;
    ||| 0x9 <= v <= 0xD
    ||| v == 0x20
    ||| v == 0x85
    ||| v == 0xA0
    ||| v == 0x1680
    ||| 0x2000 <= v <= 0x200A
    ||| v == 0x2028
    ||| v == 0x2029
    ||| v == 0x202F
    ||| v == 0x205F
    ||| v == 0x3000
}

/// Calls `char::is_whitespace`. Trusted: as documented, the result is whether the character
/// has the Unicode `White_Space` property, which `white_space` lists.
#[verifier::external_body]
pub(crate) fn is_white_space(c: char) -> (b: bool)
    ensures
        b == white_space(c),
{
    c.is_whitespace()
}

/// The text is empty once white space is trimmed from both ends.
pub open spec fn blank(s: Seq<char>) -> bool {
    forall|i: int| 0 <= i < s.len() ==> white_space(#[trigger] s[i])
}

/// Whether `s` is empty or white space only.
pub fn is_blank(s: &str) -> (b: bool)
    ensures
        b == blank(s@),
{
    let chars = chars_of(s);
    let mut i: usize = 0;
    while i < chars.len()
        invariant
            chars@ == s@,
            0 <= i <= chars@.len(),
            forall|j: int| 0 <= j < i ==> white_space(#[trigger] chars@[j]),
        decreases chars@.len() - i,
    {
        if !is_white_space(chars[i]) {
            return false;
        }
        i = i + 1;
    }
    true
}

/// The parts of `s` between occurrences of `sep`, in order (as `str::split` with a
/// character).
pub open spec fn split_char(s: Seq<char>, sep: char) -> Seq<Seq<char>>
    decreases s.len(),
{
    if s.len() == 0 {
        seq![Seq::empty()]
    } else {
        let before = split_char(s.drop_last(), sep);
        if s.last() == sep {
            before.push(Seq::empty())
        } else {
            before.update(before.len() - 1, before.last().push(s.last()))
        }
    }
}

pub proof fn lemma_split_char_nonempty(s: Seq<char>, sep: char)
    ensures
        split_char(s, sep).len() >= 1,
    decreases s.len(),
{
    if s.len() > 0 {
        lemma_split_char_nonempty(s.drop_last(), sep);
    }
}

/// The text of each string.
pub open spec fn string_views(v: Seq<String>) -> Seq<Seq<char>> {
    v.map_values(|p: String| p@)
}

/// Splits `s` at each `sep`.
pub fn split_on(s: &str, sep: char) -> (parts: Vec<String>)
    ensures
        string_views(parts@) == split_char(s@, sep),
{
    let chars = chars_of(s);
    let mut parts: Vec<String> = Vec::new();
    let mut start: usize = 0;
    let mut i: usize = 0;
    assert(s@.take(0) =~= Seq::<char>::empty());
    assert(string_views(parts@).push(s@.subrange(0, 0)) =~= split_char(s@.take(0), sep));
    while i < chars.len()
        invariant
            chars@ == s@,
            0 <= start <= i <= chars@.len(),
            string_views(parts@).push(s@.subrange(start as int, i as int)) == split_char(s@.take(i as int), sep),
        decreases chars@.len() - i,
    {
        let c = chars[i];
        let ghost prefix = s@.take(i as int);
        proof {
            assert(s@.take(i + 1).drop_last() =~= prefix);
            assert(s@.take(i + 1).last() == c);
            lemma_split_char_nonempty(prefix, sep);
        }
        if c == sep {
            let piece = String::from_str(s.substring_char(start, i));
            let ghost old_views = string_views(parts@);
            assert(old_views.push(piece@) == split_char(prefix, sep));
            parts.push(piece);
            assert(string_views(parts@) =~= old_views.push(piece@));
            start = i + 1;
            proof {
                assert(s@.subrange(start as int, i + 1) =~= Seq::<char>::empty());
                assert(string_views(parts@).push(s@.subrange(start as int, i + 1))
                    =~= split_char(prefix, sep).push(Seq::empty()));
            }
        } else {
            proof {
                assert(s@.subrange(start as int, i + 1) =~= s@.subrange(start as int, i as int).push(c));
                assert(string_views(parts@).push(s@.subrange(start as int, i + 1))
                    =~= split_char(prefix, sep).update(split_char(prefix, sep).len() - 1, split_char(prefix, sep).last().push(c)));
            }
        }
        i = i + 1;
    }
    assert(s@.take(chars@.len() as int) =~= s@);
    let last = String::from_str(s.substring_char(start, chars.len()));
    parts.push(last);
    assert(string_views(parts@) =~= split_char(s@, sep));
    parts
}

} // verus!
