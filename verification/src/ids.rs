//! Caller-supplied identifiers and the decimal labels the library generates.

use vstd::prelude::*;

verus! {

/// The decimal digits of `n`, most significant first, without sign or padding.
pub open spec fn decimal_digits(n: nat) -> Seq<char>
    decreases n,
{
    if n < 10 {
        seq![digit_char(n)]
    } else {
        decimal_digits(n / 10).push(digit_char(n % 10))
    }
}

/// The ASCII character of a decimal digit.
pub open spec fn digit_char(d: nat) -> char {
    if d == 0 { '0' }
    else if d == 1 { '1' }
    else if d == 2 { '2' }
    else if d == 3 { '3' }
    else if d == 4 { '4' }
    else if d == 5 { '5' }
    else if d == 6 { '6' }
    else if d == 7 { '7' }
    else if d == 8 { '8' }
    else { '9' }
}

/// `digits` with `'0'` characters prepended until it is at least `width` long.
pub open spec fn zero_padded(digits: Seq<char>, width: nat) -> Seq<char> {
    if digits.len() >= width {
        digits
    } else {
        Seq::new((width - digits.len()) as nat, |i: int| '0') + digits
    }
}

/// The text of `n` written with at least `width` decimal digits.
pub open spec fn padded_decimal(n: nat, width: nat) -> Seq<char> {
    zero_padded(decimal_digits(n), width)
}

proof fn lemma_digit_char_injective(a: nat, b: nat)
    requires
        a < 10,
        b < 10,
        digit_char(a) == digit_char(b),
    ensures
        a == b,
{
}

/// Decimal text has at least one digit, exactly one below ten, and a leading digit other
/// than `0` for positive numbers.
pub proof fn lemma_decimal_digits_shape(n: nat)
    ensures
        decimal_digits(n).len() >= 1,
        (n < 10) == (decimal_digits(n).len() == 1),
        n >= 1 ==> decimal_digits(n)[0] != '0',
    decreases n,
{
    if n >= 10 {
        lemma_decimal_digits_shape(n / 10);
    }
}

/// Different numbers have different decimal text.
pub proof fn lemma_decimal_digits_injective(n: nat, m: nat)
    requires
        decimal_digits(n) == decimal_digits(m),
    ensures
        n == m,
    decreases n,
{
    lemma_decimal_digits_shape(n);
    lemma_decimal_digits_shape(m);
    if n < 10 && m < 10 {
        lemma_digit_char_injective(n, m);
    } else if n >= 10 && m >= 10 {
        let (dn, dm) = (decimal_digits(n), decimal_digits(m));
        assert(dn.last() == digit_char(n % 10));
        assert(dm.last() == digit_char(m % 10));
        lemma_digit_char_injective(n % 10, m % 10);
        assert(dn.drop_last() == decimal_digits(n / 10));
        assert(dm.drop_last() == decimal_digits(m / 10));
        lemma_decimal_digits_injective(n / 10, m / 10);
    }
}

/// Different numbers written with the same minimum width have different text.
pub proof fn lemma_padded_decimal_injective(n: nat, m: nat, width: nat)
    requires
        padded_decimal(n, width) == padded_decimal(m, width),
    ensures
        n == m,
{
    let (dn, dm) = (decimal_digits(n), decimal_digits(m));
    lemma_decimal_digits_shape(n);
    lemma_decimal_digits_shape(m);
    let (pn, pm) = (padded_decimal(n, width), padded_decimal(m, width));
    if dn.len() >= width && dm.len() >= width {
        lemma_decimal_digits_injective(n, m);
    } else if dn.len() < width && dm.len() < width {
        if dn.len() == dm.len() {
            assert(dn =~= pn.subrange(width - dn.len(), width as int));
            assert(dm =~= pm.subrange(width - dm.len(), width as int));
            lemma_decimal_digits_injective(n, m);
        } else if dn.len() < dm.len() {
            let p = width - dm.len();
            assert(pm[p] == dm[0]);
            assert(pn[p] == '0');
        } else {
            let p = width - dn.len();
            assert(pn[p] == dn[0]);
            assert(pm[p] == '0');
        }
    } else if dn.len() < width {
        assert(pn[0] == '0');
        assert(pm[0] == dm[0]);
        assert(dm.len() >= 2);
    } else {
        assert(pm[0] == '0');
        assert(pn[0] == dn[0]);
        assert(dn.len() >= 2);
    }
}

fn digit_str(d: u64) -> (s: &'static str)
    requires
        d < 10,
    ensures
        s@ == seq![digit_char(d as nat)],
{
    proof {
        reveal_strlit("0");
        reveal_strlit("1");
        reveal_strlit("2");
        reveal_strlit("3");
        reveal_strlit("4");
        reveal_strlit("5");
        reveal_strlit("6");
        reveal_strlit("7");
        reveal_strlit("8");
        reveal_strlit("9");
    }
    if d == 0 { "0" }
    else if d == 1 { "1" }
    else if d == 2 { "2" }
    else if d == 3 { "3" }
    else if d == 4 { "4" }
    else if d == 5 { "5" }
    else if d == 6 { "6" }
    else if d == 7 { "7" }
    else if d == 8 { "8" }
    else { "9" }
}

/// Appends the decimal digits of `n` to `out`.
fn push_decimal(out: &mut String, n: u64)
    ensures
        final(out)@ == old(out)@ + decimal_digits(n as nat),
    decreases n,
{
    if n < 10 {
        out.append(digit_str(n));
    } else {
        push_decimal(out, n / 10);
        out.append(digit_str(n % 10));
        assert(decimal_digits(n as nat) == decimal_digits((n / 10) as nat).push(digit_char((n % 10) as nat)));
    }
}

/// Appends `n` to `out` with at least `width` digits, padding with leading zeros.
pub fn push_padded_decimal(out: &mut String, n: u64, width: usize)
    ensures
        final(out)@ == old(out)@ + padded_decimal(n as nat, width as nat),
{
    let mut digits = String::new();
    push_decimal(&mut digits, n);
    let len = digits.as_str().unicode_len();
    assert(digits@ == decimal_digits(n as nat));
    let ghost start = out@;
    let mut i = len;
    proof { reveal_strlit("0"); }
    while i < width
        invariant
            len == decimal_digits(n as nat).len(),
            len <= i <= width || (i == len && len >= width),
            out@ == start + Seq::new((i - len) as nat, |k: int| '0'),
        decreases width - i,
    {
        proof { reveal_strlit("0"); }
        out.append("0");
        i = i + 1;
        assert(out@ =~= start + Seq::new((i - len) as nat, |k: int| '0'));
    }
    out.append(digits.as_str());
    assert(out@ =~= start + padded_decimal(n as nat, width as nat));
}

/// Identifier of an observation batch, kept exactly as the caller supplied it.
#[derive(Debug, Clone, PartialEq, Eq, PartialOrd, Ord, Hash)]
pub struct BatchId(String);

/// Identifier of one observation, kept exactly as the caller supplied it.
#[derive(Debug, Clone, PartialEq, Eq, PartialOrd, Ord, Hash)]
pub struct ObservationId(String);

/// Identifier of a track, kept exactly as the caller supplied it or as the manager generated it.
#[derive(Debug, Clone, PartialEq, Eq, PartialOrd, Ord, Hash)]
pub struct TrackId(String);

impl View for BatchId {
    type V = Seq<char>;

    closed spec fn view(&self) -> Seq<char> {
        self.0@
    }
}

impl View for ObservationId {
    type V = Seq<char>;

    closed spec fn view(&self) -> Seq<char> {
        self.0@
    }
}

impl View for TrackId {
    type V = Seq<char>;

    closed spec fn view(&self) -> Seq<char> {
        self.0@
    }
}

impl BatchId {
    pub fn new(value: &str) -> (id: Self)
        ensures
            id@ == value@,
    {
        BatchId(value.to_owned())
    }

    pub fn from_string(value: String) -> (id: Self)
        ensures
            id@ == value@,
    {
        BatchId(value)
    }

    pub fn as_str(&self) -> (s: &str)
        ensures
            s@ == self@,
    {
        self.0.as_str()
    }

    /// A copy with the same text.
    pub fn duplicate(&self) -> (id: Self)
        ensures
            id@ == self@,
    {
        BatchId(self.0.clone())
    }

    /// Whether two identifiers hold the same text.
    pub fn same(&self, other: &Self) -> (b: bool)
        ensures
            b == (self@ == other@),
    {
        self.0 == other.0
    }
}

impl ObservationId {
    pub fn new(value: &str) -> (id: Self)
        ensures
            id@ == value@,
    {
        ObservationId(value.to_owned())
    }

    pub fn from_string(value: String) -> (id: Self)
        ensures
            id@ == value@,
    {
        ObservationId(value)
    }

    pub fn as_str(&self) -> (s: &str)
        ensures
            s@ == self@,
    {
        self.0.as_str()
    }

    /// A copy with the same text.
    pub fn duplicate(&self) -> (id: Self)
        ensures
            id@ == self@,
    {
        ObservationId(self.0.clone())
    }

    /// Whether two identifiers hold the same text.
    pub fn same(&self, other: &Self) -> (b: bool)
        ensures
            b == (self@ == other@),
    {
        self.0 == other.0
    }
}

impl TrackId {
    pub fn new(value: &str) -> (id: Self)
        ensures
            id@ == value@,
    {
        TrackId(value.to_owned())
    }

    pub fn from_string(value: String) -> (id: Self)
        ensures
            id@ == value@,
    {
        TrackId(value)
    }

    pub fn as_str(&self) -> (s: &str)
        ensures
            s@ == self@,
    {
        self.0.as_str()
    }

    /// A copy with the same text.
    pub fn duplicate(&self) -> (id: Self)
        ensures
            id@ == self@,
    {
        TrackId(self.0.clone())
    }

    /// Whether two identifiers hold the same text.
    pub fn same(&self, other: &Self) -> (b: bool)
        ensures
            b == (self@ == other@),
    {
        self.0 == other.0
    }
}

impl vstd::std_specs::convert::FromSpecImpl<&str> for BatchId {
    open spec fn obeys_from_spec() -> bool {
        false
    }

    open spec fn from_spec(v: &str) -> Self {
        arbitrary()
    }
}

impl From<&str> for BatchId {
    fn from(value: &str) -> (id: Self)
        ensures
            id@ == value@,
    {
        Self::new(value)
    }
}

} // verus!
