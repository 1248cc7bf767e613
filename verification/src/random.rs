//! A stateless, named random source: every draw hashes its full name, so adding unrelated
//! draws never changes an existing one.

use vstd::prelude::*;

use crate::fingerprint::{sha256_digest, sha256_of};
use vstd::string::StringSliceAdditionalSpecFns;

verus! {

/// The `n` low bytes of `x`, least significant first.
pub open spec fn le_bytes(x: nat, n: nat) -> Seq<u8>
    decreases n,
{
    if n == 0 {
        Seq::empty()
    } else {
        seq![(x % 256) as u8] + le_bytes(x / 256, (n - 1) as nat)
    }
}

/// The eight bytes of `x`, least significant first (as `u64::to_le_bytes`).
pub open spec fn u64_le(x: u64) -> Seq<u8> {
    le_bytes(x as nat, 8)
}

/// The value of little-endian `bytes`.
pub open spec fn le_value(bytes: Seq<u8>) -> nat
    decreases bytes.len(),
{
    if bytes.len() == 0 {
        0
    } else {
        bytes[0] as nat + 256 * le_value(bytes.drop_first())
    }
}

/// Appends the little-endian bytes of `x`.
fn push_u64_le(out: &mut Vec<u8>, x: u64)
    ensures
        final(out)@ == old(out)@ + u64_le(x),
{
    let ghost start = out@;
    let mut v: u64 = x;
    let mut k: usize = 0;
    while k < 8
        invariant
            0 <= k <= 8,
            out@ + le_bytes(v as nat, (8 - k) as nat) == start + le_bytes(x as nat, 8),
        decreases 8 - k,
    {
        let ghost before = out@;
        out.push((v % 256) as u8);
        proof {
            assert(le_bytes(v as nat, (8 - k) as nat)
                == seq![(v % 256) as u8] + le_bytes((v / 256) as nat, (8 - k - 1) as nat));
            assert(out@ == before.push((v % 256) as u8));
            assert(out@ + le_bytes((v / 256) as nat, (8 - k - 1) as nat)
                =~= before + le_bytes(v as nat, (8 - k) as nat));
        }
        v = v / 256;
        k = k + 1;
    }
    assert(le_bytes(v as nat, 0) =~= Seq::<u8>::empty());
    assert(out@ =~= start + u64_le(x));
}

/// Appends `bytes`.
fn push_bytes(out: &mut Vec<u8>, bytes: &[u8])
    ensures
        final(out)@ == old(out)@ + bytes@,
{
    let ghost start = out@;
    let mut k: usize = 0;
    while k < bytes.len()
        invariant
            0 <= k <= bytes@.len(),
            out@ == start + bytes@.take(k as int),
        decreases bytes@.len() - k,
    {
        out.push(bytes[k]);
        k = k + 1;
        assert(out@ =~= start + bytes@.take(k as int));
    }
    assert(bytes@.take(bytes@.len() as int) == bytes@);
}

/// The tag that starts every hashed draw name.
pub open spec fn random_tag() -> Seq<u8> {
    "fusion-deterministic-random-1".spec_bytes()
}

/// The bytes hashed for one draw: the tag, the root seed, then the component, event, effect,
/// subject and draw index, each text preceded by its length in bytes.
pub open spec fn draw_key(
    root_seed: u64,
    component: Seq<u8>,
    event: u64,
    effect: Seq<u8>,
    subject: Seq<u8>,
    draw: u64,
) -> Seq<u8> {
    random_tag() + u64_le(root_seed) + u64_le(component.len() as u64) + component + u64_le(event)
        + u64_le(effect.len() as u64) + effect + u64_le(subject.len() as u64) + subject + u64_le(draw)
}

/// The 64 random bits of a draw: the first eight bytes of the SHA-256 digest of its name,
/// read little-endian.
pub open spec fn draw_bits_of(
    root_seed: u64,
    component: Seq<u8>,
    event: u64,
    effect: Seq<u8>,
    subject: Seq<u8>,
    draw: u64,
) -> nat {
    le_value(sha256_of(draw_key(root_seed, component, event, effect, subject, draw)).take(8))
}

/// A random source keyed by a root seed.
#[derive(Debug, Clone, Copy)]
pub struct DeterministicRandom {
    pub root_seed: u64,
}

/// `256` to the power `n`.
pub open spec fn pow256(n: nat) -> nat
    decreases n,
{
    if n == 0 { 1 } else { 256 * pow256((n - 1) as nat) }
}

proof fn lemma_pow256_monotone(a: nat, b: nat)
    requires
        a <= b,
    ensures
        pow256(a) <= pow256(b),
    decreases b,
{
    if a < b {
        lemma_pow256_monotone(a, (b - 1) as nat);
    }
}

proof fn lemma_le_value_bound(bytes: Seq<u8>)
    ensures
        le_value(bytes) < pow256(bytes.len()),
    decreases bytes.len(),
{
    if bytes.len() > 0 {
        lemma_le_value_bound(bytes.drop_first());
        let p = pow256((bytes.len() - 1) as nat);
        let r = le_value(bytes.drop_first());
        assert(bytes[0] as nat + 256 * r < 256 * p) by (nonlinear_arith)
            requires r < p, bytes[0] < 256;
    }
}

impl DeterministicRandom {
    pub fn new(root_seed: u64) -> (r: Self)
        ensures
            r.root_seed == root_seed,
    {
        DeterministicRandom { root_seed }
    }

    /// The bytes hashed for the draw `draw` of `effect` on `subject` in `component` at
    /// `event`.
    pub fn draw_name(&self, component: &str, event: u64, effect: &str, subject: &str, draw: u64) -> (key: Vec<u8>)
        ensures
            key@ == draw_key(self.root_seed, component.spec_bytes(), event, effect.spec_bytes(),
                subject.spec_bytes(), draw),
    {
        let mut key: Vec<u8> = Vec::new();
        push_bytes(&mut key, "fusion-deterministic-random-1".as_bytes());
        let component_bytes = component.as_bytes();
        let effect_bytes = effect.as_bytes();
        let subject_bytes = subject.as_bytes();
        push_u64_le(&mut key, self.root_seed);
        push_u64_le(&mut key, component_bytes.len() as u64);
        push_bytes(&mut key, component_bytes);
        push_u64_le(&mut key, event);
        push_u64_le(&mut key, effect_bytes.len() as u64);
        push_bytes(&mut key, effect_bytes);
        push_u64_le(&mut key, subject_bytes.len() as u64);
        push_bytes(&mut key, subject_bytes);
        push_u64_le(&mut key, draw);
        assert(key@ =~= draw_key(self.root_seed, component.spec_bytes(), event, effect.spec_bytes(),
            subject.spec_bytes(), draw));
        key
    }

    /// The 64 random bits of one named draw.
    pub fn draw_bits(&self, component: &str, event: u64, effect: &str, subject: &str, draw: u64) -> (v: u64)
        ensures
            v == draw_bits_of(self.root_seed, component.spec_bytes(), event, effect.spec_bytes(),
                subject.spec_bytes(), draw),
    {
        let key = self.draw_name(component, event, effect, subject, draw);
        let digest = sha256_digest(key.as_slice());
        let ghost first = digest@.take(8);
        let mut v: u64 = 0;
        let mut k: usize = 8;
        while k > 0
            invariant
                0 <= k <= 8,
                digest@.len() == 32,
                first == digest@.take(8),
                v as nat == le_value(first.subrange(k as int, 8)),
            decreases k,
        {
            k = k - 1;
            proof {
                let rest = first.subrange(k + 1, 8);
                let cur = first.subrange(k as int, 8);
                assert(cur.drop_first() =~= rest);
                assert(cur[0] == digest@[k as int]);
                lemma_le_value_bound(rest);
                lemma_pow256_monotone(rest.len(), 7);
                reveal_with_fuel(pow256, 8);
                assert(pow256(7) == 0x100_0000_0000_0000);
                assert(v < 0x100_0000_0000_0000);
            }
            v = v * 256 + digest[k] as u64;
        }
        assert(first.subrange(0, 8) =~= first);
        v
    }
}

proof fn lemma_le_bytes_len(x: nat, n: nat)
    ensures
        le_bytes(x, n).len() == n,
    decreases n,
{
    if n > 0 {
        lemma_le_bytes_len(x / 256, (n - 1) as nat);
    }
}

proof fn lemma_le_bytes_injective(x: nat, y: nat, n: nat)
    requires
        x < pow256(n),
        y < pow256(n),
        le_bytes(x, n) == le_bytes(y, n),
    ensures
        x == y,
    decreases n,
{
    if n > 0 {
        let (bx, by) = (le_bytes(x, n), le_bytes(y, n));
        assert(bx[0] == (x % 256) as u8);
        assert(by[0] == (y % 256) as u8);
        assert(bx.drop_first() =~= le_bytes(x / 256, (n - 1) as nat));
        assert(by.drop_first() =~= le_bytes(y / 256, (n - 1) as nat));
        let p = pow256((n - 1) as nat);
        assert(x / 256 < p) by (nonlinear_arith)
            requires x < 256 * p;
        assert(y / 256 < p) by (nonlinear_arith)
            requires y < 256 * p;
        lemma_le_bytes_injective(x / 256, y / 256, (n - 1) as nat);
        assert(x == 256 * (x / 256) + x % 256) by (nonlinear_arith);
        assert(y == 256 * (y / 256) + y % 256) by (nonlinear_arith);
    }
}

proof fn lemma_u64_le_injective(x: u64, y: u64)
    requires
        u64_le(x) == u64_le(y),
    ensures
        x == y,
{
    reveal_with_fuel(pow256, 9);
    assert(pow256(8) == 0x1_0000_0000_0000_0000);
    lemma_le_bytes_injective(x as nat, y as nat, 8);
}

proof fn lemma_concat_split<A>(a1: Seq<A>, r1: Seq<A>, a2: Seq<A>, r2: Seq<A>)
    requires
        a1 + r1 == a2 + r2,
        a1.len() == a2.len(),
    ensures
        a1 == a2,
        r1 == r2,
{
    assert(a1 =~= (a1 + r1).subrange(0, a1.len() as int));
    assert(a2 =~= (a2 + r2).subrange(0, a2.len() as int));
    assert(r1 =~= (a1 + r1).subrange(a1.len() as int, (a1 + r1).len() as int));
    assert(r2 =~= (a2 + r2).subrange(a2.len() as int, (a2 + r2).len() as int));
}

/// Different draws hash different bytes: two draws whose hashed names are equal have the same
/// root seed, component, event, effect, subject and draw index. So each draw is keyed by its
/// whole name, and adding draws of other names changes none of the existing ones.
#[verifier::spinoff_prover]
#[verifier::rlimit(60)]
pub proof fn lemma_draw_key_injective(
    seed1: u64, component1: Seq<u8>, event1: u64, effect1: Seq<u8>, subject1: Seq<u8>, draw1: u64,
    seed2: u64, component2: Seq<u8>, event2: u64, effect2: Seq<u8>, subject2: Seq<u8>, draw2: u64,
)
    requires
        component1.len() <= u64::MAX,
        component2.len() <= u64::MAX,
        effect1.len() <= u64::MAX,
        effect2.len() <= u64::MAX,
        subject1.len() <= u64::MAX,
        subject2.len() <= u64::MAX,
        draw_key(seed1, component1, event1, effect1, subject1, draw1)
            == draw_key(seed2, component2, event2, effect2, subject2, draw2),
    ensures
        seed1 == seed2,
        component1 == component2,
        event1 == event2,
        effect1 == effect2,
        subject1 == subject2,
        draw1 == draw2,
{
    lemma_le_bytes_len(seed1 as nat, 8);
    lemma_le_bytes_len(seed2 as nat, 8);
    lemma_le_bytes_len(component1.len() as u64 as nat, 8);
    lemma_le_bytes_len(component2.len() as u64 as nat, 8);
    lemma_le_bytes_len(event1 as nat, 8);
    lemma_le_bytes_len(event2 as nat, 8);
    lemma_le_bytes_len(effect1.len() as u64 as nat, 8);
    lemma_le_bytes_len(effect2.len() as u64 as nat, 8);
    lemma_le_bytes_len(subject1.len() as u64 as nat, 8);
    lemma_le_bytes_len(subject2.len() as u64 as nat, 8);
    let t1_8 = subject1 + u64_le(draw1);
    let t2_8 = subject2 + u64_le(draw2);
    let t1_7 = u64_le(subject1.len() as u64) + t1_8;
    let t2_7 = u64_le(subject2.len() as u64) + t2_8;
    let t1_6 = effect1 + t1_7;
    let t2_6 = effect2 + t2_7;
    let t1_5 = u64_le(effect1.len() as u64) + t1_6;
    let t2_5 = u64_le(effect2.len() as u64) + t2_6;
    let t1_4 = u64_le(event1) + t1_5;
    let t2_4 = u64_le(event2) + t2_5;
    let t1_3 = component1 + t1_4;
    let t2_3 = component2 + t2_4;
    let t1_2 = u64_le(component1.len() as u64) + t1_3;
    let t2_2 = u64_le(component2.len() as u64) + t2_3;
    let t1_1 = u64_le(seed1) + t1_2;
    let t2_1 = u64_le(seed2) + t2_2;
    assert(draw_key(seed1, component1, event1, effect1, subject1, draw1) =~= random_tag() + t1_1);
    assert(draw_key(seed2, component2, event2, effect2, subject2, draw2) =~= random_tag() + t2_1);
    lemma_concat_split(random_tag(), t1_1, random_tag(), t2_1);
    lemma_concat_split(u64_le(seed1), t1_2, u64_le(seed2), t2_2);
    lemma_u64_le_injective(seed1, seed2);
    lemma_concat_split(u64_le(component1.len() as u64), t1_3, u64_le(component2.len() as u64), t2_3);
    lemma_u64_le_injective(component1.len() as u64, component2.len() as u64);
    lemma_concat_split(component1, t1_4, component2, t2_4);
    lemma_concat_split(u64_le(event1), t1_5, u64_le(event2), t2_5);
    lemma_u64_le_injective(event1, event2);
    lemma_concat_split(u64_le(effect1.len() as u64), t1_6, u64_le(effect2.len() as u64), t2_6);
    lemma_u64_le_injective(effect1.len() as u64, effect2.len() as u64);
    lemma_concat_split(effect1, t1_7, effect2, t2_7);
    lemma_concat_split(u64_le(subject1.len() as u64), t1_8, u64_le(subject2.len() as u64), t2_8);
    lemma_u64_le_injective(subject1.len() as u64, subject2.len() as u64);
    lemma_concat_split(subject1, u64_le(draw1), subject2, u64_le(draw2));
    lemma_u64_le_injective(draw1, draw2);
}

} // verus!
