//! The Xoodoo[n_r] permutation over a state of 12 lanes of 32 bits.
use vstd::prelude::*;

verus! {

/// Largest number of rounds that Xoodoo[n_r] may be asked for.
pub const MAX_ROUNDS: usize = 12;

/// Rotation of a 32-bit lane towards its most significant bit by `v` places.
pub open spec fn rot(x: u32, v: u32) -> u32 {
    if v == 0 {
        x
    } else {
        (x << v) | (x >> ((32 - v) as u32))
    }
}

/// Rotates `x` left by `v` bits.
pub(crate) fn rotate(x: u32, v: u32) -> (r: u32)
    requires
        v < 32,
    ensures
        r == rot(x, v),
{
    if v == 0 {
        x
    } else {
        (x << v) | (x >> (32 - v))
    }
}

/// The plane `p` shifted cyclically by `t` lanes and `v` bits: lane `i` moves to
/// position `(t + i) mod 4`, rotated by `v`.
pub open spec fn shift_plane(p: Seq<u32>, t: int, v: u32) -> Seq<u32> {
    Seq::new(4, |k: int| rot(p[(k - t + 4) % 4], v))
}

/// Cyclic shift of a plane of four lanes by `T` lanes and `V` bits.
pub fn cyclic_shift<const T: usize, const V: u32>(plane: &[u32]) -> (r: [u32; 4])
    requires
        plane@.len() == 4,
        T < 4,
        V < 32,
    ensures
        r@ == shift_plane(plane@, T as int, V),
{
    let mut shifted = [0u32; 4];
    let mut i: usize = 0;
    while i < 4
        invariant
            0 <= i <= 4,
            plane@.len() == 4,
            T < 4,
            V < 32,
            forall|j: int| 0 <= j < i ==> #[trigger] shifted@[(T + j) % 4] == rot(plane@[j], V),
        decreases 4 - i,
    {
        shifted[(T + i) % 4] = rotate(plane[i], V);
        i = i + 1;
    }
    assert forall|k: int| 0 <= k < 4 implies shifted@[k] == shift_plane(plane@, T as int, V)[k] by {
        let j = (k - T + 4) % 4;
        assert((T + j) % 4 == k);
    }
    assert(shifted@ =~= shift_plane(plane@, T as int, V));
    shifted
}


/// Round constant `i` of Xoodoo, for `0 <= i < 12`.
pub open spec fn rc(i: int) -> u32 {
    if i == 0 {
        0x00000058
    } else if i == 1 {
        0x00000038
    } else if i == 2 {
        0x000003c0
    } else if i == 3 {
        0x000000d0
    } else if i == 4 {
        0x00000120
    } else if i == 5 {
        0x00000014
    } else if i == 6 {
        0x00000060
    } else if i == 7 {
        0x0000002c
    } else if i == 8 {
        0x00000380
    } else if i == 9 {
        0x000000f0
    } else if i == 10 {
        0x000001a0
    } else {
        0x00000012
    }
}

/// Plane `y` (lanes `4y .. 4y + 4`) of a state.
pub open spec fn plane(s: Seq<u32>, y: int) -> Seq<u32> {
    s.subrange(4 * y, 4 * y + 4)
}

/// Column parity of a state: lane `x` is the XOR of lane `x` of the three planes.
pub open spec fn parity(s: Seq<u32>) -> Seq<u32> {
    Seq::new(4, |x: int| s[x] ^ s[4 + x] ^ s[8 + x])
}

/// The θ step: each lane takes the XOR of two shifted copies of the column parity.
pub open spec fn spec_theta(s: Seq<u32>) -> Seq<u32> {
    let p = parity(s);
    let e0 = shift_plane(p, 1, 5);
    let e1 = shift_plane(p, 1, 14);
    Seq::new(12, |i: int| s[i] ^ (e0[i % 4] ^ e1[i % 4]))
}

/// The ρ_west step.
pub open spec fn spec_rho_west(s: Seq<u32>) -> Seq<u32> {
    plane(s, 0) + shift_plane(plane(s, 1), 1, 0) + shift_plane(plane(s, 2), 0, 11)
}

/// The ι step with round index `r`.
pub open spec fn spec_iota(s: Seq<u32>, r: int) -> Seq<u32> {
    s.update(0, s[0] ^ rc(r))
}

/// The χ step: every lane is combined with the two lanes above it in its column,
/// all read from the state before the step.
pub open spec fn spec_chi(s: Seq<u32>) -> Seq<u32> {
    Seq::new(12, |i: int| s[i] ^ (!s[(i + 4) % 12] & s[(i + 8) % 12]))
}

/// The ρ_east step.
pub open spec fn spec_rho_east(s: Seq<u32>) -> Seq<u32> {
    plane(s, 0) + shift_plane(plane(s, 1), 0, 1) + shift_plane(plane(s, 2), 2, 8)
}

/// One round of Xoodoo with round index `r`.
pub open spec fn spec_round(s: Seq<u32>, r: int) -> Seq<u32> {
    spec_rho_east(spec_chi(spec_iota(spec_rho_west(spec_theta(s)), r)))
}

/// The rounds with indices `r, r + 1, .., 11` applied in turn.
pub open spec fn rounds_from(s: Seq<u32>, r: int) -> Seq<u32>
    decreases 12 - r,
{
    if r >= 12 {
        s
    } else {
        rounds_from(spec_round(s, r), r + 1)
    }
}

/// Xoodoo[n]: the last `n` rounds, with indices `12 - n .. 12`.
pub open spec fn spec_permute(s: Seq<u32>, n: int) -> Seq<u32> {
    rounds_from(s, 12 - n)
}

pub(crate) fn round_constant(ridx: usize) -> (r: u32)
    requires
        ridx < 12,
    ensures
        r == rc(ridx as int),
{
    match ridx {
        0 => 0x00000058,
        1 => 0x00000038,
        2 => 0x000003c0,
        3 => 0x000000d0,
        4 => 0x00000120,
        5 => 0x00000014,
        6 => 0x00000060,
        7 => 0x0000002c,
        8 => 0x00000380,
        9 => 0x000000f0,
        10 => 0x000001a0,
        _ => 0x00000012,
    }
}

/// Overwrites plane `y` of the state with `p`.
pub(crate) fn set_plane<T: Copy>(state: &mut [T], y: usize, p: &[T; 4])
    requires
        old(state)@.len() == 12,
        y < 3,
    ensures
        final(state)@ == old(state)@.subrange(0, 4 * y as int) + p@ + old(state)@.subrange(
            4 * y + 4,
            12,
        ),
{
    let ghost s0 = state@;
    let mut x: usize = 0;
    while x < 4
        invariant
            0 <= x <= 4,
            y < 3,
            state@.len() == 12,
            forall|i: int| 0 <= i < 12 && !(4 * y <= i < 4 * y + x) ==> state@[i] == s0[i],
            forall|i: int| 0 <= i < x ==> state@[4 * y + i] == p@[i],
        decreases 4 - x,
    {
        state[4 * y + x] = p[x];
        x = x + 1;
    }
    assert(state@ =~= s0.subrange(0, 4 * y as int) + p@ + s0.subrange(4 * y + 4, 12));
}

/// θ step mapping.
fn theta(state: &mut [u32])
    requires
        old(state)@.len() == 12,
    ensures
        final(state)@ == spec_theta(old(state)@),
{
    let ghost s0 = state@;
    let p: [u32; 4] = [
        state[0] ^ state[4] ^ state[8],
        state[1] ^ state[5] ^ state[9],
        state[2] ^ state[6] ^ state[10],
        state[3] ^ state[7] ^ state[11],
    ];
    assert(p@ =~= parity(s0));
    let t0 = cyclic_shift::<1, 5>(&p);
    let t1 = cyclic_shift::<1, 14>(&p);
    let mut i: usize = 0;
    while i < 12
        invariant
            0 <= i <= 12,
            state@.len() == 12,
            t0@ == shift_plane(parity(s0), 1, 5),
            t1@ == shift_plane(parity(s0), 1, 14),
            forall|j: int| i <= j < 12 ==> state@[j] == s0[j],
            forall|j: int| 0 <= j < i ==> state@[j] == spec_theta(s0)[j],
        decreases 12 - i,
    {
        state[i] = state[i] ^ (t0[i % 4] ^ t1[i % 4]);
        i = i + 1;
    }
    assert(state@ =~= spec_theta(s0));
}

/// ρ_west step mapping.
fn rho_west(state: &mut [u32])
    requires
        old(state)@.len() == 12,
    ensures
        final(state)@ == spec_rho_west(old(state)@),
{
    let t0 = cyclic_shift::<1, 0>(&state[4..8]);
    let t1 = cyclic_shift::<0, 11>(&state[8..12]);
    set_plane(state, 1, &t0);
    set_plane(state, 2, &t1);
    assert(state@ =~= spec_rho_west(old(state)@));
}

/// ρ_east step mapping.
fn rho_east(state: &mut [u32])
    requires
        old(state)@.len() == 12,
    ensures
        final(state)@ == spec_rho_east(old(state)@),
{
    let t0 = cyclic_shift::<0, 1>(&state[4..8]);
    let t1 = cyclic_shift::<2, 8>(&state[8..12]);
    set_plane(state, 1, &t0);
    set_plane(state, 2, &t1);
    assert(state@ =~= spec_rho_east(old(state)@));
}

/// ι step mapping.
fn iota(state: &mut [u32], ridx: usize)
    requires
        old(state)@.len() == 12,
        ridx < 12,
    ensures
        final(state)@ == spec_iota(old(state)@, ridx as int),
{
    state[0] = state[0] ^ round_constant(ridx);
    assert(state@ =~= spec_iota(old(state)@, ridx as int));
}

/// χ step mapping: all increments are computed before any lane changes.
fn chi(state: &mut [u32])
    requires
        old(state)@.len() == 12,
    ensures
        final(state)@ == spec_chi(old(state)@),
{
    let ghost s0 = state@;
    let mut b = [0u32; 12];
    let mut i: usize = 0;
    while i < 12
        invariant
            0 <= i <= 12,
            state@ == s0,
            s0.len() == 12,
            forall|j: int| 0 <= j < i ==> b@[j] == !s0[(j + 4) % 12] & s0[(j + 8) % 12],
        decreases 12 - i,
    {
        b[i] = !state[(i + 4) % 12] & state[(i + 8) % 12];
        i = i + 1;
    }
    let mut i: usize = 0;
    while i < 12
        invariant
            0 <= i <= 12,
            state@.len() == 12,
            s0.len() == 12,
            forall|j: int| 0 <= j < 12 ==> b@[j] == !s0[(j + 4) % 12] & s0[(j + 8) % 12],
            forall|j: int| i <= j < 12 ==> state@[j] == s0[j],
            forall|j: int| 0 <= j < i ==> state@[j] == spec_chi(s0)[j],
        decreases 12 - i,
    {
        state[i] = state[i] ^ b[i];
        i = i + 1;
    }
    assert(state@ =~= spec_chi(s0));
}

/// One Xoodoo round with round index `ridx`.
fn round(state: &mut [u32], ridx: usize)
    requires
        old(state)@.len() == 12,
        ridx < 12,
    ensures
        final(state)@ == spec_round(old(state)@, ridx as int),
{
    theta(state);
    rho_west(state);
    iota(state, ridx);
    chi(state);
    rho_east(state);
}

/// Xoodoo[ROUNDS]: applies the last `ROUNDS` rounds of the twelve, in order.
pub fn permute<const ROUNDS: usize>(state: &mut [u32])
    requires
        old(state)@.len() == 12,
        ROUNDS <= MAX_ROUNDS,
    ensures
        final(state)@ == spec_permute(old(state)@, ROUNDS as int),
{
    let start: usize = MAX_ROUNDS - ROUNDS;
    let mut ridx: usize = start;
    while ridx < MAX_ROUNDS
        invariant
            start <= ridx <= MAX_ROUNDS,
            state@.len() == 12,
            rounds_from(state@, ridx as int) == spec_permute(old(state)@, ROUNDS as int),
        decreases MAX_ROUNDS - ridx,
    {
        round(state, ridx);
        ridx = ridx + 1;
    }
}


proof fn lemma_rot_injective(x: u32, y: u32, v: u32)
    requires
        v < 32,
        rot(x, v) == rot(y, v),
    ensures
        x == y,
{
    assert(v < 32 && rot(x, v) == rot(y, v) ==> x == y) by (bit_vector);
}

proof fn lemma_shift_plane_injective(p: Seq<u32>, q: Seq<u32>, t: int, v: u32)
    requires
        p.len() == 4,
        q.len() == 4,
        0 <= t < 4,
        v < 32,
        shift_plane(p, t, v) == shift_plane(q, t, v),
    ensures
        p == q,
{
    assert forall|i: int| 0 <= i < 4 implies p[i] == q[i] by {
        let k = (t + i) % 4;
        assert((k - t + 4) % 4 == i);
        assert(shift_plane(p, t, v)[k] == rot(p[i], v));
        assert(shift_plane(q, t, v)[k] == rot(q[i], v));
        lemma_rot_injective(p[i], q[i], v);
    }
    assert(p =~= q);
}

/// Two states whose planes agree are equal.
proof fn lemma_planes_equal(s: Seq<u32>, t: Seq<u32>)
    requires
        s.len() == 12,
        t.len() == 12,
        plane(s, 0) == plane(t, 0),
        plane(s, 1) == plane(t, 1),
        plane(s, 2) == plane(t, 2),
    ensures
        s == t,
{
    assert forall|i: int| 0 <= i < 12 implies s[i] == t[i] by {
        let y = i / 4;
        assert(plane(s, y)[i - 4 * y] == plane(t, y)[i - 4 * y]);
    }
    assert(s =~= t);
}

proof fn lemma_rho_west_injective(s: Seq<u32>, t: Seq<u32>)
    requires
        s.len() == 12,
        t.len() == 12,
        spec_rho_west(s) == spec_rho_west(t),
    ensures
        s == t,
{
    let a = spec_rho_west(s);
    let b = spec_rho_west(t);
    assert(plane(a, 0) =~= plane(s, 0));
    assert(plane(b, 0) =~= plane(t, 0));
    assert(plane(a, 1) =~= shift_plane(plane(s, 1), 1, 0));
    assert(plane(b, 1) =~= shift_plane(plane(t, 1), 1, 0));
    assert(plane(a, 2) =~= shift_plane(plane(s, 2), 0, 11));
    assert(plane(b, 2) =~= shift_plane(plane(t, 2), 0, 11));
    lemma_shift_plane_injective(plane(s, 1), plane(t, 1), 1, 0);
    lemma_shift_plane_injective(plane(s, 2), plane(t, 2), 0, 11);
    lemma_planes_equal(s, t);
}

proof fn lemma_rho_east_injective(s: Seq<u32>, t: Seq<u32>)
    requires
        s.len() == 12,
        t.len() == 12,
        spec_rho_east(s) == spec_rho_east(t),
    ensures
        s == t,
{
    let a = spec_rho_east(s);
    let b = spec_rho_east(t);
    assert(plane(a, 0) =~= plane(s, 0));
    assert(plane(b, 0) =~= plane(t, 0));
    assert(plane(a, 1) =~= shift_plane(plane(s, 1), 0, 1));
    assert(plane(b, 1) =~= shift_plane(plane(t, 1), 0, 1));
    assert(plane(a, 2) =~= shift_plane(plane(s, 2), 2, 8));
    assert(plane(b, 2) =~= shift_plane(plane(t, 2), 2, 8));
    lemma_shift_plane_injective(plane(s, 1), plane(t, 1), 0, 1);
    lemma_shift_plane_injective(plane(s, 2), plane(t, 2), 2, 8);
    lemma_planes_equal(s, t);
}

proof fn lemma_xor_cancel(x: u32, y: u32, c: u32)
    by (bit_vector)
    requires
        x ^ c == y ^ c,
    ensures
        x == y,
{
}

proof fn lemma_iota_injective(s: Seq<u32>, t: Seq<u32>, r: int)
    requires
        s.len() == 12,
        t.len() == 12,
        spec_iota(s, r) == spec_iota(t, r),
    ensures
        s == t,
{
    let (a, b) = (spec_iota(s, r), spec_iota(t, r));
    assert(a[0] == s[0] ^ rc(r));
    assert(b[0] == t[0] ^ rc(r));
    assert(a[0] == b[0]);
    lemma_xor_cancel(s[0], t[0], rc(r));
    assert forall|i: int| 0 <= i < 12 implies s[i] == t[i] by {
        if i != 0 {
            assert(a[i] == s[i]);
            assert(b[i] == t[i]);
        }
    }
    assert(s =~= t);
}

/// χ acts on each column of three lanes separately, and is injective there.
proof fn lemma_chi_column(s: Seq<u32>, t: Seq<u32>, x: int)
    requires
        s.len() == 12,
        t.len() == 12,
        0 <= x < 4,
        spec_chi(s) == spec_chi(t),
    ensures
        s[x] == t[x],
        s[4 + x] == t[4 + x],
        s[8 + x] == t[8 + x],
{
    let (a, b, c) = (s[x], s[4 + x], s[8 + x]);
    let (d, e, f) = (t[x], t[4 + x], t[8 + x]);
    assert((x + 4) % 12 == 4 + x && (x + 8) % 12 == 8 + x);
    assert((4 + x + 4) % 12 == 8 + x && (4 + x + 8) % 12 == x);
    assert((8 + x + 4) % 12 == x && (8 + x + 8) % 12 == 4 + x);
    assert(spec_chi(s)[x] == a ^ (!b & c));
    assert(spec_chi(t)[x] == d ^ (!e & f));
    assert(spec_chi(s)[4 + x] == b ^ (!c & a));
    assert(spec_chi(t)[4 + x] == e ^ (!f & d));
    assert(spec_chi(s)[8 + x] == c ^ (!a & b));
    assert(spec_chi(t)[8 + x] == f ^ (!d & e));
    assert((a ^ (!b & c)) == (d ^ (!e & f)) && (b ^ (!c & a)) == (e ^ (!f & d)) && (c ^ (!a & b))
        == (f ^ (!d & e)) ==> a == d && b == e && c == f) by (bit_vector);
}

proof fn lemma_chi_injective(s: Seq<u32>, t: Seq<u32>)
    requires
        s.len() == 12,
        t.len() == 12,
        spec_chi(s) == spec_chi(t),
    ensures
        s == t,
{
    assert forall|i: int| 0 <= i < 12 implies s[i] == t[i] by {
        lemma_chi_column(s, t, i % 4);
    }
    assert(s =~= t);
}

/// The θ effect of one parity lane: two rotated copies XORed.
pub open spec fn theta_mix(x: u32) -> u32 {
    rot(x, 5) ^ rot(x, 14)
}

proof fn lemma_theta_mix_diff(px: u32, qx: u32, pw: u32, qw: u32)
    by (bit_vector)
    requires
        px ^ theta_mix(pw) == qx ^ theta_mix(qw),
    ensures
        px ^ qx == theta_mix(pw ^ qw),
{
}

/// Four θ effects in a row fix no lane but zero.
proof fn lemma_theta_mix4_fixed(d: u32)
    by (bit_vector)
    requires
        d == theta_mix(theta_mix(theta_mix(theta_mix(d)))),
    ensures
        d == 0,
{
}

proof fn lemma_xor_zero(x: u32, y: u32)
    by (bit_vector)
    ensures
        theta_mix(0) == 0,
        (x ^ y == 0) == (x == y),
{
}

proof fn lemma_xor3_common(a: u32, b: u32, c: u32, e: u32)
    by (bit_vector)
    ensures
        (a ^ e) ^ (b ^ e) ^ (c ^ e) == a ^ b ^ c ^ e,
{
}

/// Lane `x` of the θ effect of state `s`.
proof fn lemma_theta_lane(s: Seq<u32>, i: int)
    requires
        s.len() == 12,
        0 <= i < 12,
    ensures
        spec_theta(s)[i] == s[i] ^ theta_mix(parity(s)[(i % 4 + 3) % 4]),
{
    let p = parity(s);
    let x = i % 4;
    assert((x - 1 + 4) % 4 == (x + 3) % 4);
    assert(shift_plane(p, 1, 5)[x] == rot(p[(x + 3) % 4], 5));
    assert(shift_plane(p, 1, 14)[x] == rot(p[(x + 3) % 4], 14));
}

/// The column parity after θ is the parity before, XOR its θ effect.
proof fn lemma_theta_parity(s: Seq<u32>, x: int)
    requires
        s.len() == 12,
        0 <= x < 4,
    ensures
        parity(spec_theta(s))[x] == parity(s)[x] ^ theta_mix(parity(s)[(x + 3) % 4]),
{
    let e = theta_mix(parity(s)[(x + 3) % 4]);
    lemma_theta_lane(s, x);
    lemma_theta_lane(s, 4 + x);
    lemma_theta_lane(s, 8 + x);
    assert((4 + x) % 4 == x && (8 + x) % 4 == x);
    lemma_xor3_common(s[x], s[4 + x], s[8 + x], e);
}

proof fn lemma_theta_parity_diff(s: Seq<u32>, t: Seq<u32>, x: int)
    requires
        s.len() == 12,
        t.len() == 12,
        0 <= x < 4,
        spec_theta(s) == spec_theta(t),
    ensures
        parity(s)[x] ^ parity(t)[x] == theta_mix(
            parity(s)[(x + 3) % 4] ^ parity(t)[(x + 3) % 4],
        ),
{
    lemma_theta_parity(s, x);
    lemma_theta_parity(t, x);
    let (p, q) = (parity(s), parity(t));
    lemma_theta_mix_diff(p[x], q[x], p[(x + 3) % 4], q[(x + 3) % 4]);
}

/// States with the same image under θ have the same column parity.
#[verifier::spinoff_prover]
proof fn lemma_theta_same_parity(s: Seq<u32>, t: Seq<u32>)
    requires
        s.len() == 12,
        t.len() == 12,
        spec_theta(s) == spec_theta(t),
    ensures
        parity(s) == parity(t),
{
    let p = parity(s);
    let q = parity(t);
    lemma_theta_parity_diff(s, t, 0);
    lemma_theta_parity_diff(s, t, 1);
    lemma_theta_parity_diff(s, t, 2);
    lemma_theta_parity_diff(s, t, 3);
    let d0 = p[0] ^ q[0];
    let d1 = p[1] ^ q[1];
    let d2 = p[2] ^ q[2];
    let d3 = p[3] ^ q[3];
    lemma_theta_mix4_fixed(d0);
    lemma_xor_zero(p[0], q[0]);
    lemma_xor_zero(p[1], q[1]);
    lemma_xor_zero(p[2], q[2]);
    lemma_xor_zero(p[3], q[3]);
    assert(p =~= q);
}

#[verifier::spinoff_prover]
proof fn lemma_theta_injective(s: Seq<u32>, t: Seq<u32>)
    requires
        s.len() == 12,
        t.len() == 12,
        spec_theta(s) == spec_theta(t),
    ensures
        s == t,
{
    lemma_theta_same_parity(s, t);
    let p = parity(s);
    assert forall|i: int| 0 <= i < 12 implies s[i] == t[i] by {
        lemma_theta_lane(s, i);
        lemma_theta_lane(t, i);
        let w = (i % 4 + 3) % 4;
        lemma_xor_cancel(s[i], t[i], theta_mix(p[w]));
    }
    assert(s =~= t);
}

/// One round is injective.
proof fn lemma_round_injective(s: Seq<u32>, t: Seq<u32>, r: int)
    requires
        s.len() == 12,
        t.len() == 12,
        spec_round(s, r) == spec_round(t, r),
    ensures
        s == t,
{
    let (s1, t1) = (spec_theta(s), spec_theta(t));
    let (s2, t2) = (spec_rho_west(s1), spec_rho_west(t1));
    let (s3, t3) = (spec_iota(s2, r), spec_iota(t2, r));
    let (s4, t4) = (spec_chi(s3), spec_chi(t3));
    lemma_rho_east_injective(s4, t4);
    lemma_chi_injective(s3, t3);
    lemma_iota_injective(s2, t2, r);
    lemma_rho_west_injective(s1, t1);
    lemma_theta_injective(s, t);
}

/// Rounds keep a state at 12 lanes.
proof fn lemma_round_len(s: Seq<u32>, r: int)
    requires
        s.len() == 12,
    ensures
        spec_round(s, r).len() == 12,
{
}

proof fn lemma_rounds_from_injective(s: Seq<u32>, t: Seq<u32>, r: int)
    requires
        s.len() == 12,
        t.len() == 12,
        rounds_from(s, r) == rounds_from(t, r),
    ensures
        s == t,
    decreases 12 - r,
{
    if r < 12 {
        lemma_round_len(s, r);
        lemma_round_len(t, r);
        lemma_rounds_from_injective(spec_round(s, r), spec_round(t, r), r + 1);
        lemma_round_injective(s, t, r);
    }
}

/// Xoodoo[n] is a permutation: two states with the same image are the same state.
pub proof fn lemma_permute_injective(s: Seq<u32>, t: Seq<u32>, n: int)
    requires
        s.len() == 12,
        t.len() == 12,
        spec_permute(s, n) == spec_permute(t, n),
    ensures
        s == t,
{
    lemma_rounds_from_injective(s, t, 12 - n);
}

/// Xoodoo[n] starts with the round of index `12 - n` and goes on with the rounds
/// of Xoodoo[n - 1]: the rounds used are always the last `n` of the twelve.
pub proof fn lemma_permute_first_round(s: Seq<u32>, n: int)
    requires
        1 <= n <= 12,
    ensures
        spec_permute(s, n) == spec_permute(spec_round(s, 12 - n), n - 1),
{
}

} // verus!
