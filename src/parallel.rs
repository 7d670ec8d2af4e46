//! Xoodoo over N independent states at once. A state is 12 rows, and row `i`
//! holds lane `i` of each of the N states; every step mapping works row-wise.
use vstd::prelude::*;

use crate::xoodoo::{
    parity, plane, rot, round_constant, set_plane, shift_plane, spec_chi, spec_iota,
    spec_permute, spec_rho_east, spec_rho_west, spec_round, spec_theta, rounds_from, MAX_ROUNDS,
};

verus! {

/// The `j`-th of the states held row-wise in `s`.
pub open spec fn column<const N: usize>(s: Seq<[u32; N]>, j: int) -> Seq<u32> {
    Seq::new(s.len(), |i: int| s[i]@[j])
}

proof fn lemma_column_concat<const N: usize>(a: Seq<[u32; N]>, b: Seq<[u32; N]>, j: int)
    ensures
        column(a + b, j) == column(a, j) + column(b, j),
{
    assert(column(a + b, j) =~= column(a, j) + column(b, j));
}

proof fn lemma_column_subrange<const N: usize>(s: Seq<[u32; N]>, lo: int, hi: int, j: int)
    requires
        0 <= lo <= hi <= s.len(),
    ensures
        column(s.subrange(lo, hi), j) == column(s, j).subrange(lo, hi),
{
    assert(column(s.subrange(lo, hi), j) =~= column(s, j).subrange(lo, hi));
}

/// A row with every entry `x`.
fn splat<const N: usize>(x: u32) -> (r: [u32; N])
    ensures
        forall|j: int| 0 <= j < N ==> r@[j] == x,
{
    [x; N]
}

/// Entry-wise XOR of two rows.
fn vxor<const N: usize>(a: &[u32; N], b: &[u32; N]) -> (r: [u32; N])
    ensures
        forall|j: int| 0 <= j < N ==> r@[j] == a@[j] ^ b@[j],
{
    let mut r = *a;
    let mut j: usize = 0;
    while j < N
        invariant
            0 <= j <= N,
            forall|l: int| 0 <= l < j ==> r@[l] == a@[l] ^ b@[l],
        decreases N - j,
    {
        r[j] = a[j] ^ b[j];
        j = j + 1;
    }
    r
}

/// Entry-wise `!a & b` of two rows.
fn vandn<const N: usize>(a: &[u32; N], b: &[u32; N]) -> (r: [u32; N])
    ensures
        forall|j: int| 0 <= j < N ==> r@[j] == !a@[j] & b@[j],
{
    let mut r = *a;
    let mut j: usize = 0;
    while j < N
        invariant
            0 <= j <= N,
            forall|l: int| 0 <= l < j ==> r@[l] == !a@[l] & b@[l],
        decreases N - j,
    {
        r[j] = !a[j] & b[j];
        j = j + 1;
    }
    r
}

/// Entry-wise rotation of a row by `v` bits, as shifts in both directions.
fn vrot<const N: usize>(a: &[u32; N], v: u32) -> (r: [u32; N])
    requires
        v < 32,
    ensures
        forall|j: int| 0 <= j < N ==> r@[j] == rot(a@[j], v),
{
    let mut r = *a;
    if v == 0 {
        return r;
    }
    let mut j: usize = 0;
    while j < N
        invariant
            0 < v < 32,
            0 <= j <= N,
            forall|l: int| 0 <= l < j ==> r@[l] == rot(a@[l], v),
        decreases N - j,
    {
        r[j] = (a[j] << v) | (a[j] >> (32 - v));
        j = j + 1;
    }
    r
}

/// Cyclic shift of a plane of four rows by `T` lanes and `V` bits, for each of the
/// N states.
pub fn cyclic_shiftx<const N: usize, const T: usize, const V: u32>(plane: &[[u32; N]]) -> (r: [[u32; N]; 4])
    requires
        plane@.len() == 4,
        T < 4,
        V < 32,
    ensures
        forall|j: int| 0 <= j < N ==> column(r@, j) == shift_plane(column(plane@, j), T as int, V),
{
    let mut shifted = [[0u32; N]; 4];
    let mut i: usize = 0;
    while i < 4
        invariant
            0 <= i <= 4,
            plane@.len() == 4,
            T < 4,
            V < 32,
            forall|k: int, j: int|
                0 <= k < i && 0 <= j < N ==> #[trigger] shifted@[(T + k) % 4]@[j] == rot(
                    plane@[k]@[j],
                    V,
                ),
        decreases 4 - i,
    {
        shifted[(T + i) % 4] = vrot(&plane[i], V);
        i = i + 1;
    }
    assert forall|j: int| 0 <= j < N implies column(shifted@, j) == shift_plane(
        column(plane@, j),
        T as int,
        V,
    ) by {
        assert forall|x: int| 0 <= x < 4 implies column(shifted@, j)[x] == shift_plane(
            column(plane@, j),
            T as int,
            V,
        )[x] by {
            let k = (x - T + 4) % 4;
            assert((T + k) % 4 == x);
            assert(shifted@[(T + k) % 4]@[j] == rot(plane@[k]@[j], V));
        }
        assert(column(shifted@, j) =~= shift_plane(column(plane@, j), T as int, V));
    }
    shifted
}


/// θ step mapping on each of the N states.
fn thetax<const N: usize>(state: &mut [[u32; N]])
    requires
        old(state)@.len() == 12,
    ensures
        final(state)@.len() == 12,
        forall|j: int| 0 <= j < N ==> column(final(state)@, j) == spec_theta(column(old(state)@, j)),
{
    let ghost s0 = state@;
    let p: [[u32; N]; 4] = [
        vxor(&vxor(&state[0], &state[4]), &state[8]),
        vxor(&vxor(&state[1], &state[5]), &state[9]),
        vxor(&vxor(&state[2], &state[6]), &state[10]),
        vxor(&vxor(&state[3], &state[7]), &state[11]),
    ];
    assert forall|j: int| 0 <= j < N implies column(p@, j) == parity(column(s0, j)) by {
        assert(column(p@, j) =~= parity(column(s0, j)));
    }
    let t0 = cyclic_shiftx::<N, 1, 5>(&p);
    let t1 = cyclic_shiftx::<N, 1, 14>(&p);
    let mut i: usize = 0;
    while i < 12
        invariant
            0 <= i <= 12,
            state@.len() == 12,
            s0.len() == 12,
            forall|j: int|
                0 <= j < N ==> #[trigger] column(t0@, j) == shift_plane(
                    parity(column(s0, j)),
                    1,
                    5,
                ),
            forall|j: int|
                0 <= j < N ==> #[trigger] column(t1@, j) == shift_plane(
                    parity(column(s0, j)),
                    1,
                    14,
                ),
            forall|k: int| i <= k < 12 ==> state@[k] == s0[k],
            forall|k: int, j: int|
                0 <= k < i && 0 <= j < N ==> #[trigger] state@[k]@[j] == spec_theta(
                    column(s0, j),
                )[k],
        decreases 12 - i,
    {
        let e = vxor(&t0[i % 4], &t1[i % 4]);
        let row = vxor(&state[i], &e);
        proof {
            assert forall|j: int| 0 <= j < N implies row@[j] == spec_theta(column(s0, j))[i as int] by {
                let c = column(s0, j);
                let x = (i % 4) as int;
                assert(column(t0@, j)[x] == t0@[x]@[j]);
                assert(column(t1@, j)[x] == t1@[x]@[j]);
                assert(c[i as int] == s0[i as int]@[j]);
                assert(spec_theta(c)[i as int] == c[i as int] ^ (shift_plane(parity(c), 1, 5)[x]
                    ^ shift_plane(parity(c), 1, 14)[x]));
            }
        }
        state[i] = row;
        i = i + 1;
    }
    assert forall|j: int| 0 <= j < N implies column(state@, j) == spec_theta(column(s0, j)) by {
        assert(column(state@, j) =~= spec_theta(column(s0, j)));
    }
}


/// The columns of a state whose plane 0 is kept from `s` and planes 1 and 2
/// are replaced by `a` and `b`.
proof fn lemma_replace_planes<const N: usize>(s: Seq<[u32; N]>, a: Seq<[u32; N]>, b: Seq<[u32; N]>, j: int)
    requires
        s.len() == 12,
    ensures
        column(s.subrange(0, 4) + a + b, j) == plane(column(s, j), 0) + column(a, j) + column(b, j),
{
    lemma_column_concat(s.subrange(0, 4) + a, b, j);
    lemma_column_concat(s.subrange(0, 4), a, j);
    lemma_column_subrange(s, 0, 4, j);
}

/// ρ_west step mapping on each of the N states.
fn rho_westx<const N: usize>(state: &mut [[u32; N]])
    requires
        old(state)@.len() == 12,
    ensures
        final(state)@.len() == 12,
        forall|j: int|
            0 <= j < N ==> column(final(state)@, j) == spec_rho_west(column(old(state)@, j)),
{
    let ghost s0 = state@;
    let t0 = cyclic_shiftx::<N, 1, 0>(&state[4..8]);
    let t1 = cyclic_shiftx::<N, 0, 11>(&state[8..12]);
    set_plane(state, 1, &t0);
    set_plane(state, 2, &t1);
    proof {
        assert(state@ =~= s0.subrange(0, 4) + t0@ + t1@);
        assert forall|j: int| 0 <= j < N implies column(state@, j) == spec_rho_west(
            column(s0, j),
        ) by {
            lemma_replace_planes(s0, t0@, t1@, j);
            lemma_column_subrange(s0, 4, 8, j);
            lemma_column_subrange(s0, 8, 12, j);
        }
    }
}

/// ρ_east step mapping on each of the N states.
fn rho_eastx<const N: usize>(state: &mut [[u32; N]])
    requires
        old(state)@.len() == 12,
    ensures
        final(state)@.len() == 12,
        forall|j: int|
            0 <= j < N ==> column(final(state)@, j) == spec_rho_east(column(old(state)@, j)),
{
    let ghost s0 = state@;
    let t0 = cyclic_shiftx::<N, 0, 1>(&state[4..8]);
    let t1 = cyclic_shiftx::<N, 2, 8>(&state[8..12]);
    set_plane(state, 1, &t0);
    set_plane(state, 2, &t1);
    proof {
        assert(state@ =~= s0.subrange(0, 4) + t0@ + t1@);
        assert forall|j: int| 0 <= j < N implies column(state@, j) == spec_rho_east(
            column(s0, j),
        ) by {
            lemma_replace_planes(s0, t0@, t1@, j);
            lemma_column_subrange(s0, 4, 8, j);
            lemma_column_subrange(s0, 8, 12, j);
        }
    }
}

/// ι step mapping on each of the N states.
fn iotax<const N: usize>(state: &mut [[u32; N]], ridx: usize)
    requires
        old(state)@.len() == 12,
        ridx < 12,
    ensures
        final(state)@.len() == 12,
        forall|j: int|
            0 <= j < N ==> column(final(state)@, j) == spec_iota(
                column(old(state)@, j),
                ridx as int,
            ),
{
    let ghost s0 = state@;
    let c = splat::<N>(round_constant(ridx));
    state[0] = vxor(&state[0], &c);
    assert forall|j: int| 0 <= j < N implies column(state@, j) == spec_iota(
        column(s0, j),
        ridx as int,
    ) by {
        assert(column(state@, j) =~= spec_iota(column(s0, j), ridx as int));
    }
}

/// χ step mapping on each of the N states: all increments are computed before
/// any row changes.
fn chix<const N: usize>(state: &mut [[u32; N]])
    requires
        old(state)@.len() == 12,
    ensures
        final(state)@.len() == 12,
        forall|j: int| 0 <= j < N ==> column(final(state)@, j) == spec_chi(column(old(state)@, j)),
{
    let ghost s0 = state@;
    let mut b = [[0u32; N]; 12];
    let mut i: usize = 0;
    while i < 12
        invariant
            0 <= i <= 12,
            state@ == s0,
            s0.len() == 12,
            forall|k: int, j: int|
                0 <= k < i && 0 <= j < N ==> #[trigger] b@[k]@[j] == !s0[(k + 4) % 12]@[j] & s0[(k
                    + 8) % 12]@[j],
        decreases 12 - i,
    {
        b[i] = vandn(&state[(i + 4) % 12], &state[(i + 8) % 12]);
        i = i + 1;
    }
    let mut i: usize = 0;
    while i < 12
        invariant
            0 <= i <= 12,
            state@.len() == 12,
            s0.len() == 12,
            forall|k: int, j: int|
                0 <= k < 12 && 0 <= j < N ==> #[trigger] b@[k]@[j] == !s0[(k + 4) % 12]@[j] & s0[(k
                    + 8) % 12]@[j],
            forall|k: int| i <= k < 12 ==> state@[k] == s0[k],
            forall|k: int, j: int|
                0 <= k < i && 0 <= j < N ==> #[trigger] state@[k]@[j] == spec_chi(column(s0, j))[k],
        decreases 12 - i,
    {
        let row = vxor(&state[i], &b[i]);
        proof {
            assert forall|j: int| 0 <= j < N implies row@[j] == spec_chi(column(s0, j))[i as int] by {
                let c = column(s0, j);
                assert(c[i as int] == s0[i as int]@[j]);
                assert(c[(i + 4) % 12] == s0[(i + 4) % 12]@[j]);
                assert(c[(i + 8) % 12] == s0[(i + 8) % 12]@[j]);
                assert(b@[i as int]@[j] == !s0[(i + 4) % 12]@[j] & s0[(i + 8) % 12]@[j]);
            }
        }
        state[i] = row;
        i = i + 1;
    }
    assert forall|j: int| 0 <= j < N implies column(state@, j) == spec_chi(column(s0, j)) by {
        assert(column(state@, j) =~= spec_chi(column(s0, j)));
    }
}

/// One Xoodoo round with round index `ridx` on each of the N states.
fn roundx<const N: usize>(state: &mut [[u32; N]], ridx: usize)
    requires
        old(state)@.len() == 12,
        ridx < 12,
    ensures
        final(state)@.len() == 12,
        forall|j: int|
            0 <= j < N ==> column(final(state)@, j) == spec_round(
                column(old(state)@, j),
                ridx as int,
            ),
{
    thetax(state);
    rho_westx(state);
    iotax(state, ridx);
    chix(state);
    rho_eastx(state);
}

/// Xoodoo[ROUNDS] on N states at once: each state ends as the scalar permutation
/// would leave it.
pub fn permutex<const N: usize, const ROUNDS: usize>(state: &mut [[u32; N]])
    requires
        old(state)@.len() == 12,
        ROUNDS <= MAX_ROUNDS,
    ensures
        final(state)@.len() == 12,
        forall|j: int|
            0 <= j < N ==> column(final(state)@, j) == spec_permute(
                column(old(state)@, j),
                ROUNDS as int,
            ),
{
    let start: usize = MAX_ROUNDS - ROUNDS;
    let mut ridx: usize = start;
    while ridx < MAX_ROUNDS
        invariant
            start <= ridx <= MAX_ROUNDS,
            state@.len() == 12,
            forall|j: int|
                0 <= j < N ==> rounds_from(#[trigger] column(state@, j), ridx as int)
                    == spec_permute(column(old(state)@, j), ROUNDS as int),
        decreases MAX_ROUNDS - ridx,
    {
        roundx(state, ridx);
        ridx = ridx + 1;
    }
}


/// Reads the `j`-th state out of its rows.
pub(crate) fn load_state<const N: usize>(states: &[[u32; N]; 12], j: usize) -> (r: [u32; 12])
    requires
        j < N,
    ensures
        r@ == column(states@, j as int),
{
    let mut r = [0u32; 12];
    let mut i: usize = 0;
    while i < 12
        invariant
            0 <= i <= 12,
            j < N,
            forall|k: int| 0 <= k < i ==> r@[k] == states@[k]@[j as int],
        decreases 12 - i,
    {
        r[i] = states[i][j];
        i = i + 1;
    }
    assert(r@ =~= column(states@, j as int));
    r
}

/// Writes `w` as the `j`-th state into the rows, leaving the other states as they were.
pub(crate) fn store_state<const N: usize>(states: &mut [[u32; N]; 12], j: usize, w: &[u32; 12])
    requires
        j < N,
    ensures
        column(final(states)@, j as int) == w@,
        forall|l: int|
            0 <= l < N && l != j ==> column(final(states)@, l) == column(old(states)@, l),
{
    let mut i: usize = 0;
    while i < 12
        invariant
            0 <= i <= 12,
            j < N,
            forall|k: int| 0 <= k < i ==> states@[k]@[j as int] == w@[k],
            forall|k: int| i <= k < 12 ==> states@[k] == old(states)@[k],
            forall|k: int, l: int|
                0 <= k < 12 && 0 <= l < N && l != j ==> #[trigger] states@[k]@[l] == old(
                    states,
                )@[k]@[l],
        decreases 12 - i,
    {
        let mut row = states[i];
        row[j] = w[i];
        states[i] = row;
        i = i + 1;
    }
    assert(column(states@, j as int) =~= w@);
    assert forall|l: int| 0 <= l < N && l != j implies column(states@, l) == column(
        old(states)@,
        l,
    ) by {
        assert(column(states@, l) =~= column(old(states)@, l));
    }
}


/// XORs lane `i` of `w` into every entry of row `i`, that is, `w` into each of the
/// N states.
pub(crate) fn xor_rows<const N: usize>(states: &mut [[u32; N]; 12], w: &[u32; 12])
    ensures
        forall|l: int|
            0 <= l < N ==> #[trigger] column(final(states)@, l) == Seq::new(
                12,
                |i: int| column(old(states)@, l)[i] ^ w@[i],
            ),
{
    let mut i: usize = 0;
    while i < 12
        invariant
            0 <= i <= 12,
            forall|k: int| i <= k < 12 ==> states@[k] == old(states)@[k],
            forall|k: int, l: int|
                0 <= k < i && 0 <= l < N ==> #[trigger] states@[k]@[l] == old(states)@[k]@[l]
                    ^ w@[k],
        decreases 12 - i,
    {
        let c = splat::<N>(w[i]);
        states[i] = vxor(&states[i], &c);
        i = i + 1;
    }
    assert forall|l: int| 0 <= l < N implies #[trigger] column(states@, l) == Seq::new(
        12,
        |i: int| column(old(states)@, l)[i] ^ w@[i],
    ) by {
        assert(column(states@, l) =~= Seq::new(12, |i: int| column(old(states)@, l)[i] ^ w@[i]));
    }
}

} // verus!
