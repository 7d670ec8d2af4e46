//! The rolling functions of Xoofff: `roll_Xc` advances the input mask and
//! `roll_Xe` the output mask.
use vstd::prelude::*;

use crate::xoodoo::{cyclic_shift, plane, rot, rotate, set_plane, shift_plane};

verus! {

/// Planes 1 and 2 of `s` moved down to planes 0 and 1, with `b` as the new plane 2.
pub open spec fn planes_up(s: Seq<u32>, b: Seq<u32>) -> Seq<u32> {
    plane(s, 1) + plane(s, 2) + b
}

/// The input-mask rolling function roll_Xc. Lane 0 takes a left shift (not a
/// rotation) of itself by 13.
pub open spec fn spec_roll_xc(s: Seq<u32>) -> Seq<u32> {
    let a0 = s[0] ^ (s[0] << 13u32) ^ rot(s[4], 3);
    planes_up(s, shift_plane(plane(s, 0).update(0, a0), 3, 0))
}

/// The output-mask rolling function roll_Xe.
pub open spec fn spec_roll_xe(s: Seq<u32>) -> Seq<u32> {
    let a0 = (s[4] & s[8]) ^ rot(s[0], 5) ^ rot(s[4], 13) ^ 7u32;
    planes_up(s, shift_plane(plane(s, 0).update(0, a0), 3, 0))
}

/// Moves planes 1 and 2 down by one plane and puts `b` in plane 2.
fn shift_planes_up(state: &mut [u32], b: &[u32; 4])
    requires
        old(state)@.len() == 12,
    ensures
        final(state)@ == planes_up(old(state)@, b@),
{
    let ghost s0 = state@;
    let mut i: usize = 0;
    while i < 8
        invariant
            0 <= i <= 8,
            state@.len() == 12,
            forall|j: int| i <= j < 12 ==> state@[j] == s0[j],
            forall|j: int| 0 <= j < i ==> state@[j] == s0[j + 4],
        decreases 8 - i,
    {
        state[i] = state[i + 4];
        i = i + 1;
    }
    set_plane(state, 2, b);
    assert(state@ =~= planes_up(s0, b@));
}

/// Input mask rolling function roll_Xc, updating a state of 12 lanes in place.
pub fn roll_xc(state: &mut [u32])
    requires
        old(state)@.len() == 12,
    ensures
        final(state)@ == spec_roll_xc(old(state)@),
{
    let ghost s0 = state@;
    let r4 = rotate(state[4], 3);
    state[0] = state[0] ^ (state[0] << 13) ^ r4;
    assert(plane(state@, 0) =~= plane(s0, 0).update(0, state@[0]));
    let b = cyclic_shift::<3, 0>(&state[0..4]);
    shift_planes_up(state, &b);
}

/// Output mask rolling function roll_Xe, updating a state of 12 lanes in place.
pub fn roll_xe(state: &mut [u32])
    requires
        old(state)@.len() == 12,
    ensures
        final(state)@ == spec_roll_xe(old(state)@),
{
    let ghost s0 = state@;
    let tmp = state[4] & state[8];
    let r0 = rotate(state[0], 5);
    let r4 = rotate(state[4], 13);
    state[0] = tmp ^ r0 ^ r4 ^ 0x00000007u32;
    assert(plane(state@, 0) =~= plane(s0, 0).update(0, state@[0]));
    let b = cyclic_shift::<3, 0>(&state[0..4]);
    shift_planes_up(state, &b);
}

} // verus!
