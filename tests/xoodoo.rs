use xoofff::parallel::{cyclic_shiftx, permutex};
use xoofff::rolling::{roll_xc, roll_xe};
use xoofff::xoodoo::{cyclic_shift, permute};

/// Small deterministic generator of test words.
fn words(seed: u64, n: usize) -> Vec<u32> {
    let mut x = seed ^ 0x9e37_79b9_7f4a_7c15;
    let mut v = Vec::new();
    for _ in 0..n {
        x ^= x << 13;
        x ^= x >> 7;
        x ^= x << 17;
        v.push((x >> 16) as u32);
    }
    v
}

#[test]
fn test_xoodoo_simd() {
    let w1 = words(1, 12);
    let w2 = words(2, 12);
    let mut state1 = [0u32; 12];
    let mut state2 = [0u32; 12];
    state1.copy_from_slice(&w1);
    state2.copy_from_slice(&w2);

    let mut statex2 = [[0u32; 2]; 12];
    for i in 0..12 {
        statex2[i] = [state1[i], state2[i]];
    }

    permute::<12>(&mut state1);
    permute::<12>(&mut state2);
    permutex::<2, 12>(&mut statex2);

    let mut state12 = [0u32; 12];
    let mut state22 = [0u32; 12];
    for i in 0..12 {
        let [s1, s2] = statex2[i];
        state12[i] = s1;
        state22[i] = s2;
    }

    assert_eq!(state1, state12);
    assert_eq!(state2, state22);
}

#[test]
fn parallel_matches_scalar_for_wider_vectors() {
    for rounds in [6usize, 12] {
        let mut scalar = [[0u32; 12]; 16];
        let mut statex = [[0u32; 16]; 12];
        for j in 0..16 {
            let w = words(100 + j as u64, 12);
            scalar[j].copy_from_slice(&w);
            for i in 0..12 {
                statex[i][j] = w[i];
            }
        }
        for j in 0..16 {
            if rounds == 6 {
                permute::<6>(&mut scalar[j]);
            } else {
                permute::<12>(&mut scalar[j]);
            }
        }
        if rounds == 6 {
            permutex::<16, 6>(&mut statex);
        } else {
            permutex::<16, 12>(&mut statex);
        }
        for j in 0..16 {
            for i in 0..12 {
                assert_eq!(statex[i][j], scalar[j][i]);
            }
        }
    }
}

#[test]
fn zero_rounds_is_identity() {
    let w = words(7, 12);
    let mut s = [0u32; 12];
    s.copy_from_slice(&w);
    let before = s;
    permute::<0>(&mut s);
    assert_eq!(s, before);
}

#[test]
fn one_round_uses_last_round_constant() {
    // On the zero state only ι and χ act: lane 0 gets RC[11] = 0x12, χ copies it to
    // lane 4, which ρ_east rotates by one bit.
    let mut s = [0u32; 12];
    permute::<1>(&mut s);
    assert_eq!(s, [0x12, 0, 0, 0, 0x24, 0, 0, 0, 0, 0, 0, 0]);
}

#[test]
fn permutation_separates_states() {
    let mut a = [0u32; 12];
    let mut b = [0u32; 12];
    b[5] = 1;
    permute::<12>(&mut a);
    permute::<12>(&mut b);
    assert_ne!(a, b);
}

#[test]
fn cyclic_shift_moves_and_rotates_lanes() {
    let plane = [1u32, 0x8000_0000, 3, 0];
    let r = cyclic_shift::<1, 5>(&plane);
    assert_eq!(r, [0, 32, 0x10, 3 << 5]);
    let r = cyclic_shift::<0, 1>(&plane);
    assert_eq!(r, [2, 1, 6, 0]);
    let r = cyclic_shift::<3, 0>(&plane);
    assert_eq!(r, [0x8000_0000, 3, 0, 1]);
}

#[test]
fn cyclic_shiftx_acts_per_state() {
    let plane = [[1u32, 2], [0x8000_0000, 4], [3, 0], [0, 1]];
    let r = cyclic_shiftx::<2, 2, 8>(&plane);
    assert_eq!(r, [[0x300, 0], [0, 0x100], [0x100, 0x200], [0x80, 0x400]]);
}

#[test]
fn roll_xc_shifts_without_rotating() {
    let mut s = [0u32; 12];
    s[0] = 1;
    roll_xc(&mut s);
    assert_eq!(s, [0, 0, 0, 0, 0, 0, 0, 0, 0, 0, 0, 0x2001]);

    let mut s = [0u32; 12];
    s[0] = 0x8000_0000;
    roll_xc(&mut s);
    // the left shift drops the top bit instead of rotating it round
    assert_eq!(s[11], 0x8000_0000);

    let mut s = [0u32; 12];
    s[4] = 1;
    s[9] = 5;
    roll_xc(&mut s);
    assert_eq!(s, [1, 0, 0, 0, 0, 5, 0, 0, 0, 0, 0, 8]);
}

#[test]
fn roll_xe_on_zero_state() {
    let mut s = [0u32; 12];
    roll_xe(&mut s);
    assert_eq!(s, [0, 0, 0, 0, 0, 0, 0, 0, 0, 0, 0, 7]);

    let mut s = [0u32; 12];
    s[0] = 1;
    s[4] = 3;
    s[8] = 6;
    s[1] = 9;
    roll_xe(&mut s);
    // (3 & 6) ^ rot(1, 5) ^ rot(3, 13) ^ 7 lands in lane 8
    assert_eq!(s, [3, 0, 0, 0, 6, 0, 0, 0, 9, 0, 0, 2 ^ 32 ^ (3 << 13) ^ 7]);
}

#[test]
fn twelve_rounds_of_zero_state() {
    let mut s = [0u32; 12];
    permute::<12>(&mut s);
    assert_eq!(
        s,
        [
            0x89d5d88d, 0xa963fcbf, 0x1b232d19, 0xffa5a014, 0x36b18106, 0xafc7c1fe, 0xaee57cbe,
            0xa77540bd, 0x2e86e870, 0xfef5b7c9, 0x8b4fadf2, 0x5e4f4062,
        ]
    );
}

#[test]
fn six_rounds_of_counting_state() {
    let mut s = [0u32, 1, 2, 3, 4, 5, 6, 7, 8, 9, 10, 11];
    permute::<6>(&mut s);
    assert_eq!(
        s,
        [
            0x9d5c7171, 0x247702e4, 0x098fac7d, 0x949fcba9, 0x6bc90bf6, 0xde570bbb, 0x7cd86db5,
            0x2669a8a4, 0x41060cc5, 0x1b95d1a7, 0x601a2805, 0x3e8e0f44,
        ]
    );
}
