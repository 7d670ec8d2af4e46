use xoofff::Xoofff;

/// Small deterministic generator of test bytes.
fn bytes(seed: u64, n: usize) -> Vec<u8> {
    let mut x = seed.wrapping_mul(0x2545_f491_4f6c_dd1d) | 1;
    let mut v = Vec::with_capacity(n);
    for _ in 0..n {
        x ^= x << 13;
        x ^= x >> 7;
        x ^= x << 17;
        v.push((x >> 24) as u8);
    }
    v
}

fn oneshot(key: &[u8], msg: &[u8], ds: u8, w: usize, off: usize, dlen: usize) -> Vec<u8> {
    let mut deck = Xoofff::new(key);
    deck.absorb(msg);
    deck.absorb(&[]);
    deck.finalize(ds, w, off);
    let mut dig = vec![0u8; dlen];
    deck.squeeze(&mut dig);
    dig
}

/// Absorbs in pieces whose sizes come from the message bytes, and squeezes in
/// pieces whose sizes come from the output bytes.
fn incremental(key: &[u8], msg: &[u8], ds: u8, w: usize, off: usize, dlen: usize) -> Vec<u8> {
    let mut deck = Xoofff::new(key);
    let mlen = msg.len();
    let mut o = 0;
    while o < mlen {
        let elen = std::cmp::min(std::cmp::max(msg[o] as usize, 1), mlen - o);
        deck.absorb(&msg[o..o + elen]);
        o += elen;
    }
    deck.finalize(ds, w, off);
    let mut dig = vec![0u8; dlen];
    let mut o = 0;
    let mut read = 0u8;
    while o < dlen {
        let elen = std::cmp::min(std::cmp::max(read as usize, 1), dlen - o);
        deck.squeeze(&mut dig[o..o + elen]);
        o += elen;
        read = dig[o - 1];
    }
    dig
}

fn check_incremental_io(klen: usize, mlen: usize, dlen: usize, ds: u8, w: usize, off: usize) {
    let key = bytes(klen as u64 + 1, klen);
    let msg = bytes(mlen as u64 + 2, mlen);
    let dig0 = oneshot(&key, &msg, ds, w, off, dlen);
    let dig1 = incremental(&key, &msg, ds, w, off, dlen);
    assert_eq!(dig0.len(), dlen);
    assert_eq!(dig0, dig1);
}

#[test]
fn empty_message_is_deterministic() {
    let key = bytes(11, 32);
    let a = oneshot(&key, &[], 0b1, 1, 0, 32);
    let b = oneshot(&key, &[], 0b1, 1, 0, 32);
    assert_eq!(a, b);
    let other = oneshot(&bytes(12, 32), &[], 0b1, 1, 0, 32);
    assert_ne!(a, other);
    check_incremental_io(32, 0, 32, 0b1, 1, 0);
}

#[test]
fn short_key_two_blocks_of_output() {
    check_incremental_io(16, 32, 64, 0b11, 2, 0);
}

#[test]
fn offset_four_with_four_bit_separator() {
    check_incremental_io(32, 256, 512, 0b1101, 4, 4);
}

#[test]
fn no_separator_offset_sixteen() {
    check_incremental_io(32, 1024, 2048, 0, 0, 16);
}

#[test]
fn longest_key() {
    check_incremental_io(47, 2048, 4096, 0b1, 2, 16);
}

#[test]
fn chunked_io_matches_oneshot() {
    check_incremental_io(32, 64, 128, 0b101, 3, 1);
    check_incremental_io(32, 128, 256, 0b101, 3, 2);
    check_incremental_io(32, 512, 1024, 0b10101, 5, 8);
    check_incremental_io(0, 47, 100, 0b1111111, 7, 48);
    check_incremental_io(5, 48, 49, 0, 0, 47);
}

#[test]
fn offset_skips_leading_output() {
    let key = bytes(3, 20);
    let msg = bytes(4, 100);
    let full = oneshot(&key, &msg, 0b10, 2, 0, 150);
    for off in [1usize, 16, 47, 48] {
        let skipped = oneshot(&key, &msg, 0b10, 2, off, 150 - off);
        assert_eq!(&full[off..], &skipped[..]);
    }
}

#[test]
fn separator_bits_above_width_are_ignored() {
    let key = bytes(5, 16);
    let msg = bytes(6, 60);
    let a = oneshot(&key, &msg, 0b0101, 3, 0, 48);
    let b = oneshot(&key, &msg, 0b1101, 3, 0, 48);
    let c = oneshot(&key, &msg, 0b0100, 3, 0, 48);
    assert_eq!(a, b);
    assert_ne!(a, c);
    // width 0 gives the plain pad10* terminator, whatever the separator
    assert_eq!(oneshot(&key, &msg, 0xff, 0, 0, 48), oneshot(&key, &msg, 0, 0, 0, 48));
}

#[test]
fn absorb_after_finalize_is_ignored() {
    let key = bytes(7, 32);
    let msg = bytes(8, 70);
    let mut deck = Xoofff::new(&key);
    deck.absorb(&msg);
    deck.finalize(1, 1, 0);
    deck.absorb(&bytes(9, 30));
    deck.finalize(0, 0, 5);
    let mut out = vec![0u8; 64];
    deck.squeeze(&mut out);
    assert_eq!(out, oneshot(&key, &msg, 1, 1, 0, 64));
}

#[test]
fn squeeze_before_finalize_leaves_buffer() {
    let mut deck = Xoofff::new(&bytes(10, 8));
    deck.absorb(&bytes(11, 20));
    let mut out = vec![0xabu8; 40];
    deck.squeeze(&mut out);
    assert_eq!(out, vec![0xabu8; 40]);
}

#[test]
fn restart_before_finalize_is_ignored() {
    let key = bytes(12, 30);
    let msg = bytes(13, 90);
    let mut deck = Xoofff::new(&key);
    deck.absorb(&msg[..40]);
    deck.restart();
    deck.absorb(&msg[40..]);
    deck.finalize(3, 2, 0);
    let mut out = vec![0u8; 50];
    deck.squeeze(&mut out);
    assert_eq!(out, oneshot(&key, &msg, 3, 2, 0, 50));
}

fn two_messages(key: &[u8], m1: &[u8], m2: &[u8]) -> (Vec<u8>, Vec<u8>) {
    let mut deck = Xoofff::new(key);
    deck.absorb(m1);
    deck.finalize(1, 1, 0);
    let mut d1 = vec![0u8; 32];
    deck.squeeze(&mut d1);
    deck.restart();
    deck.absorb(m2);
    deck.finalize(1, 1, 0);
    let mut d2 = vec![0u8; 32];
    deck.squeeze(&mut d2);
    (d1, d2)
}

#[test]
fn restart_chains_messages() {
    let key = bytes(14, 32);
    let m1 = bytes(15, 50);
    let m2 = bytes(16, 70);
    let (a1, a2) = two_messages(&key, &m1, &m2);
    let (b1, b2) = two_messages(&key, &m2, &m1);
    assert_ne!(a2, b2);
    assert_ne!(a1, b1);
    // the second digest depends on the first message, not on m2 alone
    assert_ne!(a2, oneshot(&key, &m2, 1, 1, 0, 32));
    assert_eq!(a1, oneshot(&key, &m1, 1, 1, 0, 32));
}

#[test]
fn clones_evolve_independently() {
    let key = bytes(17, 24);
    let mut deck = Xoofff::new(&key);
    deck.absorb(&bytes(18, 33));
    let mut fork = deck.clone();
    deck.absorb(&bytes(19, 10));
    fork.absorb(&bytes(19, 10));
    deck.finalize(0, 0, 0);
    fork.finalize(0, 0, 0);
    let mut a = vec![0u8; 20];
    let mut b = vec![0u8; 20];
    deck.squeeze(&mut a);
    fork.squeeze(&mut b);
    assert_eq!(a, b);
    let mut c = vec![0u8; 20];
    deck.squeeze(&mut c);
    assert_ne!(a, c);
}

#[test]
fn message_bytes_matter() {
    let key = bytes(20, 32);
    let mut msg = bytes(21, 100);
    let a = oneshot(&key, &msg, 0, 0, 0, 32);
    msg[99] ^= 1;
    let b = oneshot(&key, &msg, 0, 0, 0, 32);
    assert_ne!(a, b);
    // a trailing zero byte is not the same message
    let c = oneshot(&key, &msg[..99], 0, 0, 0, 32);
    let mut longer = msg[..99].to_vec();
    longer.push(0);
    let d = oneshot(&key, &longer, 0, 0, 0, 32);
    assert_ne!(c, d);
}

#[test]
fn test_xoofff_incremental_io() {
    check_incremental_io(32, 0, 32, 0b1, 1, 0);
    check_incremental_io(16, 32, 64, 0b11, 2, 0);
    check_incremental_io(32, 64, 128, 0b101, 3, 1);
    check_incremental_io(32, 128, 256, 0b101, 3, 2);
    check_incremental_io(32, 256, 512, 0b1101, 4, 4);
    check_incremental_io(32, 512, 1024, 0b10101, 5, 8);
    check_incremental_io(32, 1024, 2048, 0, 0, 16);
    check_incremental_io(47, 2048, 4096, 0b1, 2, 16);
}

#[test]
fn finalize_twice_is_ignored() {
    let key = bytes(22, 40);
    let msg = bytes(23, 200);
    let mut deck = Xoofff::new(&key);
    deck.absorb(&msg);
    deck.finalize(0b1, 1, 3);
    let mut a = vec![0u8; 10];
    deck.squeeze(&mut a);
    deck.finalize(0b0, 1, 0);
    let mut b = vec![0u8; 30];
    deck.squeeze(&mut b);
    let all = oneshot(&key, &msg, 0b1, 1, 3, 40);
    assert_eq!(&all[..10], &a[..]);
    assert_eq!(&all[10..], &b[..]);
}

#[test]
fn long_output_crosses_block_groups() {
    // one read spanning many 192-byte groups, then reads of odd sizes across a group edge
    let key = bytes(24, 10);
    let msg = bytes(25, 5);
    let all = oneshot(&key, &msg, 0, 0, 48, 1000);
    let mut deck = Xoofff::new(&key);
    deck.absorb(&msg);
    deck.finalize(0, 0, 48);
    let mut got = Vec::new();
    for n in [0usize, 143, 1, 0, 48, 400, 408] {
        let mut part = vec![0u8; n];
        deck.squeeze(&mut part);
        got.extend_from_slice(&part);
    }
    assert_eq!(got, all);
}

#[test]
fn empty_absorb_changes_nothing() {
    let key = bytes(26, 12);
    let msg = bytes(27, 77);
    let mut a = Xoofff::new(&key);
    a.absorb(&[]);
    a.absorb(&msg[..30]);
    a.absorb(&[]);
    a.absorb(&msg[30..]);
    a.finalize(0b11, 2, 0);
    let mut out = vec![0u8; 64];
    a.squeeze(&mut out);
    assert_eq!(out, oneshot(&key, &msg, 0b11, 2, 0, 64));
}

fn hex(b: &[u8]) -> String {
    let mut s = String::new();
    for x in b {
        s.push_str(&format!("{:02x}", x));
    }
    s
}

#[test]
fn known_output_short_key() {
    let key: Vec<u8> = (0..16).collect();
    let msg: Vec<u8> = (0..32).collect();
    let out = oneshot(&key, &msg, 0b11, 2, 0, 64);
    assert_eq!(
        hex(&out),
        "57b639889de07c257cf94492b17365b714856a984c4e91861bae49a99bc3836b\
         83338107067758aecb81f07ce3ba1687b34d89855291fd27b2081dee387ece4e"
    );
}

#[test]
fn known_output_longest_key_with_offset() {
    let key: Vec<u8> = (0..47).collect();
    let msg: Vec<u8> = (0..300u32).map(|i| (i * 7 % 256) as u8).collect();
    let out = oneshot(&key, &msg, 0b1101, 4, 4, 100);
    assert_eq!(
        hex(&out),
        "e9d21fcb339021849b0b48552efcb7971fbafdeb6872b4ac97174c2b5f93e9e3\
         368cb7aa99f38b3c6c4c8f1bb64dce56a77e0294836fd1f9043d2d7ac5d5c75e\
         1dc8da5366c85e46cb76340bbbd8d40d0e3af522d4007a42612f7a7fb1595c1d\
         b2ac5277"
    );
}

#[test]
fn known_output_empty_key_and_message() {
    let out = oneshot(&[], &[], 0, 0, 0, 48);
    assert_eq!(
        hex(&out),
        "9eb374961fe768a29835d5a99323750a87d37a2ef820008ed88324aa7bffa31a\
         bc0b150da93adecd06dda809fcc288c1"
    );
}
