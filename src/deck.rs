//! The Xoofff deck function: keyed, incremental absorption of input and
//! incremental squeezing of output.
use vstd::arithmetic::div_mod::lemma_fundamental_div_mod_converse;
use vstd::prelude::*;

use crate::parallel::{column, load_state, permutex, store_state, xor_rows};
use crate::rolling::{roll_xc, roll_xe, spec_roll_xc, spec_roll_xe};
use crate::xoodoo::{permute, spec_permute};

verus! {

/// Xoodoo being a 384-bit permutation, input is consumed in blocks of 48 bytes.
pub const BLOCK_SIZE: usize = 48;

/// Output is generated four blocks at a time.
pub const PAR_BLOCK_SIZE: usize = 4 * BLOCK_SIZE;

/// Number of Xoodoo rounds used by the deck function.
pub const ROUNDS: usize = 6;

/// Number of 32-bit lanes in a block.
pub const LANE_CNT: usize = 12;

/// Lane `i` of a block read as four little-endian bytes.
pub open spec fn le_word(b: Seq<u8>, i: int) -> u32 {
    (b[4 * i] as u32) | ((b[4 * i + 1] as u32) << 8u32) | ((b[4 * i + 2] as u32) << 16u32) | ((
    b[4 * i + 3] as u32) << 24u32)
}

/// A block of 48 bytes read as 12 little-endian lanes.
pub open spec fn spec_bytes_to_words(b: Seq<u8>) -> Seq<u32> {
    Seq::new(12, |i: int| le_word(b, i))
}

/// Byte `k` (0 = least significant) of a lane.
pub open spec fn lane_byte(w: u32, k: int) -> u8 {
    (w >> ((8 * k) as u32)) as u8
}

/// 12 lanes written as 48 little-endian bytes.
pub open spec fn spec_words_to_bytes(w: Seq<u32>) -> Seq<u8> {
    Seq::new(48, |i: int| lane_byte(w[i / 4], i % 4))
}

/// Lane-wise XOR of two states.
pub open spec fn xor_words(a: Seq<u32>, b: Seq<u32>) -> Seq<u32> {
    Seq::new(12, |i: int| a[i] ^ b[i])
}

/// The block of 48 bytes that holds `m` (shorter than 48), then the byte `p`, then zeros.
pub open spec fn pad_block(m: Seq<u8>, p: u8) -> Seq<u8> {
    Seq::new(48, |i: int| if i < m.len() { m[i] } else if i == m.len() { p } else { 0u8 })
}

/// pad10*: `m` followed by the byte 0x01 and zeros up to 48 bytes.
pub open spec fn spec_pad10(m: Seq<u8>) -> Seq<u8> {
    pad_block(m, 1)
}

/// Pads a message shorter than 48 bytes to a full block by the pad10* rule.
fn pad10x(msg: &[u8]) -> (r: [u8; BLOCK_SIZE])
    requires
        msg@.len() < BLOCK_SIZE,
    ensures
        r@ == spec_pad10(msg@),
{
    let mlen = msg.len();
    let mut res = [0u8; BLOCK_SIZE];
    let mut i: usize = 0;
    while i < mlen
        invariant
            0 <= i <= mlen,
            mlen == msg@.len(),
            mlen < 48,
            forall|j: int| 0 <= j < i ==> res@[j] == msg@[j],
            forall|j: int| i <= j < 48 ==> res@[j] == 0u8,
        decreases mlen - i,
    {
        res[i] = msg[i];
        i = i + 1;
    }
    res[mlen] = 0x01;
    assert(res@ =~= spec_pad10(msg@));
    res
}

/// Reads 48 bytes as 12 lanes, four little-endian bytes to a lane.
fn bytes_to_le_words(bytes: &[u8; BLOCK_SIZE]) -> (r: [u32; LANE_CNT])
    ensures
        r@ == spec_bytes_to_words(bytes@),
{
    let mut words = [0u32; LANE_CNT];
    let mut i: usize = 0;
    while i < LANE_CNT
        invariant
            0 <= i <= 12,
            forall|j: int| 0 <= j < i ==> words@[j] == le_word(bytes@, j),
        decreases 12 - i,
    {
        words[i] = (bytes[4 * i] as u32) | ((bytes[4 * i + 1] as u32) << 8u32) | ((bytes[4 * i
            + 2] as u32) << 16u32) | ((bytes[4 * i + 3] as u32) << 24u32);
        i = i + 1;
    }
    assert(words@ =~= spec_bytes_to_words(bytes@));
    words
}

/// Writes 12 lanes as 48 bytes, four little-endian bytes to a lane.
fn words_to_le_bytes(words: &[u32; LANE_CNT], bytes: &mut [u8; BLOCK_SIZE])
    ensures
        final(bytes)@ == spec_words_to_bytes(words@),
{
    let mut i: usize = 0;
    while i < LANE_CNT
        invariant
            0 <= i <= 12,
            forall|j: int| 0 <= j < 4 * i ==> bytes@[j] == lane_byte(words@[j / 4], j % 4),
        decreases 12 - i,
    {
        let w = words[i];
        bytes[4 * i] = w as u8;
        bytes[4 * i + 1] = (w >> 8u32) as u8;
        bytes[4 * i + 2] = (w >> 16u32) as u8;
        bytes[4 * i + 3] = (w >> 24u32) as u8;
        assert(w == w >> 0u32) by (bit_vector);
        i = i + 1;
    }
    assert(bytes@ =~= spec_words_to_bytes(words@));
}

/// Copies `src[from .. from + cnt]` into `dst` at `at`.
fn copy_bytes(dst: &mut [u8; BLOCK_SIZE], at: usize, src: &[u8], from: usize, cnt: usize)
    requires
        at + cnt <= BLOCK_SIZE,
        from + cnt <= src@.len(),
    ensures
        final(dst)@.take(at + cnt) == old(dst)@.take(at as int) + src@.subrange(
            from as int,
            from + cnt,
        ),
{
    let mut j: usize = 0;
    while j < cnt
        invariant
            0 <= j <= cnt,
            at + cnt <= 48,
            from + cnt <= src.len(),
            forall|i: int| 0 <= i < at ==> dst@[i] == old(dst)@[i],
            forall|k: int| at <= k < at + j ==> dst@[k] == src@[from + k - at],
        decreases cnt - j,
    {
        dst[at + j] = src[from + j];
        j = j + 1;
    }
    assert(dst@.take(at + cnt) =~= old(dst)@.take(at as int) + src@.subrange(
        from as int,
        from + cnt,
    ));
}

/// Copies `src[from .. from + cnt]` into the slice `dst` at `at`.
fn copy_to_slice(dst: &mut [u8], at: usize, src: &[u8; PAR_BLOCK_SIZE], from: usize, cnt: usize)
    requires
        at + cnt <= old(dst)@.len(),
        from + cnt <= PAR_BLOCK_SIZE,
    ensures
        final(dst)@.len() == old(dst)@.len(),
        forall|k: int| 0 <= k < at ==> final(dst)@[k] == old(dst)@[k],
        forall|k: int| at <= k < at + cnt ==> final(dst)@[k] == src@[from + k - at],
{
    let mut j: usize = 0;
    while j < cnt
        invariant
            0 <= j <= cnt,
            at + cnt <= dst.len(),
            dst@.len() == old(dst)@.len(),
            from + cnt <= 192,
            forall|k: int| 0 <= k < at ==> dst@[k] == old(dst)@[k],
            forall|k: int| at <= k < at + j ==> dst@[k] == src@[from + k - at],
        decreases cnt - j,
    {
        dst[at + j] = src[from + j];
        j = j + 1;
    }
}

/// Writes the four states held row-wise in `states` as four consecutive blocks
/// of 48 little-endian bytes.
pub fn statex4_to_bytes(states: &[[u32; 4]; LANE_CNT], out: &mut [u8; PAR_BLOCK_SIZE])
    ensures
        forall|r: int|
            0 <= r < PAR_BLOCK_SIZE ==> final(out)@[r] == spec_words_to_bytes(
                column(states@, r / 48),
            )[r % 48],
{
    let mut k: usize = 0;
    while k < 4
        invariant
            0 <= k <= 4,
            forall|r: int|
                0 <= r < 48 * k ==> out@[r] == spec_words_to_bytes(column(states@, r / 48))[r
                    % 48],
        decreases 4 - k,
    {
        let words = load_state(states, k);
        let mut blk = [0u8; BLOCK_SIZE];
        words_to_le_bytes(&words, &mut blk);
        let mut j: usize = 0;
        while j < BLOCK_SIZE
            invariant
                0 <= j <= 48,
                k < 4,
                blk@ == spec_words_to_bytes(column(states@, k as int)),
                forall|r: int|
                    0 <= r < 48 * k + j ==> out@[r] == spec_words_to_bytes(
                        column(states@, r / 48),
                    )[r % 48],
            decreases 48 - j,
        {
            out[BLOCK_SIZE * k + j] = blk[j];
            proof {
                let r = 48 * k + j;
                lemma_fundamental_div_mod_converse(r, 48, k as int, j as int);
            }
            j = j + 1;
        }
        k = k + 1;
    }
}

/// XORs `src` into `dst`, lane by lane.
fn xor_into(dst: &mut [u32; LANE_CNT], src: &[u32; LANE_CNT])
    ensures
        final(dst)@ == xor_words(old(dst)@, src@),
{
    let mut i: usize = 0;
    while i < LANE_CNT
        invariant
            0 <= i <= 12,
            forall|j: int| i <= j < 12 ==> dst@[j] == old(dst)@[j],
            forall|j: int| 0 <= j < i ==> dst@[j] == old(dst)@[j] ^ src@[j],
        decreases 12 - i,
    {
        dst[i] = dst[i] ^ src[i];
        i = i + 1;
    }
    assert(dst@ =~= xor_words(old(dst)@, src@));
}


/// The key after derivation: its pad10* block read as lanes and permuted.
pub open spec fn masked_key(key: Seq<u8>) -> Seq<u32> {
    spec_permute(spec_bytes_to_words(spec_pad10(key)), ROUNDS as int)
}

/// The accumulator after one input block `blk` has been compressed under mask `imask`.
pub open spec fn accumulate(imask: Seq<u32>, acc: Seq<u32>, blk: Seq<u8>) -> Seq<u32> {
    xor_words(acc, spec_permute(xor_words(spec_bytes_to_words(blk), imask), ROUNDS as int))
}

/// Compresses every full block at the front of `data`: the resulting input mask,
/// accumulator, and the bytes left over (fewer than 48).
pub open spec fn compress(imask: Seq<u32>, acc: Seq<u32>, data: Seq<u8>) -> (Seq<u32>, Seq<u32>, Seq<u8>)
    decreases data.len(),
{
    if data.len() < BLOCK_SIZE {
        (imask, acc, data)
    } else {
        compress(
            spec_roll_xc(imask),
            accumulate(imask, acc, data.take(BLOCK_SIZE as int)),
            data.skip(BLOCK_SIZE as int),
        )
    }
}

/// Compresses the first `n` blocks of `data` one after another: the resulting
/// input mask and accumulator.
#[verifier::opaque]
pub open spec fn compress_blocks(imask: Seq<u32>, acc: Seq<u32>, data: Seq<u8>, n: nat) -> (Seq<u32>, Seq<u32>)
    decreases n,
{
    if n == 0 {
        (imask, acc)
    } else {
        compress_blocks(
            spec_roll_xc(imask),
            accumulate(imask, acc, data.take(BLOCK_SIZE as int)),
            data.skip(BLOCK_SIZE as int),
            (n - 1) as nat,
        )
    }
}

/// Block `k` (48 bytes from byte `48 k`) of `data`.
pub open spec fn block(data: Seq<u8>, k: int) -> Seq<u8> {
    data.subrange(48 * k, 48 * k + 48)
}

/// The padding byte that ends the input: the low `w` bits of `ds` followed by a one bit.
pub open spec fn pad_byte(ds: u8, w: u8) -> u8 {
    (1u8 << w) | (ds & (((1u8 << w) - 1) as u8))
}

/// The output mask `s` advanced `n` times by roll_Xe.
pub open spec fn roll_xe_times(s: Seq<u32>, n: nat) -> Seq<u32>
    decreases n,
{
    if n == 0 {
        s
    } else {
        spec_roll_xe(roll_xe_times(s, (n - 1) as nat))
    }
}

/// Rolling `a` times and then `b` times is rolling `a + b` times.
proof fn lemma_roll_xe_times_add(s: Seq<u32>, a: nat, b: nat)
    ensures
        roll_xe_times(roll_xe_times(s, a), b) == roll_xe_times(s, a + b),
    decreases b,
{
    if b > 0 {
        lemma_roll_xe_times_add(s, a, (b - 1) as nat);
    }
}

/// Byte `r` of the four output blocks generated from output mask `omask`, which
/// is rolled `r / 48` times for block `r / 48`.
pub open spec fn group_byte(omask: Seq<u32>, imask: Seq<u32>, r: int) -> u8 {
    spec_words_to_bytes(
        xor_words(spec_permute(roll_xe_times(omask, (r / 48) as nat), ROUNDS as int), imask),
    )[r % 48]
}

/// Output block `j` of a finalized deck with accumulator `acc` and input mask `imask`.
pub open spec fn output_block(acc: Seq<u32>, imask: Seq<u32>, j: nat) -> Seq<u8> {
    let omask = roll_xe_times(spec_permute(acc, ROUNDS as int), j);
    spec_words_to_bytes(xor_words(spec_permute(omask, ROUNDS as int), imask))
}

/// Byte `i` of the output stream of a finalized deck.
pub open spec fn output_byte(acc: Seq<u32>, imask: Seq<u32>, i: nat) -> u8 {
    output_block(acc, imask, i / 48)[(i % 48) as int]
}

/// The four blocks generated from the output mask of group `q` are bytes
/// `192 q ..` of the output stream.
proof fn lemma_group_bytes(acc: Seq<u32>, imask: Seq<u32>, q: nat, omask: Seq<u32>, r: int)
    requires
        omask == roll_xe_times(spec_permute(acc, ROUNDS as int), 4 * q),
        0 <= r < 192,
    ensures
        group_byte(omask, imask, r) == output_byte(acc, imask, (192 * q + r) as nat),
{
    let p = 192 * q + r;
    lemma_fundamental_div_mod_converse(r, 48, r / 48, r % 48);
    lemma_fundamental_div_mod_converse(p, 48, 4 * q + r / 48, r % 48);
    lemma_roll_xe_times_add(spec_permute(acc, ROUNDS as int), 4 * q, (r / 48) as nat);
}

/// What a deck holds, as far as its behaviour goes.
pub ghost struct DeckState {
    /// The current input mask.
    pub imask: Seq<u32>,
    /// The accumulator of compressed blocks.
    pub acc: Seq<u32>,
    /// Input bytes absorbed but not yet compressed.
    pub pending: Seq<u8>,
    /// Whether the deck has been finalized (is squeezing).
    pub finalized: bool,
    /// When finalized: the index, in the output stream, of the next byte squeezed.
    pub position: nat,
}

impl DeckState {
    /// The shape that every deck keeps.
    pub open spec fn valid(self) -> bool {
        &&& self.imask.len() == LANE_CNT
        &&& self.acc.len() == LANE_CNT
        &&& self.pending.len() < BLOCK_SIZE
        &&& (self.finalized ==> self.pending.len() == 0)
        &&& (!self.finalized ==> self.position == 0)
    }

    /// A deck just made from `key`.
    pub open spec fn initial(key: Seq<u8>) -> DeckState {
        DeckState::initial_from(masked_key(key), Seq::new(12, |i: int| 0u32))
    }

    /// An absorbing deck with input mask `imask`, accumulator `acc` and nothing pending.
    pub open spec fn initial_from(imask: Seq<u32>, acc: Seq<u32>) -> DeckState {
        DeckState { imask, acc, pending: Seq::empty(), finalized: false, position: 0 }
    }

    /// The deck after absorbing `msg` (nothing changes once finalized).
    pub open spec fn absorb(self, msg: Seq<u8>) -> DeckState {
        if self.finalized {
            self
        } else {
            let (imask, acc, pending) = compress(self.imask, self.acc, self.pending + msg);
            DeckState { imask, acc, pending, ..self }
        }
    }

    /// The deck after finalization with domain separator `ds` of `w` bits and a
    /// first-block offset of `offset` bytes (nothing changes if already finalized).
    pub open spec fn finalize(self, ds: u8, w: u8, offset: nat) -> DeckState {
        if self.finalized {
            self
        } else {
            DeckState {
                imask: spec_roll_xc(spec_roll_xc(self.imask)),
                acc: accumulate(self.imask, self.acc, pad_block(self.pending, pad_byte(ds, w))),
                pending: Seq::empty(),
                finalized: true,
                position: offset,
            }
        }
    }

    /// The next `n` bytes of output of a finalized deck.
    pub open spec fn output(self, n: nat) -> Seq<u8> {
        Seq::new(n, |k: int| output_byte(self.acc, self.imask, (self.position + k) as nat))
    }

    /// The deck after squeezing `n` bytes (nothing changes unless finalized).
    pub open spec fn squeeze(self, n: nat) -> DeckState {
        if self.finalized {
            DeckState { position: self.position + n, ..self }
        } else {
            self
        }
    }

    /// The deck after a restart: absorbing again, with input mask and accumulator
    /// kept (nothing changes unless finalized).
    pub open spec fn restart(self) -> DeckState {
        if self.finalized {
            DeckState { finalized: false, position: 0, ..self }
        } else {
            self
        }
    }
}

/// Xoofff, the deck function obtained from the Farfalle construction with the
/// Xoodoo[6] permutation and the rolling functions roll_Xc and roll_Xe.
#[derive(Clone, Copy)]
pub struct Xoofff {
    imask: [u32; LANE_CNT],
    omask: [u32; LANE_CNT],
    acc: [u32; LANE_CNT],
    iblk: [u8; BLOCK_SIZE],
    oblk: [u8; PAR_BLOCK_SIZE],
    ioff: usize,
    ooff: usize,
    finalized: bool,
    /// Index in the output stream of the group of four blocks held in `oblk`.
    blocks: Ghost<nat>,
}

impl View for Xoofff {
    type V = DeckState;

    closed spec fn view(&self) -> DeckState {
        DeckState {
            imask: self.imask@,
            acc: self.acc@,
            pending: self.iblk@.take(self.ioff as int),
            finalized: self.finalized,
            position: if self.finalized {
                (192 * self.blocks@ + self.ooff) as nat
            } else {
                0
            },
        }
    }
}

impl Xoofff {
    /// Internal consistency of the buffers with the state they stand for.
    pub closed spec fn wf(&self) -> bool {
        &&& self.ioff < BLOCK_SIZE
        &&& self.finalized ==> {
            &&& self.ioff == 0
            &&& self.ooff <= PAR_BLOCK_SIZE
            &&& forall|r: int|
                0 <= r < PAR_BLOCK_SIZE ==> self.oblk@[r] == output_byte(
                    self.acc@,
                    self.imask@,
                    (192 * self.blocks@ + r) as nat,
                )
            &&& self.omask@ == roll_xe_times(
                spec_permute(self.acc@, ROUNDS as int),
                4 * self.blocks@ + 4,
            )
        }
    }

    /// Creates a deck from a key of fewer than 48 bytes.
    pub fn new(key: &[u8]) -> (r: Self)
        requires
            key@.len() < BLOCK_SIZE,
        ensures
            r.wf(),
            r@ == DeckState::initial(key@),
    {
        let padded_key = pad10x(key);
        let mut masked = bytes_to_le_words(&padded_key);
        permute::<ROUNDS>(&mut masked);
        let r = Xoofff {
            imask: masked,
            omask: [0u32; LANE_CNT],
            acc: [0u32; LANE_CNT],
            iblk: [0u8; BLOCK_SIZE],
            oblk: [0u8; PAR_BLOCK_SIZE],
            ioff: 0,
            ooff: 0,
            finalized: false,
            blocks: Ghost(0),
        };
        assert(r@.pending =~= Seq::<u8>::empty());
        assert(r@.acc =~= DeckState::initial(key@).acc);
        r
    }

    /// Compresses the full input block: XOR with the input mask, permute, XOR into
    /// the accumulator, then roll the input mask.
    fn compress_block(&mut self)
        ensures
            final(self).acc@ == accumulate(old(self).imask@, old(self).acc@, old(self).iblk@),
            final(self).imask@ == spec_roll_xc(old(self).imask@),
            final(self).omask == old(self).omask,
            final(self).iblk == old(self).iblk,
            final(self).oblk == old(self).oblk,
            final(self).ioff == old(self).ioff,
            final(self).ooff == old(self).ooff,
            final(self).finalized == old(self).finalized,
            final(self).blocks == old(self).blocks,
    {
        let mut words = bytes_to_le_words(&self.iblk);
        xor_into(&mut words, &self.imask);
        permute::<ROUNDS>(&mut words);
        xor_into(&mut self.acc, &words);
        roll_xc(&mut self.imask);
    }

    /// Compresses the four blocks `msg[moff .. moff + 192]` with one four-way
    /// permutation: block `k` is masked with the input mask rolled `k` times, and
    /// the four permuted states are XORed into the accumulator in order.
    #[verifier::spinoff_prover]
    fn compress_blocks4(&mut self, msg: &[u8], moff: usize)
        requires
            moff + 4 * BLOCK_SIZE <= msg@.len(),
        ensures
            (final(self).imask@, final(self).acc@) == compress_blocks(
                old(self).imask@,
                old(self).acc@,
                msg@.skip(moff as int),
                4,
            ),
            final(self).omask == old(self).omask,
            final(self).iblk == old(self).iblk,
            final(self).oblk == old(self).oblk,
            final(self).ioff == old(self).ioff,
            final(self).ooff == old(self).ooff,
            final(self).finalized == old(self).finalized,
            final(self).blocks == old(self).blocks,
    {
        let ghost data = msg@.skip(moff as int);
        let ghost im0 = self.imask@;
        let ghost acc0 = self.acc@;
        let mut states = [[0u32; 4]; 12];
        let mut k: usize = 0;
        proof {
            reveal_with_fuel(compress_blocks, 1);
        }
        while k < 4
            invariant
                0 <= k <= 4,
                moff + 192 <= msg.len(),
                data.len() >= 192,
                data == msg@.skip(moff as int),
                self.acc == old(self).acc,
                self.omask == old(self).omask,
                self.iblk == old(self).iblk,
                self.oblk == old(self).oblk,
                self.ioff == old(self).ioff,
                self.ooff == old(self).ooff,
                self.finalized == old(self).finalized,
                self.blocks == old(self).blocks,
                self.imask@ == compress_blocks(im0, acc0, data, k as nat).0,
                forall|l: int|
                    0 <= l < k ==> #[trigger] column(states@, l) == xor_words(
                        spec_bytes_to_words(block(data, l)),
                        compress_blocks(im0, acc0, data, l as nat).0,
                    ),
            decreases 4 - k,
        {
            let mut blk = [0u8; BLOCK_SIZE];
            copy_bytes(&mut blk, 0, msg, moff + BLOCK_SIZE * k, BLOCK_SIZE);
            assert(blk@ =~= block(data, k as int)) by {
                assert(blk@.take(48) =~= blk@);
            }
            let mut words = bytes_to_le_words(&blk);
            xor_into(&mut words, &self.imask);
            store_state(&mut states, k, &words);
            proof {
                lemma_compress_blocks_snoc(im0, acc0, data, k as nat);
            }
            roll_xc(&mut self.imask);
            k = k + 1;
        }
        permutex::<4, ROUNDS>(&mut states);
        let mut k: usize = 0;
        proof {
            reveal_with_fuel(compress_blocks, 1);
        }
        while k < 4
            invariant
                0 <= k <= 4,
                self.omask == old(self).omask,
                self.iblk == old(self).iblk,
                self.oblk == old(self).oblk,
                self.ioff == old(self).ioff,
                self.ooff == old(self).ooff,
                self.finalized == old(self).finalized,
                self.blocks == old(self).blocks,
                self.imask@ == compress_blocks(im0, acc0, data, 4).0,
                self.acc@ == compress_blocks(im0, acc0, data, k as nat).1,
                forall|l: int|
                    0 <= l < 4 ==> #[trigger] column(states@, l) == spec_permute(
                        xor_words(
                            spec_bytes_to_words(block(data, l)),
                            compress_blocks(im0, acc0, data, l as nat).0,
                        ),
                        ROUNDS as int,
                    ),
                data.len() >= 192,
            decreases 4 - k,
        {
            let col = load_state(&states, k);
            xor_into(&mut self.acc, &col);
            proof {
                lemma_compress_blocks_snoc(im0, acc0, data, k as nat);
            }
            k = k + 1;
        }
    }

    /// Writes the next four output blocks into `oblk` with one four-way
    /// permutation: block `k` is the output mask rolled `k` times by roll_Xe,
    /// permuted, XOR the input mask. The output mask ends rolled four times.
    fn fill_output(&mut self)
        ensures
            forall|r: int|
                0 <= r < PAR_BLOCK_SIZE ==> final(self).oblk@[r] == group_byte(
                    old(self).omask@,
                    old(self).imask@,
                    r,
                ),
            final(self).omask@ == roll_xe_times(old(self).omask@, 4),
            final(self).imask == old(self).imask,
            final(self).acc == old(self).acc,
            final(self).iblk == old(self).iblk,
            final(self).ioff == old(self).ioff,
            final(self).ooff == old(self).ooff,
            final(self).finalized == old(self).finalized,
            final(self).blocks == old(self).blocks,
    {
        let ghost om0 = self.omask@;
        let mut states = [[0u32; 4]; LANE_CNT];
        let mut k: usize = 0;
        while k < 4
            invariant
                0 <= k <= 4,
                self.omask@ == roll_xe_times(om0, k as nat),
                self.imask == old(self).imask,
                self.acc == old(self).acc,
                self.iblk == old(self).iblk,
                self.oblk == old(self).oblk,
                self.ioff == old(self).ioff,
                self.ooff == old(self).ooff,
                self.finalized == old(self).finalized,
                self.blocks == old(self).blocks,
                forall|l: int| 0 <= l < k ==> #[trigger] column(states@, l) == roll_xe_times(om0, l as nat),
            decreases 4 - k,
        {
            store_state(&mut states, k, &self.omask);
            roll_xe(&mut self.omask);
            k = k + 1;
        }
        permutex::<4, ROUNDS>(&mut states);
        xor_rows(&mut states, &self.imask);
        statex4_to_bytes(&states, &mut self.oblk);
        proof {
            assert forall|r: int| 0 <= r < PAR_BLOCK_SIZE implies self.oblk@[r] == group_byte(
                om0,
                self.imask@,
                r,
            ) by {
                let l = r / 48;
                assert(0 <= l < 4);
                assert(column(states@, l) =~= xor_words(
                    spec_permute(roll_xe_times(om0, l as nat), ROUNDS as int),
                    self.imask@,
                ));
            }
        }
    }

    /// Compresses the next four whole blocks of `msg`, from `moff` on, when no
    /// bytes are pending.
    #[verifier::spinoff_prover]
    fn absorb_four(&mut self, msg: &[u8], moff: usize)
        requires
            old(self).ioff == 0,
            moff + 4 * BLOCK_SIZE <= msg@.len(),
        ensures
            compress(final(self).imask@, final(self).acc@, msg@.skip(moff + 4 * BLOCK_SIZE))
                == compress(old(self).imask@, old(self).acc@, msg@.skip(moff as int)),
            final(self).iblk == old(self).iblk,
            final(self).ioff == old(self).ioff,
            final(self).finalized == old(self).finalized,
    {
        let ghost data = msg@.skip(moff as int);
        let ghost im = self.imask@;
        let ghost ac = self.acc@;
        self.compress_blocks4(msg, moff);
        proof {
            lemma_compress_blocks(im, ac, data, 4);
            assert(data.skip(192) =~= msg@.skip(moff + 192));
        }
    }

    /// Completes the pending block with bytes of `msg` from `moff` on and
    /// compresses it; returns the index in `msg` after the bytes used.
    #[verifier::spinoff_prover]
    fn absorb_one(&mut self, msg: &[u8], moff: usize) -> (r: usize)
        requires
            old(self).ioff < BLOCK_SIZE,
            moff <= msg.len(),
            msg.len() - moff >= BLOCK_SIZE - old(self).ioff,
        ensures
            r == moff + BLOCK_SIZE - old(self).ioff,
            compress(final(self).imask@, final(self).acc@, msg@.skip(r as int)) == compress(
                old(self).imask@,
                old(self).acc@,
                old(self).iblk@.take(old(self).ioff as int) + msg@.skip(moff as int),
            ),
            final(self).ioff == 0,
            final(self).finalized == old(self).finalized,
    {
        let ghost head = self.iblk@.take(self.ioff as int);
        let ghost data = head + msg@.skip(moff as int);
        let byte_cnt = BLOCK_SIZE - self.ioff;
        copy_bytes(&mut self.iblk, self.ioff, msg, moff, byte_cnt);
        proof {
            lemma_fill_block(self.iblk@, head, msg@, moff as int, byte_cnt as int);
        }
        let ghost im = self.imask@;
        let ghost ac = self.acc@;
        self.compress_block();
        self.ioff = 0;
        proof {
            lemma_compress_step(im, ac, data);
        }
        moff + byte_cnt
    }

    /// Absorbs `msg`; a no-op once the deck is finalized. Absorbing in pieces is
    /// the same as absorbing their concatenation.
    #[verifier::spinoff_prover]
    pub fn absorb(&mut self, msg: &[u8])
        requires
            old(self).wf(),
        ensures
            final(self).wf(),
            final(self)@ == old(self)@.absorb(msg@),
    {
        if self.finalized {
            return;
        }
        let ghost target = compress(self.imask@, self.acc@, self@.pending + msg@);
        let mut moff: usize = 0;
        assert(self.iblk@.take(self.ioff as int) + msg@.skip(0) =~= self@.pending + msg@);
        while msg.len() - moff >= BLOCK_SIZE - self.ioff
            invariant
                moff <= msg@.len(),
                self.ioff < BLOCK_SIZE,
                !self.finalized,
                compress(self.imask@, self.acc@, self.iblk@.take(self.ioff as int) + msg@.skip(
                    moff as int,
                )) == target,
            decreases msg@.len() - moff,
        {
            if self.ioff == 0 && msg.len() - moff >= 4 * BLOCK_SIZE {
                self.absorb_four(msg, moff);
                moff = moff + 4 * BLOCK_SIZE;
            } else {
                moff = self.absorb_one(msg, moff);
            }
        }
        let rm_bytes = msg.len() - moff;
        let ghost data = self.iblk@.take(self.ioff as int) + msg@.skip(moff as int);
        copy_bytes(&mut self.iblk, self.ioff, msg, moff, rm_bytes);
        self.ioff = self.ioff + rm_bytes;
        assert(self.iblk@.take(self.ioff as int) =~= data);
    }

    /// Ends the input: absorbs the pending bytes padded with the domain separator
    /// (its low `ds_bit_width` bits and a one bit), rolls the input mask a second
    /// time, derives the output mask and the first output block, and skips the
    /// first `offset` bytes of output. A no-op once finalized.
    #[verifier::spinoff_prover]
    pub fn finalize(&mut self, domain_seperator: u8, ds_bit_width: usize, offset: usize)
        requires
            old(self).wf(),
            ds_bit_width <= 7,
            offset <= BLOCK_SIZE,
        ensures
            final(self).wf(),
            final(self)@ == old(self)@.finalize(domain_seperator, ds_bit_width as u8, offset as nat),
    {
        if self.finalized {
            return;
        }
        let ghost pending = self@.pending;
        let w = ds_bit_width as u8;
        assert(1u8 << w >= 1) by (bit_vector)
            requires
                w <= 7,
        ;
        let top: u8 = 1u8 << w;
        let pad: u8 = top | (domain_seperator & (top - 1));
        let mut i: usize = self.ioff;
        while i < BLOCK_SIZE
            invariant
                self.ioff <= i <= BLOCK_SIZE,
                self.ioff < BLOCK_SIZE,
                forall|k: int| 0 <= k < self.ioff ==> self.iblk@[k] == pending[k],
                forall|k: int| self.ioff <= k < i ==> self.iblk@[k] == 0u8,
                pending == old(self).iblk@.take(old(self).ioff as int),
                self.ioff == old(self).ioff,
                self.imask == old(self).imask,
                self.acc == old(self).acc,
                !self.finalized,
            decreases BLOCK_SIZE - i,
        {
            self.iblk[i] = 0;
            i = i + 1;
        }
        self.iblk[self.ioff] = pad;
        assert(self.iblk@ =~= pad_block(pending, pad_byte(domain_seperator, w)));
        self.compress_block();
        roll_xc(&mut self.imask);
        self.iblk = [0u8; BLOCK_SIZE];
        self.ioff = 0;
        self.finalized = true;
        self.omask = self.acc;
        permute::<ROUNDS>(&mut self.omask);
        self.blocks = Ghost(0);
        let ghost seed = self.omask@;
        self.fill_output();
        self.ooff = offset;
        proof {
            assert(roll_xe_times(seed, 0) == seed);
            assert forall|r: int| 0 <= r < PAR_BLOCK_SIZE implies self.oblk@[r] == output_byte(
                self.acc@,
                self.imask@,
                (192 * self.blocks@ + r) as nat,
            ) by {
                lemma_group_bytes(self.acc@, self.imask@, 0, seed, r);
            }
            lemma_roll_xe_times_add(seed, 0, 4);
            assert(self@.pending =~= Seq::<u8>::empty());
        }
    }

    /// Fills `out` with the next bytes of output; a no-op (leaving `out` as it
    /// was) unless finalized. Squeezing in pieces gives the same bytes as one
    /// squeeze of their total length.
    pub fn squeeze(&mut self, out: &mut [u8])
        requires
            old(self).wf(),
        ensures
            final(self).wf(),
            final(self)@ == old(self)@.squeeze(old(out)@.len()),
            final(out)@.len() == old(out)@.len(),
            old(self)@.finalized ==> final(out)@ == old(self)@.output(old(out)@.len()),
            !old(self)@.finalized ==> final(out)@ == old(out)@,
    {
        if !self.finalized {
            return;
        }
        let ghost start = self@.position;
        let mut off: usize = 0;
        while off < out.len()
            invariant
                self.wf(),
                self.finalized,
                self.acc == old(self).acc,
                self.imask == old(self).imask,
                self.iblk == old(self).iblk,
                self.ioff == old(self).ioff,
                off <= out@.len(),
                out@.len() == old(out)@.len(),
                self@.position == start + off,
                forall|k: int|
                    0 <= k < off ==> out@[k] == output_byte(
                        self.acc@,
                        self.imask@,
                        (start + k) as nat,
                    ),
            decreases out@.len() - off,
        {
            off = self.squeeze_some(out, off);
        }
    }

    /// Writes the next output bytes into `out` from index `off` on, as many as the
    /// output block still holds (refilling it first if it is used up), and returns
    /// the index after the last byte written.
    fn squeeze_some(&mut self, out: &mut [u8], off: usize) -> (r: usize)
        requires
            old(self).wf(),
            old(self).finalized,
            off < old(out)@.len(),
        ensures
            final(self).wf(),
            final(self).finalized,
            final(self).acc == old(self).acc,
            final(self).imask == old(self).imask,
            final(self).iblk == old(self).iblk,
            final(self).ioff == old(self).ioff,
            off < r <= old(out)@.len(),
            final(self)@.position == old(self)@.position + (r - off),
            final(out)@.len() == old(out)@.len(),
            forall|k: int| 0 <= k < off ==> final(out)@[k] == old(out)@[k],
            forall|k: int|
                off <= k < r ==> final(out)@[k] == output_byte(
                    old(self).acc@,
                    old(self).imask@,
                    (old(self)@.position + k - off) as nat,
                ),
    {
        if self.ooff == PAR_BLOCK_SIZE {
            let ghost seed = spec_permute(self.acc@, ROUNDS as int);
            let ghost om = self.omask@;
            self.fill_output();
            self.blocks = Ghost(self.blocks@ + 1);
            self.ooff = 0;
            proof {
                assert forall|r: int| 0 <= r < PAR_BLOCK_SIZE implies self.oblk@[r] == output_byte(
                    self.acc@,
                    self.imask@,
                    (192 * self.blocks@ + r) as nat,
                ) by {
                    lemma_group_bytes(self.acc@, self.imask@, self.blocks@, om, r);
                }
                lemma_roll_xe_times_add(seed, 4 * self.blocks@, 4);
            }
        }
        let avail = PAR_BLOCK_SIZE - self.ooff;
        let left = out.len() - off;
        let read = if avail < left {
            avail
        } else {
            left
        };
        copy_to_slice(out, off, &self.oblk, self.ooff, read);
        proof {
            assert forall|k: int| off <= k < off + read implies out@[k] == output_byte(
                self.acc@,
                self.imask@,
                (old(self)@.position + k - off) as nat,
            ) by {
                assert(old(self)@.position + k - off == 192 * self.blocks@ + (self.ooff + k - off));
            }
        }
        self.ooff = self.ooff + read;
        off + read
    }

    /// Starts a new absorb, finalize, squeeze cycle: clears the output side and
    /// keeps the input mask and accumulator. A no-op unless finalized.
    pub fn restart(&mut self)
        requires
            old(self).wf(),
        ensures
            final(self).wf(),
            final(self)@ == old(self)@.restart(),
    {
        if !self.finalized {
            return;
        }
        self.omask = [0u32; LANE_CNT];
        self.oblk = [0u8; PAR_BLOCK_SIZE];
        self.ooff = 0;
        self.finalized = false;
        self.blocks = Ghost(0);
    }
}


/// Compressing `d + b` is compressing `d`, then compressing what it left over
/// followed by `b`.
proof fn lemma_compress_append(imask: Seq<u32>, acc: Seq<u32>, d: Seq<u8>, b: Seq<u8>)
    ensures
        ({
            let (i1, a1, r1) = compress(imask, acc, d);
            compress(i1, a1, r1 + b) == compress(imask, acc, d + b)
        }),
    decreases d.len(),
{
    if d.len() >= BLOCK_SIZE {
        assert((d + b).take(48) =~= d.take(48));
        assert((d + b).skip(48) =~= d.skip(48) + b);
        lemma_compress_append(
            spec_roll_xc(imask),
            accumulate(imask, acc, d.take(48)),
            d.skip(48),
            b,
        );
    }
}

/// One step of compression: the first block, then the rest.
proof fn lemma_compress_step(imask: Seq<u32>, acc: Seq<u32>, data: Seq<u8>)
    requires
        data.len() >= BLOCK_SIZE,
    ensures
        compress(imask, acc, data) == compress(
            spec_roll_xc(imask),
            accumulate(imask, acc, data.take(48)),
            data.skip(48),
        ),
{
}

/// A block filled from pending bytes `head` and `cnt` bytes of `msg` from `moff`
/// is the first block of `head + msg.skip(moff)`, and the rest is what follows in `msg`.
proof fn lemma_fill_block(blk: Seq<u8>, head: Seq<u8>, msg: Seq<u8>, moff: int, cnt: int)
    requires
        blk.len() == 48,
        head.len() + cnt == 48,
        0 <= moff,
        moff + cnt <= msg.len(),
        blk.take(48) == head + msg.subrange(moff, moff + cnt),
    ensures
        blk == (head + msg.skip(moff)).take(48),
        msg.skip(moff + cnt) == (head + msg.skip(moff)).skip(48),
{
    assert(blk.take(48) =~= blk);
    assert(blk =~= (head + msg.skip(moff)).take(48));
    assert(msg.skip(moff + cnt) =~= (head + msg.skip(moff)).skip(48));
}

/// Compressing `n + 1` blocks is compressing `n`, then block `n`.
proof fn lemma_compress_blocks_snoc(imask: Seq<u32>, acc: Seq<u32>, data: Seq<u8>, n: nat)
    requires
        data.len() >= 48 * (n + 1),
    ensures
        ({
            let (i1, a1) = compress_blocks(imask, acc, data, n);
            compress_blocks(imask, acc, data, n + 1) == (
                spec_roll_xc(i1),
                accumulate(i1, a1, block(data, n as int)),
            )
        }),
    decreases n,
{
    reveal_with_fuel(compress_blocks, 2);
    if n == 0 {
        assert(data.take(48) =~= block(data, 0));
    } else {
        let rest = data.skip(48);
        lemma_compress_blocks_snoc(
            spec_roll_xc(imask),
            accumulate(imask, acc, data.take(48)),
            rest,
            (n - 1) as nat,
        );
        assert(block(rest, n - 1) =~= block(data, n as int));
    }
}

/// Compressing data of at least `n` blocks is compressing its first `n` blocks,
/// then the rest.
#[verifier::spinoff_prover]
proof fn lemma_compress_blocks(imask: Seq<u32>, acc: Seq<u32>, data: Seq<u8>, n: nat)
    requires
        data.len() >= 48 * n,
    ensures
        ({
            let (i1, a1) = compress_blocks(imask, acc, data, n);
            compress(imask, acc, data) == compress(i1, a1, data.skip(48 * n as int))
        }),
    decreases n,
{
    reveal(compress_blocks);
    if n == 0 {
        assert(data.skip(0) =~= data);
    } else {
        let rest = data.skip(48);
        assert(compress(imask, acc, data) == compress(
            spec_roll_xc(imask),
            accumulate(imask, acc, data.take(48)),
            rest,
        ));
        lemma_compress_blocks(
            spec_roll_xc(imask),
            accumulate(imask, acc, data.take(48)),
            rest,
            (n - 1) as nat,
        );
        assert(rest.skip(48 * (n - 1)) =~= data.skip(48 * n as int));
    }
}

/// Absorbing `a` and then `b` leaves the deck as absorbing `a + b` at once.
pub proof fn lemma_absorb_chunked(s: DeckState, a: Seq<u8>, b: Seq<u8>)
    requires
        s.valid(),
    ensures
        s.absorb(a).absorb(b) == s.absorb(a + b),
{
    if !s.finalized {
        lemma_compress_append(s.imask, s.acc, s.pending + a, b);
        assert(s.pending + a + b =~= s.pending + (a + b));
    }
}

/// Absorbing nothing leaves a deck as it was.
pub proof fn lemma_absorb_empty(s: DeckState)
    requires
        s.valid(),
    ensures
        s.absorb(Seq::empty()) == s,
{
    assert(s.pending + Seq::empty() =~= s.pending);
}

/// Once finalized, absorbing changes nothing, so the output stays as it was.
pub proof fn lemma_absorb_after_finalize(s: DeckState, m: Seq<u8>, n: nat)
    requires
        s.finalized,
    ensures
        s.absorb(m) == s,
        s.absorb(m).output(n) == s.output(n),
{
}

/// Squeezing `m` bytes and then `n` bytes gives the same bytes, and leaves the
/// deck the same, as squeezing `m + n` bytes at once.
pub proof fn lemma_squeeze_chunked(s: DeckState, m: nat, n: nat)
    requires
        s.finalized,
    ensures
        s.output(m) + s.squeeze(m).output(n) == s.output(m + n),
        s.squeeze(m).squeeze(n) == s.squeeze(m + n),
{
    assert(s.output(m) + s.squeeze(m).output(n) =~= s.output(m + n));
}

/// Before finalization, squeezing leaves the deck as it was.
pub proof fn lemma_squeeze_before_finalize(s: DeckState, n: nat)
    requires
        !s.finalized,
    ensures
        s.squeeze(n) == s,
{
}

/// The operations keep a deck's shape.
pub proof fn lemma_valid_preserved(s: DeckState, m: Seq<u8>, ds: u8, w: u8, offset: nat, n: nat)
    requires
        s.valid(),
    ensures
        s.absorb(m).valid(),
        s.finalize(ds, w, offset).valid(),
        s.squeeze(n).valid(),
        s.restart().valid(),
{
    if !s.finalized {
        lemma_compress_shape(s.imask, s.acc, s.pending + m);
    }
}

/// Compression keeps 12 lanes in mask and accumulator and leaves fewer than 48 bytes.
proof fn lemma_compress_shape(imask: Seq<u32>, acc: Seq<u32>, d: Seq<u8>)
    requires
        imask.len() == 12,
        acc.len() == 12,
    ensures
        ({
            let (i1, a1, r1) = compress(imask, acc, d);
            i1.len() == 12 && a1.len() == 12 && r1.len() < 48
        }),
    decreases d.len(),
{
    if d.len() >= BLOCK_SIZE {
        lemma_compress_shape(spec_roll_xc(imask), accumulate(imask, acc, d.take(48)), d.skip(48));
    }
}


/// The offset given to finalization only skips that many bytes at the start of
/// the output stream.
pub proof fn lemma_finalize_offset(s: DeckState, ds: u8, w: u8, offset: nat, n: nat)
    requires
        !s.finalized,
    ensures
        s.finalize(ds, w, offset) == s.finalize(ds, w, 0).squeeze(offset),
        s.finalize(ds, w, offset).output(n) == s.finalize(ds, w, 0).output(offset + n).skip(
            offset as int,
        ),
{
    assert(s.finalize(ds, w, offset).output(n) =~= s.finalize(ds, w, 0).output(offset + n).skip(
        offset as int,
    ));
}

/// Restarting a finalized deck and absorbing again continues from the input mask
/// and accumulator that the previous message left.
pub proof fn lemma_restart_keeps_chain(s: DeckState, m: Seq<u8>)
    requires
        s.valid(),
        s.finalized,
    ensures
        s.restart().absorb(m) == DeckState::initial_from(s.imask, s.acc).absorb(m),
{
    assert(s.pending =~= Seq::<u8>::empty());
}

} // verus!
