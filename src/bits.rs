use vstd::prelude::*;
use crate::key::{le_u32_at, u32_le, lemma_le_u32_round_trip};
use crate::pos::SUBCHUNK_VOLUME;

verus! {

/// The widths, in bits, that a packed block index may have.
pub open spec fn is_legal_width(b: u32) -> bool {
    b == 1 || b == 2 || b == 3 || b == 4 || b == 5 || b == 6 || b == 8 || b == 16
}

/// The smallest legal width `b` with `2^b >= n`.
pub open spec fn width_for(n: nat) -> u32 {
    if n <= 2 {
        1
    } else if n <= 4 {
        2
    } else if n <= 8 {
        3
    } else if n <= 16 {
        4
    } else if n <= 32 {
        5
    } else if n <= 64 {
        6
    } else if n <= 256 {
        8
    } else {
        16
    }
}

/// `2^b` for the legal widths.
pub open spec fn index_limit(b: u32) -> nat {
    if b == 1 {
        2
    } else if b == 2 {
        4
    } else if b == 3 {
        8
    } else if b == 4 {
        16
    } else if b == 5 {
        32
    } else if b == 6 {
        64
    } else if b == 8 {
        256
    } else {
        65536
    }
}

/// Indices held by one 32-bit word.
pub open spec fn per_word(b: u32) -> nat {
    32nat / (b as nat)
}

/// Words that hold the 4096 indices of a layer.
pub open spec fn num_words(b: u32) -> nat {
    ((SUBCHUNK_VOLUME + per_word(b) - 1) / (per_word(b) as int)) as nat
}

/// The mask of the low `b` bits.
pub open spec fn low_mask(b: u32) -> u32 {
    !(0xffff_ffffu32 << b)
}

/// Slot `k` of a word: bits `[b * k, b * (k + 1))`.
pub open spec fn slot(w: u32, b: u32, k: nat) -> u16 {
    ((w >> ((b * k) as u32)) & low_mask(b)) as u16
}

/// One word holding `c`: the first index in the lowest bits, unused high bits zero.
pub open spec fn pack_chunk(c: Seq<u16>, b: u32) -> u32
    decreases c.len(),
{
    if c.len() == 0 {
        0
    } else {
        (c[0] as u32) | (pack_chunk(c.drop_first(), b) << b)
    }
}

/// The indices that word `j` holds.
pub open spec fn word_chunk(blocks: Seq<u16>, b: u32, j: int) -> Seq<u16> {
    let start = j * per_word(b);
    let end = if start + per_word(b) <= blocks.len() {
        start + per_word(b)
    } else {
        blocks.len() as int
    };
    blocks.subrange(start, end)
}

/// The words that hold `blocks` at width `b`.
pub open spec fn packed_words(blocks: Seq<u16>, b: u32) -> Seq<u32> {
    Seq::new(num_words(b), |j: int| pack_chunk(word_chunk(blocks, b, j), b))
}

/// The 4096 indices read back from `words` at width `b`.
pub open spec fn unpacked(words: Seq<u32>, b: u32) -> Seq<u16> {
    Seq::new(
        SUBCHUNK_VOLUME as nat,
        |i: int| slot(words[i / per_word(b) as int], b, (i % per_word(b) as int) as nat),
    )
}

/// The little-endian bytes of a sequence of words.
pub open spec fn words_le(ws: Seq<u32>) -> Seq<u8>
    decreases ws.len(),
{
    if ws.len() == 0 {
        Seq::empty()
    } else {
        words_le(ws.drop_last()) + u32_le(ws.last())
    }
}

/// Every index fits in `b` bits.
pub open spec fn fits_width(blocks: Seq<u16>, b: u32) -> bool {
    forall|i: int| 0 <= i < blocks.len() ==> (#[trigger] blocks[i]) < index_limit(b)
}

/// The smallest legal width for a palette of `num_palette_entries` entries.
pub fn bits_per_block(num_palette_entries: usize) -> (r: u8)
    requires
        num_palette_entries <= 65536,
    ensures
        r == width_for(num_palette_entries as nat),
        is_legal_width(r as u32),
        num_palette_entries <= index_limit(r as u32),
{
    let n = num_palette_entries;
    if n <= 2 {
        1
    } else if n <= 4 {
        2
    } else if n <= 8 {
        3
    } else if n <= 16 {
        4
    } else if n <= 32 {
        5
    } else if n <= 64 {
        6
    } else if n <= 256 {
        8
    } else {
        16
    }
}

proof fn words_cover(nw: nat, pw: nat)
    requires
        nw * pw >= 4096 + pw - pw,
        nw * pw - pw < 4096,
    ensures
        nw * pw >= SUBCHUNK_VOLUME,
        (nw - 1) * pw < SUBCHUNK_VOLUME,
{
    assert((nw - 1) * pw == nw * pw - pw) by (nonlinear_arith);
}

proof fn lemma_index_limit(b: u32)
    requires
        is_legal_width(b),
    ensures
        index_limit(b) == (1u32 << b),
        low_mask(b) == (1u32 << b) - 1,
        1 <= per_word(b) <= 32,
        per_word(b) * b <= 32,
        num_words(b) * per_word(b) >= SUBCHUNK_VOLUME,
        (num_words(b) - 1) * per_word(b) < SUBCHUNK_VOLUME,
        num_words(b) <= 4096,
{
    assert(low_mask(b) == (1u32 << b) - 1) by (bit_vector)
        requires 1 <= b <= 16;
    if b == 1 {
        assert(1u32 << 1u32 == 2) by (bit_vector);
        assert(per_word(b) == 32);
        assert(4127int / 32int == 128) by (nonlinear_arith);
        assert(num_words(b) == 128);
        words_cover(128, 32);
    } else if b == 2 {
        assert(1u32 << 2u32 == 4) by (bit_vector);
        assert(per_word(b) == 16);
        assert(4111int / 16int == 256) by (nonlinear_arith);
        assert(num_words(b) == 256);
        words_cover(256, 16);
    } else if b == 3 {
        assert(1u32 << 3u32 == 8) by (bit_vector);
        assert(per_word(b) == 10);
        assert(4105int / 10int == 410) by (nonlinear_arith);
        assert(num_words(b) == 410);
        words_cover(410, 10);
    } else if b == 4 {
        assert(1u32 << 4u32 == 16) by (bit_vector);
        assert(per_word(b) == 8);
        assert(4103int / 8int == 512) by (nonlinear_arith);
        assert(num_words(b) == 512);
        words_cover(512, 8);
    } else if b == 5 {
        assert(1u32 << 5u32 == 32) by (bit_vector);
        assert(per_word(b) == 6);
        assert(4101int / 6int == 683) by (nonlinear_arith);
        assert(num_words(b) == 683);
        words_cover(683, 6);
    } else if b == 6 {
        assert(1u32 << 6u32 == 64) by (bit_vector);
        assert(per_word(b) == 5);
        assert(4100int / 5int == 820) by (nonlinear_arith);
        assert(num_words(b) == 820);
        words_cover(820, 5);
    } else if b == 8 {
        assert(1u32 << 8u32 == 256) by (bit_vector);
        assert(per_word(b) == 4);
        assert(4099int / 4int == 1024) by (nonlinear_arith);
        assert(num_words(b) == 1024);
        words_cover(1024, 4);
    } else {
        assert(1u32 << 16u32 == 65536) by (bit_vector);
        assert(per_word(b) == 2);
        assert(4097int / 2int == 2048) by (nonlinear_arith);
        assert(num_words(b) == 2048);
        words_cover(2048, 2);
    }
}

/// One word holding `blocks[start..end]`, the first in the lowest bits.
pub fn pack_word(blocks: &Vec<u16>, start: usize, end: usize, bits_per_block: u8) -> (r: u32)
    requires
        start <= end <= blocks@.len(),
        is_legal_width(bits_per_block as u32),
        end - start <= per_word(bits_per_block as u32),
    ensures
        r == pack_chunk(blocks@.subrange(start as int, end as int), bits_per_block as u32),
{
    let b = bits_per_block as u32;
    let mut result: u32 = 0;
    let mut i = end;
    assert(blocks@.subrange(end as int, end as int).len() == 0);
    while i > start
        invariant
            start <= i <= end <= blocks@.len(),
            result == pack_chunk(blocks@.subrange(i as int, end as int), b),
            1 <= b <= 16,
        decreases i,
    {
        i = i - 1;
        assert(blocks@.subrange(i as int, end as int).drop_first() =~= blocks@.subrange(
            i + 1,
            end as int,
        ));
        // make room for the new index below the ones packed so far
        result = (blocks[i] as u32) | (result << b);
    }
    result
}

/// Appends the `32 / b` slots of `w` to `output`.
pub fn unpack_word(w: u32, bits_per_block: u32, output: &mut Vec<u16>)
    requires
        is_legal_width(bits_per_block),
    ensures
        final(output)@ == old(output)@ + Seq::new(
            per_word(bits_per_block),
            |k: int| slot(w, bits_per_block, k as nat),
        ),
{
    let b = bits_per_block;
    let num_blocks = 32 / b;
    // lower_ones is a mask with the lower b bits set to 1
    let lower_ones = !(0xffff_ffffu32 << b);
    let mut shifted = w;
    let mut k: u32 = 0;
    proof {
        lemma_index_limit(b);
        assert(w >> 0u32 == w) by (bit_vector);
        assert(output@ =~= old(output)@ + Seq::new(0, |j: int| slot(w, b, j as nat)));
    }
    while k < num_blocks
        invariant
            1 <= b <= 16,
            num_blocks == per_word(b),
            per_word(b) * b <= 32,
            k <= num_blocks,
            lower_ones == low_mask(b),
            shifted == w >> ((b * k) as u32),
            output@ == old(output)@ + Seq::new(k as nat, |j: int| slot(w, b, j as nat)),
        decreases num_blocks - k,
    {
        assert(b * k < 32) by (nonlinear_arith)
            requires k < num_blocks, num_blocks * b <= 32, b >= 1, num_blocks == per_word(b);
        output.push((shifted & lower_ones) as u16);
        proof {
            let s = (b * k) as u32;
            assert(shifted >> b == w >> ((s + b) as u32)) by (bit_vector)
                requires shifted == w >> s, s < 32, 1 <= b <= 16;
        }
        // move to the next slot
        shifted = shifted >> b;
        k = k + 1;
        assert(((b * (k - 1)) + b) as u32 == (b * k) as u32) by (nonlinear_arith);
        assert(output@ =~= old(output)@ + Seq::new(k as nat, |j: int| slot(w, b, j as nat)));
    }
}

/// The `n` little-endian words that start at `data[pos]`.
pub open spec fn read_words(data: Seq<u8>, pos: int, n: nat) -> Seq<u32> {
    Seq::new(n, |j: int| le_u32_at(data, pos + 4 * j))
}

/// The bytes of one layer's indices packed at width `b`.
pub open spec fn blocks_bytes(blocks: Seq<u16>, b: u32) -> Seq<u8> {
    words_le(packed_words(blocks, b))
}

/// The indices of one layer read at width `b` from `data[pos..]`, with the
/// position after them; `None` when the data ends first.
pub open spec fn parse_blocks(data: Seq<u8>, pos: nat, b: u32) -> Option<(Seq<u16>, nat)> {
    if pos + 4 * num_words(b) <= data.len() {
        Some((unpacked(read_words(data, pos as int, num_words(b)), b), pos + 4 * num_words(b)))
    } else {
        None
    }
}

/// Slot `k` of the word that packs `c` holds `c[k]`, for every legal width
/// and every run of at most `32 / b` indices that fit in it.
pub proof fn lemma_slot_of_pack(c: Seq<u16>, b: u32, k: nat)
    requires
        is_legal_width(b),
        c.len() <= per_word(b),
        fits_width(c, b),
        k < c.len(),
    ensures
        slot(pack_chunk(c, b), b, k) == c[k as int],
    decreases k,
{
    lemma_index_limit(b);
    let w = pack_chunk(c.drop_first(), b);
    let c0 = c[0];
    let x = pack_chunk(c, b);
    let m = low_mask(b);
    assert(c0 < index_limit(b));
    assert(x == (c0 as u32) | (w << b));
    if k == 0 {
        assert(((((c0 as u32) | (w << b)) >> 0u32) & m) as u16 == c0) by (bit_vector)
            requires
                (c0 as u32) < (1u32 << b),
                m == !(0xffff_ffffu32 << b),
                1 <= b <= 16,
        ;
        assert((b * k) as u32 == 0u32);
    } else {
        assert(b * (k + 1) <= 32) by (nonlinear_arith)
            requires k + 1 <= per_word(b), per_word(b) * b <= 32;
        let s = (b * k) as u32;
        assert(b * k == b * (k - 1) + b) by (nonlinear_arith);
        let t = (b * ((k - 1) as nat)) as u32;
        assert(s == t + b);
        assert(((((c0 as u32) | (w << b)) >> s) & m) == ((w >> t) & m)) by (bit_vector)
            requires
                (c0 as u32) < (1u32 << b),
                m == !(0xffff_ffffu32 << b),
                1 <= b <= 16,
                s == t + b,
                s + b <= 32,
        ;
        let rest = c.drop_first();
        assert forall|i: int| 0 <= i < rest.len() implies (#[trigger] rest[i]) < index_limit(b) by {
            assert(rest[i] == c[i + 1]);
        }
        lemma_slot_of_pack(rest, b, (k - 1) as nat);
    }
}

/// Unpacking the packed words of a layer gives the layer back, for every
/// legal width and every layer whose indices fit in it.
pub proof fn lemma_pack_round_trip(blocks: Seq<u16>, b: u32)
    requires
        is_legal_width(b),
        blocks.len() == SUBCHUNK_VOLUME,
        fits_width(blocks, b),
    ensures
        unpacked(packed_words(blocks, b), b) == blocks,
{
    lemma_index_limit(b);
    let pw = per_word(b) as int;
    let nw = num_words(b) as int;
    let words = packed_words(blocks, b);
    assert forall|i: int| 0 <= i < SUBCHUNK_VOLUME implies #[trigger] unpacked(words, b)[i]
        == blocks[i] by {
        let j = i / pw;
        let k = i % pw;
        vstd::arithmetic::div_mod::lemma_fundamental_div_mod(i, pw);
        assert(0 <= k < pw);
        assert(0 <= j) by (nonlinear_arith)
            requires i >= 0, pw > 0, j == i / pw;
        assert(j < nw) by (nonlinear_arith)
            requires i == pw * j + k, 0 <= k, i < 4096, nw * pw >= 4096, pw > 0;
        let c = word_chunk(blocks, b, j);
        let start = j * pw;
        assert(start + k == i) by (nonlinear_arith)
            requires i == pw * j + k, start == j * pw;
        assert(c.len() <= pw);
        assert(k < c.len());
        assert forall|t: int| 0 <= t < c.len() implies (#[trigger] c[t]) < index_limit(b) by {
            assert(c[t] == blocks[start + t]);
        }
        lemma_slot_of_pack(c, b, k as nat);
    }
    assert(unpacked(words, b) =~= blocks);
}

proof fn lemma_words_le_len(ws: Seq<u32>)
    ensures
        words_le(ws).len() == 4 * ws.len(),
    decreases ws.len(),
{
    if ws.len() > 0 {
        lemma_words_le_len(ws.drop_last());
    }
}

/// Reading the words back from their bytes, wherever they stand.
pub proof fn lemma_read_words_le(pre: Seq<u8>, ws: Seq<u32>, rest: Seq<u8>)
    ensures
        read_words(pre + words_le(ws) + rest, pre.len() as int, ws.len()) == ws,
        words_le(ws).len() == 4 * ws.len(),
    decreases ws.len(),
{
    lemma_words_le_len(ws);
    if ws.len() > 0 {
        let init = ws.drop_last();
        let last = ws.last();
        let rest2 = u32_le(last) + rest;
        lemma_read_words_le(pre, init, rest2);
        let data = pre + words_le(ws) + rest;
        assert(data =~= pre + words_le(init) + rest2);
        lemma_words_le_len(init);
        let p = (pre.len() + 4 * init.len()) as int;
        assert(data.subrange(p, p + 4) =~= u32_le(last));
        lemma_le_u32_round_trip(last);
        assert(le_u32_at(data, p) == le_u32_at(u32_le(last), 0));
        assert(read_words(data, pre.len() as int, ws.len()) =~= ws) by {
            assert forall|j: int| 0 <= j < ws.len() implies #[trigger] read_words(
                data,
                pre.len() as int,
                ws.len(),
            )[j] == ws[j] by {
                if j < init.len() {
                    assert(read_words(data, pre.len() as int, init.len())[j] == init[j]);
                }
            }
        }
    }
}

fn push_word(out: &mut Vec<u8>, v: u32)
    ensures
        final(out)@ == old(out)@ + u32_le(v),
{
    out.push(v as u8);
    out.push((v >> 8) as u8);
    out.push((v >> 16) as u8);
    out.push((v >> 24) as u8);
}

/// Appends the indices of one layer, packed at width `bits_per_block`.
pub fn encode_blocks(out: &mut Vec<u8>, blocks: &Vec<u16>, bits_per_block: u8)
    requires
        is_legal_width(bits_per_block as u32),
        blocks@.len() == SUBCHUNK_VOLUME,
        fits_width(blocks@, bits_per_block as u32),
    ensures
        final(out)@ == old(out)@ + blocks_bytes(blocks@, bits_per_block as u32),
{
    let b = bits_per_block as u32;
    proof {
        lemma_index_limit(b);
    }
    let blocks_per_word = (32 / bits_per_block) as usize;
    let word_count = (SUBCHUNK_VOLUME + blocks_per_word - 1) / blocks_per_word;
    let ghost words = packed_words(blocks@, b);
    let mut j: usize = 0;
    assert(words.take(0) =~= Seq::<u32>::empty());
    while j < word_count
        invariant
            is_legal_width(b),
            b == bits_per_block as u32,
            blocks@.len() == SUBCHUNK_VOLUME,
            fits_width(blocks@, b),
            blocks_per_word == per_word(b),
            word_count * blocks_per_word >= SUBCHUNK_VOLUME,
            (word_count - 1) * blocks_per_word < SUBCHUNK_VOLUME,
            1 <= blocks_per_word <= 32,
            word_count == num_words(b),
            word_count <= 4096,
            words == packed_words(blocks@, b),
            j <= word_count,
            out@ == old(out)@ + words_le(words.take(j as int)),
        decreases word_count - j,
    {
        assert(j * blocks_per_word < SUBCHUNK_VOLUME) by (nonlinear_arith)
            requires
                j < word_count,
                (word_count - 1) * blocks_per_word < 4096,
                blocks_per_word >= 1,
        ;
        let start = j * blocks_per_word;
        let end = if start + blocks_per_word <= SUBCHUNK_VOLUME {
            start + blocks_per_word
        } else {
            SUBCHUNK_VOLUME
        };
        let packed = pack_word(blocks, start, end, bits_per_block);
        assert(packed == words[j as int]);
        push_word(out, packed);
        assert(words.take(j + 1).drop_last() =~= words.take(j as int));
        j = j + 1;
    }
    assert(words.take(word_count as int) =~= words);
}

/// Reads the indices of one layer packed at width `bits_per_block`.
pub fn decode_blocks(data: &[u8], pos: usize, bits_per_block: u32) -> (r: Option<(Vec<u16>, usize)>)
    requires
        is_legal_width(bits_per_block),
        pos <= data@.len(),
    ensures
        match r {
            Some((blocks, end)) => parse_blocks(data@, pos as nat, bits_per_block) == Some(
                (blocks@, end as nat),
            ),
            None => parse_blocks(data@, pos as nat, bits_per_block) is None,
        },
{
    let b = bits_per_block;
    proof {
        lemma_index_limit(b);
    }
    let blocks_per_word = (32 / b) as usize;
    let word_count = (SUBCHUNK_VOLUME + blocks_per_word - 1) / blocks_per_word;
    if data.len() - pos < 4 * word_count {
        return None;
    }
    let len = data.len();
    let ghost words = read_words(data@, pos as int, word_count as nat);
    let ghost pw = blocks_per_word as int;
    let mut blocks: Vec<u16> = Vec::new();
    let mut j: usize = 0;
    while j < word_count
        invariant
            is_legal_width(b),
            b == bits_per_block,
            pos <= data@.len(),
            len == data@.len(),
            blocks_per_word == per_word(b),
            1 <= blocks_per_word <= 32,
            pw == blocks_per_word,
            word_count * pw >= SUBCHUNK_VOLUME,
            word_count == num_words(b),
            word_count <= 4096,
            pos + 4 * word_count <= data@.len(),
            words == read_words(data@, pos as int, word_count as nat),
            j <= word_count,
            blocks@.len() == j * pw,
            forall|i: int|
                0 <= i < j * pw ==> #[trigger] blocks@[i] == slot(words[i / pw], b, (i % pw) as nat),
        decreases word_count - j,
    {
        assert(pos + 4 * j + 4 <= data@.len()) by (nonlinear_arith)
            requires j < word_count, pos + 4 * word_count <= data@.len();
        let w = read_u32(data, pos + 4 * j);
        assert(w == words[j as int]);
        let ghost before = blocks@;
        unpack_word(w, b, &mut blocks);
        proof {
            assert(blocks@.len() == (j + 1) * pw) by (nonlinear_arith)
                requires blocks@.len() == j * pw + pw;
            assert forall|i: int| 0 <= i < (j + 1) * pw implies #[trigger] blocks@[i] == slot(
                words[i / pw],
                b,
                (i % pw) as nat,
            ) by {
                if i >= j * pw {
                    let k = i - j * pw;
                    assert(0 <= k < pw) by (nonlinear_arith)
                        requires i >= j * pw, i < (j + 1) * pw, k == i - j * pw;
                    vstd::arithmetic::div_mod::lemma_fundamental_div_mod_converse(i, pw, j as int, k);
                    assert(blocks@[i] == slot(w, b, k as nat));
                } else {
                    assert(blocks@[i] == before[i]);
                }
            }
        }
        j = j + 1;
    }
    proof {
        assert(blocks@.len() >= SUBCHUNK_VOLUME) by (nonlinear_arith)
            requires blocks@.len() == word_count * pw, word_count * pw >= 4096;
    }
    blocks.truncate(SUBCHUNK_VOLUME);
    assert(blocks@ =~= unpacked(words, b));
    Some((blocks, pos + 4 * word_count))
}

fn read_u32(b: &[u8], i: usize) -> (r: u32)
    requires
        i + 4 <= b@.len(),
    ensures
        r == le_u32_at(b@, i as int),
{
    (b[i] as u32) | ((b[i + 1] as u32) << 8) | ((b[i + 2] as u32) << 16) | ((b[i + 3] as u32) << 24)
}

} // verus!
