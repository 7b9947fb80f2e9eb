use vstd::prelude::*;
use crate::error::WorldError;
use crate::pos::{ChunkPos, Dimension, SubchunkPos};

verus! {

/// Length of a record key in the overworld.
pub const SUBCHUNK_KEY_LEN_OVERWORLD: usize = 10;

/// Length of a record key in the other dimensions.
pub const SUBCHUNK_KEY_LEN_OTHER: usize = 14;

/// The byte that marks a key as a subchunk block record.
pub const SUBCHUNK_PREFIX: u8 = 47;

/// The four little-endian bytes of `v`.
pub open spec fn u32_le(v: u32) -> Seq<u8> {
    seq![v as u8, (v >> 8u32) as u8, (v >> 16u32) as u8, (v >> 24u32) as u8]
}

/// The little-endian `u32` that starts at `b[i]`.
pub open spec fn le_u32_at(b: Seq<u8>, i: int) -> u32 {
    (b[i] as u32) | ((b[i + 1] as u32) << 8u32) | ((b[i + 2] as u32) << 16u32) | ((b[i + 3] as u32) << 24u32)
}

pub proof fn lemma_le_u32_round_trip(v: u32)
    ensures
        le_u32_at(u32_le(v), 0) == v,
{
    let (b0, b1, b2, b3) = (v as u8, (v >> 8u32) as u8, (v >> 16u32) as u8, (v >> 24u32) as u8);
    assert((b0 as u32) | ((b1 as u32) << 8u32) | ((b2 as u32) << 16u32) | ((b3 as u32) << 24u32) == v)
        by (bit_vector)
        requires
            b0 == v as u8,
            b1 == (v >> 8u32) as u8,
            b2 == (v >> 16u32) as u8,
            b3 == (v >> 24u32) as u8,
    ;
}

pub proof fn lemma_u32_le_of_bytes(b: Seq<u8>, i: int)
    requires
        0 <= i,
        i + 4 <= b.len(),
    ensures
        u32_le(le_u32_at(b, i)) == b.subrange(i, i + 4),
{
    let (b0, b1, b2, b3) = (b[i], b[i + 1], b[i + 2], b[i + 3]);
    let v = le_u32_at(b, i);
    assert(v as u8 == b0 && (v >> 8u32) as u8 == b1 && (v >> 16u32) as u8 == b2 && (v >> 24u32) as u8
        == b3) by (bit_vector)
        requires
            v == (b0 as u32) | ((b1 as u32) << 8u32) | ((b2 as u32) << 16u32) | ((b3 as u32) << 24u32),
    ;
    assert(u32_le(v) =~= b.subrange(i, i + 4));
}

pub proof fn lemma_i32_u32_round_trip(x: i32)
    ensures
        (x as u32) as i32 == x,
{
    assert((x as u32) as i32 == x) by (bit_vector);
}

/// The key under which the store holds the subchunk at `p`:
/// `x`, `z`, the dimension outside the overworld, the prefix and the height.
pub open spec fn key_bytes(p: SubchunkPos) -> Seq<u8> {
    u32_le(p.x as u32) + u32_le(p.z as u32) + (if p.dimension == Dimension::Overworld {
        Seq::empty()
    } else {
        u32_le(p.dimension.code())
    }) + seq![SUBCHUNK_PREFIX, p.subchunk]
}

/// What a store key stands for: `None` when it is no block record, else
/// the position, or the error for a key of block-record shape that names no
/// dimension.
pub open spec fn decoded_key(k: Seq<u8>) -> Option<Result<SubchunkPos, WorldError>> {
    if k.len() == SUBCHUNK_KEY_LEN_OVERWORLD && k[8] == SUBCHUNK_PREFIX {
        Some(
            Ok(
                SubchunkPos {
                    x: le_u32_at(k, 0) as i32,
                    z: le_u32_at(k, 4) as i32,
                    subchunk: k[9],
                    dimension: Dimension::Overworld,
                },
            ),
        )
    } else if k.len() == SUBCHUNK_KEY_LEN_OTHER && k[12] == SUBCHUNK_PREFIX {
        let d = le_u32_at(k, 8);
        if d == 1 || d == 2 {
            Some(
                Ok(
                    SubchunkPos {
                        x: le_u32_at(k, 0) as i32,
                        z: le_u32_at(k, 4) as i32,
                        subchunk: k[13],
                        dimension: if d == 1 {
                            Dimension::Nether
                        } else {
                            Dimension::End
                        },
                    },
                ),
            )
        } else {
            Some(Err(WorldError::UnknownDimension))
        }
    } else {
        None
    }
}

/// Values that can append their binary form to a byte buffer.
pub trait Encode {
    spec fn encoding(&self) -> Seq<u8>;

    fn encode(&self, out: &mut Vec<u8>)
        ensures
            final(out)@ == old(out)@ + self.encoding(),
    ;
}

fn push_u32_le(out: &mut Vec<u8>, v: u32)
    ensures
        final(out)@ == old(out)@ + u32_le(v),
{
    out.push(v as u8);
    out.push((v >> 8) as u8);
    out.push((v >> 16) as u8);
    out.push((v >> 24) as u8);
}

impl Encode for SubchunkPos {
    open spec fn encoding(&self) -> Seq<u8> {
        key_bytes(*self)
    }

    fn encode(&self, out: &mut Vec<u8>) {
        push_u32_le(out, self.x as u32);
        push_u32_le(out, self.z as u32);
        if self.dimension != Dimension::Overworld {
            push_u32_le(out, self.dimension.to_code());
        }
        out.push(SUBCHUNK_PREFIX);
        out.push(self.subchunk);
    }
}

impl SubchunkPos {
    /// The store key of this subchunk.
    pub fn key(&self) -> (r: Vec<u8>)
        ensures
            r@ == key_bytes(*self),
    {
        let mut out: Vec<u8> = Vec::new();
        self.encode(&mut out);
        out
    }
}

fn read_u32_le(b: &[u8], i: usize) -> (r: u32)
    requires
        i + 4 <= b@.len(),
    ensures
        r == le_u32_at(b@, i as int),
{
    (b[i] as u32) | ((b[i + 1] as u32) << 8) | ((b[i + 2] as u32) << 16) | ((b[i + 3] as u32) << 24)
}

/// Reads a key whose shape has been checked: 10 bytes in the overworld,
/// 14 bytes with the prefix at `len - 2` elsewhere.
fn decode_pos(key: &[u8], overworld: bool) -> (r: Result<SubchunkPos, WorldError>)
    requires
        overworld ==> key@.len() == SUBCHUNK_KEY_LEN_OVERWORLD && key@[8] == SUBCHUNK_PREFIX,
        !overworld ==> key@.len() == SUBCHUNK_KEY_LEN_OTHER && key@[12] == SUBCHUNK_PREFIX,
    ensures
        Some(r) == decoded_key(key@),
{
    let x = read_u32_le(key, 0) as i32;
    let z = read_u32_le(key, 4) as i32;
    let dimension = if !overworld {
        let dim = read_u32_le(key, 8);
        if dim == 1 {
            Dimension::Nether
        } else if dim == 2 {
            Dimension::End
        } else {
            return Err(WorldError::UnknownDimension);
        }
    } else {
        Dimension::Overworld
    };
    let tail = if overworld {
        8
    } else {
        12
    };
    // the prefix has been checked; only the subchunk height is read
    let subchunk = key[tail + 1];
    Ok(SubchunkPos { x, z, subchunk, dimension })
}

/// Decodes a store key: `None` for a key that is no subchunk block record.
pub fn try_decode_pos(key: &[u8]) -> (r: Option<Result<SubchunkPos, WorldError>>)
    ensures
        r == decoded_key(key@),
{
    let len = key.len();
    if len == SUBCHUNK_KEY_LEN_OVERWORLD && key[len - 2] == SUBCHUNK_PREFIX {
        Some(decode_pos(key, true))
    } else if len == SUBCHUNK_KEY_LEN_OTHER && key[len - 2] == SUBCHUNK_PREFIX {
        Some(decode_pos(key, false))
    } else {
        None
    }
}

/// Decoding the key of a position gives the position back; the key is 10
/// bytes long in the overworld and 14 bytes long elsewhere.
pub proof fn lemma_key_round_trip(p: SubchunkPos)
    ensures
        decoded_key(key_bytes(p)) == Some(Ok::<SubchunkPos, WorldError>(p)),
        p.dimension == Dimension::Overworld <==> key_bytes(p).len() == SUBCHUNK_KEY_LEN_OVERWORLD,
        p.dimension != Dimension::Overworld <==> key_bytes(p).len() == SUBCHUNK_KEY_LEN_OTHER,
{
    let k = key_bytes(p);
    lemma_le_u32_round_trip(p.x as u32);
    lemma_le_u32_round_trip(p.z as u32);
    lemma_le_u32_round_trip(p.dimension.code());
    lemma_i32_u32_round_trip(p.x);
    lemma_i32_u32_round_trip(p.z);
    assert(k.subrange(0, 4) =~= u32_le(p.x as u32));
    assert(k.subrange(4, 8) =~= u32_le(p.z as u32));
    assert(le_u32_at(k, 0) == le_u32_at(u32_le(p.x as u32), 0));
    assert(le_u32_at(k, 4) == le_u32_at(u32_le(p.z as u32), 0));
    if p.dimension != Dimension::Overworld {
        assert(le_u32_at(k, 8) == le_u32_at(u32_le(p.dimension.code()), 0));
    }
}

/// A key that decodes to a position is the key of that position.
pub proof fn lemma_decoded_key_is_key_bytes(k: Seq<u8>, p: SubchunkPos)
    requires
        decoded_key(k) == Some(Ok::<SubchunkPos, WorldError>(p)),
    ensures
        k == key_bytes(p),
{
    lemma_u32_le_of_bytes(k, 0);
    lemma_u32_le_of_bytes(k, 4);
    lemma_i32_u32_round_trip(p.x);
    lemma_i32_u32_round_trip(p.z);
    let x = le_u32_at(k, 0);
    let z = le_u32_at(k, 4);
    assert((x as i32) as u32 == x) by (bit_vector);
    assert((z as i32) as u32 == z) by (bit_vector);
    if k.len() == SUBCHUNK_KEY_LEN_OVERWORLD {
        assert(k =~= key_bytes(p));
    } else {
        lemma_u32_le_of_bytes(k, 8);
        assert(k =~= key_bytes(p));
    }
}

/// The results of walking store keys in order: one per block-record key,
/// skipping the others; after the first error nothing more.
pub open spec fn scan_keys(keys: Seq<Seq<u8>>) -> Seq<Result<SubchunkPos, WorldError>>
    decreases keys.len(),
{
    if keys.len() == 0 {
        Seq::empty()
    } else {
        let prev = scan_keys(keys.drop_last());
        if prev.len() > 0 && prev.last() is Err {
            prev
        } else {
            match decoded_key(keys.last()) {
                None => prev,
                Some(r) => prev.push(r),
            }
        }
    }
}

/// The chunk positions among subchunk results: those of height 0, with the
/// errors kept.
pub open spec fn chunk_results(rs: Seq<Result<SubchunkPos, WorldError>>) -> Seq<Result<ChunkPos, WorldError>>
    decreases rs.len(),
{
    if rs.len() == 0 {
        Seq::empty()
    } else {
        let prev = chunk_results(rs.drop_last());
        match rs.last() {
            Ok(p) => if p.subchunk == 0 {
                prev.push(Ok(p.spec_chunk_pos()))
            } else {
                prev
            },
            Err(e) => prev.push(Err(e)),
        }
    }
}

pub open spec fn keys_view(keys: Seq<Vec<u8>>) -> Seq<Seq<u8>> {
    keys.map_values(|k: Vec<u8>| k@)
}

proof fn lemma_scan_stops(keys: Seq<Seq<u8>>, i: int)
    requires
        0 <= i <= keys.len(),
        scan_keys(keys.take(i)).len() > 0,
        scan_keys(keys.take(i)).last() is Err,
    ensures
        scan_keys(keys) == scan_keys(keys.take(i)),
    decreases keys.len() - i,
{
    if i < keys.len() {
        assert(keys.take(i + 1).drop_last() =~= keys.take(i));
        lemma_scan_stops(keys, i + 1);
    } else {
        assert(keys.take(i) =~= keys);
    }
}

/// Walks the keys of a store in order: a position for each subchunk block
/// record, the other keys skipped; a key of record shape that cannot be
/// decoded gives one error and ends the walk.
pub fn scan_subchunk_keys(keys: &Vec<Vec<u8>>) -> (r: Vec<Result<SubchunkPos, WorldError>>)
    ensures
        r@ == scan_keys(keys_view(keys@)),
{
    let ghost kv = keys_view(keys@);
    let mut out: Vec<Result<SubchunkPos, WorldError>> = Vec::new();
    let mut done = false;
    let mut i: usize = 0;
    assert(kv.take(0) =~= Seq::<Seq<u8>>::empty());
    while i < keys.len() && !done
        invariant
            kv == keys_view(keys@),
            i <= kv.len(),
            out@ == scan_keys(kv.take(i as int)),
            done == (out@.len() > 0 && out@.last() is Err),
        decreases kv.len() - i,
    {
        assert(kv.take(i + 1).drop_last() =~= kv.take(i as int));
        assert(kv[i as int] == keys@[i as int]@);
        match try_decode_pos(keys[i].as_slice()) {
            Some(res) => {
                // an error ends the walk
                if res.is_err() {
                    done = true;
                }
                out.push(res);
            },
            // skip keys which do not stand for subchunk block data
            None => {},
        }
        i = i + 1;
    }
    proof {
        if done {
            lemma_scan_stops(kv, i as int);
        } else {
            assert(kv.take(i as int) =~= kv);
        }
    }
    out
}

/// Keeps the positions of height 0 as chunk positions, and the errors.
pub fn chunk_positions(results: &Vec<Result<SubchunkPos, WorldError>>) -> (r: Vec<Result<ChunkPos, WorldError>>)
    ensures
        r@ == chunk_results(results@),
{
    let mut out: Vec<Result<ChunkPos, WorldError>> = Vec::new();
    let mut i: usize = 0;
    assert(results@.take(0) =~= Seq::<Result<SubchunkPos, WorldError>>::empty());
    while i < results.len()
        invariant
            i <= results@.len(),
            out@ == chunk_results(results@.take(i as int)),
        decreases results@.len() - i,
    {
        assert(results@.take(i + 1).drop_last() =~= results@.take(i as int));
        match results[i] {
            Ok(pos) => {
                if pos.subchunk == 0 {
                    out.push(Ok(pos.chunk_pos()));
                }
            },
            Err(e) => {
                out.push(Err(e));
            },
        }
        i = i + 1;
    }
    assert(results@.take(i as int) =~= results@);
    out
}

/// Every key decodes to a position or is skipped.
pub open spec fn keys_decodable(keys: Seq<Seq<u8>>) -> bool {
    forall|i: int| 0 <= i < keys.len() ==> !(#[trigger] decoded_key(keys[i]) matches Some(Err(_)))
}

proof fn lemma_key_bytes_injective(p: SubchunkPos, q: SubchunkPos)
    requires
        key_bytes(p) == key_bytes(q),
    ensures
        p == q,
{
    lemma_key_round_trip(p);
    lemma_key_round_trip(q);
}

proof fn lemma_scan_positions(keys: Seq<Seq<u8>>)
    requires
        keys.no_duplicates(),
        keys_decodable(keys),
    ensures
        forall|j: int| 0 <= j < scan_keys(keys).len() ==> (#[trigger] scan_keys(keys)[j]) is Ok,
        forall|p: SubchunkPos| #[trigger] scan_keys(keys).contains(Ok(p)) <==> keys.contains(key_bytes(p)),
        scan_keys(keys).no_duplicates(),
    decreases keys.len(),
{
    let out = scan_keys(keys);
    if keys.len() > 0 {
        let init = keys.drop_last();
        let k = keys.last();
        assert(init.no_duplicates());
        assert forall|i: int| 0 <= i < init.len() implies !(#[trigger] decoded_key(init[i]) matches Some(Err(_))) by {
            assert(init[i] == keys[i]);
        }
        lemma_scan_positions(init);
        let prev = scan_keys(init);
        assert(prev.len() > 0 ==> prev[prev.len() - 1] is Ok);
        assert(!init.contains(k)) by {
            if init.contains(k) {
                let j = init.index_of(k);
                assert(keys[j] == keys[keys.len() - 1]);
            }
        }
        assert(!(decoded_key(keys[keys.len() - 1]) matches Some(Err(_))));
        match decoded_key(k) {
            None => {
                assert forall|p: SubchunkPos| #[trigger] out.contains(Ok(p)) <==> keys.contains(key_bytes(p)) by {
                    if keys.contains(key_bytes(p)) {
                        let j = keys.index_of(key_bytes(p));
                        if j == keys.len() - 1 {
                            lemma_key_round_trip(p);
                        } else {
                            assert(init[j] == key_bytes(p));
                        }
                    }
                    if init.contains(key_bytes(p)) {
                        let j = init.index_of(key_bytes(p));
                        assert(keys[j] == key_bytes(p));
                    }
                }
            },
            Some(r) => {
                let found = r->Ok_0;
                lemma_decoded_key_is_key_bytes(k, found);
                assert(!prev.contains(Ok(found)));
                assert forall|p: SubchunkPos| #[trigger] out.contains(Ok(p)) <==> keys.contains(key_bytes(p)) by {
                    if out.contains(Ok(p)) {
                        let j = out.index_of(Ok(p));
                        if j < prev.len() {
                            assert(prev[j] == Ok::<SubchunkPos, WorldError>(p));
                            assert(prev.contains(Ok(p)));
                            let t = init.index_of(key_bytes(p));
                            assert(keys[t] == key_bytes(p));
                        } else {
                            assert(p == found);
                            assert(keys[keys.len() - 1] == key_bytes(p));
                        }
                    }
                    if keys.contains(key_bytes(p)) {
                        let j = keys.index_of(key_bytes(p));
                        if j == keys.len() - 1 {
                            lemma_key_bytes_injective(p, found);
                            assert(out[out.len() - 1] == Ok::<SubchunkPos, WorldError>(p));
                        } else {
                            assert(init[j] == key_bytes(p));
                            assert(prev.contains(Ok(p)));
                            let t = prev.index_of(Ok(p));
                            assert(out[t] == Ok::<SubchunkPos, WorldError>(p));
                        }
                    }
                }
                assert forall|a: int, b: int| 0 <= a < out.len() && 0 <= b < out.len() && a != b implies out[a] != out[b] by {
                    if a == prev.len() && b < prev.len() {
                        assert(out[b] == prev[b]);
                        if out[a] == out[b] {
                            assert(prev.contains(Ok(found)));
                        }
                    } else if b == prev.len() && a < prev.len() {
                        assert(out[a] == prev[a]);
                        if out[a] == out[b] {
                            assert(prev.contains(Ok(found)));
                        }
                    } else {
                        assert(out[a] == prev[a] && out[b] == prev[b]);
                    }
                }
            },
        }
    }
}

proof fn lemma_chunk_results(rs: Seq<Result<SubchunkPos, WorldError>>)
    requires
        rs.no_duplicates(),
        forall|j: int| 0 <= j < rs.len() ==> (#[trigger] rs[j]) is Ok,
    ensures
        forall|j: int| 0 <= j < chunk_results(rs).len() ==> (#[trigger] chunk_results(rs)[j]) is Ok,
        forall|c: ChunkPos| #[trigger] chunk_results(rs).contains(Ok(c)) <==> rs.contains(Ok(c.spec_subchunk_pos(0))),
        chunk_results(rs).no_duplicates(),
    decreases rs.len(),
{
    let out = chunk_results(rs);
    if rs.len() > 0 {
        let init = rs.drop_last();
        assert forall|j: int| 0 <= j < init.len() implies (#[trigger] init[j]) is Ok by {
            assert(init[j] == rs[j]);
        }
        assert(init.no_duplicates());
        lemma_chunk_results(init);
        let prev = chunk_results(init);
        assert(rs[rs.len() - 1] is Ok);
        let p = rs.last()->Ok_0;
        assert(!init.contains(Ok(p))) by {
            if init.contains(Ok(p)) {
                let j = init.index_of(Ok(p));
                assert(rs[j] == rs[rs.len() - 1]);
            }
        }
        if p.subchunk == 0 {
            let c0 = p.spec_chunk_pos();
            assert(c0.spec_subchunk_pos(0) == p);
            assert(!prev.contains(Ok(c0)));
            assert forall|c: ChunkPos| #[trigger] out.contains(Ok(c)) <==> rs.contains(Ok(c.spec_subchunk_pos(0))) by {
                if out.contains(Ok(c)) {
                    let j = out.index_of(Ok(c));
                    if j < prev.len() {
                        assert(prev[j] == Ok::<ChunkPos, WorldError>(c));
                        assert(prev.contains(Ok(c)));
                        let t = init.index_of(Ok(c.spec_subchunk_pos(0)));
                        assert(rs[t] == init[t]);
                    } else {
                        assert(c == c0);
                        assert(rs[rs.len() - 1] == Ok::<SubchunkPos, WorldError>(c.spec_subchunk_pos(0)));
                    }
                }
                if rs.contains(Ok(c.spec_subchunk_pos(0))) {
                    let j = rs.index_of(Ok(c.spec_subchunk_pos(0)));
                    if j == rs.len() - 1 {
                        assert(out[out.len() - 1] == Ok::<ChunkPos, WorldError>(c));
                    } else {
                        assert(init[j] == rs[j]);
                        assert(prev.contains(Ok(c)));
                        let t = prev.index_of(Ok(c));
                        assert(out[t] == Ok::<ChunkPos, WorldError>(c));
                    }
                }
            }
            assert forall|a: int, b: int| 0 <= a < out.len() && 0 <= b < out.len() && a != b implies out[a] != out[b] by {
                if a == prev.len() && b < prev.len() {
                    assert(out[b] == prev[b]);
                    if out[a] == out[b] {
                        assert(prev.contains(Ok(c0)));
                    }
                } else if b == prev.len() && a < prev.len() {
                    assert(out[a] == prev[a]);
                    if out[a] == out[b] {
                        assert(prev.contains(Ok(c0)));
                    }
                } else {
                    assert(out[a] == prev[a] && out[b] == prev[b]);
                }
            }
        } else {
            assert forall|c: ChunkPos| #[trigger] out.contains(Ok(c)) <==> rs.contains(Ok(c.spec_subchunk_pos(0))) by {
                if rs.contains(Ok(c.spec_subchunk_pos(0))) {
                    let j = rs.index_of(Ok(c.spec_subchunk_pos(0)));
                    if j == rs.len() - 1 {
                        assert(rs[j] == Ok::<SubchunkPos, WorldError>(p));
                    } else {
                        assert(init[j] == rs[j]);
                    }
                }
                if prev.contains(Ok(c)) {
                    let t = init.index_of(Ok(c.spec_subchunk_pos(0)));
                    assert(rs[t] == init[t]);
                }
            }
        }
    }
}

/// On a store whose keys all decode or are skipped, walking the chunks gives
/// each chunk whose subchunk 0 has a record exactly once, and no other.
pub proof fn lemma_iteration_presence(keys: Seq<Seq<u8>>)
    requires
        keys.no_duplicates(),
        keys_decodable(keys),
    ensures
        forall|j: int| 0 <= j < chunk_results(scan_keys(keys)).len() ==> (#[trigger] chunk_results(scan_keys(keys))[j]) is Ok,
        forall|c: ChunkPos| #[trigger] chunk_results(scan_keys(keys)).contains(Ok(c)) <==> keys.contains(
            key_bytes(c.spec_subchunk_pos(0)),
        ),
        chunk_results(scan_keys(keys)).no_duplicates(),
{
    lemma_scan_positions(keys);
    lemma_chunk_results(scan_keys(keys));
    assert forall|c: ChunkPos| #[trigger] chunk_results(scan_keys(keys)).contains(Ok(c)) <==> keys.contains(
        key_bytes(c.spec_subchunk_pos(0)),
    ) by {
        assert(scan_keys(keys).contains(Ok(c.spec_subchunk_pos(0))) <==> keys.contains(key_bytes(c.spec_subchunk_pos(0))));
    }
}

proof fn lemma_scan_sound(keys: Seq<Seq<u8>>)
    ensures
        forall|p: SubchunkPos| #[trigger] scan_keys(keys).contains(Ok(p)) ==> keys.contains(key_bytes(p)),
    decreases keys.len(),
{
    if keys.len() > 0 {
        let init = keys.drop_last();
        lemma_scan_sound(init);
        let prev = scan_keys(init);
        let out = scan_keys(keys);
        assert forall|p: SubchunkPos| #[trigger] out.contains(Ok(p)) implies keys.contains(key_bytes(p)) by {
            let j = out.index_of(Ok(p));
            if j < prev.len() {
                assert(prev[j] == out[j]);
                assert(prev.contains(Ok(p)));
                let t = init.index_of(key_bytes(p));
                assert(keys[t] == init[t]);
            } else {
                lemma_decoded_key_is_key_bytes(keys.last(), p);
                assert(keys[keys.len() - 1] == key_bytes(p));
            }
        }
    }
}

proof fn lemma_chunk_results_sound(rs: Seq<Result<SubchunkPos, WorldError>>)
    ensures
        forall|c: ChunkPos| #[trigger] chunk_results(rs).contains(Ok(c)) ==> rs.contains(Ok(c.spec_subchunk_pos(0))),
    decreases rs.len(),
{
    if rs.len() > 0 {
        let init = rs.drop_last();
        lemma_chunk_results_sound(init);
        let prev = chunk_results(init);
        let out = chunk_results(rs);
        assert forall|c: ChunkPos| #[trigger] out.contains(Ok(c)) implies rs.contains(Ok(c.spec_subchunk_pos(0))) by {
            let j = out.index_of(Ok(c));
            if j < prev.len() {
                assert(prev[j] == out[j]);
                assert(prev.contains(Ok(c)));
                let t = init.index_of(Ok(c.spec_subchunk_pos(0)));
                assert(rs[t] == init[t]);
            } else {
                let p = rs.last()->Ok_0;
                assert(p.spec_chunk_pos() == c && p.subchunk == 0);
                assert(p == c.spec_subchunk_pos(0));
                assert(rs[rs.len() - 1] == Ok::<SubchunkPos, WorldError>(p));
            }
        }
    }
}

/// On every store, walking the chunks never gives a chunk whose subchunk 0
/// has no record.
pub proof fn lemma_iteration_absence(keys: Seq<Seq<u8>>)
    ensures
        forall|c: ChunkPos| #[trigger] chunk_results(scan_keys(keys)).contains(Ok(c)) ==> keys.contains(
            key_bytes(c.spec_subchunk_pos(0)),
        ),
{
    lemma_scan_sound(keys);
    lemma_chunk_results_sound(scan_keys(keys));
}

} // verus!
