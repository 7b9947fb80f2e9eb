use vstd::prelude::*;
use crate::bits::{
    bits_per_block, blocks_bytes, decode_blocks, encode_blocks, fits_width, index_limit, is_legal_width,
    lemma_pack_round_trip, lemma_read_words_le, num_words, packed_words, parse_blocks, width_for,
};
use crate::error::WorldError;
use crate::key::{le_u32_at, lemma_le_u32_round_trip, u32_le};
use crate::palette::{
    readable_blob_end, readable_blob_len, name_fits, name_fits_exec, nbt_entry_bytes, nbt_entry_read, read_entry_blob, write_entry_blob,
};
use crate::pos::SUBCHUNK_VOLUME;

verus! {

/// The version byte that starts every subchunk record.
pub const SUBCHUNK_VERSION: u8 = 8;

/// Largest palette that a layer can be written with.
pub const MAX_PALETTE_LEN: usize = 65536;

/// One palette entry of a stored layer: a block name and its auxiliary
/// value (stored on disk as a signed 16-bit integer, same bits).
#[derive(Debug, Clone, PartialEq, Eq, Hash)]
pub struct PaletteEntry {
    pub name: String,
    pub val: u16,
}

/// One stored layer: 4096 palette indices and the palette.
#[derive(Debug, Clone)]
pub struct BlockStorage {
    pub blocks: Vec<u16>,
    pub palette: Vec<PaletteEntry>,
}

/// A stored subchunk: one or two layers.
#[derive(Debug, Clone)]
pub struct Subchunk {
    pub block_storages: Vec<BlockStorage>,
}

/// The value of a stored layer.
pub struct StorageModel {
    pub blocks: Seq<u16>,
    pub palette: Seq<(Seq<char>, u16)>,
}

impl View for PaletteEntry {
    type V = (Seq<char>, u16);

    open spec fn view(&self) -> (Seq<char>, u16) {
        (self.name@, self.val)
    }
}

impl View for BlockStorage {
    type V = StorageModel;

    open spec fn view(&self) -> StorageModel {
        StorageModel {
            blocks: self.blocks@,
            palette: self.palette@.map_values(|e: PaletteEntry| e@),
        }
    }
}

impl View for Subchunk {
    type V = Seq<StorageModel>;

    open spec fn view(&self) -> Seq<StorageModel> {
        self.block_storages@.map_values(|s: BlockStorage| s@)
    }
}

/// A layer that can be written: 4096 indices, each below the length of a
/// palette of 1 to 65536 entries.
pub open spec fn storage_wf(s: StorageModel) -> bool {
    &&& s.blocks.len() == SUBCHUNK_VOLUME
    &&& 1 <= s.palette.len() <= MAX_PALETTE_LEN
    &&& forall|i: int| 0 <= i < s.blocks.len() ==> (#[trigger] s.blocks[i]) < s.palette.len()
}

/// A subchunk that can be written: one or two well-formed layers.
pub open spec fn subchunk_wf(s: Seq<StorageModel>) -> bool {
    &&& 1 <= s.len() <= 2
    &&& forall|i: int| 0 <= i < s.len() ==> storage_wf(#[trigger] s[i])
}

/// Every palette name of the subchunk fits the named-tag length field.
pub open spec fn names_fit(s: Seq<StorageModel>) -> bool {
    forall|i: int, k: int|
        0 <= i < s.len() && 0 <= k < s[i].palette.len() ==> name_fits((#[trigger] s[i].palette[k]).0)
}

// ----- the written form -----

pub open spec fn entry_bytes(e: (Seq<char>, u16)) -> Seq<u8> {
    nbt_entry_bytes(e.0, e.1 as i16)
}

pub open spec fn palette_bytes(p: Seq<(Seq<char>, u16)>) -> Seq<u8>
    decreases p.len(),
{
    if p.len() == 0 {
        Seq::empty()
    } else {
        palette_bytes(p.drop_last()) + entry_bytes(p.last())
    }
}

/// Format byte (width shifted past the network bit), packed indices,
/// palette length and palette entries.
pub open spec fn storage_bytes(s: StorageModel) -> Seq<u8> {
    let b = width_for(s.palette.len());
    seq![(b * 2) as u8] + blocks_bytes(s.blocks, b) + u32_le(s.palette.len() as u32)
        + palette_bytes(s.palette)
}

pub open spec fn storages_bytes(ss: Seq<StorageModel>) -> Seq<u8>
    decreases ss.len(),
{
    if ss.len() == 0 {
        Seq::empty()
    } else {
        storages_bytes(ss.drop_last()) + storage_bytes(ss.last())
    }
}

/// The record of a subchunk: version, layer count, layers.
pub open spec fn subchunk_bytes(s: Seq<StorageModel>) -> Seq<u8> {
    seq![SUBCHUNK_VERSION, s.len() as u8] + storages_bytes(s)
}

// ----- the reading of a record -----

pub open spec fn parse_entry(data: Seq<u8>, pos: nat) -> Result<((Seq<char>, u16), nat), WorldError> {
    if readable_blob_end(data.subrange(pos as int, data.len() as int)) is None {
        Err(WorldError::BadPaletteEntry)
    } else {
    match nbt_entry_read(data.subrange(pos as int, data.len() as int)) {
        None => Err(WorldError::BadPaletteEntry),
        Some((None, _, _)) => Err(WorldError::MissingName),
        Some((Some(_), None, _)) => Err(WorldError::MissingVal),
        Some((Some(name), Some(val), used)) => if name_fits(name) {
            Ok(((name, val as u16), pos + used))
        } else {
            Err(WorldError::NameTooLong)
        },
    }
    }
}

pub open spec fn parse_entries(data: Seq<u8>, pos: nat, n: nat) -> Result<
    (Seq<(Seq<char>, u16)>, nat),
    WorldError,
>
    decreases n,
{
    if n == 0 {
        Ok((Seq::empty(), pos))
    } else {
        match parse_entries(data, pos, (n - 1) as nat) {
            Err(e) => Err(e),
            Ok((es, p)) => match parse_entry(data, p) {
                Err(e) => Err(e),
                Ok((e, after_entries)) => Ok((es.push(e), after_entries)),
            },
        }
    }
}

pub open spec fn all_below(blocks: Seq<u16>, n: nat) -> bool {
    forall|i: int| 0 <= i < blocks.len() ==> (#[trigger] blocks[i]) < n
}

pub open spec fn parse_storage(data: Seq<u8>, pos: nat) -> Result<(StorageModel, nat), WorldError> {
    if pos >= data.len() {
        Err(WorldError::Truncated)
    } else if data[pos as int] % 2 != 0 {
        Err(WorldError::NetworkFormat)
    } else if !is_legal_width((data[pos as int] / 2) as u32) {
        Err(WorldError::BadBitsPerBlock)
    } else {
        match parse_blocks(data, pos + 1, (data[pos as int] / 2) as u32) {
            None => Err(WorldError::Truncated),
            Some((blocks, after_blocks)) => if after_blocks + 4 > data.len() {
                Err(WorldError::Truncated)
            } else if le_u32_at(data, after_blocks as int) == 0 {
                Err(WorldError::EmptyPalette)
            } else {
                match parse_entries(data, after_blocks + 4, le_u32_at(data, after_blocks as int) as nat) {
                    Err(e) => Err(e),
                    Ok((palette, after_entries)) => if !all_below(blocks, palette.len()) {
                        Err(WorldError::PaletteIndexOutOfRange)
                    } else {
                        Ok((StorageModel { blocks, palette }, after_entries))
                    },
                }
            },
        }
    }
}

pub open spec fn parse_storages(data: Seq<u8>, pos: nat, n: nat) -> Result<(Seq<StorageModel>, nat), WorldError>
    decreases n,
{
    if n == 0 {
        Ok((Seq::empty(), pos))
    } else {
        match parse_storages(data, pos, (n - 1) as nat) {
            Err(e) => Err(e),
            Ok((ss, p)) => match parse_storage(data, p) {
                Err(e) => Err(e),
                Ok((s, after_entries)) => Ok((ss.push(s), after_entries)),
            },
        }
    }
}

/// What a whole record decodes to; bytes after the last layer are an error.
pub open spec fn parse_subchunk(data: Seq<u8>) -> Result<Seq<StorageModel>, WorldError> {
    if data.len() < 1 {
        Err(WorldError::Truncated)
    } else if data[0] != SUBCHUNK_VERSION {
        Err(WorldError::BadVersion)
    } else if data.len() < 2 {
        Err(WorldError::Truncated)
    } else if data[1] != 1 && data[1] != 2 {
        Err(WorldError::BadStorageCount)
    } else {
        match parse_storages(data, 2, data[1] as nat) {
            Err(e) => Err(e),
            Ok((ss, p)) => if p != data.len() {
                Err(WorldError::TrailingBytes)
            } else {
                Ok(ss)
            },
        }
    }
}

proof fn lemma_entries_error_stays(data: Seq<u8>, pos: nat, i: nat, n: nat)
    requires
        i <= n,
        parse_entries(data, pos, i) is Err,
    ensures
        parse_entries(data, pos, n) == parse_entries(data, pos, i),
    decreases n - i,
{
    if n > i {
        lemma_entries_error_stays(data, pos, i, (n - 1) as nat);
    }
}

proof fn lemma_storages_error_stays(data: Seq<u8>, pos: nat, i: nat, n: nat)
    requires
        i <= n,
        parse_storages(data, pos, i) is Err,
    ensures
        parse_storages(data, pos, n) == parse_storages(data, pos, i),
    decreases n - i,
{
    if n > i {
        lemma_storages_error_stays(data, pos, i, (n - 1) as nat);
    }
}

// ----- decoding -----

fn decode_palette_entry(data: &[u8], pos: usize) -> (r: Result<(PaletteEntry, usize), WorldError>)
    requires
        pos <= data@.len(),
    ensures
        match r {
            Ok((e, p)) => parse_entry(data@, pos as nat) == Ok::<_, WorldError>((e@, p as nat)) && p
                <= data@.len(),
            Err(e) => parse_entry(data@, pos as nat) == Err::<((Seq<char>, u16), nat), _>(e),
        },
{
    // hand the reader only a readable blob, which it reads without deep
    // recursion and without reserving more room than the bytes give
    if readable_blob_len(data, pos).is_none() {
        return Err(WorldError::BadPaletteEntry);
    }
    match read_entry_blob(data, pos) {
        Err(_) => Err(WorldError::BadPaletteEntry),
        Ok((None, _, _)) => Err(WorldError::MissingName),
        Ok((Some(_), None, _)) => Err(WorldError::MissingVal),
        Ok((Some(name), Some(val), used)) => {
            if !name_fits_exec(name.as_str()) {
                return Err(WorldError::NameTooLong);
            }
            let len = data.len();
            proof {
                crate::palette::lemma_readable_blob_end_bound(data@.subrange(pos as int, data@.len() as int));
            }
            assert(pos + used <= len);
            Ok((PaletteEntry { name, val: val as u16 }, pos + used))
        },
    }
}

fn decode_palette(data: &[u8], pos: usize, num_entries: u32) -> (r: Result<(Vec<PaletteEntry>, usize), WorldError>)
    requires
        pos <= data@.len(),
    ensures
        match r {
            Ok((es, p)) => parse_entries(data@, pos as nat, num_entries as nat) == Ok::<_, WorldError>(
                (es@.map_values(|e: PaletteEntry| e@), p as nat),
            ) && p <= data@.len(),
            Err(e) => parse_entries(data@, pos as nat, num_entries as nat) == Err::<
                (Seq<(Seq<char>, u16)>, nat),
                _,
            >(e),
        },
{
    let mut palette: Vec<PaletteEntry> = Vec::new();
    let mut p = pos;
    let mut i: u32 = 0;
    assert(palette@.map_values(|e: PaletteEntry| e@) =~= Seq::empty());
    while i < num_entries
        invariant
            i <= num_entries,
            p <= data@.len(),
            parse_entries(data@, pos as nat, i as nat) == Ok::<_, WorldError>(
                (palette@.map_values(|e: PaletteEntry| e@), p as nat),
            ),
        decreases num_entries - i,
    {
        let (entry, next) = match decode_palette_entry(data, p) {
            Ok(x) => x,
            Err(e) => {
                proof {
                    lemma_entries_error_stays(data@, pos as nat, (i + 1) as nat, num_entries as nat);
                }
                return Err(e);
            },
        };
        let ghost before = palette@;
        palette.push(entry);
        assert(palette@.map_values(|e: PaletteEntry| e@) =~= before.map_values(
            |e: PaletteEntry| e@,
        ).push(entry@));
        p = next;
        i = i + 1;
    }
    Ok((palette, p))
}

fn check_indices(blocks: &Vec<u16>, n: usize) -> (r: bool)
    ensures
        r == all_below(blocks@, n as nat),
{
    let mut i: usize = 0;
    while i < blocks.len()
        invariant
            i <= blocks@.len(),
            forall|j: int| 0 <= j < i ==> (#[trigger] blocks@[j]) < n,
        decreases blocks@.len() - i,
    {
        if blocks[i] as usize >= n {
            return false;
        }
        i = i + 1;
    }
    true
}

fn decode_storage(data: &[u8], pos: usize) -> (r: Result<(BlockStorage, usize), WorldError>)
    requires
        pos <= data@.len(),
    ensures
        match r {
            Ok((s, p)) => parse_storage(data@, pos as nat) == Ok::<_, WorldError>((s@, p as nat)) && p
                <= data@.len(),
            Err(e) => parse_storage(data@, pos as nat) == Err::<(StorageModel, nat), _>(e),
        },
{
    if pos >= data.len() {
        return Err(WorldError::Truncated);
    }
    let format = data[pos];
    // the lowest bit marks the network variant, which is not read here
    if format % 2 != 0 {
        return Err(WorldError::NetworkFormat);
    }
    let bits_per_block = (format / 2) as u32;
    if !is_width(bits_per_block) {
        return Err(WorldError::BadBitsPerBlock);
    }
    let (blocks, after_blocks) = match decode_blocks(data, pos + 1, bits_per_block) {
        Some(x) => x,
        None => {
            return Err(WorldError::Truncated);
        },
    };
    if data.len() - after_blocks < 4 {
        return Err(WorldError::Truncated);
    }
    let num_entries = read_u32_at(data, after_blocks);
    if num_entries == 0 {
        return Err(WorldError::EmptyPalette);
    }
    let (palette, after_entries) = match decode_palette(data, after_blocks + 4, num_entries) {
        Ok(x) => x,
        Err(e) => {
            return Err(e);
        },
    };
    if !check_indices(&blocks, palette.len()) {
        return Err(WorldError::PaletteIndexOutOfRange);
    }
    Ok((BlockStorage { blocks, palette }, after_entries))
}

fn is_width(b: u32) -> (r: bool)
    ensures
        r == is_legal_width(b),
{
    b == 1 || b == 2 || b == 3 || b == 4 || b == 5 || b == 6 || b == 8 || b == 16
}

fn read_u32_at(b: &[u8], i: usize) -> (r: u32)
    requires
        i + 4 <= b@.len(),
    ensures
        r == le_u32_at(b@, i as int),
{
    (b[i] as u32) | ((b[i + 1] as u32) << 8) | ((b[i + 2] as u32) << 16) | ((b[i + 3] as u32) << 24)
}

fn decode_chunk(data: &[u8]) -> (r: Result<Subchunk, WorldError>)
    ensures
        match r {
            Ok(s) => parse_subchunk(data@) == Ok::<_, WorldError>(s@),
            Err(e) => parse_subchunk(data@) == Err::<Seq<StorageModel>, _>(e),
        },
{
    if data.len() < 1 {
        return Err(WorldError::Truncated);
    }
    if data[0] != SUBCHUNK_VERSION {
        return Err(WorldError::BadVersion);
    }
    if data.len() < 2 {
        return Err(WorldError::Truncated);
    }
    let num_storages = data[1];
    if num_storages != 1 && num_storages != 2 {
        return Err(WorldError::BadStorageCount);
    }
    let mut storages: Vec<BlockStorage> = Vec::new();
    let mut p: usize = 2;
    let mut i: u8 = 0;
    assert(storages@.map_values(|s: BlockStorage| s@) =~= Seq::empty());
    while i < num_storages
        invariant
            i <= num_storages,
            p <= data@.len(),
            data@.len() >= 2,
            data@[0] == SUBCHUNK_VERSION,
            num_storages == data@[1],
            num_storages == 1 || num_storages == 2,
            parse_storages(data@, 2, i as nat) == Ok::<_, WorldError>(
                (storages@.map_values(|s: BlockStorage| s@), p as nat),
            ),
        decreases num_storages - i,
    {
        let (storage, next) = match decode_storage(data, p) {
            Ok(x) => x,
            Err(e) => {
                proof {
                    lemma_storages_error_stays(data@, 2, (i + 1) as nat, num_storages as nat);
                }
                return Err(e);
            },
        };
        let ghost before = storages@;
        storages.push(storage);
        assert(storages@.map_values(|s: BlockStorage| s@) =~= before.map_values(
            |s: BlockStorage| s@,
        ).push(storage@));
        p = next;
        i = i + 1;
    }
    if p != data.len() {
        return Err(WorldError::TrailingBytes);
    }
    Ok(Subchunk { block_storages: storages })
}

/// What every decoded subchunk satisfies: one or two layers of 4096
/// indices, each below the length of its palette.
pub open spec fn decoded_wf(ss: Seq<StorageModel>) -> bool {
    &&& 1 <= ss.len() <= 2
    &&& forall|i: int|
        #![trigger ss[i]]
        0 <= i < ss.len() ==> ss[i].blocks.len() == SUBCHUNK_VOLUME && all_below(
            ss[i].blocks,
            ss[i].palette.len(),
        )
    &&& names_fit(ss)
}

proof fn lemma_parsed_entries_fit(data: Seq<u8>, pos: nat, n: nat)
    requires
        parse_entries(data, pos, n) is Ok,
    ensures
        ({
            let es = parse_entries(data, pos, n)->Ok_0.0;
            &&& es.len() == n
            &&& forall|k: int| 0 <= k < es.len() ==> name_fits((#[trigger] es[k]).0)
        }),
    decreases n,
{
    if n > 0 {
        lemma_parsed_entries_fit(data, pos, (n - 1) as nat);
    }
}

proof fn lemma_parsed_storages_wf(data: Seq<u8>, pos: nat, n: nat)
    requires
        parse_storages(data, pos, n) is Ok,
    ensures
        ({
            let ss = parse_storages(data, pos, n)->Ok_0.0;
            &&& ss.len() == n
            &&& forall|i: int|
                #![trigger ss[i]]
                0 <= i < ss.len() ==> ss[i].blocks.len() == SUBCHUNK_VOLUME && all_below(
                    ss[i].blocks,
                    ss[i].palette.len(),
                )
            &&& names_fit(ss)
        }),
    decreases n,
{
    if n > 0 {
        lemma_parsed_storages_wf(data, pos, (n - 1) as nat);
        let (prev, p) = parse_storages(data, pos, (n - 1) as nat)->Ok_0;
        let b = data[p as int] / 2;
        if let Some((blocks, after_blocks)) = parse_blocks(data, p + 1, b as u32) {
            lemma_parsed_entries_fit(data, after_blocks + 4, le_u32_at(data, after_blocks as int) as nat);
        }
        let ss = parse_storages(data, pos, n)->Ok_0.0;
        assert forall|i: int, k: int| 0 <= i < ss.len() && 0 <= k < ss[i].palette.len() implies name_fits(
            (#[trigger] ss[i].palette[k]).0,
        ) by {
            if i < prev.len() {
                assert(ss[i] == prev[i]);
            }
        }
    }
}

impl Subchunk {
    /// Decodes a whole subchunk record; bytes left after the last palette
    /// entry are an error.
    pub fn deserialize(data: &[u8]) -> (r: Result<Subchunk, WorldError>)
        ensures
            match r {
                Ok(s) => parse_subchunk(data@) == Ok::<_, WorldError>(s@) && decoded_wf(s@),
                Err(e) => parse_subchunk(data@) == Err::<Seq<StorageModel>, _>(e),
            },
    {
        let r = decode_chunk(data);
        proof {
            if r is Ok {
                lemma_parsed_storages_wf(data@, 2, data@[1] as nat);
            }
        }
        r
    }
}

// ----- encoding -----

/// The named-tag reader gives entry `e` back from the front of its bytes,
/// whatever follows them.
pub open spec fn entry_reads_back(e: (Seq<char>, u16)) -> bool {
    &&& name_fits(e.0)
    &&& forall|rest: Seq<u8>|
        #[trigger] nbt_entry_read(entry_bytes(e) + rest) == Some(
            (Some(e.0), Some(e.1 as i16), entry_bytes(e).len()),
        )
    &&& forall|rest: Seq<u8>| #[trigger] readable_blob_end(entry_bytes(e) + rest) == Some(entry_bytes(e).len())
}

pub open spec fn palette_reads_back(p: Seq<(Seq<char>, u16)>) -> bool {
    forall|k: int| 0 <= k < p.len() ==> entry_reads_back(#[trigger] p[k])
}

pub open spec fn palettes_read_back(s: Seq<StorageModel>) -> bool {
    forall|i: int| 0 <= i < s.len() ==> palette_reads_back((#[trigger] s[i]).palette)
}

/// Writes subchunk records into an owned buffer.
pub struct Encoder {
    out: Vec<u8>,
}

impl Encoder {
    /// The bytes written so far.
    pub closed spec fn written(&self) -> Seq<u8> {
        self.out@
    }

    /// An encoder that appends to `out`.
    pub fn new(out: Vec<u8>) -> (r: Encoder)
        ensures
            r.written() == out@,
    {
        Encoder { out }
    }

    /// The buffer with everything written.
    pub fn into_bytes(self) -> (r: Vec<u8>)
        ensures
            r@ == self.written(),
    {
        self.out
    }

    fn push_u32(&mut self, v: u32)
        ensures
            final(self).written() == old(self).written() + u32_le(v),
    {
        self.out.push(v as u8);
        self.out.push((v >> 8) as u8);
        self.out.push((v >> 16) as u8);
        self.out.push((v >> 24) as u8);
    }

    fn encode_palette_entry(&mut self, entry: &PaletteEntry)
        ensures
            final(self).written() == old(self).written() + entry_bytes(entry@),
            name_fits(entry@.0) ==> entry_reads_back(entry@),
    {
        let mut blob = write_entry_blob(entry.name.as_str(), entry.val as i16);
        self.out.append(&mut blob);
    }

    fn encode_palette(&mut self, palette: &Vec<PaletteEntry>)
        ensures
            final(self).written() == old(self).written() + palette_bytes(
                palette@.map_values(|e: PaletteEntry| e@),
            ),
            forall|k: int|
                0 <= k < palette@.len() && name_fits((#[trigger] palette@[k])@.0)
                    ==> entry_reads_back(palette@[k]@),
    {
        let ghost p = palette@.map_values(|e: PaletteEntry| e@);
        let mut i: usize = 0;
        assert(p.take(0) =~= Seq::<(Seq<char>, u16)>::empty());
        while i < palette.len()
            invariant
                i <= palette@.len(),
                p == palette@.map_values(|e: PaletteEntry| e@),
                self.written() == old(self).written() + palette_bytes(p.take(i as int)),
                forall|k: int|
                    0 <= k < i && name_fits((#[trigger] palette@[k])@.0)
                        ==> entry_reads_back(palette@[k]@),
            decreases palette@.len() - i,
        {
            self.encode_palette_entry(&palette[i]);
            assert(p.take(i + 1).drop_last() =~= p.take(i as int));
            i = i + 1;
        }
        assert(p.take(i as int) =~= p);
    }

    fn encode_storage(&mut self, storage: &BlockStorage)
        requires
            storage_wf(storage@),
        ensures
            final(self).written() == old(self).written() + storage_bytes(storage@),
            names_fit(seq![storage@]) ==> palette_reads_back(storage@.palette),
    {
        let bits_per_block = bits_per_block(storage.palette.len());
        proof {
            lemma_width_fits(storage@);
        }
        // the least significant bit of the format marks the network
        // variant; it is left at zero
        let format = bits_per_block << 1;
        assert(format == bits_per_block * 2) by (bit_vector)
            requires format == bits_per_block << 1u8, bits_per_block <= 16;
        self.out.push(format);
        encode_blocks(&mut self.out, &storage.blocks, bits_per_block);
        self.push_u32(storage.palette.len() as u32);
        self.encode_palette(&storage.palette);
        proof {
            let sv = storage@;
            if names_fit(seq![sv]) {
                assert forall|k: int| 0 <= k < sv.palette.len() implies entry_reads_back(
                    #[trigger] sv.palette[k],
                ) by {
                    assert(seq![sv][0] == sv);
                    assert(name_fits(seq![sv][0].palette[k].0));
                    assert(storage.palette@[k]@ == sv.palette[k]);
                }
            }
        }
        assert(self.written() =~= old(self).written() + storage_bytes(storage@));
    }

    /// Appends the record of `subchunk`.
    pub fn encode_chunk(&mut self, subchunk: &Subchunk)
        requires
            subchunk_wf(subchunk@),
        ensures
            final(self).written() == old(self).written() + subchunk_bytes(subchunk@),
            names_fit(subchunk@) ==> palettes_read_back(subchunk@),
    {
        let ghost s = subchunk@;
        self.out.push(SUBCHUNK_VERSION);
        let num_storages = subchunk.block_storages.len();
        self.out.push(num_storages as u8);
        let ghost start = self.written();
        let mut i: usize = 0;
        assert(s.take(0) =~= Seq::<StorageModel>::empty());
        while i < subchunk.block_storages.len()
            invariant
                i <= s.len(),
                s == subchunk@,
                subchunk_wf(s),
                self.written() == start + storages_bytes(s.take(i as int)),
                names_fit(s) ==> forall|k: int| 0 <= k < i ==> palette_reads_back(#[trigger] s[k].palette),
            decreases s.len() - i,
        {
            let storage = &subchunk.block_storages[i];
            assert(storage@ == s[i as int]);
            self.encode_storage(storage);
            proof {
                if names_fit(s) {
                    assert forall|a: int, k: int|
                        0 <= a < 1 && 0 <= k < seq![s[i as int]][a].palette.len() implies name_fits(
                        (#[trigger] seq![s[i as int]][a].palette[k]).0,
                    ) by {
                        assert(seq![s[i as int]][a] == s[i as int]);
                        assert(name_fits(s[i as int].palette[k].0));
                    }
                }
            }
            assert(s.take(i + 1).drop_last() =~= s.take(i as int));
            i = i + 1;
        }
        assert(s.take(i as int) =~= s);
        assert(self.written() =~= old(self).written() + subchunk_bytes(s));
    }
}

proof fn lemma_width_fits(s: StorageModel)
    requires
        storage_wf(s),
    ensures
        is_legal_width(width_for(s.palette.len())),
        s.palette.len() <= index_limit(width_for(s.palette.len())),
        fits_width(s.blocks, width_for(s.palette.len())),
{
    let b = width_for(s.palette.len());
    assert forall|i: int| 0 <= i < s.blocks.len() implies (#[trigger] s.blocks[i]) < index_limit(b) by {
        assert(s.blocks[i] < s.palette.len());
    }
}

proof fn lemma_val_round_trip(v: u16)
    ensures
        (v as i16) as u16 == v,
{
    assert((v as i16) as u16 == v) by (bit_vector);
}

proof fn lemma_read_entries(pre: Seq<u8>, p: Seq<(Seq<char>, u16)>, rest: Seq<u8>)
    requires
        palette_reads_back(p),
    ensures
        parse_entries(pre + palette_bytes(p) + rest, pre.len(), p.len()) == Ok::<_, WorldError>(
            (p, pre.len() + palette_bytes(p).len()),
        ),
    decreases p.len(),
{
    let data = pre + palette_bytes(p) + rest;
    if p.len() == 0 {
        assert(p =~= Seq::<(Seq<char>, u16)>::empty());
    } else {
        let init = p.drop_last();
        let last = p.last();
        let rest2 = entry_bytes(last) + rest;
        assert(data =~= pre + palette_bytes(init) + rest2);
        assert forall|k: int| 0 <= k < init.len() implies entry_reads_back(#[trigger] init[k]) by {
            assert(init[k] == p[k]);
        }
        lemma_read_entries(pre, init, rest2);
        let pos1 = pre.len() + palette_bytes(init).len();
        assert(data.subrange(pos1 as int, data.len() as int) =~= entry_bytes(last) + rest);
        assert(entry_reads_back(p[p.len() - 1]));
        lemma_val_round_trip(last.1);
        assert(init.push((last.0, (last.1 as i16) as u16)) =~= p);
    }
}

proof fn lemma_read_layer_blocks(pre: Seq<u8>, s: StorageModel, rest: Seq<u8>)
    requires
        storage_wf(s),
    ensures
        ({
            let b = width_for(s.palette.len());
            let ws = packed_words(s.blocks, b);
            &&& crate::bits::words_le(ws).len() == 4 * num_words(b)
            &&& parse_blocks(pre + crate::bits::words_le(ws) + rest, pre.len(), b) == Some(
                (s.blocks, pre.len() + 4 * num_words(b)),
            )
        }),
{
    lemma_width_fits(s);
    let b = width_for(s.palette.len());
    let ws = packed_words(s.blocks, b);
    lemma_read_words_le(pre, ws, rest);
    lemma_pack_round_trip(s.blocks, b);
}

proof fn lemma_read_storage(pre: Seq<u8>, s: StorageModel, rest: Seq<u8>)
    requires
        storage_wf(s),
        palette_reads_back(s.palette),
    ensures
        parse_storage(pre + storage_bytes(s) + rest, pre.len()) == Ok::<_, WorldError>(
            (s, pre.len() + storage_bytes(s).len()),
        ),
{
    lemma_width_fits(s);
    let b = width_for(s.palette.len());
    let n = s.palette.len();
    let fmt = (b * 2) as u8;
    let ws = packed_words(s.blocks, b);
    let data = pre + storage_bytes(s) + rest;
    let pos = pre.len();
    let pre1 = pre + seq![fmt];
    let tail1 = u32_le(n as u32) + palette_bytes(s.palette) + rest;
    assert(data =~= pre1 + crate::bits::words_le(ws) + tail1);
    assert(data[pos as int] == fmt);
    assert(fmt % 2 == 0 && fmt / 2 == b);
    lemma_read_layer_blocks(pre1, s, tail1);
    let after_blocks = pos + 1 + 4 * num_words(b);
    assert(parse_blocks(data, pos + 1, b) == Some((s.blocks, after_blocks)));
    let pre2 = pre1 + crate::bits::words_le(ws);
    assert(pre2.len() == after_blocks);
    let pre3 = pre2 + u32_le(n as u32);
    assert(data =~= pre3 + palette_bytes(s.palette) + rest);
    assert(le_u32_at(data, after_blocks as int) == n) by {
        assert(data.subrange(after_blocks as int, after_blocks + 4int) =~= u32_le(n as u32));
        lemma_le_u32_round_trip(n as u32);
        assert(le_u32_at(data, after_blocks as int) == le_u32_at(u32_le(n as u32), 0));
    }
    lemma_read_entries(pre3, s.palette, rest);
    assert(all_below(s.blocks, n));
    assert(storage_bytes(s).len() == 1 + 4 * num_words(b) + 4 + palette_bytes(s.palette).len());
}

proof fn lemma_read_storages(pre: Seq<u8>, ss: Seq<StorageModel>, rest: Seq<u8>)
    requires
        forall|i: int| 0 <= i < ss.len() ==> storage_wf(#[trigger] ss[i]),
        palettes_read_back(ss),
    ensures
        parse_storages(pre + storages_bytes(ss) + rest, pre.len(), ss.len()) == Ok::<_, WorldError>(
            (ss, pre.len() + storages_bytes(ss).len()),
        ),
    decreases ss.len(),
{
    let data = pre + storages_bytes(ss) + rest;
    if ss.len() == 0 {
        assert(ss =~= Seq::<StorageModel>::empty());
    } else {
        let init = ss.drop_last();
        let last = ss.last();
        let rest2 = storage_bytes(last) + rest;
        assert(data =~= pre + storages_bytes(init) + rest2);
        assert forall|i: int| 0 <= i < init.len() implies storage_wf(#[trigger] init[i])
            && palette_reads_back(init[i].palette) by {
            assert(init[i] == ss[i]);
        }
        lemma_read_storages(pre, init, rest2);
        let pre2 = pre + storages_bytes(init);
        assert(data =~= pre2 + storage_bytes(last) + rest);
        assert(storage_wf(ss[ss.len() - 1]) && palette_reads_back(ss[ss.len() - 1].palette));
        lemma_read_storage(pre2, last, rest);
        assert(init.push(last) =~= ss);
    }
}

/// Decoding the record of a well-formed subchunk gives the subchunk back,
/// given that the named-tag reader gives back each palette entry.
proof fn lemma_read_subchunk(s: Seq<StorageModel>)
    requires
        subchunk_wf(s),
        palettes_read_back(s),
    ensures
        parse_subchunk(subchunk_bytes(s)) == Ok::<_, WorldError>(s),
{
    let data = subchunk_bytes(s);
    let pre = seq![SUBCHUNK_VERSION, s.len() as u8];
    assert(data =~= pre + storages_bytes(s) + Seq::empty());
    lemma_read_storages(pre, s, Seq::empty());
    assert(data[1] == s.len() as u8);
}

impl Subchunk {
    /// The record of this subchunk. Decoding it gives the subchunk back
    /// whenever every palette name fits the named-tag length field.
    pub fn serialize(&self) -> (r: Vec<u8>)
        requires
            subchunk_wf(self@),
        ensures
            r@ == subchunk_bytes(self@),
            names_fit(self@) ==> parse_subchunk(r@) == Ok::<_, WorldError>(self@),
            names_fit(self@) ==> forall|s: Seq<StorageModel>|
                #[trigger] parse_subchunk(r@) == Ok::<_, WorldError>(s) ==> subchunk_bytes(s) == r@,
    {
        let mut encoder = Encoder::new(Vec::new());
        encoder.encode_chunk(self);
        proof {
            if names_fit(self@) {
                lemma_read_subchunk(self@);
            }
        }
        encoder.into_bytes()
    }
}

} // verus!
