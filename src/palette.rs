use vstd::prelude::*;
use vstd::std_specs::iter::IteratorSpec;

verus! {

/// Longest block name, in encoded bytes, that the format's 16-bit string
/// length holds.
pub const MAX_NAME_BYTES: usize = 65535;

/// Bytes of one character in the named-tag string encoding (modified UTF-8:
/// NUL takes two bytes, a character beyond the basic plane a surrogate pair
/// of three bytes each).
pub open spec fn modified_utf8_char_len(c: char) -> nat {
    let v = c as u32;
    if v == 0 {
        2
    } else if v < 0x80 {
        1
    } else if v < 0x800 {
        2
    } else if v < 0x10000 {
        3
    } else {
        6
    }
}

/// Bytes of a name in the named-tag string encoding.
pub open spec fn modified_utf8_len(s: Seq<char>) -> nat
    decreases s.len(),
{
    if s.len() == 0 {
        0
    } else {
        modified_utf8_len(s.drop_last()) + modified_utf8_char_len(s.last())
    }
}

/// The encoded name fits the 16-bit string length.
pub open spec fn name_fits(name: Seq<char>) -> bool {
    modified_utf8_len(name) <= MAX_NAME_BYTES
}

/// The big-endian `u16` at `b[i]`.
pub open spec fn be_u16_at(b: Seq<u8>, i: int) -> nat {
    (b[i] as nat) * 256 + (b[i + 1] as nat)
}

/// The big-endian `u32` at `b[i]`.
pub open spec fn be_u32_at(b: Seq<u8>, i: int) -> nat {
    (b[i] as nat) * 16777216 + (b[i + 1] as nat) * 65536 + (b[i + 2] as nat) * 256 + (b[i + 3] as nat)
}

/// Bytes of a fixed-size number field of tag `tag`; 0 for the other tags.
pub open spec fn fixed_size(tag: u8) -> nat {
    if tag == 1 {
        1
    } else if tag == 2 {
        2
    } else if tag == 3 {
        4
    } else if tag == 4 {
        8
    } else if tag == 5 {
        4
    } else if tag == 6 {
        8
    } else {
        0
    }
}

/// Bytes of one element of an array of tag `tag`; 0 for the other tags.
pub open spec fn array_elem_size(tag: u8) -> nat {
    if tag == 7 {
        1
    } else if tag == 11 {
        4
    } else if tag == 12 {
        8
    } else {
        0
    }
}

/// How deep compounds and lists may nest inside a palette entry.
pub const MAX_NESTING: usize = 16;

/// Where the payload of tag `tag` at `b[pos]` ends: a number; a string; an
/// array whose length is not negative and whose elements are all in `b`; a
/// compound of such fields; or a list whose length is not negative and at
/// most the bytes left, whose elements are such payloads of its element tag.
/// Compounds and lists may nest `depth` deep. `None` for unknown tags,
/// deeper nesting and payloads that run past the end.
pub open spec fn payload_end(b: Seq<u8>, pos: nat, tag: u8, depth: nat) -> Option<nat>
    decreases depth, 0int, 0int,
{
    if fixed_size(tag) > 0 {
        if pos + fixed_size(tag) <= b.len() {
            Some(pos + fixed_size(tag))
        } else {
            None
        }
    } else if tag == 8 {
        if pos + 2 <= b.len() && pos + 2 + be_u16_at(b, pos as int) <= b.len() {
            Some(pos + 2 + be_u16_at(b, pos as int))
        } else {
            None
        }
    } else if array_elem_size(tag) > 0 {
        if pos + 4 <= b.len() && b[pos as int] < 0x80 && pos + 4 + array_elem_size(tag) * be_u32_at(
            b,
            pos as int,
        ) <= b.len() {
            Some(pos + 4 + array_elem_size(tag) * be_u32_at(b, pos as int))
        } else {
            None
        }
    } else if depth == 0 {
        None
    } else if tag == 10 {
        fields_end(b, pos, (depth - 1) as nat)
    } else if tag == 9 {
        if pos + 5 <= b.len() && b[pos as int + 1] < 0x80 && be_u32_at(b, pos as int + 1) <= b.len() - (pos + 5) {
            list_end(b, pos + 5, b[pos as int], be_u32_at(b, pos as int + 1), (depth - 1) as nat)
        } else {
            None
        }
    } else {
        None
    }
}

/// Where `n` payloads of tag `tag` from `b[pos]` on end.
pub open spec fn list_end(b: Seq<u8>, pos: nat, tag: u8, n: nat, depth: nat) -> Option<nat>
    decreases depth, 1int, n,
{
    if n == 0 {
        Some(pos)
    } else {
        match payload_end(b, pos, tag, depth) {
            None => None,
            Some(next) => if pos < next <= b.len() {
                list_end(b, next, tag, (n - 1) as nat, depth)
            } else {
                None
            },
        }
    }
}

/// Where the fields from `b[pos]` on end, after their closing tag, when each
/// is a named payload as above; else `None`.
pub open spec fn fields_end(b: Seq<u8>, pos: nat, depth: nat) -> Option<nat>
    decreases depth, 1int, b.len() - pos,
{
    if pos >= b.len() {
        None
    } else if b[pos as int] == 0 {
        Some(pos + 1)
    } else if pos + 3 > b.len() || pos + 3 + be_u16_at(b, pos as int + 1) > b.len() {
        None
    } else {
        match payload_end(b, pos + 3 + be_u16_at(b, pos as int + 1), b[pos as int], depth) {
            None => None,
            Some(next) => if pos < next <= b.len() {
                fields_end(b, next, depth)
            } else {
                None
            },
        }
    }
}

proof fn lemma_fields_end_bound(b: Seq<u8>, pos: nat, depth: nat)
    ensures
        fields_end(b, pos, depth) matches Some(e) ==> pos < e <= b.len(),
    decreases b.len() - pos,
{
    if pos < b.len() && b[pos as int] != 0 && pos + 3 + be_u16_at(b, pos as int + 1) <= b.len() {
        if let Some(next) = payload_end(b, pos + 3 + be_u16_at(b, pos as int + 1), b[pos as int], depth) {
            if pos < next <= b.len() {
                lemma_fields_end_bound(b, next, depth);
            }
        }
    }
}

/// A readable blob lies within the bytes and takes at least four of them.
pub proof fn lemma_readable_blob_end_bound(b: Seq<u8>)
    ensures
        readable_blob_end(b) matches Some(e) ==> 4 <= e <= b.len(),
{
    if b.len() >= 3 && b[0] == 10 && 3 + be_u16_at(b, 1) <= b.len() {
        lemma_fields_end_bound(b, 3 + be_u16_at(b, 1), MAX_NESTING as nat);
    }
}

/// Where a readable blob at the front of `b` ends: a root compound (tag 10
/// and a title) whose fields are payloads as in [`payload_end`], nested at
/// most [`MAX_NESTING`] deep. On such bytes the named-tag reader recurses
/// only that deep, and reserves no more list or array room than the bytes
/// give.
pub open spec fn readable_blob_end(b: Seq<u8>) -> Option<nat> {
    if b.len() >= 3 && b[0] == 10 && 3 + be_u16_at(b, 1) <= b.len() {
        fields_end(b, 3 + be_u16_at(b, 1), MAX_NESTING as nat)
    } else {
        None
    }
}

/// The bytes that the named-tag writer gives for a palette entry: a root
/// compound with an empty title holding the string `name` and then the
/// 16-bit integer `val`.
pub uninterp spec fn nbt_entry_bytes(name: Seq<char>, val: i16) -> Seq<u8>;

/// What the named-tag reader makes of the front of `bytes`: `None` when it
/// fails; else the string field `name` if there is one, the 16-bit field
/// `val` if there is one, and the number of bytes the blob took.
pub uninterp spec fn nbt_entry_read(bytes: Seq<u8>) -> Option<(Option<Seq<char>>, Option<i16>, nat)>;

#[verifier::external_type_specification]
#[verifier::external_body]
pub struct ExNbtError(nbt::Error);

pub open spec fn opt_string_view(o: Option<String>) -> Option<Seq<char>> {
    match o {
        Some(s) => Some(s@),
        None => None,
    }
}

/// Relies on `nbt::Blob::new`, `Blob::insert` and `Blob::to_writer`
/// (hematite-nbt 0.5.2 with insertion order kept): the blob is written as a
/// compound whose fields come in insertion order, each string as its
/// modified UTF-8 bytes (at most six per character) after a 16-bit length.
/// When that length is exact, the bytes are a readable blob (a root compound
/// with an empty title, a string field and a short field, and the closing
/// tag), and `Blob::from_reader` reads them back and stops after the closing
/// tag. Inserting a string or a short, and writing into a `Vec`, cannot fail.
#[verifier::external_body]
pub(crate) fn write_entry_blob(name: &str, val: i16) -> (r: Vec<u8>)
    ensures
        r@ == nbt_entry_bytes(name@, val),
        name_fits(name@) ==> forall|rest: Seq<u8>|
            #[trigger] nbt_entry_read(r@ + rest) == Some(
                (Some(name@), Some(val), r@.len()),
            ),
        name_fits(name@) ==> forall|rest: Seq<u8>| #[trigger] readable_blob_end(r@ + rest) == Some(r@.len()),
{
    let mut blob = nbt::Blob::new();
    let _ = blob.insert("name", nbt::Value::String(name.to_owned()));
    let _ = blob.insert("val", nbt::Value::Short(val));
    let mut out: Vec<u8> = Vec::new();
    let _ = blob.to_writer(&mut out);
    out
}

/// Relies on `nbt::Blob::from_reader` and `Blob::get` (hematite-nbt 0.5.2):
/// reads one blob from the front of `data[start..]` and reports its string
/// field `name`, its 16-bit field `val` and how many bytes it took; a blob
/// takes at least its tag, its title length and its closing tag. The reader
/// recurses into lists and compounds and reserves room for a list or array
/// before reading it, so the bytes handed over must be a readable blob:
/// bounded nesting, and list and array lengths that the bytes hold. It then
/// reads exactly that blob.
#[verifier::external_body]
pub(crate) fn read_entry_blob(data: &[u8], start: usize) -> (r: Result<
    (Option<String>, Option<i16>, usize),
    nbt::Error,
>)
    requires
        start <= data@.len(),
        readable_blob_end(data@.subrange(start as int, data@.len() as int)) is Some,
    ensures
        match r {
            Ok((name, val, used)) => {
                &&& nbt_entry_read(data@.subrange(start as int, data@.len() as int)) == Some(
                    (opt_string_view(name), val, used as nat),
                )
                &&& used == readable_blob_end(data@.subrange(start as int, data@.len() as int))->Some_0
            },
            Err(_) => nbt_entry_read(data@.subrange(start as int, data@.len() as int)) is None,
        },
{
    let mut cursor = std::io::Cursor::new(&data[start..]);
    let blob = nbt::Blob::from_reader(&mut cursor)?;
    let name = match blob.get("name") {
        Some(nbt::Value::String(s)) => Some(s.clone()),
        _ => None,
    };
    let val = match blob.get("val") {
        Some(nbt::Value::Short(v)) => Some(*v),
        _ => None,
    };
    Ok((name, val, cursor.position() as usize))
}

fn be_u16(data: &[u8], i: usize) -> (r: usize)
    requires
        i + 2 <= data@.len(),
    ensures
        r == be_u16_at(data@, i as int),
{
    (data[i] as usize) * 256 + (data[i + 1] as usize)
}

fn be_u32(data: &[u8], i: usize) -> (r: u64)
    requires
        i + 4 <= data@.len(),
    ensures
        r == be_u32_at(data@, i as int),
{
    (data[i] as u64) * 16777216 + (data[i + 1] as u64) * 65536 + (data[i + 2] as u64) * 256 + (data[i
        + 3] as u64)
}

/// Where the payload of tag `tag` at `data[start + pos]` ends, relative to
/// `start`.
fn payload_len(data: &[u8], start: usize, pos: usize, tag: u8, depth: usize) -> (r: Option<usize>)
    requires
        start <= data@.len(),
        pos <= data@.len() - start,
    ensures
        match r {
            Some(e) => payload_end(data@.subrange(start as int, data@.len() as int), pos as nat, tag, depth as nat)
                == Some(e as nat),
            None => payload_end(data@.subrange(start as int, data@.len() as int), pos as nat, tag, depth as nat) is None,
        },
    decreases depth, 0int, 0int,
{
    let ghost b = data@.subrange(start as int, data@.len() as int);
    let n = data.len() - start;
    let fixed: usize = if tag == 1 {
        1
    } else if tag == 2 {
        2
    } else if tag == 3 {
        4
    } else if tag == 4 {
        8
    } else if tag == 5 {
        4
    } else if tag == 6 {
        8
    } else {
        0
    };
    if fixed > 0 {
        if n - pos >= fixed {
            return Some(pos + fixed);
        }
        return None;
    }
    if tag == 8 {
        if n - pos < 2 {
            return None;
        }
        let len = be_u16(data, start + pos);
        assert(len == be_u16_at(b, pos as int));
        if n - pos - 2 >= len {
            return Some(pos + 2 + len);
        }
        return None;
    }
    let elem: u64 = if tag == 7 {
        1
    } else if tag == 11 {
        4
    } else if tag == 12 {
        8
    } else {
        0
    };
    if elem > 0 {
        if n - pos < 4 {
            return None;
        }
        let i = start + pos;
        if data[i] >= 0x80 {
            return None;
        }
        let count = be_u32(data, i);
        assert(count == be_u32_at(b, pos as int));
        let size = elem * count;
        if size <= (n - pos - 4) as u64 {
            return Some(pos + 4 + size as usize);
        }
        return None;
    }
    if depth == 0 {
        return None;
    }
    if tag == 10 {
        return fields_len(data, start, pos, depth - 1);
    }
    if tag == 9 {
        if n - pos < 5 {
            return None;
        }
        let i = start + pos;
        let elem_tag = data[i];
        if data[i + 1] >= 0x80 {
            return None;
        }
        let count = be_u32(data, i + 1);
        assert(count == be_u32_at(b, pos as int + 1));
        assert(elem_tag == b[pos as int]);
        if count > (n - pos - 5) as u64 {
            return None;
        }
        return list_len(data, start, pos + 5, elem_tag, count as usize, depth - 1);
    }
    None
}

/// Where `count` payloads of tag `tag` from `data[start + pos]` on end,
/// relative to `start`.
fn list_len(data: &[u8], start: usize, pos: usize, tag: u8, count: usize, depth: usize) -> (r: Option<usize>)
    requires
        start <= data@.len(),
        pos <= data@.len() - start,
    ensures
        match r {
            Some(e) => list_end(data@.subrange(start as int, data@.len() as int), pos as nat, tag, count as nat, depth as nat)
                == Some(e as nat),
            None => list_end(data@.subrange(start as int, data@.len() as int), pos as nat, tag, count as nat, depth as nat) is None,
        },
    decreases depth, 1int, 0int,
{
    let ghost b = data@.subrange(start as int, data@.len() as int);
    let n = data.len() - start;
    let mut p = pos;
    let mut k = count;
    while k > 0
        invariant
            start <= data@.len(),
            n == data@.len() - start,
            b == data@.subrange(start as int, data@.len() as int),
            p <= n,
            list_end(b, pos as nat, tag, count as nat, depth as nat) == list_end(b, p as nat, tag, k as nat, depth as nat),
        decreases k,
    {
        match payload_len(data, start, p, tag, depth) {
            None => {
                return None;
            },
            Some(next) => {
                if next <= p || next > n {
                    return None;
                }
                p = next;
                k = k - 1;
            },
        }
    }
    Some(p)
}

/// Where the fields from `data[start + pos]` on end, after their closing
/// tag, relative to `start`.
fn fields_len(data: &[u8], start: usize, pos: usize, depth: usize) -> (r: Option<usize>)
    requires
        start <= data@.len(),
        pos <= data@.len() - start,
    ensures
        match r {
            Some(e) => fields_end(data@.subrange(start as int, data@.len() as int), pos as nat, depth as nat)
                == Some(e as nat),
            None => fields_end(data@.subrange(start as int, data@.len() as int), pos as nat, depth as nat) is None,
        },
    decreases depth, 1int, 0int,
{
    let ghost b = data@.subrange(start as int, data@.len() as int);
    let n = data.len() - start;
    let len = data.len();
    let mut p = pos;
    while p < n
        invariant
            start <= data@.len(),
            len == data@.len(),
            n == data@.len() - start,
            b == data@.subrange(start as int, data@.len() as int),
            p <= n,
            fields_end(b, pos as nat, depth as nat) == fields_end(b, p as nat, depth as nat),
        decreases n - p,
    {
        let tag = data[start + p];
        assert(tag == b[p as int]);
        if tag == 0 {
            return Some(p + 1);
        }
        if n - p < 3 {
            return None;
        }
        let name_len = be_u16(data, start + p + 1);
        assert(name_len == be_u16_at(b, p as int + 1));
        if n - p - 3 < name_len {
            return None;
        }
        match payload_len(data, start, p + 3 + name_len, tag, depth) {
            None => {
                return None;
            },
            Some(next) => {
                if next <= p || next > n {
                    return None;
                }
                p = next;
            },
        }
    }
    None
}

/// Where the readable blob at `data[start..]` ends, relative to `start`, or
/// `None` when the bytes there are no readable blob.
pub(crate) fn readable_blob_len(data: &[u8], start: usize) -> (r: Option<usize>)
    requires
        start <= data@.len(),
    ensures
        match r {
            Some(e) => readable_blob_end(data@.subrange(start as int, data@.len() as int)) == Some(e as nat),
            None => readable_blob_end(data@.subrange(start as int, data@.len() as int)) is None,
        },
{
    let ghost b = data@.subrange(start as int, data@.len() as int);
    let n = data.len() - start;
    if n < 3 || data[start] != 10 {
        return None;
    }
    let title = be_u16(data, start + 1);
    assert(title == be_u16_at(b, 1));
    if n - 3 < title {
        return None;
    }
    fields_len(data, start, 3 + title, MAX_NESTING)
}

fn char_len(c: char) -> (r: usize)
    ensures
        r == modified_utf8_char_len(c),
{
    let v = c as u32;
    if v == 0 {
        2
    } else if v < 0x80 {
        1
    } else if v < 0x800 {
        2
    } else if v < 0x10000 {
        3
    } else {
        6
    }
}

/// Whether the encoded name fits the format's 16-bit string length.
pub fn name_fits_exec(name: &str) -> (r: bool)
    ensures
        r == name_fits(name@),
{
    broadcast use vstd::string::axiom_spec_iter, vstd::string::next_postcondition;

    let mut chars = name.chars();
    let ghost mut done: Seq<char> = Seq::empty();
    let mut total: usize = 0;
    loop
        invariant
            name@ == done + chars.remaining(),
            total == modified_utf8_len(done),
            total <= MAX_NAME_BYTES,
        decreases name@.len() - done.len(),
    {
        let ghost before = chars.remaining();
        match chars.next() {
            None => {
                assert(done =~= name@);
                return true;
            },
            Some(c) => {
                proof {
                    assert(before.len() > 0);
                    assert(done.push(c).drop_last() =~= done);
                    assert(name@ =~= done.push(c) + chars.remaining());
                    done = done.push(c);
                }
                total = total + char_len(c);
                if total > MAX_NAME_BYTES {
                    proof {
                        assert(name@.subrange(0, done.len() as int) =~= done);
                        lemma_utf8_len_prefix(name@, done);
                    }
                    return false;
                }
            },
        }
    }
}

proof fn lemma_utf8_len_prefix(s: Seq<char>, pre: Seq<char>)
    requires
        pre.len() <= s.len(),
        s.subrange(0, pre.len() as int) == pre,
    ensures
        modified_utf8_len(pre) <= modified_utf8_len(s),
    decreases s.len(),
{
    if s.len() > pre.len() {
        assert(s.drop_last().subrange(0, pre.len() as int) =~= pre);
        lemma_utf8_len_prefix(s.drop_last(), pre);
    } else {
        assert(s =~= pre);
    }
}

} // verus!
