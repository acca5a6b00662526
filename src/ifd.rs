//! Image file directories: a count, twelve-byte entries and a link to the
//! next directory.
use vstd::prelude::*;
use vstd::utf8::{decode_utf8, valid_utf8};
use crate::bytes::{ByteOrder, uint_at, read_u16, read_u32, read_uint, lemma_value_bound, lemma_pow256_values};
use crate::error::TiffError;

verus! {

pub const TYPE_ASCII: u16 = 2;
pub const TYPE_SHORT: u16 = 3;
pub const TYPE_LONG: u16 = 4;

pub const TAG_IMAGE_WIDTH: u16 = 256;
pub const TAG_IMAGE_LENGTH: u16 = 257;
pub const TAG_BITS_PER_SAMPLE: u16 = 258;
pub const TAG_COMPRESSION: u16 = 259;
pub const TAG_IMAGE_DESCRIPTION: u16 = 270;
pub const TAG_STRIP_OFFSETS: u16 = 273;
pub const TAG_SAMPLES_PER_PIXEL: u16 = 277;
pub const TAG_ROWS_PER_STRIP: u16 = 278;
pub const TAG_STRIP_BYTE_COUNTS: u16 = 279;
pub const TAG_PLANAR_CONFIGURATION: u16 = 284;
pub const TAG_SAMPLE_FORMAT: u16 = 339;

/// One directory entry, with the file position of its value field.
#[derive(Clone, Copy, Debug, PartialEq, Eq, Structural)]
pub struct IfdEntry {
    pub tag: u16,
    pub field_type: u16,
    pub count: u32,
    pub value_or_offset: u32,
    pub value_pos: usize,
}

pub open spec fn entry_at(data: Seq<u8>, order: ByteOrder, p: int) -> IfdEntry {
    IfdEntry {
        tag: uint_at(data, p, 2, order) as u16,
        field_type: uint_at(data, p + 2, 2, order) as u16,
        count: uint_at(data, p + 4, 4, order) as u32,
        value_or_offset: uint_at(data, p + 8, 4, order) as u32,
        value_pos: (p + 8) as usize,
    }
}

pub open spec fn entry_count(data: Seq<u8>, order: ByteOrder, off: int) -> nat {
    uint_at(data, off, 2, order)
}

/// The count, the entries and the link of the directory at `off` lie in the file.
pub open spec fn ifd_fits(data: Seq<u8>, order: ByteOrder, off: int) -> bool {
    0 <= off && off + 2 <= data.len() && off + 2 + 12 * entry_count(data, order, off) + 4
        <= data.len()
}

pub open spec fn ifd_entries(data: Seq<u8>, order: ByteOrder, off: int) -> Seq<IfdEntry> {
    Seq::new(entry_count(data, order, off), |i: int| entry_at(data, order, off + 2 + 12 * i))
}

/// The offset of the next directory; 0 ends the chain.
pub open spec fn ifd_next(data: Seq<u8>, order: ByteOrder, off: int) -> nat {
    uint_at(data, off + 2 + 12 * entry_count(data, order, off), 4, order)
}

/// The last of the first `n` entries that has the given tag.
pub open spec fn find_tag_in(es: Seq<IfdEntry>, tag: u16, n: nat) -> Option<IfdEntry>
    decreases n,
{
    if n == 0 {
        None
    } else if es[n - 1].tag == tag {
        Some(es[n - 1])
    } else {
        find_tag_in(es, tag, (n - 1) as nat)
    }
}

/// The last entry with the given tag.
pub open spec fn find_tag(es: Seq<IfdEntry>, tag: u16) -> Option<IfdEntry> {
    find_tag_in(es, tag, es.len())
}

pub open spec fn field_size(t: u16) -> nat {
    if t == TYPE_SHORT {
        2
    } else if t == TYPE_LONG {
        4
    } else {
        1
    }
}

/// Where the payload is: in the value field when it fits in four bytes,
/// else at the offset that the field holds.
pub open spec fn payload_pos(e: IfdEntry) -> int {
    if field_size(e.field_type) * e.count <= 4 {
        e.value_pos as int
    } else {
        e.value_or_offset as int
    }
}

/// The numbers of a SHORT or LONG entry.
pub open spec fn entry_values(data: Seq<u8>, order: ByteOrder, e: IfdEntry) -> Result<
    Seq<u32>,
    TiffError,
> {
    let size = field_size(e.field_type);
    if e.field_type != TYPE_SHORT && e.field_type != TYPE_LONG {
        Err(TiffError::MalformedIfdEntry)
    } else if payload_pos(e) + size * e.count > data.len() {
        Err(TiffError::TruncatedFile)
    } else {
        Ok(
            Seq::new(
                e.count as nat,
                |i: int| uint_at(data, payload_pos(e) + size * i, size, order) as u32,
            ),
        )
    }
}

pub open spec fn tag_values(data: Seq<u8>, order: ByteOrder, es: Seq<IfdEntry>, tag: u16) -> Result<
    Seq<u32>,
    TiffError,
> {
    match find_tag(es, tag) {
        None => Err(TiffError::MissingTag(tag)),
        Some(e) => entry_values(data, order, e),
    }
}

pub open spec fn first_of(r: Result<Seq<u32>, TiffError>) -> Result<u32, TiffError> {
    match r {
        Err(e) => Err(e),
        Ok(v) => if v.len() == 0 {
            Err(TiffError::MalformedIfdEntry)
        } else {
            Ok(v[0])
        },
    }
}

/// The first number of a required tag.
pub open spec fn tag_first(data: Seq<u8>, order: ByteOrder, es: Seq<IfdEntry>, tag: u16) -> Result<
    u32,
    TiffError,
> {
    first_of(tag_values(data, order, es, tag))
}

/// The first number of an optional tag, or its default.
pub open spec fn tag_or(
    data: Seq<u8>,
    order: ByteOrder,
    es: Seq<IfdEntry>,
    tag: u16,
    default: u32,
) -> Result<u32, TiffError> {
    match find_tag(es, tag) {
        None => Ok(default),
        Some(e) => first_of(entry_values(data, order, e)),
    }
}

/// The index of the first NUL byte at or after `i`, or the length.
pub open spec fn text_end(s: Seq<u8>, i: int) -> int
    decreases s.len() - i,
{
    if i < 0 || i >= s.len() {
        s.len() as int
    } else if s[i] == 0 {
        i
    } else {
        text_end(s, i + 1)
    }
}

/// The text of an ASCII entry: its bytes up to the first NUL.
pub open spec fn ascii_text(data: Seq<u8>, e: IfdEntry) -> Result<Seq<u8>, TiffError> {
    let base = if e.count <= 4 {
        e.value_pos as int
    } else {
        e.value_or_offset as int
    };
    if e.field_type != TYPE_ASCII {
        Err(TiffError::MalformedIfdEntry)
    } else if base + e.count > data.len() {
        Err(TiffError::TruncatedFile)
    } else {
        let raw = data.subrange(base, base + e.count);
        Ok(raw.subrange(0, text_end(raw, 0)))
    }
}

/// The image description: empty when the tag is absent.
pub open spec fn description_of(data: Seq<u8>, es: Seq<IfdEntry>) -> Result<Seq<char>, TiffError> {
    match find_tag(es, TAG_IMAGE_DESCRIPTION) {
        None => Ok(Seq::empty()),
        Some(e) => match ascii_text(data, e) {
            Err(err) => Err(err),
            Ok(text) => if valid_utf8(text) {
                Ok(decode_utf8(text))
            } else {
                Err(TiffError::MalformedIfdEntry)
            },
        },
    }
}

/// Reads the entries and the link of the directory at `off`.
pub fn read_entries(data: &Vec<u8>, order: ByteOrder, off: usize) -> (r: Result<
    (Vec<IfdEntry>, u32),
    TiffError,
>)
    ensures
        match r {
            Ok((es, next)) => ifd_fits(data@, order, off as int) && es@ == ifd_entries(
                data@,
                order,
                off as int,
            ) && next as nat == ifd_next(data@, order, off as int),
            Err(e) => !ifd_fits(data@, order, off as int) && e == TiffError::TruncatedFile,
        },
{
    if off > data.len() || data.len() - off < 2 {
        return Err(TiffError::TruncatedFile);
    }
    let n = read_u16(data, off, order) as usize;
    if (data.len() - off - 2) / 12 < n || data.len() - off - 2 - 12 * n < 4 {
        return Err(TiffError::TruncatedFile);
    }
    let len = data.len();
    let mut es: Vec<IfdEntry> = Vec::new();
    let mut i: usize = 0;
    while i < n
        invariant
            len == data.len(),
            off + 2 + 12 * n + 4 <= len,
            n == entry_count(data@, order, off as int),
            ifd_fits(data@, order, off as int),
            i <= n,
            es@ =~= ifd_entries(data@, order, off as int).take(i as int),
        decreases n - i,
    {
        let p = off + 2 + 12 * i;
        let tag = read_u16(data, p, order);
        let field_type = read_u16(data, p + 2, order);
        let count = read_u32(data, p + 4, order);
        let value_or_offset = read_u32(data, p + 8, order);
        es.push(IfdEntry { tag, field_type, count, value_or_offset, value_pos: p + 8 });
        i = i + 1;
    }
    let next = read_u32(data, off + 2 + 12 * n, order);
    assert(ifd_entries(data@, order, off as int).take(n as int) =~= ifd_entries(
        data@,
        order,
        off as int,
    ));
    Ok((es, next))
}

/// The link of the directory at `off`, if the directory lies in the file.
pub fn read_link(data: &Vec<u8>, order: ByteOrder, off: usize) -> (r: Option<u32>)
    ensures
        r is Some <==> ifd_fits(data@, order, off as int),
        r matches Some(n) ==> n as nat == ifd_next(data@, order, off as int),
{
    if off > data.len() || data.len() - off < 2 {
        return None;
    }
    let n = read_u16(data, off, order) as usize;
    if (data.len() - off - 2) / 12 < n || data.len() - off - 2 - 12 * n < 4 {
        return None;
    }
    Some(read_u32(data, off + 2 + 12 * n, order))
}

/// The last entry with the given tag.
pub fn find_entry(es: &Vec<IfdEntry>, tag: u16) -> (r: Option<IfdEntry>)
    ensures
        r == find_tag(es@, tag),
{
    let mut found: Option<IfdEntry> = None;
    let mut i: usize = 0;
    while i < es.len()
        invariant
            i <= es.len(),
            found == find_tag_in(es@, tag, i as nat),
        decreases es.len() - i,
    {
        if es[i].tag == tag {
            found = Some(es[i]);
        }
        i = i + 1;
    }
    found
}

/// The numbers of a SHORT or LONG entry.
pub fn read_values(data: &Vec<u8>, order: ByteOrder, e: IfdEntry) -> (r: Result<
    Vec<u32>,
    TiffError,
>)
    ensures
        match r {
            Ok(v) => entry_values(data@, order, e) == Ok::<Seq<u32>, TiffError>(v@),
            Err(err) => entry_values(data@, order, e) == Err::<Seq<u32>, TiffError>(err),
        },
{
    if e.field_type != TYPE_SHORT && e.field_type != TYPE_LONG {
        return Err(TiffError::MalformedIfdEntry);
    }
    let size: usize = if e.field_type == TYPE_SHORT { 2 } else { 4 };
    let count = e.count as usize;
    assert(size == field_size(e.field_type));
    assert((e.count as u64) * (size as u64) <= 4 * 0x1_0000_0000) by (nonlinear_arith)
        requires
            size <= 4,
    ;
    let nbytes: u64 = (e.count as u64) * (size as u64);
    assert(nbytes as int == field_size(e.field_type) * e.count) by (nonlinear_arith)
        requires
            nbytes == (e.count as u64) * (size as u64),
            size == field_size(e.field_type),
    ;
    let base: usize = if nbytes <= 4 {
        e.value_pos
    } else {
        e.value_or_offset as usize
    };
    assert(base as int == payload_pos(e));
    if base > data.len() || ((data.len() - base) as u64) < nbytes {
        return Err(TiffError::TruncatedFile);
    }
    let ghost expected = Seq::new(
        e.count as nat,
        |i: int| uint_at(data@, payload_pos(e) + size * i, size as nat, order) as u32,
    );
    let mut v: Vec<u32> = Vec::new();
    let mut i: usize = 0;
    while i < count
        invariant
            size == 2 || size == 4,
            count == e.count,
            base + size * count <= data.len(),
            base as int == payload_pos(e),
            expected == Seq::new(
                e.count as nat,
                |i: int| uint_at(data@, payload_pos(e) + size * i, size as nat, order) as u32,
            ),
            i <= count,
            v@ =~= expected.take(i as int),
        decreases count - i,
    {
        assert(base + size * i + size <= base + size * count) by (nonlinear_arith)
            requires
                i < count,
        ;
        let x = read_uint(data, base + size * i, size, order);
        proof {
            lemma_pow256_values();
            lemma_value_bound(data@.subrange(base + size * i, base + size * i + size), order);
        }
        v.push(x as u32);
        i = i + 1;
    }
    assert(expected.take(count as int) =~= expected);
    Ok(v)
}

/// Relies on `String::from_utf8`: it accepts exactly the valid UTF-8 byte
/// sequences and keeps the characters they encode.
#[verifier::external_body]
fn string_from_utf8(bytes: Vec<u8>) -> (r: Option<String>)
    ensures
        r is Some <==> valid_utf8(bytes@),
        r matches Some(s) ==> s@ == decode_utf8(bytes@),
{
    String::from_utf8(bytes).ok()
}

/// Reads the image description of a directory.
pub fn read_description(data: &Vec<u8>, es: &Vec<IfdEntry>) -> (r: Result<String, TiffError>)
    ensures
        match r {
            Ok(s) => description_of(data@, es@) == Ok::<Seq<char>, TiffError>(s@),
            Err(err) => description_of(data@, es@) == Err::<Seq<char>, TiffError>(err),
        },
{
    let e = match find_entry(es, TAG_IMAGE_DESCRIPTION) {
        None => {
            return Ok(String::new());
        },
        Some(e) => e,
    };
    if e.field_type != TYPE_ASCII {
        return Err(TiffError::MalformedIfdEntry);
    }
    let base: usize = if e.count <= 4 {
        e.value_pos
    } else {
        e.value_or_offset as usize
    };
    let count = e.count as usize;
    if base > data.len() || data.len() - base < count {
        return Err(TiffError::TruncatedFile);
    }
    let ghost raw = data@.subrange(base as int, base + count);
    let mut end: usize = 0;
    while end < count && data[base + end] != 0
        invariant
            base + count <= data.len(),
            raw == data@.subrange(base as int, base + count),
            end <= count,
            text_end(raw, 0) == text_end(raw, end as int),
        decreases count - end,
    {
        end = end + 1;
    }
    let mut text: Vec<u8> = Vec::new();
    let mut i: usize = 0;
    while i < end
        invariant
            base + count <= data.len(),
            raw == data@.subrange(base as int, base + count),
            end <= count,
            i <= end,
            text@ =~= raw.subrange(0, i as int),
        decreases end - i,
    {
        text.push(data[base + i]);
        i = i + 1;
    }
    proof {
        assert(text_end(raw, end as int) == end);
    }
    match string_from_utf8(text) {
        Some(s) => Ok(s),
        None => Err(TiffError::MalformedIfdEntry),
    }
}

} // verus!
