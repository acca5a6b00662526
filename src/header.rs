//! The eight-byte file header: byte order mark, magic number and the
//! offset of the first directory.
use vstd::prelude::*;
use crate::bytes::{
    ByteOrder,
    uint_at,
    bytes_of,
    holds_at,
    read_u16,
    read_u32,
    push_uint,
    lemma_bytes_len,
    lemma_value_of_bytes,
    lemma_pow256_values,
};
use crate::error::TiffError;

verus! {

pub const MAGIC: u16 = 42;

/// The byte order and first directory offset that the header gives.
pub open spec fn header_of(data: Seq<u8>) -> Result<(ByteOrder, u32), TiffError> {
    if data.len() < 2 {
        Err(TiffError::TruncatedFile)
    } else if !((data[0] == 0x49u8 && data[1] == 0x49u8) || (data[0] == 0x4Du8 && data[1]
        == 0x4Du8)) {
        Err(TiffError::BadByteOrderMark)
    } else {
        let order = if data[0] == 0x49u8 {
            ByteOrder::LittleEndian
        } else {
            ByteOrder::BigEndian
        };
        if data.len() < 4 {
            Err(TiffError::TruncatedFile)
        } else if uint_at(data, 2, 2, order) != 42 {
            Err(TiffError::BadMagic)
        } else if data.len() < 8 {
            Err(TiffError::TruncatedFile)
        } else {
            let off = uint_at(data, 4, 4, order);
            if off == 0 || off >= data.len() {
                Err(TiffError::TruncatedFile)
            } else {
                Ok((order, off as u32))
            }
        }
    }
}

pub open spec fn order_mark(order: ByteOrder) -> Seq<u8> {
    match order {
        ByteOrder::LittleEndian => seq![0x49u8, 0x49u8],
        ByteOrder::BigEndian => seq![0x4Du8, 0x4Du8],
    }
}

/// The header as written.
pub open spec fn header_image(order: ByteOrder, first: nat) -> Seq<u8> {
    order_mark(order) + bytes_of(42, 2, order) + bytes_of(first, 4, order)
}

/// Parses the header.
pub fn parse_header(data: &Vec<u8>) -> (r: Result<(ByteOrder, u32), TiffError>)
    ensures
        r == header_of(data@),
{
    if data.len() < 2 {
        return Err(TiffError::TruncatedFile);
    }
    let order = if data[0] == 0x49u8 && data[1] == 0x49u8 {
        ByteOrder::LittleEndian
    } else if data[0] == 0x4Du8 && data[1] == 0x4Du8 {
        ByteOrder::BigEndian
    } else {
        return Err(TiffError::BadByteOrderMark);
    };
    if data.len() < 4 {
        return Err(TiffError::TruncatedFile);
    }
    if read_u16(data, 2, order) != MAGIC {
        return Err(TiffError::BadMagic);
    }
    if data.len() < 8 {
        return Err(TiffError::TruncatedFile);
    }
    let off = read_u32(data, 4, order);
    if off == 0 || off as usize >= data.len() {
        return Err(TiffError::TruncatedFile);
    }
    Ok((order, off))
}

/// Appends a header.
pub fn push_header(out: &mut Vec<u8>, order: ByteOrder, first: u32)
    ensures
        final(out)@ == old(out)@ + header_image(order, first as nat),
{
    match order {
        ByteOrder::LittleEndian => {
            out.push(0x49u8);
            out.push(0x49u8);
        },
        ByteOrder::BigEndian => {
            out.push(0x4Du8);
            out.push(0x4Du8);
        },
    }
    let ghost mid = out@;
    push_uint(out, MAGIC as u64, 2, order);
    push_uint(out, first as u64, 4, order);
    assert(mid =~= old(out)@ + order_mark(order));
    assert(out@ =~= old(out)@ + header_image(order, first as nat));
}

/// A written header reads back as the order and offset it was written with.
pub proof fn lemma_read_header(data: Seq<u8>, order: ByteOrder, first: nat)
    requires
        holds_at(data, 0, header_image(order, first)),
        0 < first < data.len(),
        first < 0x1_0000_0000,
    ensures
        header_of(data) == Ok::<(ByteOrder, u32), TiffError>((order, first as u32)),
{
    lemma_pow256_values();
    lemma_bytes_len(42, 2, order);
    lemma_bytes_len(first, 4, order);
    lemma_value_of_bytes(42, 2, order);
    lemma_value_of_bytes(first, 4, order);
    let h = header_image(order, first);
    assert(data.subrange(0, 8) == h);
    assert(data[0] == h[0] && data[1] == h[1]);
    assert(data.subrange(2, 4) =~= h.subrange(2, 4));
    assert(h.subrange(2, 4) =~= bytes_of(42, 2, order));
    assert(data.subrange(4, 8) =~= h.subrange(4, 8));
    assert(h.subrange(4, 8) =~= bytes_of(first, 4, order));
}

} // verus!
