//! What holds between the writer, the reader and the two byte orders.
use vstd::prelude::*;
use crate::bytes::{ByteOrder, bytes_of, value_of, pow256, lemma_value_of_bytes, lemma_value_bound};
use crate::error::TiffError;
use crate::frame::{FrameModel, parse_frame};
use crate::header::header_of;
use crate::ifd::{ifd_fits, ifd_entries, ifd_next, tag_first, tag_values, TAG_IMAGE_WIDTH, TAG_IMAGE_LENGTH, TAG_BITS_PER_SAMPLE, TAG_COMPRESSION};
use crate::reader::{open_result, chain_count};
use crate::sample::{Sample, values_of};
use crate::strip::decode_plane;
use crate::writer::{FrameData, file_holds, frame_in_file, nth_ifd, sample_bytes};

verus! {

/// The samples of frame `i` of a file, reached by following `i` links from
/// the first directory.
pub open spec fn frame_samples(data: Seq<u8>, i: nat, size: nat) -> Result<Seq<nat>, TiffError> {
    match header_of(data) {
        Err(e) => Err(e),
        Ok((order, first)) => match parse_frame(data, order, nth_ifd(data, order, first as nat, i) as int) {
            Err(e) => Err(e),
            Ok(f) => decode_plane(data, order, f, 0, size),
        },
    }
}

/// The offset of the first directory that the header gives.
pub open spec fn first_ifd_of(data: Seq<u8>) -> nat {
    match header_of(data) {
        Ok((_, first)) => first as nat,
        Err(_) => 0,
    }
}

/// A parsed frame links to the directory that its link field names.
pub proof fn lemma_frame_link(data: Seq<u8>, order: ByteOrder, off: int)
    ensures
        parse_frame(data, order, off) matches Ok(f) ==> f.next_ifd as nat == ifd_next(
            data,
            order,
            off,
        ),
{
    if ifd_fits(data, order, off) {
        let n = crate::ifd::entry_count(data, order, off);
        lemma_value_bound(data.subrange(off + 2 + 12 * n, off + 2 + 12 * n + 4), order);
        crate::bytes::lemma_pow256_values();
    }
}

/// Round trip: a file that holds the written frames opens on the first of
/// them, with its shape and description, and its plane decodes to exactly
/// the samples that were written.
pub proof fn lemma_round_trip(
    data: Seq<u8>,
    order: ByteOrder,
    width: u32,
    height: u32,
    bits: u16,
    frames: Seq<FrameData>,
    text: Seq<char>,
)
    requires
        file_holds(data, order, width, height, bits, frames, text),
        frames.len() >= 1,
    ensures
        open_result(data) matches Ok((o, first, f)) && o == order && f.width == width && f.height
            == height && f.bits_per_sample == seq![bits as u32] && f.samples_per_pixel == 1
            && f.description == text && decode_plane(data, order, f, 0, sample_bytes(bits))
            == Ok::<Seq<nat>, TiffError>(frames[0].values),
{
    let (o, first) = header_of(data)->Ok_0;
    assert(frame_in_file(data, order, first as nat, width, height, bits, frames, text, 0));
}

/// Samples read back as the numbers that were written are the samples
/// that were written.
pub proof fn lemma_samples_equal<T: Sample>(read: Seq<T>, written: Seq<T>)
    requires
        values_of(read) == values_of(written),
    ensures
        read == written,
{
    assert(values_of(read).len() == read.len());
    assert(values_of(written).len() == written.len());
    assert forall|k: int| 0 <= k < read.len() implies read[k] == written[k] by {
        assert(values_of(read)[k] == read[k].value());
        assert(values_of(written)[k] == written[k].value());
        T::lemma_injective(read[k], written[k]);
    }
    assert(read =~= written);
}

/// Chaining: a file that holds `n` frames counts `n` frames; following the
/// links from the first directory visits the frames in the order they were
/// written, each but the last linking on, each decoding to its samples.
pub proof fn lemma_chaining(
    data: Seq<u8>,
    order: ByteOrder,
    width: u32,
    height: u32,
    bits: u16,
    frames: Seq<FrameData>,
    text: Seq<char>,
    i: nat,
)
    requires
        file_holds(data, order, width, height, bits, frames, text),
        i < frames.len(),
    ensures
        header_of(data) is Ok,
        header_of(data)->Ok_0.0 == order,
        chain_count(data, order, first_ifd_of(data) as int, data.len()) == frames.len(),
        parse_frame(data, order, nth_ifd(data, order, first_ifd_of(data), i) as int) is Ok,
        ({
            let f = parse_frame(data, order, nth_ifd(data, order, first_ifd_of(data), i) as int)->Ok_0;
            &&& (f.next_ifd != 0 <==> i + 1 < frames.len())
            &&& (i + 1 < frames.len() ==> f.next_ifd == nth_ifd(
                data,
                order,
                first_ifd_of(data),
                i + 1,
            ))
            &&& decode_plane(data, order, f, 0, sample_bytes(bits)) == Ok::<Seq<nat>, TiffError>(
                frames[i as int].values,
            )
        }),
{
    let (o, first) = header_of(data)->Ok_0;
    assert(frame_in_file(data, order, first as nat, width, height, bits, frames, text, i as int));
    lemma_frame_link(data, order, nth_ifd(data, order, first as nat, i) as int);
}

/// Byte order invariance: the same frames written once in each byte order
/// decode to the same samples, frame by frame.
pub proof fn lemma_byte_order_invariance(
    little: Seq<u8>,
    big: Seq<u8>,
    width: u32,
    height: u32,
    bits: u16,
    frames: Seq<FrameData>,
    text: Seq<char>,
    i: nat,
)
    requires
        file_holds(little, ByteOrder::LittleEndian, width, height, bits, frames, text),
        file_holds(big, ByteOrder::BigEndian, width, height, bits, frames, text),
        i < frames.len(),
    ensures
        frame_samples(little, i, sample_bytes(bits)) == frame_samples(big, i, sample_bytes(bits)),
        frame_samples(little, i, sample_bytes(bits)) == Ok::<Seq<nat>, TiffError>(
            frames[i as int].values,
        ),
{
    lemma_chaining(little, ByteOrder::LittleEndian, width, height, bits, frames, text, i);
    lemma_chaining(big, ByteOrder::BigEndian, width, height, bits, frames, text, i);
}

/// Byte order invariance of a single field: a number written in either
/// order reads back as itself.
pub proof fn lemma_field_order_invariance(v: nat, n: nat)
    requires
        v < pow256(n),
    ensures
        value_of(bytes_of(v, n, ByteOrder::LittleEndian), ByteOrder::LittleEndian) == value_of(
            bytes_of(v, n, ByteOrder::BigEndian),
            ByteOrder::BigEndian,
        ),
        value_of(bytes_of(v, n, ByteOrder::LittleEndian), ByteOrder::LittleEndian) == v,
{
    lemma_value_of_bytes(v, n, ByteOrder::LittleEndian);
    lemma_value_of_bytes(v, n, ByteOrder::BigEndian);
}

/// A file whose first two bytes are neither "II" nor "MM" is refused with
/// a bad byte order mark.
pub proof fn lemma_bad_byte_order_mark(data: Seq<u8>)
    requires
        data.len() >= 2,
        !(data[0] == 0x49u8 && data[1] == 0x49u8),
        !(data[0] == 0x4Du8 && data[1] == 0x4Du8),
    ensures
        open_result(data) == Err::<(ByteOrder, u32, FrameModel), TiffError>(
            TiffError::BadByteOrderMark,
        ),
{
}

/// A first frame whose compression is not 1 is refused as unsupported,
/// once the tags read before it are in order.
pub proof fn lemma_compression_unsupported(data: Seq<u8>, order: ByteOrder, first: u32, c: u32)
    requires
        header_of(data) == Ok::<(ByteOrder, u32), TiffError>((order, first)),
        ifd_fits(data, order, first as int),
        tag_first(data, order, ifd_entries(data, order, first as int), TAG_IMAGE_WIDTH) is Ok,
        tag_first(data, order, ifd_entries(data, order, first as int), TAG_IMAGE_LENGTH) is Ok,
        tag_values(data, order, ifd_entries(data, order, first as int), TAG_BITS_PER_SAMPLE) is Ok,
        tag_first(data, order, ifd_entries(data, order, first as int), TAG_COMPRESSION) == Ok::<
            u32,
            TiffError,
        >(c),
        c != 1,
    ensures
        open_result(data) == Err::<(ByteOrder, u32, FrameModel), TiffError>(
            TiffError::CompressionUnsupported,
        ),
{
}

} // verus!
