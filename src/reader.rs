//! Reading a TIFF file frame by frame.
use vstd::prelude::*;
use crate::bytes::ByteOrder;
use crate::error::{TiffError, message_of};
use crate::frame::{FrameModel, parse_frame};
use crate::header::{header_of, parse_header};
use crate::ifd::{
    ifd_fits,
    ifd_next,
    read_entries,
    read_link,
    find_entry,
    read_values,
    read_description,
    tag_first,
    tag_values,
    tag_or,
    TAG_IMAGE_WIDTH,
    TAG_IMAGE_LENGTH,
    TAG_BITS_PER_SAMPLE,
    TAG_COMPRESSION,
    TAG_STRIP_OFFSETS,
    TAG_SAMPLES_PER_PIXEL,
    TAG_ROWS_PER_STRIP,
    TAG_STRIP_BYTE_COUNTS,
    TAG_PLANAR_CONFIGURATION,
    TAG_SAMPLE_FORMAT,
    IfdEntry,
};
use crate::sample::{Sample, values_of};
use crate::strip::{decode_plane, frame_wf, read_plane};

verus! {

/// The metadata of the current frame.
pub struct TinyTIFFReaderFrame {
    width: u32,
    height: u32,
    compression: u32,
    rowsperstrip: u32,
    stripoffsets: Vec<u32>,
    stripbytecounts: Vec<u32>,
    samplesperpixel: u32,
    bitspersample: Vec<u32>,
    planarconfiguration: u32,
    sampleformat: u32,
    description: String,
    nextifd: u32,
}

impl View for TinyTIFFReaderFrame {
    type V = FrameModel;

    closed spec fn view(&self) -> FrameModel {
        FrameModel {
            width: self.width,
            height: self.height,
            bits_per_sample: self.bitspersample@,
            compression: self.compression,
            rows_per_strip: self.rowsperstrip,
            strip_offsets: self.stripoffsets@,
            strip_byte_counts: self.stripbytecounts@,
            samples_per_pixel: self.samplesperpixel,
            planar_configuration: self.planarconfiguration,
            sample_format: self.sampleformat,
            description: self.description@,
            next_ifd: self.nextifd,
        }
    }
}

/// What a reader holds: the file, its byte order, where the chain starts,
/// the current frame and the last error of a call that reports none itself.
pub struct ReaderModel {
    pub data: Seq<u8>,
    pub order: ByteOrder,
    pub first_ifd: nat,
    pub current_ifd: nat,
    pub frame: FrameModel,
    pub error: Option<TiffError>,
}

/// An open file with one current frame.
pub struct TinyTIFFReaderFile {
    data: Vec<u8>,
    order: ByteOrder,
    first_ifd: u32,
    current_ifd: u32,
    frame: TinyTIFFReaderFrame,
    error: Option<TiffError>,
}

impl View for TinyTIFFReaderFile {
    type V = ReaderModel;

    closed spec fn view(&self) -> ReaderModel {
        ReaderModel {
            data: self.data@,
            order: self.order,
            first_ifd: self.first_ifd as nat,
            current_ifd: self.current_ifd as nat,
            frame: self.frame@,
            error: self.error,
        }
    }
}

/// The current frame is the one the directory at the current offset describes.
pub open spec fn reader_wf(m: ReaderModel) -> bool {
    header_of(m.data) == Ok::<(ByteOrder, u32), TiffError>((m.order, m.first_ifd as u32))
        && m.first_ifd < 0x1_0000_0000 && m.current_ifd < 0x1_0000_0000 && parse_frame(
        m.data,
        m.order,
        m.current_ifd as int,
    ) == Ok::<FrameModel, TiffError>(m.frame)
}

/// What opening a file gives: its byte order, first directory and first frame.
pub open spec fn open_result(data: Seq<u8>) -> Result<(ByteOrder, u32, FrameModel), TiffError> {
    match header_of(data) {
        Err(e) => Err(e),
        Ok((order, first)) => match parse_frame(data, order, first as int) {
            Err(e) => Err(e),
            Ok(f) => Ok((order, first, f)),
        },
    }
}

/// The number of directories in the chain that starts at `off`, following
/// at most `fuel` links; a link of 0 or past the end ends the chain.
pub open spec fn chain_count(data: Seq<u8>, order: ByteOrder, off: int, fuel: nat) -> nat
    decreases fuel,
{
    if fuel == 0 || !ifd_fits(data, order, off) {
        0
    } else {
        let next = ifd_next(data, order, off);
        if next == 0 || next >= data.len() {
            1
        } else {
            1 + chain_count(data, order, next as int, (fuel - 1) as nat)
        }
    }
}

/// Parses the directory at `off` into a frame.
fn read_frame(data: &Vec<u8>, order: ByteOrder, off: usize) -> (r: Result<
    TinyTIFFReaderFrame,
    TiffError,
>)
    ensures
        match r {
            Ok(f) => parse_frame(data@, order, off as int) == Ok::<FrameModel, TiffError>(f@),
            Err(e) => parse_frame(data@, order, off as int) == Err::<FrameModel, TiffError>(e),
        },
{
    let (es, next) = match read_entries(data, order, off) {
        Ok(x) => x,
        Err(e) => {
            return Err(e);
        },
    };
    let width = match first_value(data, order, &es, TAG_IMAGE_WIDTH) {
        Ok(v) => v,
        Err(e) => {
            return Err(e);
        },
    };
    let height = match first_value(data, order, &es, TAG_IMAGE_LENGTH) {
        Ok(v) => v,
        Err(e) => {
            return Err(e);
        },
    };
    let bits = match all_values(data, order, &es, TAG_BITS_PER_SAMPLE) {
        Ok(v) => v,
        Err(e) => {
            return Err(e);
        },
    };
    let compression = match first_value(data, order, &es, TAG_COMPRESSION) {
        Ok(v) => v,
        Err(e) => {
            return Err(e);
        },
    };
    if compression != 1 {
        return Err(TiffError::CompressionUnsupported);
    }
    let offsets = match all_values(data, order, &es, TAG_STRIP_OFFSETS) {
        Ok(v) => v,
        Err(e) => {
            return Err(e);
        },
    };
    let spp = match first_value(data, order, &es, TAG_SAMPLES_PER_PIXEL) {
        Ok(v) => v,
        Err(e) => {
            return Err(e);
        },
    };
    let rows = match first_value(data, order, &es, TAG_ROWS_PER_STRIP) {
        Ok(v) => v,
        Err(e) => {
            return Err(e);
        },
    };
    let counts = match all_values(data, order, &es, TAG_STRIP_BYTE_COUNTS) {
        Ok(v) => v,
        Err(e) => {
            return Err(e);
        },
    };
    let planar = match value_or(data, order, &es, TAG_PLANAR_CONFIGURATION, 1) {
        Ok(v) => v,
        Err(e) => {
            return Err(e);
        },
    };
    let description = match read_description(data, &es) {
        Ok(v) => v,
        Err(e) => {
            return Err(e);
        },
    };
    let format = match value_or(data, order, &es, TAG_SAMPLE_FORMAT, 1) {
        Ok(v) => v,
        Err(e) => {
            return Err(e);
        },
    };
    if spp == 0 || bits.len() != spp as usize || offsets.len() != counts.len() || (planar != 1
        && planar != 2) {
        return Err(TiffError::MalformedIfdEntry);
    }
    Ok(
        TinyTIFFReaderFrame {
            width,
            height,
            compression,
            rowsperstrip: rows,
            stripoffsets: offsets,
            stripbytecounts: counts,
            samplesperpixel: spp,
            bitspersample: bits,
            planarconfiguration: planar,
            sampleformat: format,
            description,
            nextifd: next,
        },
    )
}

fn all_values(data: &Vec<u8>, order: ByteOrder, es: &Vec<IfdEntry>, tag: u16) -> (r: Result<
    Vec<u32>,
    TiffError,
>)
    ensures
        match r {
            Ok(v) => tag_values(data@, order, es@, tag) == Ok::<Seq<u32>, TiffError>(v@),
            Err(e) => tag_values(data@, order, es@, tag) == Err::<Seq<u32>, TiffError>(e),
        },
{
    match find_entry(es, tag) {
        None => Err(TiffError::MissingTag(tag)),
        Some(e) => read_values(data, order, e),
    }
}

fn first_value(data: &Vec<u8>, order: ByteOrder, es: &Vec<IfdEntry>, tag: u16) -> (r: Result<
    u32,
    TiffError,
>)
    ensures
        r == tag_first(data@, order, es@, tag),
{
    match all_values(data, order, es, tag) {
        Err(e) => Err(e),
        Ok(v) => if v.len() == 0 {
            Err(TiffError::MalformedIfdEntry)
        } else {
            Ok(v[0])
        },
    }
}

fn value_or(data: &Vec<u8>, order: ByteOrder, es: &Vec<IfdEntry>, tag: u16, default: u32) -> (r:
    Result<u32, TiffError>)
    ensures
        r == tag_or(data@, order, es@, tag, default),
{
    match find_entry(es, tag) {
        None => Ok(default),
        Some(e) => match read_values(data, order, e) {
            Err(err) => Err(err),
            Ok(v) => if v.len() == 0 {
                Err(TiffError::MalformedIfdEntry)
            } else {
                Ok(v[0])
            },
        },
    }
}

/// Opens a file held in memory: reads the header and the first directory.
pub fn open(data: Vec<u8>) -> (r: Result<TinyTIFFReaderFile, TiffError>)
    ensures
        match open_result(data@) {
            Err(e) => r == Err::<TinyTIFFReaderFile, TiffError>(e),
            Ok((order, first, f)) => r matches Ok(t) && reader_wf(t@) && t@ == (ReaderModel {
                data: data@,
                order,
                first_ifd: first as nat,
                current_ifd: first as nat,
                frame: f,
                error: None,
            }),
        },
{
    let (order, first) = match parse_header(&data) {
        Ok(h) => h,
        Err(e) => {
            return Err(e);
        },
    };
    let frame = match read_frame(&data, order, first as usize) {
        Ok(f) => f,
        Err(e) => {
            return Err(e);
        },
    };
    Ok(TinyTIFFReaderFile { data, order, first_ifd: first, current_ifd: first, frame, error: None })
}

/// Closes the file; the reader is gone afterwards.
pub fn close(tiff: TinyTIFFReaderFile) {
}

/// The bit depth of sample `sample` of the current frame. A sample past
/// the frame's samples per pixel is an error: the call returns 0 and keeps
/// the error in the reader.
pub fn bits_per_sample(tiff: &mut TinyTIFFReaderFile, sample: usize) -> (r: usize)
    ensures
        sample < old(tiff)@.frame.bits_per_sample.len() ==> r
            == old(tiff)@.frame.bits_per_sample[sample as int] && final(tiff)@ == old(tiff)@,
        sample >= old(tiff)@.frame.bits_per_sample.len() ==> r == 0 && final(tiff)@ == (ReaderModel {
            error: Some(TiffError::InvalidSampleRequest),
            ..old(tiff)@
        }),
{
    if sample < tiff.frame.bitspersample.len() {
        tiff.frame.bitspersample[sample] as usize
    } else {
        tiff.error = Some(TiffError::InvalidSampleRequest);
        0
    }
}

/// Decodes plane `sample` of the current frame into `buffer`, which then
/// holds `width * height` samples in row-major order. On failure the buffer
/// is left as it was and the error is kept in the reader.
pub fn sample_data<T: Sample>(tiff: &mut TinyTIFFReaderFile, buffer: &mut Vec<T>, sample: usize) -> (r:
    bool)
    requires
        reader_wf(old(tiff)@),
    ensures
        reader_wf(final(tiff)@),
        match decode_plane(old(tiff)@.data, old(tiff)@.order, old(tiff)@.frame, sample as nat, T::size()) {
            Ok(p) => r && values_of(final(buffer)@) == p && final(tiff)@ == old(tiff)@,
            Err(e) => !r && final(buffer)@ == old(buffer)@ && final(tiff)@ == (ReaderModel {
                error: Some(e),
                ..old(tiff)@
            }),
        },
{
    proof {
        assert(frame_wf(tiff@.frame));
    }
    let result = read_plane(
        &tiff.data,
        tiff.order,
        tiff.frame.width,
        tiff.frame.height,
        &tiff.frame.bitspersample,
        tiff.frame.samplesperpixel,
        tiff.frame.planarconfiguration,
        &tiff.frame.stripoffsets,
        &tiff.frame.stripbytecounts,
        sample,
        Ghost(tiff.frame@),
    );
    match result {
        Ok(v) => {
            *buffer = v;
            true
        },
        Err(e) => {
            tiff.error = Some(e);
            false
        },
    }
}

/// The width of the current frame.
pub fn width(tiff: &TinyTIFFReaderFile) -> (r: usize)
    ensures
        r == tiff@.frame.width,
{
    tiff.frame.width as usize
}

/// The height of the current frame.
pub fn height(tiff: &TinyTIFFReaderFile) -> (r: usize)
    ensures
        r == tiff@.frame.height,
{
    tiff.frame.height as usize
}

/// The number of frames: the length of the chain of directories from the
/// first one, at most one per byte of the file.
pub fn count_frames(tiff: &TinyTIFFReaderFile) -> (r: usize)
    ensures
        r == chain_count(tiff@.data, tiff@.order, tiff@.first_ifd as int, tiff@.data.len()),
{
    let data = &tiff.data;
    let order = tiff.order;
    let len = data.len();
    let mut off: usize = tiff.first_ifd as usize;
    let mut fuel: usize = len;
    let mut count: usize = 0;
    let ghost total = chain_count(data@, order, off as int, fuel as nat);
    assert(total == chain_count(tiff@.data, tiff@.order, tiff@.first_ifd as int, tiff@.data.len()));
    while fuel > 0
        invariant
            len == data@.len(),
            fuel <= len,
            count + fuel <= len,
            count + chain_count(data@, order, off as int, fuel as nat) == total,
            total == chain_count(tiff@.data, tiff@.order, tiff@.first_ifd as int, tiff@.data.len()),
        decreases fuel,
    {
        match read_link(data, order, off) {
            None => {
                return count;
            },
            Some(next) => {
                if next == 0 || next as usize >= len {
                    return count + 1;
                }
                count = count + 1;
                off = next as usize;
                fuel = fuel - 1;
            },
        }
    }
    count
}

/// The sample format of the current frame: 1 unsigned, 2 signed, 3 floating point.
pub fn sample_format(tiff: &TinyTIFFReaderFile) -> (r: usize)
    ensures
        r == tiff@.frame.sample_format,
{
    tiff.frame.sampleformat as usize
}

/// The number of samples per pixel of the current frame.
pub fn samples_per_pixel(tiff: &TinyTIFFReaderFile) -> (r: usize)
    ensures
        r == tiff@.frame.samples_per_pixel,
{
    tiff.frame.samplesperpixel as usize
}

/// The image description of the current frame; empty when it has none.
pub fn image_description(tiff: &TinyTIFFReaderFile) -> (r: String)
    ensures
        r@ == tiff@.frame.description,
{
    tiff.frame.description.clone()
}

/// Whether the current frame links to another one.
pub fn has_next(tiff: &TinyTIFFReaderFile) -> (r: bool)
    ensures
        r == (tiff@.frame.next_ifd != 0),
{
    tiff.frame.nextifd != 0
}

/// Moves to the next frame. Returns false, with nothing changed, when there
/// is none; returns false and keeps the error when the next directory is
/// corrupt, the current frame staying as it was.
pub fn read_next(tiff: &mut TinyTIFFReaderFile) -> (r: bool)
    requires
        reader_wf(old(tiff)@),
    ensures
        reader_wf(final(tiff)@),
        old(tiff)@.frame.next_ifd == 0 ==> !r && final(tiff)@ == old(tiff)@,
        old(tiff)@.frame.next_ifd != 0 ==> match parse_frame(
            old(tiff)@.data,
            old(tiff)@.order,
            old(tiff)@.frame.next_ifd as int,
        ) {
            Ok(f) => r && final(tiff)@ == (ReaderModel {
                current_ifd: old(tiff)@.frame.next_ifd as nat,
                frame: f,
                ..old(tiff)@
            }),
            Err(e) => !r && final(tiff)@ == (ReaderModel { error: Some(e), ..old(tiff)@ }),
        },
{
    let next = tiff.frame.nextifd;
    if next == 0 {
        return false;
    }
    match read_frame(&tiff.data, tiff.order, next as usize) {
        Ok(f) => {
            tiff.frame = f;
            tiff.current_ifd = next;
            true
        },
        Err(e) => {
            tiff.error = Some(e);
            false
        },
    }
}

/// True when no call so far has kept an error.
pub fn success(tiff: &TinyTIFFReaderFile) -> (r: bool)
    ensures
        r == (tiff@.error is None),
{
    tiff.error.is_none()
}

/// True when some call has kept an error.
pub fn was_error(tiff: &TinyTIFFReaderFile) -> (r: bool)
    ensures
        r == (tiff@.error is Some),
{
    tiff.error.is_some()
}

/// The message of the kept error; empty when there is none.
pub fn last_error(tiff: &TinyTIFFReaderFile) -> (r: String)
    ensures
        match tiff@.error {
            None => r@.len() == 0,
            Some(e) => r@ == message_of(e),
        },
{
    match &tiff.error {
        None => String::new(),
        Some(e) => e.message(),
    }
}

} // verus!
