//! What one directory says about its frame.
use vstd::prelude::*;
use crate::bytes::ByteOrder;
use crate::error::TiffError;
use crate::ifd::{
    IfdEntry,
    ifd_fits,
    ifd_entries,
    ifd_next,
    tag_first,
    tag_values,
    tag_or,
    description_of,
    TAG_IMAGE_WIDTH,
    TAG_IMAGE_LENGTH,
    TAG_BITS_PER_SAMPLE,
    TAG_COMPRESSION,
    TAG_STRIP_OFFSETS,
    TAG_SAMPLES_PER_PIXEL,
    TAG_ROWS_PER_STRIP,
    TAG_STRIP_BYTE_COUNTS,
    TAG_PLANAR_CONFIGURATION,
    TAG_SAMPLE_FORMAT,
};

verus! {

/// The metadata of one frame.
pub struct FrameModel {
    pub width: u32,
    pub height: u32,
    pub bits_per_sample: Seq<u32>,
    pub compression: u32,
    pub rows_per_strip: u32,
    pub strip_offsets: Seq<u32>,
    pub strip_byte_counts: Seq<u32>,
    pub samples_per_pixel: u32,
    pub planar_configuration: u32,
    pub sample_format: u32,
    pub description: Seq<char>,
    pub next_ifd: u32,
}

/// The frame that the given entries describe, read tag by tag in a fixed order.
pub open spec fn frame_of(data: Seq<u8>, order: ByteOrder, es: Seq<IfdEntry>, next: u32) -> Result<
    FrameModel,
    TiffError,
> {
    match tag_first(data, order, es, TAG_IMAGE_WIDTH) {
        Err(e) => Err(e),
        Ok(width) => match tag_first(data, order, es, TAG_IMAGE_LENGTH) {
            Err(e) => Err(e),
            Ok(height) => match tag_values(data, order, es, TAG_BITS_PER_SAMPLE) {
                Err(e) => Err(e),
                Ok(bits) => match tag_first(data, order, es, TAG_COMPRESSION) {
                    Err(e) => Err(e),
                    Ok(compression) => if compression != 1 {
                        Err(TiffError::CompressionUnsupported)
                    } else {
                        match tag_values(data, order, es, TAG_STRIP_OFFSETS) {
                            Err(e) => Err(e),
                            Ok(offsets) => match tag_first(data, order, es, TAG_SAMPLES_PER_PIXEL) {
                                Err(e) => Err(e),
                                Ok(spp) => match tag_first(data, order, es, TAG_ROWS_PER_STRIP) {
                                    Err(e) => Err(e),
                                    Ok(rows) => match tag_values(
                                        data,
                                        order,
                                        es,
                                        TAG_STRIP_BYTE_COUNTS,
                                    ) {
                                        Err(e) => Err(e),
                                        Ok(counts) => match tag_or(
                                            data,
                                            order,
                                            es,
                                            TAG_PLANAR_CONFIGURATION,
                                            1,
                                        ) {
                                            Err(e) => Err(e),
                                            Ok(planar) => match description_of(data, es) {
                                                Err(e) => Err(e),
                                                Ok(description) => match tag_or(
                                                    data,
                                                    order,
                                                    es,
                                                    TAG_SAMPLE_FORMAT,
                                                    1,
                                                ) {
                                                    Err(e) => Err(e),
                                                    Ok(format) => if spp == 0 || bits.len() != spp
                                                        || offsets.len() != counts.len() || (planar
                                                        != 1 && planar != 2) {
                                                        Err(TiffError::MalformedIfdEntry)
                                                    } else {
                                                        Ok(
                                                            FrameModel {
                                                                width,
                                                                height,
                                                                bits_per_sample: bits,
                                                                compression,
                                                                rows_per_strip: rows,
                                                                strip_offsets: offsets,
                                                                strip_byte_counts: counts,
                                                                samples_per_pixel: spp,
                                                                planar_configuration: planar,
                                                                sample_format: format,
                                                                description,
                                                                next_ifd: next,
                                                            },
                                                        )
                                                    },
                                                },
                                            },
                                        },
                                    },
                                },
                            },
                        }
                    },
                },
            },
        },
    }
}

/// The frame described by the directory at `off`.
pub open spec fn parse_frame(data: Seq<u8>, order: ByteOrder, off: int) -> Result<
    FrameModel,
    TiffError,
> {
    if !ifd_fits(data, order, off) {
        Err(TiffError::TruncatedFile)
    } else {
        frame_of(data, order, ifd_entries(data, order, off), ifd_next(data, order, off) as u32)
    }
}

} // verus!
