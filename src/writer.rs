//! Writing a TIFF file frame by frame.
//!
//! The file is built in memory. Opening writes the header, a stub for the
//! first directory and the area reserved for the description. Each frame
//! appends its strip; the first frame's directory then fills the stub, each
//! later one is appended after its strip and linked from the previous one.
//! Closing writes the description and hands back the bytes.
use vstd::prelude::*;
use vstd::utf8::encode_utf8;
use crate::bytes::{
    ByteOrder,
    bytes_of,
    holds_at,
    splice,
    pow256,
    push_uint,
    set_uint,
    set_bytes,
    lemma_bytes_len,
    lemma_splice,
    lemma_holds_after_splice,
    lemma_holds_after_append,
    };
use crate::error::TiffError;
use crate::frame::parse_frame;
use crate::header::{header_image, header_of, push_header, lemma_read_header};
use crate::ifd::{ifd_entries, ifd_next, TYPE_ASCII, TYPE_SHORT, TYPE_LONG};
use crate::ifd::{
    TAG_IMAGE_WIDTH,
    TAG_IMAGE_LENGTH,
    TAG_BITS_PER_SAMPLE,
    TAG_COMPRESSION,
    TAG_IMAGE_DESCRIPTION,
    TAG_STRIP_OFFSETS,
    TAG_SAMPLES_PER_PIXEL,
    TAG_ROWS_PER_STRIP,
    TAG_STRIP_BYTE_COUNTS,
    TAG_PLANAR_CONFIGURATION,
    TAG_SAMPLE_FORMAT,
};
use crate::layout::{
    EntryPlan,
    entry_image,
    entries_image,
    ifd_image,
    frame_plans,
    encode_values,
    description_area,
    text_fits,
    tags_ascending,
    written_frame,
    DESCRIPTION_AREA,
    FRAME_ENTRIES,
    lemma_entries_image,
    lemma_encode_values,
    lemma_read_frame,
    lemma_read_plane,
    lemma_read_ifd,
};
use crate::reader::chain_count;
use crate::sample::{Sample, values_of};
use crate::strip::decode_plane;

verus! {

/// Where the first directory starts, right after the header.
pub const FIRST_IFD: u32 = 8;

/// The size of a frame's directory.
pub const IFD_BYTES: u32 = 138;

/// Where the link field lies within a directory.
pub const NEXT_FIELD: u32 = 134;

/// Where the description area starts, right after the first directory.
pub const DESCRIPTION_POS: u32 = 146;

/// Sample format of unsigned integer samples.
pub const FORMAT_UINT: u16 = 1;

/// Sample format of floating-point samples.
pub const FORMAT_FLOAT: u16 = 3;

/// One written frame: its samples and their format.
pub struct FrameData {
    pub values: Seq<nat>,
    pub format: u16,
}

/// Where a written frame lies: its directory, its strip, and the span
/// `lo..hi` that holds both.
pub struct Placement {
    pub ifd: nat,
    pub strip: nat,
    pub lo: nat,
    pub hi: nat,
}

/// What a writer holds: the shape of every frame, the frames written so
/// far and the bytes laid out for them.
pub struct WriterModel {
    pub order: ByteOrder,
    pub width: u32,
    pub height: u32,
    pub bits_per_sample: u16,
    pub frames: Seq<FrameData>,
    pub data: Seq<u8>,
}

pub open spec fn valid_bits(bits: u16) -> bool {
    bits == 8 || bits == 16 || bits == 32 || bits == 64
}

pub open spec fn sample_bytes(bits: u16) -> nat {
    (bits / 8) as nat
}

/// The bytes of one frame's strip.
pub open spec fn strip_bytes(width: u32, height: u32, bits: u16) -> nat {
    sample_bytes(bits) * (width as nat * height as nat)
}

pub open spec fn next_of(ps: Seq<Placement>, i: int) -> nat {
    if i + 1 < ps.len() {
        ps[i + 1].ifd
    } else {
        0
    }
}

pub open spec fn desc_of(i: int) -> Option<u32> {
    if i == 0 {
        Some(DESCRIPTION_POS)
    } else {
        None
    }
}

/// Frame `i` stands in `data` where its placement says.
pub open spec fn frame_laid(
    data: Seq<u8>,
    order: ByteOrder,
    width: u32,
    height: u32,
    bits: u16,
    ps: Seq<Placement>,
    cs: Seq<FrameData>,
    i: int,
) -> bool {
    let p = ps[i];
    let c = cs[i];
    let sb = strip_bytes(width, height, bits);
    &&& p.lo <= p.hi <= data.len()
    &&& c.values.len() == width * height
    &&& forall|k: int| 0 <= k < c.values.len() ==> #[trigger] c.values[k] < pow256(sample_bytes(bits))
    &&& (c.format == FORMAT_UINT || c.format == FORMAT_FLOAT)
    &&& holds_at(data, p.strip as int, encode_values(c.values, sample_bytes(bits), order))
    &&& holds_at(
        data,
        p.ifd as int,
        ifd_image(
            order,
            frame_plans(width, height, bits, p.strip as u32, sb as u32, c.format, desc_of(i)),
            next_of(ps, i),
        ),
    )
    &&& if i == 0 {
        p.lo == FIRST_IFD && p.ifd == FIRST_IFD && p.strip >= DESCRIPTION_POS + DESCRIPTION_AREA
            && p.hi == p.strip + sb
    } else {
        p.lo == p.strip && p.ifd == p.strip + sb && p.hi == p.ifd + IFD_BYTES
    }
}

/// The whole layout: header, description area, and every frame in its own
/// span, the spans in the order of the frames.
pub open spec fn layout_wf(
    data: Seq<u8>,
    order: ByteOrder,
    width: u32,
    height: u32,
    bits: u16,
    ps: Seq<Placement>,
    cs: Seq<FrameData>,
) -> bool {
    &&& valid_bits(bits)
    &&& ps.len() == cs.len()
    &&& data.len() <= 0xFFFF_FFFF
    &&& data.len() >= DESCRIPTION_POS + DESCRIPTION_AREA
    &&& cs.len() <= data.len()
    &&& holds_at(data, 0, header_image(order, FIRST_IFD as nat))
    &&& cs.len() == 0 ==> data.len() == DESCRIPTION_POS + DESCRIPTION_AREA
    &&& forall|i: int| 0 <= i < cs.len() ==> #[trigger] frame_laid(data, order, width, height, bits, ps, cs, i)
    &&& forall|i: int, j: int| 0 <= i < j < cs.len() ==> #[trigger] ps[i].hi <= #[trigger] ps[j].lo
}

/// The directory reached after following `i` links from `first`.
pub open spec fn nth_ifd(data: Seq<u8>, order: ByteOrder, first: nat, i: nat) -> nat
    decreases i,
{
    if i == 0 {
        first
    } else {
        ifd_next(data, order, nth_ifd(data, order, first, (i - 1) as nat) as int)
    }
}

/// The directory at `off` lists its entries in ascending tag order and
/// describes an uncompressed frame of the given shape in a single strip of
/// `height` rows, which holds `fd` in its single plane, with the given
/// description, and links on unless it is the last.
pub open spec fn frame_holds(
    data: Seq<u8>,
    order: ByteOrder,
    off: int,
    width: u32,
    height: u32,
    bits: u16,
    fd: FrameData,
    text: Seq<char>,
    last: bool,
) -> bool {
    match parse_frame(data, order, off) {
        Ok(f) => {
            &&& tags_ascending(ifd_entries(data, order, off))
            &&& f.width == width
            &&& f.height == height
            &&& f.bits_per_sample == seq![bits as u32]
            &&& f.compression == 1
            &&& f.rows_per_strip == height
            &&& f.strip_offsets.len() == 1
            &&& f.strip_byte_counts == seq![strip_bytes(width, height, bits) as u32]
            &&& f.planar_configuration == 1
            &&& f.samples_per_pixel == 1
            &&& f.sample_format == fd.format
            &&& f.description == text
            &&& (f.next_ifd == 0) == last
            &&& decode_plane(data, order, f, 0, sample_bytes(bits)) == Ok::<Seq<nat>, TiffError>(
                fd.values,
            )
        },
        Err(_) => false,
    }
}

/// The description frame `i` carries: the text for the first frame, empty for the others.
pub open spec fn text_of(text: Seq<char>, i: int) -> Seq<char> {
    if i == 0 {
        text
    } else {
        Seq::empty()
    }
}

/// Frame `i` of the chain that starts at `first` holds `frames[i]`.
pub open spec fn frame_in_file(
    data: Seq<u8>,
    order: ByteOrder,
    first: nat,
    width: u32,
    height: u32,
    bits: u16,
    frames: Seq<FrameData>,
    text: Seq<char>,
    i: int,
) -> bool {
    frame_holds(
        data,
        order,
        nth_ifd(data, order, first, i as nat) as int,
        width,
        height,
        bits,
        frames[i],
        text_of(text, i),
        i + 1 == frames.len(),
    )
}

/// A file in the given byte order whose chain of directories holds exactly
/// `frames`, in order, the first one carrying `text` as its description.
pub open spec fn file_holds(
    data: Seq<u8>,
    order: ByteOrder,
    width: u32,
    height: u32,
    bits: u16,
    frames: Seq<FrameData>,
    text: Seq<char>,
) -> bool {
    match header_of(data) {
        Ok((o, first)) => {
            &&& o == order
            &&& chain_count(data, order, first as int, data.len()) == frames.len()
            &&& forall|i: int|
                0 <= i < frames.len() ==> #[trigger] frame_in_file(
                    data,
                    order,
                    first as nat,
                    width,
                    height,
                    bits,
                    frames,
                    text,
                    i,
                )
        },
        Err(_) => false,
    }
}

/// A file being written.
pub struct TinyTiffFile {
    data: Vec<u8>,
    order: ByteOrder,
    width: u32,
    height: u32,
    bits_per_sample: u16,
    strip_len: u64,
    frames: u64,
    last_ifd: usize,
    placements: Ghost<Seq<Placement>>,
    content: Ghost<Seq<FrameData>>,
}

impl View for TinyTiffFile {
    type V = WriterModel;

    closed spec fn view(&self) -> WriterModel {
        WriterModel {
            order: self.order,
            width: self.width,
            height: self.height,
            bits_per_sample: self.bits_per_sample,
            frames: self.content@,
            data: self.data@,
        }
    }
}

impl TinyTiffFile {
    pub closed spec fn wf(&self) -> bool {
        let n = self.content@.len();
        &&& layout_wf(
            self.data@,
            self.order,
            self.width,
            self.height,
            self.bits_per_sample,
            self.placements@,
            self.content@,
        )
        &&& (self.strip_len == strip_bytes(self.width, self.height, self.bits_per_sample) || (
        self.strip_len > 0xFFFF_FFFF && strip_bytes(self.width, self.height, self.bits_per_sample)
            > 0xFFFF_FFFF))
        &&& self.frames == n
        &&& n > 0 ==> self.last_ifd == self.placements@[n - 1].ifd
    }
}

fn push_entry(out: &mut Vec<u8>, order: ByteOrder, p: EntryPlan)
    ensures
        final(out)@ == old(out)@ + entry_image(order, p),
{
    push_uint(out, p.tag as u64, 2, order);
    push_uint(out, p.field_type as u64, 2, order);
    push_uint(out, p.count as u64, 4, order);
    if p.field_type == TYPE_SHORT {
        push_uint(out, p.value as u64, 2, order);
        out.push(0u8);
        out.push(0u8);
    } else {
        push_uint(out, p.value as u64, 4, order);
    }
    assert(out@ =~= old(out)@ + entry_image(order, p));
}

/// Appends a frame's directory.
fn push_ifd(
    out: &mut Vec<u8>,
    order: ByteOrder,
    width: u32,
    height: u32,
    bits: u16,
    strip: u32,
    strip_len: u32,
    format: u16,
    desc: Option<u32>,
    next: u32,
)
    ensures
        final(out)@ == old(out)@ + ifd_image(
            order,
            frame_plans(width, height, bits, strip, strip_len, format, desc),
            next as nat,
        ),
{
    let (desc_count, desc_value) = match desc {
        Some(p) => (DESCRIPTION_AREA, p),
        None => (1u32, 0u32),
    };
    let mut plans: Vec<EntryPlan> = Vec::new();
    plans.push(EntryPlan { tag: TAG_IMAGE_WIDTH, field_type: TYPE_LONG, count: 1, value: width });
    plans.push(EntryPlan { tag: TAG_IMAGE_LENGTH, field_type: TYPE_LONG, count: 1, value: height });
    plans.push(
        EntryPlan { tag: TAG_BITS_PER_SAMPLE, field_type: TYPE_SHORT, count: 1, value: bits as u32 },
    );
    plans.push(EntryPlan { tag: TAG_COMPRESSION, field_type: TYPE_SHORT, count: 1, value: 1 });
    plans.push(
        EntryPlan {
            tag: TAG_IMAGE_DESCRIPTION,
            field_type: TYPE_ASCII,
            count: desc_count,
            value: desc_value,
        },
    );
    plans.push(EntryPlan { tag: TAG_STRIP_OFFSETS, field_type: TYPE_LONG, count: 1, value: strip });
    plans.push(EntryPlan { tag: TAG_SAMPLES_PER_PIXEL, field_type: TYPE_SHORT, count: 1, value: 1 });
    plans.push(EntryPlan { tag: TAG_ROWS_PER_STRIP, field_type: TYPE_LONG, count: 1, value: height });
    plans.push(
        EntryPlan { tag: TAG_STRIP_BYTE_COUNTS, field_type: TYPE_LONG, count: 1, value: strip_len },
    );
    plans.push(
        EntryPlan { tag: TAG_PLANAR_CONFIGURATION, field_type: TYPE_SHORT, count: 1, value: 1 },
    );
    plans.push(
        EntryPlan { tag: TAG_SAMPLE_FORMAT, field_type: TYPE_SHORT, count: 1, value: format as u32 },
    );
    let ghost ps = frame_plans(width, height, bits, strip, strip_len, format, desc);
    assert(plans@ =~= ps);
    let ghost start = out@;
    push_uint(out, FRAME_ENTRIES as u64, 2, order);
    let mut i: usize = 0;
    while i < plans.len()
        invariant
            plans@ == ps,
            ps.len() == FRAME_ENTRIES,
            i <= plans.len(),
            out@ == start + bytes_of(FRAME_ENTRIES as nat, 2, order) + entries_image(
                order,
                ps.take(i as int),
            ),
        decreases plans.len() - i,
    {
        push_entry(out, order, plans[i]);
        assert(ps.take(i + 1).drop_last() =~= ps.take(i as int));
        assert(out@ =~= start + bytes_of(FRAME_ENTRIES as nat, 2, order) + entries_image(
            order,
            ps.take(i + 1),
        ));
        i = i + 1;
    }
    push_uint(out, next as u64, 4, order);
    assert(ps.take(FRAME_ENTRIES as int) =~= ps);
    assert(out@ =~= start + ifd_image(order, ps, next as nat));
}

/// Appends the samples of `buffer`, each in `T::size()` bytes.
fn push_samples<T: Sample>(out: &mut Vec<u8>, buffer: &Vec<T>, order: ByteOrder)
    ensures
        final(out)@ == old(out)@ + encode_values(values_of(buffer@), T::size(), order),
{
    let size = T::byte_size();
    proof {
        T::lemma_size();
    }
    let ghost vals = values_of(buffer@);
    let mut i: usize = 0;
    while i < buffer.len()
        invariant
            size == T::size(),
            1 <= size <= 8,
            vals == values_of(buffer@),
            i <= buffer.len(),
            out@ == old(out)@ + encode_values(vals.take(i as int), T::size(), order),
        decreases buffer.len() - i,
    {
        let v = buffer[i].to_uint();
        push_uint(out, v, size, order);
        assert(vals.take(i + 1).drop_last() =~= vals.take(i as int));
        assert(out@ =~= old(out)@ + encode_values(vals.take(i + 1), T::size(), order));
        i = i + 1;
    }
    assert(vals.take(buffer.len() as int) =~= vals);
}

proof fn lemma_image_sizes(
    order: ByteOrder,
    width: u32,
    height: u32,
    bits: u16,
    strip: u32,
    sb: u32,
    format: u16,
    desc: Option<u32>,
    next: nat,
)
    ensures
        ifd_image(order, frame_plans(width, height, bits, strip, sb, format, desc), next).len()
            == IFD_BYTES,
{
    let ps = frame_plans(width, height, bits, strip, sb, format, desc);
    lemma_entries_image(order, ps);
    lemma_bytes_len(ps.len(), 2, order);
    lemma_bytes_len(next, 4, order);
}

proof fn lemma_strip_size(vals: Seq<nat>, width: u32, height: u32, bits: u16, order: ByteOrder)
    requires
        vals.len() == width * height,
    ensures
        encode_values(vals, sample_bytes(bits), order).len() == strip_bytes(width, height, bits),
{
    lemma_encode_values(vals, sample_bytes(bits), order);
}

/// The spans that frame `i`'s strip and directory take lie within `lo..hi`.
proof fn lemma_laid_spans(
    data: Seq<u8>,
    order: ByteOrder,
    width: u32,
    height: u32,
    bits: u16,
    ps: Seq<Placement>,
    cs: Seq<FrameData>,
    i: int,
)
    requires
        0 <= i < ps.len(),
        i < cs.len(),
        frame_laid(data, order, width, height, bits, ps, cs, i),
    ensures
        ps[i].lo <= ps[i].strip,
        ps[i].strip + strip_bytes(width, height, bits) <= ps[i].hi,
        ps[i].lo <= ps[i].ifd,
        ps[i].ifd + IFD_BYTES <= ps[i].hi,
        encode_values(cs[i].values, sample_bytes(bits), order).len() == strip_bytes(
            width,
            height,
            bits,
        ),
        ifd_image(
            order,
            frame_plans(
                width,
                height,
                bits,
                ps[i].strip as u32,
                strip_bytes(width, height, bits) as u32,
                cs[i].format,
                desc_of(i),
            ),
            next_of(ps, i),
        ).len() == IFD_BYTES,
{
    lemma_strip_size(cs[i].values, width, height, bits, order);
    lemma_image_sizes(
        order,
        width,
        height,
        bits,
        ps[i].strip as u32,
        strip_bytes(width, height, bits) as u32,
        cs[i].format,
        desc_of(i),
        next_of(ps, i),
    );
}

proof fn lemma_laid_append(
    data: Seq<u8>,
    more: Seq<u8>,
    order: ByteOrder,
    width: u32,
    height: u32,
    bits: u16,
    ps: Seq<Placement>,
    cs: Seq<FrameData>,
    i: int,
)
    requires
        frame_laid(data, order, width, height, bits, ps, cs, i),
    ensures
        frame_laid(data + more, order, width, height, bits, ps, cs, i),
{
    let p = ps[i];
    let c = cs[i];
    let sb = strip_bytes(width, height, bits);
    lemma_holds_after_append(
        data,
        p.strip as int,
        encode_values(c.values, sample_bytes(bits), order),
        more,
    );
    lemma_holds_after_append(
        data,
        p.ifd as int,
        ifd_image(
            order,
            frame_plans(width, height, bits, p.strip as u32, sb as u32, c.format, desc_of(i)),
            next_of(ps, i),
        ),
        more,
    );
}

proof fn lemma_laid_splice(
    data: Seq<u8>,
    q: int,
    u: Seq<u8>,
    order: ByteOrder,
    width: u32,
    height: u32,
    bits: u16,
    ps: Seq<Placement>,
    cs: Seq<FrameData>,
    i: int,
)
    requires
        0 <= i < ps.len(),
        i < cs.len(),
        frame_laid(data, order, width, height, bits, ps, cs, i),
        0 <= q,
        q + u.len() <= data.len(),
        q + u.len() <= ps[i].lo || ps[i].hi <= q,
    ensures
        frame_laid(splice(data, q, u), order, width, height, bits, ps, cs, i),
{
    let p = ps[i];
    let c = cs[i];
    let sb = strip_bytes(width, height, bits);
    lemma_laid_spans(data, order, width, height, bits, ps, cs, i);
    lemma_splice(data, q, u);
    lemma_holds_after_splice(
        data,
        p.strip as int,
        encode_values(c.values, sample_bytes(bits), order),
        q,
        u,
    );
    lemma_holds_after_splice(
        data,
        p.ifd as int,
        ifd_image(
            order,
            frame_plans(width, height, bits, p.strip as u32, sb as u32, c.format, desc_of(i)),
            next_of(ps, i),
        ),
        q,
        u,
    );
}

proof fn lemma_laid_extend(
    data: Seq<u8>,
    order: ByteOrder,
    width: u32,
    height: u32,
    bits: u16,
    ps: Seq<Placement>,
    cs: Seq<FrameData>,
    p: Placement,
    c: FrameData,
    i: int,
)
    requires
        0 <= i,
        i + 1 < ps.len(),
        ps.len() == cs.len(),
        frame_laid(data, order, width, height, bits, ps, cs, i),
    ensures
        frame_laid(data, order, width, height, bits, ps.push(p), cs.push(c), i),
{
    assert(ps.push(p)[i] == ps[i]);
    assert(ps.push(p)[i + 1] == ps[i + 1]);
    assert(cs.push(c)[i] == cs[i]);
    assert(next_of(ps.push(p), i) == next_of(ps, i));
}

/// Writing the link of the last directory.
proof fn lemma_relink(
    data: Seq<u8>,
    order: ByteOrder,
    width: u32,
    height: u32,
    bits: u16,
    ps: Seq<Placement>,
    cs: Seq<FrameData>,
    p: Placement,
    c: FrameData,
)
    requires
        ps.len() == cs.len(),
        ps.len() >= 1,
        frame_laid(data, order, width, height, bits, ps, cs, ps.len() - 1),
        p.ifd < 0x1_0000_0000,
    ensures
        frame_laid(
            splice(data, ps.last().ifd + NEXT_FIELD, bytes_of(p.ifd, 4, order)),
            order,
            width,
            height,
            bits,
            ps.push(p),
            cs.push(c),
            ps.len() - 1,
        ),
{
    let i = ps.len() - 1;
    let q = ps[i];
    let f = cs[i];
    let sb = strip_bytes(width, height, bits);
    let plans = frame_plans(width, height, bits, q.strip as u32, sb as u32, f.format, desc_of(i));
    let u = bytes_of(p.ifd, 4, order);
    let pos = q.ifd + NEXT_FIELD;
    lemma_laid_spans(data, order, width, height, bits, ps, cs, i);
    lemma_bytes_len(p.ifd, 4, order);
    lemma_bytes_len(0, 4, order);
    lemma_entries_image(order, plans);
    lemma_bytes_len(plans.len(), 2, order);
    let d2 = splice(data, pos, u);
    lemma_splice(data, pos, u);
    lemma_holds_after_splice(
        data,
        q.strip as int,
        encode_values(f.values, sample_bytes(bits), order),
        pos,
        u,
    );
    let old_img = ifd_image(order, plans, 0);
    let new_img = ifd_image(order, plans, p.ifd);
    assert(d2.subrange(q.ifd as int, q.ifd + IFD_BYTES) =~= new_img) by {
        assert forall|k: int| 0 <= k < IFD_BYTES implies d2.subrange(
            q.ifd as int,
            q.ifd + IFD_BYTES,
        )[k] == new_img[k] by {
            if k < NEXT_FIELD {
                assert(data.subrange(q.ifd as int, q.ifd + IFD_BYTES)[k] == old_img[k]);
                assert(old_img[k] == new_img[k]);
            } else {
                assert(d2[pos + (k - NEXT_FIELD)] == u[k - NEXT_FIELD]);
            }
        }
    }
    assert(ps.push(p)[i] == q);
    assert(cs.push(c)[i] == f);
    assert(next_of(ps.push(p), i) == p.ifd);
}

/// Appending a frame after the first one: its strip, its directory, and
/// the link to it from the previous directory.
proof fn lemma_add_frame(
    d0: Seq<u8>,
    enc: Seq<u8>,
    img: Seq<u8>,
    order: ByteOrder,
    width: u32,
    height: u32,
    bits: u16,
    ps: Seq<Placement>,
    cs: Seq<FrameData>,
    p: Placement,
    c: FrameData,
)
    requires
        layout_wf(d0, order, width, height, bits, ps, cs),
        cs.len() >= 1,
        c.values.len() == width * height,
        forall|k: int| 0 <= k < c.values.len() ==> #[trigger] c.values[k] < pow256(sample_bytes(bits)),
        c.format == FORMAT_UINT || c.format == FORMAT_FLOAT,
        enc == encode_values(c.values, sample_bytes(bits), order),
        p.strip == d0.len(),
        p.lo == d0.len(),
        p.ifd == d0.len() + strip_bytes(width, height, bits),
        p.hi == p.ifd + IFD_BYTES,
        p.hi <= 0xFFFF_FFFF,
        img == ifd_image(
            order,
            frame_plans(
                width,
                height,
                bits,
                p.strip as u32,
                strip_bytes(width, height, bits) as u32,
                c.format,
                None,
            ),
            0,
        ),
    ensures
        layout_wf(
            splice(d0 + enc + img, ps.last().ifd + NEXT_FIELD, bytes_of(p.ifd, 4, order)),
            order,
            width,
            height,
            bits,
            ps.push(p),
            cs.push(c),
        ),
{
    let n = cs.len() as int;
    let sb = strip_bytes(width, height, bits);
    let d1 = d0 + enc;
    let d2 = d1 + img;
    let q = ps.last().ifd + NEXT_FIELD;
    let u = bytes_of(p.ifd, 4, order);
    let d3 = splice(d2, q, u);
    let ps2 = ps.push(p);
    let cs2 = cs.push(c);
    lemma_strip_size(c.values, width, height, bits, order);
    lemma_image_sizes(order, width, height, bits, p.strip as u32, sb as u32, c.format, None, 0);
    lemma_bytes_len(p.ifd, 4, order);
    assert(frame_laid(d0, order, width, height, bits, ps, cs, n - 1));
    lemma_laid_spans(d0, order, width, height, bits, ps, cs, n - 1);
    assert(d3.len() == d2.len()) by {
        lemma_splice(d2, q, u);
    }
    assert forall|i: int| 0 <= i < cs2.len() implies #[trigger] frame_laid(
        d3,
        order,
        width,
        height,
        bits,
        ps2,
        cs2,
        i,
    ) by {
        if i < n - 1 {
            assert(frame_laid(d0, order, width, height, bits, ps, cs, i));
            assert(ps[i].hi <= ps[n - 1].lo);
            lemma_laid_append(d0, enc, order, width, height, bits, ps, cs, i);
            lemma_laid_append(d1, img, order, width, height, bits, ps, cs, i);
            lemma_laid_splice(d2, q, u, order, width, height, bits, ps, cs, i);
            lemma_laid_extend(d3, order, width, height, bits, ps, cs, p, c, i);
        } else if i == n - 1 {
            lemma_laid_append(d0, enc, order, width, height, bits, ps, cs, i);
            lemma_laid_append(d1, img, order, width, height, bits, ps, cs, i);
            lemma_relink(d2, order, width, height, bits, ps, cs, p, c);
        } else {
            assert(ps2[i] == p && cs2[i] == c);
            assert(next_of(ps2, i) == 0);
            assert(holds_at(d1, p.strip as int, enc)) by {
                assert(d1.subrange(p.strip as int, p.strip + enc.len() as int) =~= enc);
            }
            lemma_holds_after_append(d1, p.strip as int, enc, img);
            assert(holds_at(d2, p.ifd as int, img)) by {
                assert(d2.subrange(p.ifd as int, p.ifd + img.len() as int) =~= img);
            }
            lemma_holds_after_splice(d2, p.strip as int, enc, q, u);
            lemma_holds_after_splice(d2, p.ifd as int, img, q, u);
        }
    }
    lemma_holds_after_append(d0, 0, header_image(order, FIRST_IFD as nat), enc);
    lemma_holds_after_append(d1, 0, header_image(order, FIRST_IFD as nat), img);
    lemma_bytes_len(FIRST_IFD as nat, 4, order);
    lemma_bytes_len(42, 2, order);
    lemma_holds_after_splice(d2, 0, header_image(order, FIRST_IFD as nat), q, u);
    assert forall|i: int, j: int| 0 <= i < j < cs2.len() implies #[trigger] ps2[i].hi
        <= #[trigger] ps2[j].lo by {
        if j < n {
            assert(ps2[i] == ps[i] && ps2[j] == ps[j]);
        } else {
            assert(frame_laid(d0, order, width, height, bits, ps, cs, i));
            assert(ps2[i] == ps[i]);
        }
    }
}

/// Writing the first frame: its strip, and its directory over the stub.
proof fn lemma_first_frame(
    d0: Seq<u8>,
    enc: Seq<u8>,
    img: Seq<u8>,
    order: ByteOrder,
    width: u32,
    height: u32,
    bits: u16,
    ps: Seq<Placement>,
    cs: Seq<FrameData>,
    p: Placement,
    c: FrameData,
)
    requires
        layout_wf(d0, order, width, height, bits, ps, cs),
        cs.len() == 0,
        c.values.len() == width * height,
        forall|k: int| 0 <= k < c.values.len() ==> #[trigger] c.values[k] < pow256(sample_bytes(bits)),
        c.format == FORMAT_UINT || c.format == FORMAT_FLOAT,
        enc == encode_values(c.values, sample_bytes(bits), order),
        p.strip == d0.len(),
        p.lo == FIRST_IFD,
        p.ifd == FIRST_IFD,
        p.hi == d0.len() + strip_bytes(width, height, bits),
        p.hi <= 0xFFFF_FFFF,
        img == ifd_image(
            order,
            frame_plans(
                width,
                height,
                bits,
                p.strip as u32,
                strip_bytes(width, height, bits) as u32,
                c.format,
                Some(DESCRIPTION_POS),
            ),
            0,
        ),
    ensures
        layout_wf(
            splice(d0 + enc, FIRST_IFD as int, img),
            order,
            width,
            height,
            bits,
            seq![p],
            seq![c],
        ),
{
    let sb = strip_bytes(width, height, bits);
    let d1 = d0 + enc;
    let d2 = splice(d1, FIRST_IFD as int, img);
    lemma_strip_size(c.values, width, height, bits, order);
    lemma_image_sizes(
        order,
        width,
        height,
        bits,
        p.strip as u32,
        sb as u32,
        c.format,
        Some(DESCRIPTION_POS),
        0,
    );
    lemma_splice(d1, FIRST_IFD as int, img);
    assert(holds_at(d1, p.strip as int, enc)) by {
        assert(d1.subrange(p.strip as int, p.strip + enc.len() as int) =~= enc);
    }
    lemma_holds_after_splice(d1, p.strip as int, enc, FIRST_IFD as int, img);
    lemma_holds_after_append(d0, 0, header_image(order, FIRST_IFD as nat), enc);
    lemma_bytes_len(FIRST_IFD as nat, 4, order);
    lemma_bytes_len(42, 2, order);
    lemma_holds_after_splice(d1, 0, header_image(order, FIRST_IFD as nat), FIRST_IFD as int, img);
    assert(seq![p][0] == p);
    assert(seq![c][0] == c);
    assert(next_of(seq![p], 0) == 0);
    assert(frame_laid(d2, order, width, height, bits, seq![p], seq![c], 0));
}

proof fn lemma_link_of(
    data: Seq<u8>,
    order: ByteOrder,
    width: u32,
    height: u32,
    bits: u16,
    ps: Seq<Placement>,
    cs: Seq<FrameData>,
    i: int,
)
    requires
        layout_wf(data, order, width, height, bits, ps, cs),
        0 <= i < cs.len(),
    ensures
        ifd_next(data, order, ps[i].ifd as int) == next_of(ps, i),
        crate::ifd::ifd_fits(data, order, ps[i].ifd as int),
        next_of(ps, i) < data.len(),
        i + 1 < cs.len() ==> next_of(ps, i) > 0,
{
    assert(frame_laid(data, order, width, height, bits, ps, cs, i));
    let sb = strip_bytes(width, height, bits);
    if i + 1 < cs.len() {
        assert(frame_laid(data, order, width, height, bits, ps, cs, i + 1));
        lemma_laid_spans(data, order, width, height, bits, ps, cs, i + 1);
    }
    lemma_read_ifd(
        data,
        order,
        ps[i].ifd as int,
        frame_plans(width, height, bits, ps[i].strip as u32, sb as u32, cs[i].format, desc_of(i)),
        next_of(ps, i),
    );
}

proof fn lemma_nth(
    data: Seq<u8>,
    order: ByteOrder,
    width: u32,
    height: u32,
    bits: u16,
    ps: Seq<Placement>,
    cs: Seq<FrameData>,
    i: nat,
)
    requires
        layout_wf(data, order, width, height, bits, ps, cs),
        i < cs.len(),
        cs.len() >= 1,
        ps[0].ifd == FIRST_IFD,
    ensures
        nth_ifd(data, order, FIRST_IFD as nat, i) == ps[i as int].ifd,
    decreases i,
{
    if i > 0 {
        lemma_nth(data, order, width, height, bits, ps, cs, (i - 1) as nat);
        lemma_link_of(data, order, width, height, bits, ps, cs, i - 1);
    }
}

proof fn lemma_chain(
    data: Seq<u8>,
    order: ByteOrder,
    width: u32,
    height: u32,
    bits: u16,
    ps: Seq<Placement>,
    cs: Seq<FrameData>,
    i: int,
    fuel: nat,
)
    requires
        layout_wf(data, order, width, height, bits, ps, cs),
        0 <= i < cs.len(),
        fuel >= cs.len() - i,
    ensures
        chain_count(data, order, ps[i].ifd as int, fuel) == cs.len() - i,
    decreases cs.len() - i,
{
    lemma_link_of(data, order, width, height, bits, ps, cs, i);
    if i + 1 < cs.len() {
        lemma_chain(data, order, width, height, bits, ps, cs, i + 1, (fuel - 1) as nat);
    }
}

/// Writing the description keeps every frame where it was.
proof fn lemma_describe(
    data: Seq<u8>,
    order: ByteOrder,
    width: u32,
    height: u32,
    bits: u16,
    ps: Seq<Placement>,
    cs: Seq<FrameData>,
    text: Seq<char>,
)
    requires
        layout_wf(data, order, width, height, bits, ps, cs),
        text_fits(text),
    ensures
        layout_wf(
            splice(data, DESCRIPTION_POS as int, description_area(text)),
            order,
            width,
            height,
            bits,
            ps,
            cs,
        ),
        holds_at(
            splice(data, DESCRIPTION_POS as int, description_area(text)),
            DESCRIPTION_POS as int,
            description_area(text),
        ),
{
    let area = description_area(text);
    let q = DESCRIPTION_POS as int;
    let d2 = splice(data, q, area);
    assert(area.len() == DESCRIPTION_AREA);
    lemma_splice(data, q, area);
    assert forall|i: int| 0 <= i < cs.len() implies #[trigger] frame_laid(
        d2,
        order,
        width,
        height,
        bits,
        ps,
        cs,
        i,
    ) by {
        assert(frame_laid(data, order, width, height, bits, ps, cs, i));
        if i == 0 {
            let p = ps[0];
            let c = cs[0];
            let sb = strip_bytes(width, height, bits);
            lemma_laid_spans(data, order, width, height, bits, ps, cs, 0);
            lemma_holds_after_splice(
                data,
                p.strip as int,
                encode_values(c.values, sample_bytes(bits), order),
                q,
                area,
            );
            lemma_holds_after_splice(
                data,
                p.ifd as int,
                ifd_image(
                    order,
                    frame_plans(width, height, bits, p.strip as u32, sb as u32, c.format, desc_of(0)),
                    next_of(ps, 0),
                ),
                q,
                area,
            );
        } else {
            assert(frame_laid(data, order, width, height, bits, ps, cs, 0));
            assert(ps[0].hi <= ps[i].lo);
            lemma_laid_splice(data, q, area, order, width, height, bits, ps, cs, i);
        }
    }
    lemma_bytes_len(FIRST_IFD as nat, 4, order);
    lemma_bytes_len(42, 2, order);
    lemma_holds_after_splice(data, 0, header_image(order, FIRST_IFD as nat), q, area);
}

/// A file laid out by the writer, with its description written, holds its frames.
proof fn lemma_file_holds(
    data: Seq<u8>,
    order: ByteOrder,
    width: u32,
    height: u32,
    bits: u16,
    ps: Seq<Placement>,
    cs: Seq<FrameData>,
    text: Seq<char>,
)
    requires
        layout_wf(data, order, width, height, bits, ps, cs),
        cs.len() >= 1,
        text_fits(text),
        holds_at(data, DESCRIPTION_POS as int, description_area(text)),
    ensures
        file_holds(data, order, width, height, bits, cs, text),
{
    lemma_read_header(data, order, FIRST_IFD as nat);
    assert(frame_laid(data, order, width, height, bits, ps, cs, 0));
    lemma_chain(data, order, width, height, bits, ps, cs, 0, data.len());
    assert forall|i: int| 0 <= i < cs.len() implies #[trigger] frame_in_file(
        data,
        order,
        FIRST_IFD as nat,
        width,
        height,
        bits,
        cs,
        text,
        i,
    ) by {
        let p = ps[i];
        let c = cs[i];
        let sb = strip_bytes(width, height, bits);
        let size = sample_bytes(bits);
        assert(frame_laid(data, order, width, height, bits, ps, cs, i));
        lemma_nth(data, order, width, height, bits, ps, cs, i as nat);
        lemma_link_of(data, order, width, height, bits, ps, cs, i);
        lemma_laid_spans(data, order, width, height, bits, ps, cs, i);
        lemma_read_frame(
            data,
            order,
            p.ifd as int,
            width,
            height,
            bits,
            p.strip as u32,
            sb as u32,
            c.format,
            desc_of(i),
            text_of(text, i),
            next_of(ps, i),
        );
        let f = written_frame(
            width,
            height,
            bits,
            p.strip as u32,
            sb as u32,
            c.format,
            text_of(text, i),
            next_of(ps, i),
        );
        assert(f.bits_per_sample == seq![(8 * size) as u32]);
        assert(f.strip_byte_counts == seq![(size * c.values.len()) as u32]);
        lemma_read_plane(data, order, f, c.values, size);
    }
}

/// What opening writes: the header, then zeros for the stub of the first
/// directory (no entries, no link) and for the description area.
pub open spec fn opened_bytes(order: ByteOrder) -> Seq<u8> {
    header_image(order, FIRST_IFD as nat) + Seq::new(
        (IFD_BYTES + DESCRIPTION_AREA) as nat,
        |k: int| 0u8,
    )
}

/// Opens a file for writing in the given byte order, for frames of
/// `width` by `height` samples of `bits_per_sample` bits each.
pub fn open_with_byte_order(order: ByteOrder, bits_per_sample: u16, width: u32, height: u32) -> (r:
    TinyTiffFile)
    requires
        valid_bits(bits_per_sample),
    ensures
        r.wf(),
        r@.order == order,
        r@.width == width,
        r@.height == height,
        r@.bits_per_sample == bits_per_sample,
        r@.frames.len() == 0,
        r@.data == opened_bytes(order),
        r@.data.len() == DESCRIPTION_POS + DESCRIPTION_AREA,
        holds_at(r@.data, 0, header_image(order, FIRST_IFD as nat)),
{
    let mut data: Vec<u8> = Vec::new();
    push_header(&mut data, order, FIRST_IFD);
    proof {
        lemma_bytes_len(FIRST_IFD as nat, 4, order);
        lemma_bytes_len(42, 2, order);
        assert(data@ =~= header_image(order, FIRST_IFD as nat));
        assert(data@.subrange(0, 8) =~= data@);
    }
    let mut i: usize = 0;
    while i < (IFD_BYTES + DESCRIPTION_AREA) as usize
        invariant
            data@.len() == 8 + i,
            i <= IFD_BYTES + DESCRIPTION_AREA,
            holds_at(data@, 0, header_image(order, FIRST_IFD as nat)),
            data@ =~= header_image(order, FIRST_IFD as nat) + Seq::new(i as nat, |k: int| 0u8),
        decreases (IFD_BYTES + DESCRIPTION_AREA) as usize - i,
    {
        let ghost before = data@;
        data.push(0u8);
        proof {
            lemma_holds_after_append(before, 0, header_image(order, FIRST_IFD as nat), seq![0u8]);
            assert(before.push(0u8) == before + seq![0u8]);
            assert(data@ =~= header_image(order, FIRST_IFD as nat) + Seq::new(
                (i + 1) as nat,
                |k: int| 0u8,
            ));
        }
        i = i + 1;
    }
    assert((width as u64) * (height as u64) <= u64::MAX) by (nonlinear_arith)
        requires
            width <= u32::MAX,
            height <= u32::MAX,
    ;
    let pixels: u64 = (width as u64) * (height as u64);
    let size: u64 = (bits_per_sample / 8) as u64;
    let strip_len: u64 = if pixels > 0xFFFF_FFFF {
        assert(strip_bytes(width, height, bits_per_sample) > 0xFFFF_FFFF) by (nonlinear_arith)
            requires
                pixels == width * height,
                pixels > 0xFFFF_FFFF,
                size >= 1,
                strip_bytes(width, height, bits_per_sample) == size * (width * height),
        ;
        u64::MAX
    } else {
        assert(size * pixels <= 8 * 0xFFFF_FFFF) by (nonlinear_arith)
            requires
                pixels <= 0xFFFF_FFFF,
                size <= 8,
        ;
        size * pixels
    };
    let r = TinyTiffFile {
        data,
        order,
        width,
        height,
        bits_per_sample,
        strip_len,
        frames: 0,
        last_ifd: 0,
        placements: Ghost(Seq::empty()),
        content: Ghost(Seq::empty()),
    };
    r
}

/// Opens a file for writing in little-endian order.
pub fn open(bits_per_sample: u16, width: u32, height: u32) -> (r: TinyTiffFile)
    requires
        valid_bits(bits_per_sample),
    ensures
        r.wf(),
        r@.order == ByteOrder::LittleEndian,
        r@.width == width,
        r@.height == height,
        r@.bits_per_sample == bits_per_sample,
        r@.frames.len() == 0,
        r@.data == opened_bytes(ByteOrder::LittleEndian),
        r@.data.len() == DESCRIPTION_POS + DESCRIPTION_AREA,
        holds_at(r@.data, 0, header_image(ByteOrder::LittleEndian, FIRST_IFD as nat)),
{
    open_with_byte_order(ByteOrder::LittleEndian, bits_per_sample, width, height)
}

/// The longest description, in bytes, that `close` accepts.
pub fn max_description_text_size(tiff: &TinyTiffFile) -> (r: u32)
    ensures
        r == DESCRIPTION_AREA - 1,
{
    DESCRIPTION_AREA - 1
}

/// Whether another frame fits the 32-bit offsets of the file.
pub open spec fn frame_fits(m: WriterModel) -> bool {
    m.data.len() + frame_cost(m) <= 0xFFFF_FFFF
}

/// The bytes that writing a frame adds: its strip, and its directory but
/// for the first frame, whose directory fills the stub.
pub open spec fn frame_cost(m: WriterModel) -> nat {
    strip_bytes(m.width, m.height, m.bits_per_sample) + (if m.frames.len() == 0 {
        0
    } else {
        IFD_BYTES as nat
    })
}

fn write_frame<T: Sample>(tiff: &mut TinyTiffFile, buffer: &Vec<T>, format: u16) -> (r: bool)
    requires
        old(tiff).wf(),
        buffer@.len() == old(tiff)@.width * old(tiff)@.height,
        T::size() == sample_bytes(old(tiff)@.bits_per_sample),
        format == FORMAT_UINT || format == FORMAT_FLOAT,
    ensures
        final(tiff).wf(),
        r == frame_fits(old(tiff)@),
        r ==> final(tiff)@.data.len() == old(tiff)@.data.len() + frame_cost(old(tiff)@),
        r ==> final(tiff)@ == (WriterModel {
            frames: old(tiff)@.frames.push(FrameData { values: values_of(buffer@), format }),
            data: final(tiff)@.data,
            ..old(tiff)@
        }),
        !r ==> final(tiff)@ == old(tiff)@,
{
    let n = tiff.frames;
    let start = tiff.data.len();
    let extra: u64 = if n == 0 {
        0
    } else {
        IFD_BYTES as u64
    };
    if tiff.strip_len > 0xFFFF_FFFF || (start as u64) + tiff.strip_len + extra > 0xFFFF_FFFF {
        return false;
    }
    let ghost d0 = tiff.data@;
    let ghost ps = tiff.placements@;
    let ghost cs = tiff.content@;
    let ghost c = FrameData { values: values_of(buffer@), format };
    proof {
        assert forall|k: int| 0 <= k < c.values.len() implies #[trigger] c.values[k] < pow256(
            sample_bytes(tiff.bits_per_sample),
        ) by {
            T::lemma_sample(buffer@[k]);
        }
    }
    let strip_len = tiff.strip_len as u32;
    push_samples(&mut tiff.data, buffer, tiff.order);
    let ghost enc = encode_values(c.values, T::size(), tiff.order);
    if n == 0 {
        let mut block: Vec<u8> = Vec::new();
        push_ifd(
            &mut block,
            tiff.order,
            tiff.width,
            tiff.height,
            tiff.bits_per_sample,
            start as u32,
            strip_len,
            format,
            Some(DESCRIPTION_POS),
            0,
        );
        let ghost p = Placement {
            ifd: FIRST_IFD as nat,
            strip: start as nat,
            lo: FIRST_IFD as nat,
            hi: (start + strip_len) as nat,
        };
        proof {
            lemma_image_sizes(
                tiff.order,
                tiff.width,
                tiff.height,
                tiff.bits_per_sample,
                start as u32,
                strip_len,
                format,
                Some(DESCRIPTION_POS),
                0,
            );
            lemma_first_frame(
                d0,
                enc,
                block@,
                tiff.order,
                tiff.width,
                tiff.height,
                tiff.bits_per_sample,
                ps,
                cs,
                p,
                c,
            );
        }
        let ghost d1 = tiff.data@;
        set_bytes(&mut tiff.data, FIRST_IFD as usize, &block);
        proof {
            lemma_strip_size(c.values, tiff.width, tiff.height, tiff.bits_per_sample, tiff.order);
            lemma_splice(d1, FIRST_IFD as int, block@);
        }
        tiff.last_ifd = FIRST_IFD as usize;
        let ghost ps1 = seq![p];
        let ghost cs1 = seq![c];
        tiff.placements = Ghost(ps1);
        tiff.content = Ghost(cs1);
        proof {
            assert(ps.push(p) =~= seq![p]);
            assert(cs.push(c) =~= seq![c]);
        }
    } else {
        let ifd = tiff.data.len();
        let ghost d1 = tiff.data@;
        push_ifd(
            &mut tiff.data,
            tiff.order,
            tiff.width,
            tiff.height,
            tiff.bits_per_sample,
            start as u32,
            strip_len,
            format,
            None,
            0,
        );
        let ghost p = Placement {
            ifd: ifd as nat,
            strip: start as nat,
            lo: start as nat,
            hi: (ifd + IFD_BYTES) as nat,
        };
        let ghost img = ifd_image(
            tiff.order,
            frame_plans(
                tiff.width,
                tiff.height,
                tiff.bits_per_sample,
                start as u32,
                strip_len,
                format,
                None,
            ),
            0,
        );
        proof {
            lemma_strip_size(c.values, tiff.width, tiff.height, tiff.bits_per_sample, tiff.order);
            lemma_add_frame(
                d0,
                enc,
                img,
                tiff.order,
                tiff.width,
                tiff.height,
                tiff.bits_per_sample,
                ps,
                cs,
                p,
                c,
            );
            assert(frame_laid(
                d0,
                tiff.order,
                tiff.width,
                tiff.height,
                tiff.bits_per_sample,
                ps,
                cs,
                cs.len() - 1,
            ));
            assert(ps.last() == ps[cs.len() - 1]);
        }
        let ghost d2 = tiff.data@;
        set_uint(&mut tiff.data, tiff.last_ifd + NEXT_FIELD as usize, ifd as u64, 4, tiff.order);
        proof {
            lemma_image_sizes(
                tiff.order,
                tiff.width,
                tiff.height,
                tiff.bits_per_sample,
                start as u32,
                strip_len,
                format,
                None,
                0,
            );
            lemma_bytes_len(ifd as nat, 4, tiff.order);
            lemma_splice(d2, (tiff.last_ifd + NEXT_FIELD) as int, bytes_of(ifd as nat, 4, tiff.order));
        }
        tiff.last_ifd = ifd;
        let ghost ps1 = ps.push(p);
        let ghost cs1 = cs.push(c);
        tiff.placements = Ghost(ps1);
        tiff.content = Ghost(cs1);
    }
    tiff.frames = n + 1;
    true
}

/// Writes one frame of unsigned integer samples, row by row. Returns false,
/// writing nothing, when the frame would not fit the file's 32-bit offsets.
pub fn write_image_void<T: Sample>(tiff: &mut TinyTiffFile, buffer: &Vec<T>) -> (r: bool)
    requires
        old(tiff).wf(),
        buffer@.len() == old(tiff)@.width * old(tiff)@.height,
        T::size() == sample_bytes(old(tiff)@.bits_per_sample),
    ensures
        final(tiff).wf(),
        r == frame_fits(old(tiff)@),
        r ==> final(tiff)@.data.len() == old(tiff)@.data.len() + frame_cost(old(tiff)@),
        r ==> final(tiff)@ == (WriterModel {
            frames: old(tiff)@.frames.push(
                FrameData { values: values_of(buffer@), format: FORMAT_UINT },
            ),
            data: final(tiff)@.data,
            ..old(tiff)@
        }),
        !r ==> final(tiff)@ == old(tiff)@,
{
    write_frame(tiff, buffer, FORMAT_UINT)
}

/// Writes one frame of 32-bit floating-point samples, each given by its
/// IEEE-754 bits.
pub fn write_image_float(tiff: &mut TinyTiffFile, buffer: &Vec<u32>) -> (r: bool)
    requires
        old(tiff).wf(),
        old(tiff)@.bits_per_sample == 32,
        buffer@.len() == old(tiff)@.width * old(tiff)@.height,
    ensures
        final(tiff).wf(),
        r == frame_fits(old(tiff)@),
        r ==> final(tiff)@.data.len() == old(tiff)@.data.len() + frame_cost(old(tiff)@),
        r ==> final(tiff)@ == (WriterModel {
            frames: old(tiff)@.frames.push(
                FrameData { values: values_of(buffer@), format: FORMAT_FLOAT },
            ),
            data: final(tiff)@.data,
            ..old(tiff)@
        }),
        !r ==> final(tiff)@ == old(tiff)@,
{
    write_frame(tiff, buffer, FORMAT_FLOAT)
}

/// Writes one frame of 64-bit floating-point samples, each given by its
/// IEEE-754 bits.
pub fn write_image_double(tiff: &mut TinyTiffFile, buffer: &Vec<u64>) -> (r: bool)
    requires
        old(tiff).wf(),
        old(tiff)@.bits_per_sample == 64,
        buffer@.len() == old(tiff)@.width * old(tiff)@.height,
    ensures
        final(tiff).wf(),
        r == frame_fits(old(tiff)@),
        r ==> final(tiff)@.data.len() == old(tiff)@.data.len() + frame_cost(old(tiff)@),
        r ==> final(tiff)@ == (WriterModel {
            frames: old(tiff)@.frames.push(
                FrameData { values: values_of(buffer@), format: FORMAT_FLOAT },
            ),
            data: final(tiff)@.data,
            ..old(tiff)@
        }),
        !r ==> final(tiff)@ == old(tiff)@,
{
    write_frame(tiff, buffer, FORMAT_FLOAT)
}

/// Writes the description into the first frame and hands back the file;
/// the writer is spent afterwards. A description longer than
/// `max_description_text_size` bytes is refused, and the writer is then
/// left as it was.
pub fn close(tiff: &mut TinyTiffFile, description: &str) -> (r: Result<Vec<u8>, TiffError>)
    requires
        old(tiff).wf(),
        !encode_utf8(description@).contains(0u8),
    ensures
        encode_utf8(description@).len() >= DESCRIPTION_AREA ==> r == Err::<Vec<u8>, TiffError>(
            TiffError::DescriptionTooLong,
        ) && final(tiff)@ == old(tiff)@ && final(tiff).wf(),
        encode_utf8(description@).len() < DESCRIPTION_AREA ==> r is Ok,
        r matches Ok(bytes) ==> bytes@ == splice(
            old(tiff)@.data,
            DESCRIPTION_POS as int,
            description_area(description@),
        ),
        r matches Ok(bytes) ==> old(tiff)@.frames.len() > 0 ==> file_holds(
            bytes@,
            old(tiff)@.order,
            old(tiff)@.width,
            old(tiff)@.height,
            old(tiff)@.bits_per_sample,
            old(tiff)@.frames,
            description@,
        ),
{
    let bytes = description.as_bytes();
    let n = bytes.len();
    if n >= DESCRIPTION_AREA as usize {
        return Err(TiffError::DescriptionTooLong);
    }
    let mut area: Vec<u8> = Vec::new();
    let mut i: usize = 0;
    while i < n
        invariant
            n == bytes@.len(),
            i <= n,
            area@ == bytes@.subrange(0, i as int),
        decreases n - i,
    {
        area.push(bytes[i]);
        assert(area@ =~= bytes@.subrange(0, i + 1));
        i = i + 1;
    }
    while area.len() < DESCRIPTION_AREA as usize
        invariant
            n == bytes@.len(),
            n < DESCRIPTION_AREA,
            area@.len() <= DESCRIPTION_AREA,
            area@.len() >= n,
            area@ =~= bytes@ + Seq::new((area@.len() - n) as nat, |k: int| 0u8),
        decreases DESCRIPTION_AREA - area@.len(),
    {
        area.push(0u8);
    }
    let ghost text = description@;
    let ghost d0 = tiff.data@;
    proof {
        assert(bytes@ == encode_utf8(text));
        assert(area@ =~= description_area(text));
        lemma_describe(
            d0,
            tiff.order,
            tiff.width,
            tiff.height,
            tiff.bits_per_sample,
            tiff.placements@,
            tiff.content@,
            text,
        );
    }
    let mut data: Vec<u8> = Vec::new();
    std::mem::swap(&mut data, &mut tiff.data);
    set_bytes(&mut data, DESCRIPTION_POS as usize, &area);
    proof {
        if tiff.content@.len() > 0 {
            lemma_file_holds(
                data@,
                tiff.order,
                tiff.width,
                tiff.height,
                tiff.bits_per_sample,
                tiff.placements@,
                tiff.content@,
                text,
            );
        }
    }
    Ok(data)
}

} // verus!
