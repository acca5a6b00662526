//! The directories, strips and description area that the writer lays out,
//! and what the parser reads back from them.
use vstd::prelude::*;
use vstd::utf8::{decode_utf8, encode_utf8, valid_utf8, encode_utf8_valid_utf8, encode_utf8_decode_utf8};
use crate::bytes::{
    ByteOrder,
    bytes_of,
    value_of,
    holds_at,
    pow256,
    lemma_bytes_len,
    lemma_value_of_bytes,
    lemma_pow256_values,
    };
use crate::error::TiffError;
use crate::frame::{FrameModel, parse_frame, frame_of};
use crate::strip::{decode_plane, plane_prefix, strip_samples, strips_in_file, samples_in_strip, unit_index};
use crate::ifd::{
    IfdEntry,
    entry_at,
    entry_count,
    ifd_fits,
    ifd_entries,
    ifd_next,
    find_tag,
    find_tag_in,
    tag_first,
    tag_values,
    tag_or,
    entry_values,
    field_size,
    payload_pos,
    ascii_text,
    text_end,
    description_of,
    TYPE_ASCII,
    TYPE_SHORT,
    TYPE_LONG,
    TAG_IMAGE_WIDTH,
    TAG_IMAGE_LENGTH,
    TAG_BITS_PER_SAMPLE,
    TAG_COMPRESSION,
    TAG_IMAGE_DESCRIPTION,
    TAG_STRIP_OFFSETS,
    TAG_SAMPLES_PER_PIXEL,
    TAG_ROWS_PER_STRIP,
    TAG_STRIP_BYTE_COUNTS,
    TAG_PLANAR_CONFIGURATION,
    TAG_SAMPLE_FORMAT,
};

verus! {

/// One directory entry as the writer plans it: SHORT and LONG values are
/// stored in the value field, an ASCII entry points at its payload.
#[derive(Clone, Copy, Debug, PartialEq, Eq, Structural)]
pub struct EntryPlan {
    pub tag: u16,
    pub field_type: u16,
    pub count: u32,
    pub value: u32,
}

pub open spec fn plan_field(order: ByteOrder, p: EntryPlan) -> Seq<u8> {
    if p.field_type == TYPE_SHORT {
        bytes_of(p.value as nat, 2, order) + seq![0u8, 0u8]
    } else {
        bytes_of(p.value as nat, 4, order)
    }
}

pub open spec fn plan_ok(p: EntryPlan) -> bool {
    p.field_type == TYPE_SHORT ==> p.value < 0x1_0000
}

pub open spec fn entry_image(order: ByteOrder, p: EntryPlan) -> Seq<u8> {
    bytes_of(p.tag as nat, 2, order) + bytes_of(p.field_type as nat, 2, order) + bytes_of(
        p.count as nat,
        4,
        order,
    ) + plan_field(order, p)
}

pub open spec fn entries_image(order: ByteOrder, ps: Seq<EntryPlan>) -> Seq<u8>
    decreases ps.len(),
{
    if ps.len() == 0 {
        Seq::empty()
    } else {
        entries_image(order, ps.drop_last()) + entry_image(order, ps.last())
    }
}

/// A whole directory: the count, the entries and the link.
pub open spec fn ifd_image(order: ByteOrder, ps: Seq<EntryPlan>, next: nat) -> Seq<u8> {
    bytes_of(ps.len(), 2, order) + entries_image(order, ps) + bytes_of(next, 4, order)
}

/// The entry the parser reads from a planned one whose value field is at `pos`.
pub open spec fn planned_entry(order: ByteOrder, p: EntryPlan, pos: int) -> IfdEntry {
    IfdEntry {
        tag: p.tag,
        field_type: p.field_type,
        count: p.count,
        value_or_offset: value_of(plan_field(order, p), order) as u32,
        value_pos: pos as usize,
    }
}

/// The samples of a strip, one after the other.
pub open spec fn encode_values(vals: Seq<nat>, size: nat, order: ByteOrder) -> Seq<u8>
    decreases vals.len(),
{
    if vals.len() == 0 {
        Seq::empty()
    } else {
        encode_values(vals.drop_last(), size, order) + bytes_of(vals.last(), size, order)
    }
}

pub proof fn lemma_holds_sub(data: Seq<u8>, pos: int, t: Seq<u8>, a: int, b: int)
    requires
        holds_at(data, pos, t),
        0 <= a <= b <= t.len(),
    ensures
        holds_at(data, pos + a, t.subrange(a, b)),
        data.subrange(pos + a, pos + b) == t.subrange(a, b),
{
    assert(data.subrange(pos + a, pos + b) =~= t.subrange(a, b)) by {
        assert forall|i: int| 0 <= i < b - a implies data.subrange(pos + a, pos + b)[i] == t.subrange(
            a,
            b,
        )[i] by {
            assert(data.subrange(pos, pos + t.len())[a + i] == t[a + i]);
        }
    }
}

pub proof fn lemma_field_len(order: ByteOrder, p: EntryPlan)
    ensures
        plan_field(order, p).len() == 4,
{
    lemma_bytes_len(p.value as nat, 2, order);
    lemma_bytes_len(p.value as nat, 4, order);
}

pub proof fn lemma_plan_field(order: ByteOrder, p: EntryPlan)
    requires
        plan_ok(p),
    ensures
        plan_field(order, p).len() == 4,
        p.field_type == TYPE_SHORT ==> value_of(plan_field(order, p).subrange(0, 2), order)
            == p.value,
        p.field_type != TYPE_SHORT ==> value_of(plan_field(order, p).subrange(0, 4), order)
            == p.value,
{
    lemma_pow256_values();
    lemma_bytes_len(p.value as nat, 2, order);
    lemma_bytes_len(p.value as nat, 4, order);
    if p.field_type == TYPE_SHORT {
        assert(plan_field(order, p).subrange(0, 2) =~= bytes_of(p.value as nat, 2, order));
        lemma_value_of_bytes(p.value as nat, 2, order);
    } else {
        assert(plan_field(order, p).subrange(0, 4) =~= bytes_of(p.value as nat, 4, order));
        lemma_value_of_bytes(p.value as nat, 4, order);
    }
}

pub proof fn lemma_entries_image(order: ByteOrder, ps: Seq<EntryPlan>)
    ensures
        entries_image(order, ps).len() == 12 * ps.len(),
        forall|i: int|
            0 <= i < ps.len() ==> entries_image(order, ps).subrange(12 * i, 12 * i + 12)
                == entry_image(order, #[trigger] ps[i]),
    decreases ps.len(),
{
    if ps.len() > 0 {
        let init = ps.drop_last();
        lemma_entries_image(order, init);
        let p = ps.last();
        lemma_bytes_len(p.tag as nat, 2, order);
        lemma_bytes_len(p.field_type as nat, 2, order);
        lemma_bytes_len(p.count as nat, 4, order);
        lemma_field_len(order, p);
        let all = entries_image(order, ps);
        let front = entries_image(order, init);
        assert forall|i: int| 0 <= i < ps.len() implies all.subrange(12 * i, 12 * i + 12)
            == entry_image(order, #[trigger] ps[i]) by {
            if i < ps.len() - 1 {
                assert(init[i] == ps[i]);
                assert(all.subrange(12 * i, 12 * i + 12) =~= front.subrange(12 * i, 12 * i + 12));
            } else {
                assert(all.subrange(12 * i, 12 * i + 12) =~= entry_image(order, p));
            }
        }
    }
}

/// An entry written from a plan reads back as the planned entry.
pub proof fn lemma_read_entry(data: Seq<u8>, order: ByteOrder, p: EntryPlan, pos: int)
    requires
        holds_at(data, pos, entry_image(order, p)),
    ensures
        entry_at(data, order, pos) == planned_entry(order, p, pos + 8),
        holds_at(data, pos + 8, plan_field(order, p)),
{
    lemma_pow256_values();
    lemma_bytes_len(p.tag as nat, 2, order);
    lemma_bytes_len(p.field_type as nat, 2, order);
    lemma_bytes_len(p.count as nat, 4, order);
    lemma_field_len(order, p);
    lemma_value_of_bytes(p.tag as nat, 2, order);
    lemma_value_of_bytes(p.field_type as nat, 2, order);
    lemma_value_of_bytes(p.count as nat, 4, order);
    let img = entry_image(order, p);
    lemma_holds_sub(data, pos, img, 0, 2);
    lemma_holds_sub(data, pos, img, 2, 4);
    lemma_holds_sub(data, pos, img, 4, 8);
    lemma_holds_sub(data, pos, img, 8, 12);
    assert(img.subrange(0, 2) =~= bytes_of(p.tag as nat, 2, order));
    assert(img.subrange(2, 4) =~= bytes_of(p.field_type as nat, 2, order));
    assert(img.subrange(4, 8) =~= bytes_of(p.count as nat, 4, order));
    assert(img.subrange(8, 12) =~= plan_field(order, p));
}

/// Entry `i` of the directory at `off` is the planned one, and its value
/// field holds what the plan says.
pub open spec fn entry_matches(data: Seq<u8>, order: ByteOrder, off: int, ps: Seq<EntryPlan>, i: int) -> bool {
    ifd_entries(data, order, off)[i] == planned_entry(order, ps[i], off + 2 + 12 * i + 8)
        && holds_at(data, off + 2 + 12 * i + 8, plan_field(order, ps[i]))
}

/// A directory written from plans reads back as the planned entries and link.
pub proof fn lemma_read_ifd(data: Seq<u8>, order: ByteOrder, off: int, ps: Seq<EntryPlan>, next: nat)
    requires
        holds_at(data, off, ifd_image(order, ps, next)),
        data.len() <= 0xFFFF_FFFF,
        ps.len() < 0x1_0000,
        next < 0x1_0000_0000,
    ensures
        ifd_fits(data, order, off),
        entry_count(data, order, off) == ps.len(),
        ifd_next(data, order, off) == next,
        ifd_entries(data, order, off).len() == ps.len(),
        forall|i: int| 0 <= i < ps.len() ==> #[trigger] entry_matches(data, order, off, ps, i),
{
    lemma_pow256_values();
    lemma_entries_image(order, ps);
    lemma_bytes_len(ps.len(), 2, order);
    lemma_bytes_len(next, 4, order);
    lemma_value_of_bytes(ps.len(), 2, order);
    lemma_value_of_bytes(next, 4, order);
    let img = ifd_image(order, ps, next);
    let n = ps.len() as int;
    lemma_holds_sub(data, off, img, 0, 2);
    assert(img.subrange(0, 2) =~= bytes_of(ps.len(), 2, order));
    lemma_holds_sub(data, off, img, 2 + 12 * n, 2 + 12 * n + 4);
    assert(img.subrange(2 + 12 * n, 2 + 12 * n + 4) =~= bytes_of(next, 4, order));
    assert forall|i: int| 0 <= i < ps.len() implies #[trigger] entry_matches(
        data,
        order,
        off,
        ps,
        i,
    ) by {
        lemma_entry_of_ifd(data, order, off, ps, next, i);
    }
}

proof fn lemma_entry_of_ifd(
    data: Seq<u8>,
    order: ByteOrder,
    off: int,
    ps: Seq<EntryPlan>,
    next: nat,
    i: int,
)
    requires
        holds_at(data, off, ifd_image(order, ps, next)),
        entry_count(data, order, off) == ps.len(),
        entries_image(order, ps).len() == 12 * ps.len(),
        0 <= i < ps.len(),
        entries_image(order, ps).subrange(12 * i, 12 * i + 12) == entry_image(order, ps[i]),
    ensures
        ifd_entries(data, order, off)[i] == planned_entry(order, ps[i], off + 2 + 12 * i + 8),
        holds_at(data, off + 2 + 12 * i + 8, plan_field(order, ps[i])),
{
    let img = ifd_image(order, ps, next);
    lemma_bytes_len(ps.len(), 2, order);
    lemma_bytes_len(next, 4, order);
    lemma_holds_sub(data, off, img, 2 + 12 * i, 2 + 12 * i + 12);
    assert(img.subrange(2 + 12 * i, 2 + 12 * i + 12) =~= entries_image(order, ps).subrange(
        12 * i,
        12 * i + 12,
    ));
    lemma_read_entry(data, order, ps[i], off + 2 + 12 * i);
    assert(ifd_entries(data, order, off)[i] == entry_at(data, order, off + 2 + 12 * i));
}

/// A planned SHORT or LONG entry with one value reads back as that value.
pub proof fn lemma_inline_value(data: Seq<u8>, order: ByteOrder, p: EntryPlan, pos: int)
    requires
        holds_at(data, pos, plan_field(order, p)),
        data.len() <= 0xFFFF_FFFF,
        plan_ok(p),
        p.count == 1,
        p.field_type == TYPE_SHORT || p.field_type == TYPE_LONG,
    ensures
        entry_values(data, order, planned_entry(order, p, pos)) == Ok::<Seq<u32>, TiffError>(
            seq![p.value],
        ),
{
    lemma_plan_field(order, p);
    let e = planned_entry(order, p, pos);
    let size = field_size(p.field_type);
    assert(size * p.count == size) by (nonlinear_arith)
        requires
            p.count == 1,
    ;
    assert(payload_pos(e) == pos);
    lemma_holds_sub(data, pos, plan_field(order, p), 0, size as int);
    let r = entry_values(data, order, e);
    assert(r matches Ok(v) && v =~= seq![p.value]);
}

pub proof fn lemma_encode_values(vals: Seq<nat>, size: nat, order: ByteOrder)
    ensures
        encode_values(vals, size, order).len() == size * vals.len(),
        forall|k: int|
            0 <= k < vals.len() ==> encode_values(vals, size, order).subrange(
                size * k,
                size * k + size,
            ) == bytes_of(#[trigger] vals[k], size, order),
    decreases vals.len(),
{
    if vals.len() == 0 {
        assert(size * vals.len() == 0) by (nonlinear_arith)
            requires
                vals.len() == 0,
        ;
    } else {
        let init = vals.drop_last();
        lemma_encode_values(init, size, order);
        lemma_bytes_len(vals.last(), size, order);
        let all = encode_values(vals, size, order);
        let front = encode_values(init, size, order);
        assert(size * vals.len() == size * init.len() + size) by (nonlinear_arith)
            requires
                vals.len() == init.len() + 1,
        ;
        assert forall|k: int| 0 <= k < vals.len() implies all.subrange(size * k, size * k + size)
            == bytes_of(#[trigger] vals[k], size, order) by {
            if k < vals.len() - 1 {
                assert(init[k] == vals[k]);
                assert(size * k + size <= size * init.len()) by (nonlinear_arith)
                    requires
                        k + 1 <= init.len(),
                ;
                assert(all.subrange(size * k, size * k + size) =~= front.subrange(
                    size * k,
                    size * k + size,
                ));
            } else {
                assert(size * k == size * init.len());
                assert(all.subrange(size * k, size * k + size) =~= bytes_of(vals.last(), size, order));
            }
        }
    }
}

/// A frame written with one strip of samples decodes, in plane 0, to those samples.
pub proof fn lemma_read_plane(data: Seq<u8>, order: ByteOrder, f: FrameModel, vals: Seq<nat>, size: nat)
    requires
        1 <= size <= 8,
        f.samples_per_pixel == 1,
        f.planar_configuration == 1,
        f.bits_per_sample == seq![(8 * size) as u32],
        f.strip_offsets.len() == 1,
        f.strip_byte_counts == seq![(size * vals.len()) as u32],
        size * vals.len() < 0x1_0000_0000,
        vals.len() == f.width * f.height,
        holds_at(data, f.strip_offsets[0] as int, encode_values(vals, size, order)),
        forall|k: int| 0 <= k < vals.len() ==> #[trigger] vals[k] < pow256(size),
    ensures
        decode_plane(data, order, f, 0, size) == Ok::<Seq<nat>, TiffError>(vals),
{
    lemma_encode_values(vals, size, order);
    let off = f.strip_offsets[0] as int;
    let n = vals.len();
    assert(strips_in_file(data, f));
    assert((size * n) / size == n) by (nonlinear_arith)
        requires
            size >= 1,
    ;
    let per = samples_in_strip(f.strip_byte_counts[0] as nat, size, 1);
    assert(per == n);
    let strip = strip_samples(data, order, f, 0, size, 0);
    assert forall|k: int| 0 <= k < n implies #[trigger] strip[k] == vals[k] by {
        assert(unit_index(f, per, 0, k) == k);
        assert(size * k + size <= size * n) by (nonlinear_arith)
            requires
                k + 1 <= n,
        ;
        lemma_holds_sub(data, off, encode_values(vals, size, order), size * k, size * k + size);
        lemma_value_of_bytes(vals[k], size, order);
    }
    reveal_with_fuel(plane_prefix, 2);
    assert(plane_prefix(data, order, f, size, 0, 1) =~= strip);
    assert(strip =~= vals);
    assert(vals.take(n as int) =~= vals);
}

/// The bytes reserved for the description, which holds the text and
/// NUL bytes after it.
pub const DESCRIPTION_AREA: u32 = 1024;

/// The description area holding `text`.
pub open spec fn description_area(text: Seq<char>) -> Seq<u8> {
    encode_utf8(text) + Seq::new(
        (DESCRIPTION_AREA - encode_utf8(text).len()) as nat,
        |i: int| 0u8,
    )
}

/// The text fits the area with a NUL after it, and holds no NUL itself.
pub open spec fn text_fits(text: Seq<char>) -> bool {
    encode_utf8(text).len() < DESCRIPTION_AREA && !encode_utf8(text).contains(0u8)
}

/// The entries of a frame's directory, in ascending tag order. The first
/// frame's description entry points at the description area; the others
/// hold an empty text in the value field.
pub open spec fn frame_plans(
    width: u32,
    height: u32,
    bits: u16,
    strip: u32,
    strip_len: u32,
    format: u16,
    desc: Option<u32>,
) -> Seq<EntryPlan> {
    let (desc_count, desc_value) = match desc {
        Some(p) => (DESCRIPTION_AREA, p),
        None => (1u32, 0u32),
    };
    seq![
        EntryPlan { tag: TAG_IMAGE_WIDTH, field_type: TYPE_LONG, count: 1, value: width },
        EntryPlan { tag: TAG_IMAGE_LENGTH, field_type: TYPE_LONG, count: 1, value: height },
        EntryPlan { tag: TAG_BITS_PER_SAMPLE, field_type: TYPE_SHORT, count: 1, value: bits as u32 },
        EntryPlan { tag: TAG_COMPRESSION, field_type: TYPE_SHORT, count: 1, value: 1 },
        EntryPlan {
            tag: TAG_IMAGE_DESCRIPTION,
            field_type: TYPE_ASCII,
            count: desc_count,
            value: desc_value,
        },
        EntryPlan { tag: TAG_STRIP_OFFSETS, field_type: TYPE_LONG, count: 1, value: strip },
        EntryPlan { tag: TAG_SAMPLES_PER_PIXEL, field_type: TYPE_SHORT, count: 1, value: 1 },
        EntryPlan { tag: TAG_ROWS_PER_STRIP, field_type: TYPE_LONG, count: 1, value: height },
        EntryPlan { tag: TAG_STRIP_BYTE_COUNTS, field_type: TYPE_LONG, count: 1, value: strip_len },
        EntryPlan { tag: TAG_PLANAR_CONFIGURATION, field_type: TYPE_SHORT, count: 1, value: 1 },
        EntryPlan { tag: TAG_SAMPLE_FORMAT, field_type: TYPE_SHORT, count: 1, value: format as u32 },
    ]
}

pub const FRAME_ENTRIES: usize = 11;

/// The frame the parser makes of a directory written from `frame_plans`.
pub open spec fn written_frame(
    width: u32,
    height: u32,
    bits: u16,
    strip: u32,
    strip_len: u32,
    format: u16,
    text: Seq<char>,
    next: nat,
) -> FrameModel {
    FrameModel {
        width,
        height,
        bits_per_sample: seq![bits as u32],
        compression: 1,
        rows_per_strip: height,
        strip_offsets: seq![strip],
        strip_byte_counts: seq![strip_len],
        samples_per_pixel: 1,
        planar_configuration: 1,
        sample_format: format as u32,
        description: text,
        next_ifd: next as u32,
    }
}

proof fn lemma_planned_value(data: Seq<u8>, order: ByteOrder, off: int, ps: Seq<EntryPlan>, k: int)
    requires
        0 <= k < ps.len(),
        entry_matches(data, order, off, ps, k),
        data.len() <= 0xFFFF_FFFF,
        plan_ok(ps[k]),
        ps[k].count == 1,
        ps[k].field_type == TYPE_SHORT || ps[k].field_type == TYPE_LONG,
    ensures
        entry_values(data, order, ifd_entries(data, order, off)[k]) == Ok::<Seq<u32>, TiffError>(
            seq![ps[k].value],
        ),
{
    lemma_inline_value(data, order, ps[k], off + 2 + 12 * k + 8);
}

proof fn lemma_text_end(raw: Seq<u8>, b: Seq<u8>, i: int)
    requires
        raw.len() > b.len(),
        raw.subrange(0, b.len() as int) == b,
        raw[b.len() as int] == 0,
        !b.contains(0u8),
        0 <= i <= b.len(),
    ensures
        text_end(raw, i) == b.len(),
    decreases b.len() - i,
{
    if i < b.len() {
        assert(raw.subrange(0, b.len() as int)[i] == raw[i]);
        assert(raw[i] != 0);
        lemma_text_end(raw, b, i + 1);
    }
}

/// The description area reads back as its text.
proof fn lemma_read_description(data: Seq<u8>, p: int, text: Seq<char>)
    requires
        holds_at(data, p, description_area(text)),
        text_fits(text),
    ensures
        data.subrange(p, p + DESCRIPTION_AREA) == description_area(text),
        text_end(description_area(text), 0) == encode_utf8(text).len(),
        description_area(text).subrange(0, encode_utf8(text).len() as int) == encode_utf8(text),
        valid_utf8(encode_utf8(text)),
        decode_utf8(encode_utf8(text)) == text,
{
    let b = encode_utf8(text);
    let raw = description_area(text);
    assert(raw.len() == DESCRIPTION_AREA);
    assert(raw.subrange(0, b.len() as int) =~= b);
    assert(raw[b.len() as int] == 0);
    lemma_text_end(raw, b, 0);
    encode_utf8_valid_utf8(text);
    encode_utf8_decode_utf8(text);
}

proof fn lemma_tags_found(es: Seq<IfdEntry>)
    requires
        es.len() == 11,
        es[0].tag == TAG_IMAGE_WIDTH,
        es[1].tag == TAG_IMAGE_LENGTH,
        es[2].tag == TAG_BITS_PER_SAMPLE,
        es[3].tag == TAG_COMPRESSION,
        es[4].tag == TAG_IMAGE_DESCRIPTION,
        es[5].tag == TAG_STRIP_OFFSETS,
        es[6].tag == TAG_SAMPLES_PER_PIXEL,
        es[7].tag == TAG_ROWS_PER_STRIP,
        es[8].tag == TAG_STRIP_BYTE_COUNTS,
        es[9].tag == TAG_PLANAR_CONFIGURATION,
        es[10].tag == TAG_SAMPLE_FORMAT,
    ensures
        find_tag(es, TAG_IMAGE_WIDTH) == Some(es[0]),
        find_tag(es, TAG_IMAGE_LENGTH) == Some(es[1]),
        find_tag(es, TAG_BITS_PER_SAMPLE) == Some(es[2]),
        find_tag(es, TAG_COMPRESSION) == Some(es[3]),
        find_tag(es, TAG_IMAGE_DESCRIPTION) == Some(es[4]),
        find_tag(es, TAG_STRIP_OFFSETS) == Some(es[5]),
        find_tag(es, TAG_SAMPLES_PER_PIXEL) == Some(es[6]),
        find_tag(es, TAG_ROWS_PER_STRIP) == Some(es[7]),
        find_tag(es, TAG_STRIP_BYTE_COUNTS) == Some(es[8]),
        find_tag(es, TAG_PLANAR_CONFIGURATION) == Some(es[9]),
        find_tag(es, TAG_SAMPLE_FORMAT) == Some(es[10]),
{
    reveal_with_fuel(find_tag_in, 12);
}

/// The entries stand in strictly ascending tag order.
pub open spec fn tags_ascending(es: Seq<IfdEntry>) -> bool {
    forall|i: int| 0 <= i < es.len() - 1 ==> #[trigger] es[i].tag < es[i + 1].tag
}

proof fn lemma_tags_ascending(es: Seq<IfdEntry>)
    requires
        es.len() == 11,
        es[0].tag == TAG_IMAGE_WIDTH,
        es[1].tag == TAG_IMAGE_LENGTH,
        es[2].tag == TAG_BITS_PER_SAMPLE,
        es[3].tag == TAG_COMPRESSION,
        es[4].tag == TAG_IMAGE_DESCRIPTION,
        es[5].tag == TAG_STRIP_OFFSETS,
        es[6].tag == TAG_SAMPLES_PER_PIXEL,
        es[7].tag == TAG_ROWS_PER_STRIP,
        es[8].tag == TAG_STRIP_BYTE_COUNTS,
        es[9].tag == TAG_PLANAR_CONFIGURATION,
        es[10].tag == TAG_SAMPLE_FORMAT,
    ensures
        tags_ascending(es),
{
    assert forall|i: int| 0 <= i < es.len() - 1 implies #[trigger] es[i].tag < es[i + 1].tag by {
        if i == 0 {
        } else if i == 1 {
        } else if i == 2 {
        } else if i == 3 {
        } else if i == 4 {
        } else if i == 5 {
        } else if i == 6 {
        } else if i == 7 {
        } else if i == 8 {
        } else {
            assert(i == 9);
        }
    }
}

proof fn lemma_frame_of(
    data: Seq<u8>,
    order: ByteOrder,
    es: Seq<IfdEntry>,
    width: u32,
    height: u32,
    bits: u16,
    strip: u32,
    strip_len: u32,
    format: u16,
    text: Seq<char>,
    next: nat,
)
    requires
        tag_first(data, order, es, TAG_IMAGE_WIDTH) == Ok::<u32, TiffError>(width),
        tag_first(data, order, es, TAG_IMAGE_LENGTH) == Ok::<u32, TiffError>(height),
        tag_values(data, order, es, TAG_BITS_PER_SAMPLE) == Ok::<Seq<u32>, TiffError>(
            seq![bits as u32],
        ),
        tag_first(data, order, es, TAG_COMPRESSION) == Ok::<u32, TiffError>(1),
        tag_values(data, order, es, TAG_STRIP_OFFSETS) == Ok::<Seq<u32>, TiffError>(seq![strip]),
        tag_first(data, order, es, TAG_SAMPLES_PER_PIXEL) == Ok::<u32, TiffError>(1),
        tag_first(data, order, es, TAG_ROWS_PER_STRIP) == Ok::<u32, TiffError>(height),
        tag_values(data, order, es, TAG_STRIP_BYTE_COUNTS) == Ok::<Seq<u32>, TiffError>(
            seq![strip_len],
        ),
        tag_or(data, order, es, TAG_PLANAR_CONFIGURATION, 1) == Ok::<u32, TiffError>(1),
        description_of(data, es) == Ok::<Seq<char>, TiffError>(text),
        tag_or(data, order, es, TAG_SAMPLE_FORMAT, 1) == Ok::<u32, TiffError>(format as u32),
    ensures
        frame_of(data, order, es, next as u32) == Ok::<FrameModel, TiffError>(
            written_frame(width, height, bits, strip, strip_len, format, text, next),
        ),
{
}

/// The entries of a directory written from `frame_plans`, with their values.
#[verifier::rlimit(60)]
proof fn lemma_frame_entries(
    data: Seq<u8>,
    order: ByteOrder,
    off: int,
    ps: Seq<EntryPlan>,
    next: nat,
)
    requires
        data.len() <= 0xFFFF_FFFF,
        holds_at(data, off, ifd_image(order, ps, next)),
        next < 0x1_0000_0000,
        ps.len() == 11,
        ps[0].tag == TAG_IMAGE_WIDTH && ps[0].field_type == TYPE_LONG && ps[0].count == 1,
        ps[1].tag == TAG_IMAGE_LENGTH && ps[1].field_type == TYPE_LONG && ps[1].count == 1,
        ps[2].tag == TAG_BITS_PER_SAMPLE && ps[2].field_type == TYPE_SHORT && ps[2].count == 1
            && ps[2].value < 0x1_0000,
        ps[3].tag == TAG_COMPRESSION && ps[3].field_type == TYPE_SHORT && ps[3].count == 1
            && ps[3].value == 1,
        ps[4].tag == TAG_IMAGE_DESCRIPTION,
        ps[5].tag == TAG_STRIP_OFFSETS && ps[5].field_type == TYPE_LONG && ps[5].count == 1,
        ps[6].tag == TAG_SAMPLES_PER_PIXEL && ps[6].field_type == TYPE_SHORT && ps[6].count == 1
            && ps[6].value == 1,
        ps[7].tag == TAG_ROWS_PER_STRIP && ps[7].field_type == TYPE_LONG && ps[7].count == 1,
        ps[8].tag == TAG_STRIP_BYTE_COUNTS && ps[8].field_type == TYPE_LONG && ps[8].count == 1,
        ps[9].tag == TAG_PLANAR_CONFIGURATION && ps[9].field_type == TYPE_SHORT && ps[9].count
            == 1 && ps[9].value == 1,
        ps[10].tag == TAG_SAMPLE_FORMAT && ps[10].field_type == TYPE_SHORT && ps[10].count == 1
            && ps[10].value < 0x1_0000,
    ensures
        ifd_fits(data, order, off),
        ifd_next(data, order, off) == next,
        tags_ascending(ifd_entries(data, order, off)),
        ({
            let es = ifd_entries(data, order, off);
            &&& es.len() == 11
            &&& tag_first(data, order, es, TAG_IMAGE_WIDTH) == Ok::<u32, TiffError>(ps[0].value)
            &&& tag_first(data, order, es, TAG_IMAGE_LENGTH) == Ok::<u32, TiffError>(ps[1].value)
            &&& tag_values(data, order, es, TAG_BITS_PER_SAMPLE) == Ok::<Seq<u32>, TiffError>(
                seq![ps[2].value],
            )
            &&& tag_first(data, order, es, TAG_COMPRESSION) == Ok::<u32, TiffError>(1)
            &&& find_tag(es, TAG_IMAGE_DESCRIPTION) == Some(
                planned_entry(order, ps[4], off + 2 + 12 * 4 + 8),
            )
            &&& holds_at(data, off + 2 + 12 * 4 + 8, plan_field(order, ps[4]))
            &&& tag_values(data, order, es, TAG_STRIP_OFFSETS) == Ok::<Seq<u32>, TiffError>(
                seq![ps[5].value],
            )
            &&& tag_first(data, order, es, TAG_SAMPLES_PER_PIXEL) == Ok::<u32, TiffError>(1)
            &&& tag_first(data, order, es, TAG_ROWS_PER_STRIP) == Ok::<u32, TiffError>(ps[7].value)
            &&& tag_values(data, order, es, TAG_STRIP_BYTE_COUNTS) == Ok::<Seq<u32>, TiffError>(
                seq![ps[8].value],
            )
            &&& tag_or(data, order, es, TAG_PLANAR_CONFIGURATION, 1) == Ok::<u32, TiffError>(1)
            &&& tag_or(data, order, es, TAG_SAMPLE_FORMAT, 1) == Ok::<u32, TiffError>(
                ps[10].value,
            )
        }),
{
    lemma_read_ifd(data, order, off, ps, next);
    let es = ifd_entries(data, order, off);
    assert(entry_matches(data, order, off, ps, 0));
    assert(entry_matches(data, order, off, ps, 1));
    assert(entry_matches(data, order, off, ps, 2));
    assert(entry_matches(data, order, off, ps, 3));
    assert(entry_matches(data, order, off, ps, 4));
    assert(entry_matches(data, order, off, ps, 5));
    assert(entry_matches(data, order, off, ps, 6));
    assert(entry_matches(data, order, off, ps, 7));
    assert(entry_matches(data, order, off, ps, 8));
    assert(entry_matches(data, order, off, ps, 9));
    assert(entry_matches(data, order, off, ps, 10));
    lemma_tags_found(es);
    lemma_tags_ascending(es);
    lemma_planned_value(data, order, off, ps, 0);
    lemma_planned_value(data, order, off, ps, 1);
    lemma_planned_value(data, order, off, ps, 2);
    lemma_planned_value(data, order, off, ps, 3);
    lemma_planned_value(data, order, off, ps, 5);
    lemma_planned_value(data, order, off, ps, 6);
    lemma_planned_value(data, order, off, ps, 7);
    lemma_planned_value(data, order, off, ps, 8);
    lemma_planned_value(data, order, off, ps, 9);
    lemma_planned_value(data, order, off, ps, 10);
}

/// A directory written from `frame_plans` parses as `written_frame`.
pub proof fn lemma_read_frame(
    data: Seq<u8>,
    order: ByteOrder,
    off: int,
    width: u32,
    height: u32,
    bits: u16,
    strip: u32,
    strip_len: u32,
    format: u16,
    desc: Option<u32>,
    text: Seq<char>,
    next: nat,
)
    requires
        data.len() <= 0xFFFF_FFFF,
        holds_at(
            data,
            off,
            ifd_image(order, frame_plans(width, height, bits, strip, strip_len, format, desc), next),
        ),
        next < 0x1_0000_0000,
        desc matches Some(p) ==> holds_at(data, p as int, description_area(text)) && text_fits(text),
        desc is None ==> text == Seq::<char>::empty(),
    ensures
        parse_frame(data, order, off) == Ok::<FrameModel, TiffError>(
            written_frame(width, height, bits, strip, strip_len, format, text, next),
        ),
        tags_ascending(ifd_entries(data, order, off)),
{
    let ps = frame_plans(width, height, bits, strip, strip_len, format, desc);
    lemma_frame_entries(data, order, off, ps, next);
    let es = ifd_entries(data, order, off);
    let e4 = planned_entry(order, ps[4], off + 2 + 12 * 4 + 8);
    lemma_pow256_values();
    match desc {
        Some(p) => {
            lemma_value_of_bytes(p as nat, 4, order);
            lemma_read_description(data, p as int, text);
            assert(ascii_text(data, e4) == Ok::<Seq<u8>, TiffError>(encode_utf8(text)));
        },
        None => {
            let f = plan_field(order, ps[4]);
            lemma_bytes_len(0, 4, order);
            lemma_holds_sub(data, off + 2 + 12 * 4 + 8, f, 0, 1);
            assert(f[0] == 0) by {
                reveal_with_fuel(crate::bytes::le_bytes, 5);
                reveal_with_fuel(crate::bytes::be_bytes, 5);
            }
            let raw = data.subrange(off + 2 + 12 * 4 + 8, off + 2 + 12 * 4 + 8 + 1);
            assert(raw[0] == 0);
            assert(text_end(raw, 0) == 0);
            assert(raw.subrange(0, 0) =~= Seq::<u8>::empty());
            assert(ascii_text(data, e4) == Ok::<Seq<u8>, TiffError>(Seq::empty()));
            assert(valid_utf8(Seq::<u8>::empty()));
            assert(decode_utf8(Seq::<u8>::empty()) =~= Seq::<char>::empty());
        },
    }
    assert(description_of(data, es) == Ok::<Seq<char>, TiffError>(text));
    lemma_frame_of(
        data,
        order,
        es,
        width,
        height,
        bits,
        strip,
        strip_len,
        format,
        text,
        next,
    );
}

} // verus!
