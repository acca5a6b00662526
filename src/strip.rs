//! Turning the strips of a frame into the samples of one plane.
use vstd::prelude::*;
use crate::bytes::{ByteOrder, uint_at, read_uint, lemma_value_bound};
use crate::error::TiffError;
use crate::frame::FrameModel;
use crate::sample::{Sample, values_of};

verus! {

/// The directory's own consistency: what the parser requires before it
/// accepts a frame.
pub open spec fn frame_wf(f: FrameModel) -> bool {
    f.samples_per_pixel >= 1 && f.bits_per_sample.len() == f.samples_per_pixel
        && f.strip_offsets.len() == f.strip_byte_counts.len() && (f.planar_configuration == 1
        || f.planar_configuration == 2)
}

/// How many samples of one plane a strip of `cnt` bytes holds.
pub open spec fn samples_in_strip(cnt: nat, size: nat, spp: nat) -> nat {
    (cnt / size) / spp
}

/// The index, in units of one sample, of the `k`-th sample of plane
/// `sample` within a strip: interleaved pixel by pixel in the chunky
/// layout, one run per plane in the planar layout.
pub open spec fn unit_index(f: FrameModel, per: nat, sample: nat, k: int) -> int {
    if f.planar_configuration == 1 {
        k * f.samples_per_pixel + sample
    } else {
        sample * per + k
    }
}

/// The samples of plane `sample` in strip `i`.
pub open spec fn strip_samples(
    data: Seq<u8>,
    order: ByteOrder,
    f: FrameModel,
    i: int,
    size: nat,
    sample: nat,
) -> Seq<nat> {
    let off = f.strip_offsets[i] as int;
    let per = samples_in_strip(f.strip_byte_counts[i] as nat, size, f.samples_per_pixel as nat);
    Seq::new(per, |k: int| uint_at(data, off + size * unit_index(f, per, sample, k), size, order))
}

/// The samples of plane `sample` in the first `n` strips, in order.
pub open spec fn plane_prefix(
    data: Seq<u8>,
    order: ByteOrder,
    f: FrameModel,
    size: nat,
    sample: nat,
    n: nat,
) -> Seq<nat>
    decreases n,
{
    if n == 0 {
        Seq::empty()
    } else {
        plane_prefix(data, order, f, size, sample, (n - 1) as nat) + strip_samples(
            data,
            order,
            f,
            n - 1,
            size,
            sample,
        )
    }
}

pub open spec fn strips_in_file(data: Seq<u8>, f: FrameModel) -> bool {
    forall|i: int|
        0 <= i < f.strip_offsets.len() ==> f.strip_offsets[i] + f.strip_byte_counts[i] <= data.len()
}

/// The `width * height` samples of plane `sample`, each of `size` bytes.
pub open spec fn decode_plane(
    data: Seq<u8>,
    order: ByteOrder,
    f: FrameModel,
    sample: nat,
    size: nat,
) -> Result<Seq<nat>, TiffError> {
    if sample >= f.samples_per_pixel || f.bits_per_sample[sample as int] != 8 * size {
        Err(TiffError::InvalidSampleRequest)
    } else if !strips_in_file(data, f) {
        Err(TiffError::TruncatedFile)
    } else {
        let all = plane_prefix(data, order, f, size, sample, f.strip_offsets.len());
        let n = f.width * f.height;
        if all.len() < n {
            Err(TiffError::MalformedIfdEntry)
        } else {
            Ok(all.take(n as int))
        }
    }
}

proof fn lemma_unit_in_strip(cnt: nat, size: nat, spp: nat, idx: nat)
    requires
        size >= 1,
        spp >= 1,
        idx < samples_in_strip(cnt, size, spp) * spp,
    ensures
        size * idx + size <= cnt,
{
    let units = cnt / size;
    assert(samples_in_strip(cnt, size, spp) * spp <= units) by (nonlinear_arith)
        requires
            spp >= 1,
            samples_in_strip(cnt, size, spp) == units / spp,
    ;
    assert(size * units <= cnt) by (nonlinear_arith)
        requires
            size >= 1,
            units == cnt / size,
    ;
    assert(size * idx + size <= size * units) by (nonlinear_arith)
        requires
            idx + 1 <= units,
    ;
}

/// Decodes plane `sample` of a well-formed frame into samples of type `T`.
pub fn read_plane<T: Sample>(
    data: &Vec<u8>,
    order: ByteOrder,
    width: u32,
    height: u32,
    bits: &Vec<u32>,
    spp: u32,
    planar: u32,
    offsets: &Vec<u32>,
    counts: &Vec<u32>,
    sample: usize,
    Ghost(f): Ghost<FrameModel>,
) -> (r: Result<Vec<T>, TiffError>)
    requires
        frame_wf(f),
        f.width == width,
        f.height == height,
        f.bits_per_sample == bits@,
        f.samples_per_pixel == spp,
        f.planar_configuration == planar,
        f.strip_offsets == offsets@,
        f.strip_byte_counts == counts@,
    ensures
        match r {
            Ok(v) => decode_plane(data@, order, f, sample as nat, T::size()) == Ok::<
                Seq<nat>,
                TiffError,
            >(values_of(v@)),
            Err(e) => decode_plane(data@, order, f, sample as nat, T::size()) == Err::<
                Seq<nat>,
                TiffError,
            >(e),
        },
{
    let size = T::byte_size();
    proof {
        T::lemma_size();
    }
    if sample >= spp as usize || bits[sample] as u64 != 8 * (size as u64) {
        return Err(TiffError::InvalidSampleRequest);
    }
    let n_strips = offsets.len();
    let mut j: usize = 0;
    while j < n_strips
        invariant
            n_strips == offsets@.len(),
            offsets@.len() == counts@.len(),
            f.strip_offsets == offsets@,
            f.strip_byte_counts == counts@,
            sample < spp,
            f.samples_per_pixel == spp,
            f.bits_per_sample[sample as int] == 8 * T::size(),
            j <= n_strips,
            forall|i: int|
                0 <= i < j ==> offsets@[i] + counts@[i] <= data@.len(),
        decreases n_strips - j,
    {
        if offsets[j] as usize > data.len() || data.len() - (offsets[j] as usize)
            < counts[j] as usize {
            assert(!(f.strip_offsets[j as int] + f.strip_byte_counts[j as int] <= data@.len()));
            return Err(TiffError::TruncatedFile);
        }
        j = j + 1;
    }
    let dlen = data.len();
    let mut out: Vec<T> = Vec::new();
    let mut i: usize = 0;
    while i < n_strips
        invariant
            dlen == data@.len(),
            frame_wf(f),
            1 <= size <= 8,
            size == T::size(),
            sample < spp,
            f.samples_per_pixel == spp,
            f.planar_configuration == planar,
            f.strip_offsets == offsets@,
            f.strip_byte_counts == counts@,
            n_strips == offsets@.len(),
            strips_in_file(data@, f),
            i <= n_strips,
            values_of(out@) =~= plane_prefix(data@, order, f, size as nat, sample as nat, i as nat),
        decreases n_strips - i,
    {
        let off = offsets[i] as usize;
        let cnt = counts[i] as usize;
        let per = cnt / size / (spp as usize);
        let ghost before = values_of(out@);
        let ghost want = strip_samples(data@, order, f, i as int, size as nat, sample as nat);
        assert(want.len() == per);
        let mut k: usize = 0;
        while k < per
            invariant
                dlen == data@.len(),
                1 <= size <= 8,
                size == T::size(),
                sample < spp,
                spp >= 1,
                f.samples_per_pixel == spp,
                f.planar_configuration == planar,
                off == f.strip_offsets[i as int],
                cnt == f.strip_byte_counts[i as int],
                off + cnt <= data@.len(),
                per == samples_in_strip(cnt as nat, size as nat, spp as nat),
                want == strip_samples(data@, order, f, i as int, size as nat, sample as nat),
                0 <= i < f.strip_offsets.len(),
                k <= per,
                values_of(out@) =~= before + want.take(k as int),
            decreases per - k,
        {
            let ghost idx = unit_index(f, per as nat, sample as nat, k as int);
            assert(0 <= idx < per * spp) by (nonlinear_arith)
                requires
                    idx == (if planar == 1 {
                        k * spp + sample
                    } else {
                        sample * per + k
                    }),
                    k < per,
                    sample < spp,
            ;
            proof {
                lemma_unit_in_strip(cnt as nat, size as nat, spp as nat, idx as nat);
            }
            let unit: usize = if planar == 1 {
                assert(k * (spp as usize) + sample < cnt) by (nonlinear_arith)
                    requires
                        idx == k * spp + sample,
                        size * idx + size <= cnt,
                        size >= 1,
                ;
                k * (spp as usize) + sample
            } else {
                assert(sample * per + k < cnt) by (nonlinear_arith)
                    requires
                        idx == sample * per + k,
                        size * idx + size <= cnt,
                        size >= 1,
                ;
                sample * per + k
            };
            assert(unit == idx);
            let v = read_uint(data, off + size * unit, size, order);
            proof {
                lemma_value_bound(data@.subrange(off + size * unit, off + size * unit + size), order);
            }
            let x = T::from_uint(v);
            assert(want[k as int] == v);
            let ghost old_out = out@;
            out.push(x);
            proof {
                assert(values_of(out@) =~= values_of(old_out).push(x.value()));
                assert(before + want.take(k + 1) =~= (before + want.take(k as int)).push(
                    want[k as int],
                ));
            }
            k = k + 1;
        }
        assert(want.take(per as int) =~= want);
        i = i + 1;
    }
    assert((width as u64) * (height as u64) <= u64::MAX) by (nonlinear_arith)
        requires
            width <= u32::MAX,
            height <= u32::MAX,
    ;
    let total: u64 = (width as u64) * (height as u64);
    assert(total == f.width * f.height);
    assert(plane_prefix(data@, order, f, size as nat, sample as nat, n_strips as nat)
        == plane_prefix(data@, order, f, size as nat, sample as nat, f.strip_offsets.len()));
    if (out.len() as u64) < total {
        return Err(TiffError::MalformedIfdEntry);
    }
    let ghost full = out@;
    out.truncate(total as usize);
    assert(values_of(out@) =~= values_of(full).take(total as int));
    Ok(out)
}

} // verus!
