//! The fingerprint extractor: spectrogram framing, banded peak picking and
//! combinatorial pair hashing.
//!
//! A spectrogram is a row-major matrix `Vec<Vec<u32>>`: one row per frame,
//! one entry per frequency bin. Each entry is the bit pattern of a
//! non-negative IEEE-754 single-precision magnitude; for non-negative values
//! the unsigned order of the bit patterns equals the numeric order, so the
//! picker's comparisons are ordinary `u32` comparisons.

use vstd::prelude::*;

verus! {

/// Window size of the short-time Fourier transform, in samples.
pub const WINDOW_SIZE: usize = 4096;

/// Hop between successive frames, in samples (50% overlap).
pub const HOP_SIZE: usize = 2048;

/// Bit pattern of the magnitude 1.0: the absolute noise floor of the peak
/// picker. A bin is only eligible as a peak when its magnitude pattern is
/// strictly above this value.
pub const NOISE_FLOOR_BITS: u32 = 0x3F80_0000;

/// Number of full frames a spectrogram has for a buffer of `n` samples:
/// zero when the buffer is shorter than one window, otherwise
/// `(n - WINDOW_SIZE) / HOP_SIZE`, the final partial frame excluded.
pub open spec fn spec_num_frames(n: nat) -> nat {
    if n < WINDOW_SIZE {
        0
    } else {
        ((n - WINDOW_SIZE) / (HOP_SIZE as int)) as nat
    }
}

/// Number of full frames for a buffer of `n` samples.
pub fn num_frames(n: usize) -> (r: usize)
    ensures
        r == spec_num_frames(n as nat),
{
    if n < WINDOW_SIZE {
        0
    } else {
        (n - WINDOW_SIZE) / HOP_SIZE
    }
}

/// Cuts a sample buffer into the overlapping analysis frames of the
/// spectrogram: frame `t` covers samples `[t * HOP_SIZE, t * HOP_SIZE +
/// WINDOW_SIZE)`. Samples are carried as IEEE-754 bit patterns; this
/// function only slices, so it never interprets them.
pub fn sample_frames(samples: &Vec<u32>) -> (frames: Vec<Vec<u32>>)
    ensures
        frames@.len() == spec_num_frames(samples@.len()),
        forall|t: int|
            0 <= t < frames@.len() ==> #[trigger] frames@[t]@ == samples@.subrange(
                t * (HOP_SIZE as int),
                t * (HOP_SIZE as int) + (WINDOW_SIZE as int),
            ),
{
    let n: usize = samples.len();
    let nf: usize = num_frames(n);
    proof {
        if n >= WINDOW_SIZE {
            assert((nf as int) * (HOP_SIZE as int) <= (n - WINDOW_SIZE) as int) by (nonlinear_arith)
                requires
                    nf == ((n - WINDOW_SIZE) as int) / (HOP_SIZE as int),
                    HOP_SIZE == 2048,
                    n >= WINDOW_SIZE,
            ;
        }
    }
    let mut frames: Vec<Vec<u32>> = Vec::new();
    let mut t: usize = 0;
    while t < nf
        invariant
            t <= nf,
            nf == spec_num_frames(n as nat),
            n == samples@.len(),
            nf * (HOP_SIZE as int) + WINDOW_SIZE <= n || nf == 0,
            frames@.len() == t,
            forall|u: int|
                0 <= u < t ==> #[trigger] frames@[u]@ == samples@.subrange(
                    u * (HOP_SIZE as int),
                    u * (HOP_SIZE as int) + (WINDOW_SIZE as int),
                ),
        decreases nf - t,
    {
        proof {
            assert((t as int) * (HOP_SIZE as int) <= ((nf - 1) as int) * (HOP_SIZE as int))
                by (nonlinear_arith)
                requires
                    0 <= t <= nf - 1,
                    HOP_SIZE == 2048,
            ;
            assert(((nf - 1) as int) * (HOP_SIZE as int) + HOP_SIZE == (nf as int) * (
            HOP_SIZE as int)) by (nonlinear_arith);
        }
        let start: usize = t * HOP_SIZE;
        let mut frame: Vec<u32> = Vec::new();
        let mut i: usize = 0;
        while i < WINDOW_SIZE
            invariant
                i <= WINDOW_SIZE,
                samples@.len() <= usize::MAX,
                start + WINDOW_SIZE <= samples@.len(),
                frame@.len() == i,
                forall|k: int| 0 <= k < i ==> frame@[k] == samples@[start + k],
            decreases WINDOW_SIZE - i,
        {
            frame.push(samples[start + i]);
            i = i + 1;
        }
        proof {
            assert(frame@ =~= samples@.subrange(
                (t as int) * (HOP_SIZE as int),
                (t as int) * (HOP_SIZE as int) + (WINDOW_SIZE as int),
            ));
        }
        frames.push(frame);
        t = t + 1;
    }
    frames
}

/// The views of a sequence of spectrogram rows.
pub open spec fn rows_view(rows: Seq<Vec<u32>>) -> Seq<Seq<u32>> {
    Seq::new(rows.len(), |t: int| rows[t]@)
}

/// Every row has the length of the first: the matrix is rectangular.
pub open spec fn is_rectangular(m: Seq<Seq<u32>>) -> bool {
    forall|t: int| 0 <= t < m.len() ==> (#[trigger] m[t].len()) == m[0].len()
}

/// Left-to-right scan of `row[lo..hi]` that keeps the first strictly
/// greatest value, starting from the running pair `(v0, f0)`.
pub open spec fn scan_max(row: Seq<u32>, lo: int, hi: int, v0: u32, f0: int) -> (u32, int)
    decreases hi - lo,
{
    if lo >= hi {
        (v0, f0)
    } else if row[lo] > v0 {
        scan_max(row, lo + 1, hi, row[lo], lo)
    } else {
        scan_max(row, lo + 1, hi, v0, f0)
    }
}

/// The greatest value in `row[lo..hi]` and the first bin holding it,
/// starting from `(0, 0)`: an empty band, or one with no positive entry,
/// yields `(0, 0)`.
pub open spec fn band_max(row: Seq<u32>, lo: int, hi: int) -> (u32, int) {
    scan_max(row, lo, hi, 0u32, 0)
}

/// No existing neighbour frame within two hops is strictly greater at bin
/// `f` than the candidate value `v`.
pub open spec fn is_local_peak(m: Seq<Seq<u32>>, t: int, f: int, v: u32) -> bool {
    &&& t - 1 >= 0 ==> m[t - 1][f] <= v
    &&& t - 2 >= 0 ==> m[t - 2][f] <= v
    &&& t + 1 < m.len() ==> m[t + 1][f] <= v
    &&& t + 2 < m.len() ==> m[t + 2][f] <= v
}

/// The peaks one band `[lo, hi)` emits over frames `0 .. t_end`, in frame
/// order: per frame, the band maximum, kept when it clears the noise floor
/// and is a temporal local maximum.
pub open spec fn band_peaks(m: Seq<Seq<u32>>, lo: int, hi: int, t_end: int) -> Seq<(usize, usize)>
    decreases t_end,
{
    if t_end <= 0 {
        Seq::empty()
    } else {
        let t = t_end - 1;
        let prev = band_peaks(m, lo, hi, t);
        let vf = band_max(m[t], lo, hi);
        if vf.0 > NOISE_FLOOR_BITS && is_local_peak(m, t, vf.1, vf.0) {
            prev.push((t as usize, vf.1 as usize))
        } else {
            prev
        }
    }
}

/// The smaller of a band edge and the column count.
pub open spec fn clip(edge: int, cols: int) -> int {
    if edge < cols {
        edge
    } else {
        cols
    }
}

/// The constellation map: the concatenation of the four bands' emissions,
/// band by band. Bands are `[0, 50)`, `[50, 200)`, `[200, 500)` and
/// `[500, cols)`, each clipped to the column count.
pub open spec fn spec_find_peaks(m: Seq<Seq<u32>>) -> Seq<(usize, usize)> {
    if m.len() == 0 {
        Seq::empty()
    } else {
        let cols = m[0].len() as int;
        let rows = m.len() as int;
        band_peaks(m, 0, clip(50, cols), rows) + band_peaks(m, 50, clip(200, cols), rows)
            + band_peaks(m, 200, clip(500, cols), rows) + band_peaks(m, 500, cols, rows)
    }
}

proof fn lemma_scan_max_props(row: Seq<u32>, lo: int, hi: int, v0: u32, f0: int)
    requires
        0 <= lo,
        hi <= row.len(),
    ensures
        scan_max(row, lo, hi, v0, f0).0 >= v0,
        scan_max(row, lo, hi, v0, f0) == (v0, f0) || (lo <= scan_max(row, lo, hi, v0, f0).1 < hi
            && row[scan_max(row, lo, hi, v0, f0).1] == scan_max(row, lo, hi, v0, f0).0),
        forall|k: int| lo <= k < hi ==> row[k] <= scan_max(row, lo, hi, v0, f0).0,
    decreases hi - lo,
{
    if lo >= hi {
    } else if row[lo] > v0 {
        lemma_scan_max_props(row, lo + 1, hi, row[lo], lo);
    } else {
        lemma_scan_max_props(row, lo + 1, hi, v0, f0);
    }
}

/// The peaks one clipped band emits. `hi` must already be clipped to the
/// column count.
fn band_scan(m: &Vec<Vec<u32>>, lo: usize, hi: usize) -> (res: Vec<(usize, usize)>)
    requires
        is_rectangular(rows_view(m@)),
        m@.len() > 0 ==> hi <= m@[0]@.len(),
    ensures
        res@ == band_peaks(rows_view(m@), lo as int, hi as int, m@.len() as int),
{
    let rows: usize = m.len();
    let mut res: Vec<(usize, usize)> = Vec::new();
    let mut t: usize = 0;
    while t < rows
        invariant
            t <= rows,
            rows == m@.len(),
            is_rectangular(rows_view(m@)),
            rows > 0 ==> hi <= m@[0]@.len(),
            res@ == band_peaks(rows_view(m@), lo as int, hi as int, t as int),
        decreases rows - t,
    {
        let ghost mat = rows_view(m@);
        let row: &Vec<u32> = &m[t];
        assert(row@ == mat[t as int]);
        let mut mv: u32 = 0;
        let mut mf: usize = 0;
        let mut f: usize = lo;
        if f < hi {
            while f < hi
                invariant
                    lo <= f <= hi,
                    hi <= row@.len(),
                    scan_max(row@, f as int, hi as int, mv, mf as int) == scan_max(
                        row@,
                        lo as int,
                        hi as int,
                        0u32,
                        0,
                    ),
                decreases hi - f,
            {
                if row[f] > mv {
                    mv = row[f];
                    mf = f;
                }
                f = f + 1;
            }
        }
        assert((mv, mf as int) == band_max(mat[t as int], lo as int, hi as int));
        if mv > NOISE_FLOOR_BITS {
            proof {
                lemma_scan_max_props(row@, lo as int, hi as int, 0u32, 0);
            }
            assert(lo <= mf < hi && row@[mf as int] == mv);
            proof {
                if t >= 1 {
                    assert(mat[t as int - 1].len() == mat[0].len());
                }
                if t >= 2 {
                    assert(mat[t as int - 2].len() == mat[0].len());
                }
                if (t as int) + 1 < rows as int {
                    assert(mat[t as int + 1].len() == mat[0].len());
                }
                if (t as int) + 2 < rows as int {
                    assert(mat[t as int + 2].len() == mat[0].len());
                }
            }
            let mut is_peak: bool = true;
            if t >= 1 {
                if m[t - 1][mf] > mv {
                    is_peak = false;
                }
            }
            if is_peak && t >= 2 {
                if m[t - 2][mf] > mv {
                    is_peak = false;
                }
            }
            if is_peak && rows - t > 1 {
                if m[t + 1][mf] > mv {
                    is_peak = false;
                }
            }
            if is_peak && rows - t > 2 {
                if m[t + 2][mf] > mv {
                    is_peak = false;
                }
            }
            assert(is_peak == is_local_peak(mat, t as int, mf as int, mv));
            if is_peak {
                res.push((t, mf));
            }
        }
        t = t + 1;
    }
    res
}

/// The peak picker: the constellation map of a spectrogram, as
/// `spec_find_peaks` describes it.
pub fn find_peaks(spectrogram: &Vec<Vec<u32>>) -> (peaks: Vec<(usize, usize)>)
    requires
        is_rectangular(rows_view(spectrogram@)),
    ensures
        peaks@ == spec_find_peaks(rows_view(spectrogram@)),
{
    let rows: usize = spectrogram.len();
    if rows == 0 {
        let empty: Vec<(usize, usize)> = Vec::new();
        return empty;
    }
    let cols: usize = spectrogram[0].len();
    let mut peaks: Vec<(usize, usize)> = band_scan(spectrogram, 0, if 50 < cols {
        50
    } else {
        cols
    });
    let mut band2: Vec<(usize, usize)> = band_scan(spectrogram, 50, if 200 < cols {
        200
    } else {
        cols
    });
    let mut band3: Vec<(usize, usize)> = band_scan(spectrogram, 200, if 500 < cols {
        500
    } else {
        cols
    });
    let mut band4: Vec<(usize, usize)> = band_scan(spectrogram, 500, cols);
    peaks.append(&mut band2);
    peaks.append(&mut band3);
    peaks.append(&mut band4);
    peaks
}

/// Non-decreasing frame indices.
pub open spec fn sorted_by_time(s: Seq<(usize, usize)>) -> bool {
    forall|i: int, j: int| 0 <= i <= j < s.len() ==> (#[trigger] s[i]).0 <= (#[trigger] s[j]).0
}

/// Stable insertion of `p` into a sequence sorted by frame index: `p` goes
/// after every element whose frame index is at most `p`'s.
pub open spec fn insert_by_time(s: Seq<(usize, usize)>, p: (usize, usize)) -> Seq<(usize, usize)>
    decreases s.len(),
{
    if s.len() == 0 {
        seq![p]
    } else if s.last().0 <= p.0 {
        s.push(p)
    } else {
        insert_by_time(s.drop_last(), p).push(s.last())
    }
}

/// Stable insertion sort by frame index; ties keep their emission order.
pub open spec fn sort_by_time(s: Seq<(usize, usize)>) -> Seq<(usize, usize)>
    decreases s.len(),
{
    if s.len() == 0 {
        Seq::empty()
    } else {
        insert_by_time(sort_by_time(s.drop_last()), s.last())
    }
}

proof fn lemma_insert_by_time_at(s: Seq<(usize, usize)>, p: (usize, usize), k: int)
    requires
        0 <= k <= s.len(),
        k > 0 ==> s[k - 1].0 <= p.0,
        forall|j: int| k <= j < s.len() ==> (#[trigger] s[j]).0 > p.0,
    ensures
        insert_by_time(s, p) == s.insert(k, p),
    decreases s.len(),
{
    if s.len() == 0 {
        assert(insert_by_time(s, p) =~= s.insert(0, p));
    } else if k == s.len() {
        assert(s.last().0 <= p.0);
        assert(insert_by_time(s, p) =~= s.insert(k, p));
    } else {
        assert(s[s.len() - 1].0 > p.0);
        lemma_insert_by_time_at(s.drop_last(), p, k);
        assert(insert_by_time(s.drop_last(), p).push(s.last()) =~= s.insert(k, p));
    }
}

proof fn lemma_insert_by_time_sorted(s: Seq<(usize, usize)>, p: (usize, usize))
    requires
        sorted_by_time(s),
    ensures
        sorted_by_time(insert_by_time(s, p)),
        insert_by_time(s, p).len() == s.len() + 1,
        insert_by_time(s, p).to_multiset() == s.to_multiset().insert(p),
    decreases s.len(),
{
    broadcast use vstd::seq_lib::group_to_multiset_ensures;

    if s.len() == 0 {
        assert(seq![p].drop_last() =~= Seq::<(usize, usize)>::empty());
        assert(seq![p] =~= Seq::<(usize, usize)>::empty().push(p));
    } else if s.last().0 <= p.0 {
    } else {
        assert(sorted_by_time(s.drop_last()));
        lemma_insert_by_time_sorted(s.drop_last(), p);
        let r = insert_by_time(s.drop_last(), p).push(s.last());
        assert forall|i: int, j: int| 0 <= i <= j < r.len() implies (#[trigger] r[i]).0 <= (
        #[trigger] r[j]).0 by {
            let q = insert_by_time(s.drop_last(), p);
            if j < r.len() - 1 {
            } else {
                if i < r.len() - 1 {
                    assert(q[i].0 <= s.last().0) by {
                        if q[i] == p {
                        } else {
                            assert(q.to_multiset().contains(q[i]));
                            if s.drop_last().to_multiset().contains(q[i]) {
                                let w = choose|w: int|
                                    0 <= w < s.drop_last().len() && s.drop_last()[w] == q[i];
                                assert(s[w].0 <= s.last().0);
                            } else {
                                assert(q.to_multiset() == s.drop_last().to_multiset().insert(p));
                                assert(q[i] == p);
                            }
                        }
                    }
                }
            }
        }
        assert(s.drop_last().push(s.last()) =~= s);
        assert(s.drop_last().to_multiset().insert(s.last()) == s.to_multiset());
        assert(r.to_multiset() == s.to_multiset().insert(p));
    }
}

/// The sort of the constellation map is a permutation of it: the multiset
/// of peaks is unchanged, and the result is ordered by frame index.
pub proof fn lemma_sort_by_time_permutes(s: Seq<(usize, usize)>)
    ensures
        sorted_by_time(sort_by_time(s)),
        sort_by_time(s).len() == s.len(),
        sort_by_time(s).to_multiset() == s.to_multiset(),
    decreases s.len(),
{
    broadcast use vstd::seq_lib::group_to_multiset_ensures;

    if s.len() == 0 {
    } else {
        lemma_sort_by_time_permutes(s.drop_last());
        lemma_insert_by_time_sorted(sort_by_time(s.drop_last()), s.last());
        assert(s.drop_last().push(s.last()) =~= s);
        assert(s.drop_last().to_multiset().insert(s.last()) == s.to_multiset());
    }
}

/// Sorts a peak list by frame index with a stable insertion sort, so that
/// anchors precede their targets and ties keep the picker's emission order.
pub fn sort_peaks(peaks: &Vec<(usize, usize)>) -> (r: Vec<(usize, usize)>)
    ensures
        r@ == sort_by_time(peaks@),
        sorted_by_time(r@),
{
    let n: usize = peaks.len();
    let mut out: Vec<(usize, usize)> = Vec::new();
    let mut i: usize = 0;
    while i < n
        invariant
            i <= n,
            n == peaks@.len(),
            out@ == sort_by_time(peaks@.take(i as int)),
            sorted_by_time(out@),
        decreases n - i,
    {
        let p: (usize, usize) = peaks[i];
        let mut k: usize = out.len();
        while k > 0 && out[k - 1].0 > p.0
            invariant
                k <= out@.len(),
                sorted_by_time(out@),
                forall|j: int| k <= j < out@.len() ==> (#[trigger] out@[j]).0 > p.0,
            decreases k,
        {
            k = k - 1;
        }
        proof {
            lemma_insert_by_time_at(out@, p, k as int);
            assert(peaks@.take(i as int + 1).drop_last() =~= peaks@.take(i as int));
            assert(peaks@.take(i as int + 1).last() == peaks@[i as int]);
            lemma_insert_by_time_sorted(out@, p);
        }
        out.insert(k, p);
        i = i + 1;
    }
    proof {
        assert(peaks@.take(n as int) =~= peaks@);
    }
    out
}

/// First frame gap at which a target peak may be paired with an anchor.
pub const TARGET_ZONE_START: usize = 5;

/// Last frame gap at which a target peak may be paired with an anchor.
pub const TARGET_ZONE_END: usize = 50;

/// Largest bin index, exclusive, that fits the 9-bit hash fields: peaks with
/// a higher bin are dropped from hashing.
pub const MAX_HASH_BIN: usize = 512;

/// The 32-bit landmark-pair hash: anchor bin in the top 9 bits, target bin
/// in the next 9, frame gap in the low 14.
pub open spec fn spec_pair_hash(f1: u32, f2: u32, dt: u32) -> u32 {
    (f1 << 23u32) | (f2 << 14u32) | dt
}

/// The hashes anchor `i` emits against targets `j, j + 1, ...`, in target
/// order. Scanning stops at the first target more than `TARGET_ZONE_END`
/// frames ahead; gaps under `TARGET_ZONE_START` are skipped; either bin at
/// or above `MAX_HASH_BIN` drops the pair. Each emitted entry carries the
/// anchor's frame index as its offset.
pub open spec fn anchor_hashes(peaks: Seq<(usize, usize)>, i: int, j: int) -> Seq<(u32, u32)>
    decreases peaks.len() - j,
{
    if j < 0 || j >= peaks.len() {
        Seq::empty()
    } else {
        let dt = peaks[j].0 - peaks[i].0;
        if dt > TARGET_ZONE_END {
            Seq::empty()
        } else {
            let rest = anchor_hashes(peaks, i, j + 1);
            if dt < TARGET_ZONE_START {
                rest
            } else if peaks[i].1 < MAX_HASH_BIN && peaks[j].1 < MAX_HASH_BIN {
                seq![
                    (
                        spec_pair_hash(peaks[i].1 as u32, peaks[j].1 as u32, dt as u32),
                        peaks[i].0 as u32,
                    ),
                ] + rest
            } else {
                rest
            }
        }
    }
}

/// The hashes all anchors from `i` onward emit, anchor by anchor.
pub open spec fn fingerprints_from(peaks: Seq<(usize, usize)>, i: int) -> Seq<(u32, u32)>
    decreases peaks.len() - i,
{
    if i < 0 || i >= peaks.len() {
        Seq::empty()
    } else {
        anchor_hashes(peaks, i, i + 1) + fingerprints_from(peaks, i + 1)
    }
}

/// All landmark-pair hashes of a peak list already sorted by frame index.
pub open spec fn spec_pair_hashes(peaks: Seq<(usize, usize)>) -> Seq<(u32, u32)> {
    fingerprints_from(peaks, 0)
}

/// The whole extractor on a spectrogram: pick peaks, sort them by frame,
/// pair and hash.
pub open spec fn spec_generate_fingerprints(m: Seq<Seq<u32>>) -> Seq<(u32, u32)> {
    spec_pair_hashes(sort_by_time(spec_find_peaks(m)))
}

/// Emits the landmark-pair hashes of a peak list sorted by frame index, as
/// `spec_pair_hashes` describes them: `(hash, offset)` pairs whose offset is
/// the anchor's frame index.
pub fn pair_hashes(peaks: &Vec<(usize, usize)>) -> (fingerprints: Vec<(u32, u32)>)
    requires
        sorted_by_time(peaks@),
    ensures
        fingerprints@ == spec_pair_hashes(peaks@),
{
    let n: usize = peaks.len();
    let mut fingerprints: Vec<(u32, u32)> = Vec::new();
    let mut i: usize = 0;
    while i < n
        invariant
            i <= n,
            n == peaks@.len(),
            sorted_by_time(peaks@),
            fingerprints@ + fingerprints_from(peaks@, i as int) == spec_pair_hashes(peaks@),
        decreases n - i,
    {
        let (t1, f1): (usize, usize) = peaks[i];
        let ghost fp0 = fingerprints@;
        let mut j: usize = i + 1;
        while j < n
            invariant
                i < j <= n,
                n == peaks@.len(),
                sorted_by_time(peaks@),
                (t1, f1) == peaks@[i as int],
                fingerprints@ + anchor_hashes(peaks@, i as int, j as int) == fp0 + anchor_hashes(
                    peaks@,
                    i as int,
                    i as int + 1,
                ),
            ensures
                fingerprints@ == fp0 + anchor_hashes(peaks@, i as int, i as int + 1),
            decreases n - j,
        {
            let (t2, f2): (usize, usize) = peaks[j];
            assert(t1 <= t2);
            let dt: usize = t2 - t1;
            if dt > TARGET_ZONE_END {
                break ;
            }
            if dt >= TARGET_ZONE_START && f1 < MAX_HASH_BIN && f2 < MAX_HASH_BIN {
                let hash: u32 = ((f1 as u32) << 23) | ((f2 as u32) << 14) | (dt as u32);
                let pair: (u32, u32) = (hash, t1 as u32);
                proof {
                    assert(seq![pair] + anchor_hashes(peaks@, i as int, j as int + 1)
                        == anchor_hashes(peaks@, i as int, j as int));
                    assert(fingerprints@.push(pair) + anchor_hashes(peaks@, i as int, j as int + 1)
                        =~= fingerprints@ + (seq![pair] + anchor_hashes(
                        peaks@,
                        i as int,
                        j as int + 1,
                    )));
                }
                fingerprints.push(pair);
            }
            j = j + 1;
        }
        proof {
            assert(fp0 + anchor_hashes(peaks@, i as int, i as int + 1) + fingerprints_from(
                peaks@,
                i as int + 1,
            ) =~= fp0 + (anchor_hashes(peaks@, i as int, i as int + 1) + fingerprints_from(
                peaks@,
                i as int + 1,
            )));
        }
        i = i + 1;
    }
    proof {
        assert(fingerprints@ + Seq::<(u32, u32)>::empty() =~= fingerprints@);
    }
    fingerprints
}

/// The fingerprint extractor on a spectrogram: peaks are picked, sorted by
/// frame index, then paired and hashed within the target zone.
pub fn generate_fingerprints(spectrogram: &Vec<Vec<u32>>) -> (fingerprints: Vec<(u32, u32)>)
    requires
        is_rectangular(rows_view(spectrogram@)),
    ensures
        fingerprints@ == spec_generate_fingerprints(rows_view(spectrogram@)),
{
    let peaks: Vec<(usize, usize)> = find_peaks(spectrogram);
    let sorted: Vec<(usize, usize)> = sort_peaks(&peaks);
    pair_hashes(&sorted)
}

/// What the picker promises of an emitted peak `(t, f)`: the bin exists,
/// its magnitude clears the noise floor, and no frame within two hops is
/// strictly greater at the same bin.
pub open spec fn peak_wf(m: Seq<Seq<u32>>, p: (usize, usize)) -> bool {
    &&& (p.0 as int) < m.len()
    &&& (p.1 as int) < m[p.0 as int].len()
    &&& m[p.0 as int][p.1 as int] > NOISE_FLOOR_BITS
    &&& is_local_peak(m, p.0 as int, p.1 as int, m[p.0 as int][p.1 as int])
}

proof fn lemma_band_peaks_wf(m: Seq<Seq<u32>>, lo: int, hi: int, t_end: int)
    requires
        is_rectangular(m),
        0 <= lo,
        m.len() > 0 ==> hi <= m[0].len(),
        t_end <= m.len(),
        m.len() <= usize::MAX,
        m.len() > 0 ==> m[0].len() <= usize::MAX,
    ensures
        forall|k: int|
            0 <= k < band_peaks(m, lo, hi, t_end).len() ==> peak_wf(
                m,
                #[trigger] band_peaks(m, lo, hi, t_end)[k],
            ),
    decreases t_end,
{
    if t_end <= 0 {
    } else {
        let t = t_end - 1;
        lemma_band_peaks_wf(m, lo, hi, t);
        let prev = band_peaks(m, lo, hi, t);
        let cur = band_peaks(m, lo, hi, t_end);
        let vf = band_max(m[t], lo, hi);
        if vf.0 > NOISE_FLOOR_BITS && is_local_peak(m, t, vf.1, vf.0) {
            assert(m[t].len() == m[0].len());
            lemma_scan_max_props(m[t], lo, hi, 0u32, 0);
            assert(lo <= vf.1 < hi && m[t][vf.1] == vf.0);
            assert(peak_wf(m, (t as usize, vf.1 as usize)));
            assert(cur == prev.push((t as usize, vf.1 as usize)));
            assert forall|k: int| 0 <= k < cur.len() implies peak_wf(m, #[trigger] cur[k]) by {
                if k < prev.len() {
                    assert(cur[k] == prev[k]);
                    assert(peak_wf(m, prev[k]));
                } else {
                    assert(cur[k] == (t as usize, vf.1 as usize));
                }
            }
        } else {
            assert(cur == prev);
            assert forall|k: int| 0 <= k < cur.len() implies peak_wf(m, #[trigger] cur[k]) by {
                assert(cur[k] == prev[k]);
                assert(peak_wf(m, prev[k]));
            }
        }
    }
}

/// Every peak the picker emits is a banded maximum above the noise floor
/// and a temporal local maximum: `m[t][f] > NOISE_FLOOR_BITS`, and
/// `m[t][f] >= m[t +- 1][f]` and `m[t][f] >= m[t +- 2][f]` wherever those
/// frames exist.
pub proof fn lemma_peaks_are_local_maxima(m: Seq<Seq<u32>>)
    requires
        is_rectangular(m),
        m.len() <= usize::MAX,
        m.len() > 0 ==> m[0].len() <= usize::MAX,
    ensures
        forall|k: int|
            0 <= k < spec_find_peaks(m).len() ==> peak_wf(m, #[trigger] spec_find_peaks(m)[k]),
{
    if m.len() == 0 {
    } else {
        let cols = m[0].len() as int;
        let rows = m.len() as int;
        lemma_band_peaks_wf(m, 0, clip(50, cols), rows);
        lemma_band_peaks_wf(m, 50, clip(200, cols), rows);
        lemma_band_peaks_wf(m, 200, clip(500, cols), rows);
        lemma_band_peaks_wf(m, 500, cols, rows);
    }
}

/// After sorting, every peak still satisfies what the picker promised: the
/// sort only permutes the constellation map.
pub proof fn lemma_sorted_peaks_wf(m: Seq<Seq<u32>>)
    requires
        is_rectangular(m),
        m.len() <= usize::MAX,
        m.len() > 0 ==> m[0].len() <= usize::MAX,
    ensures
        forall|k: int|
            0 <= k < sort_by_time(spec_find_peaks(m)).len() ==> peak_wf(
                m,
                #[trigger] sort_by_time(spec_find_peaks(m))[k],
            ),
{
    broadcast use vstd::seq_lib::group_to_multiset_ensures;

    lemma_peaks_are_local_maxima(m);
    lemma_sort_by_time_permutes(spec_find_peaks(m));
    let s = spec_find_peaks(m);
    let r = sort_by_time(s);
    assert forall|k: int| 0 <= k < r.len() implies peak_wf(m, #[trigger] r[k]) by {
        assert(r.to_multiset().contains(r[k]));
        assert(s.to_multiset().contains(r[k]));
        let w = choose|w: int| 0 <= w < s.len() && s[w] == r[k];
        assert(peak_wf(m, s[w]));
    }
}

/// What holds of every emitted hash: its low 14 bits are a frame gap inside
/// the target zone, its two 9-bit bin fields are below `MAX_HASH_BIN`, and
/// packing the unpacked fields gives the hash back.
pub open spec fn hash_wf(h: u32) -> bool {
    &&& TARGET_ZONE_START <= (h & 0x3FFFu32) <= TARGET_ZONE_END
    &&& (h >> 23u32) < MAX_HASH_BIN
    &&& ((h >> 14u32) & 0x1FFu32) < MAX_HASH_BIN
    &&& h == spec_pair_hash(h >> 23u32, (h >> 14u32) & 0x1FFu32, h & 0x3FFFu32)
}

/// The 32-bit layout round-trips: for bins below 512 and a gap fitting 14
/// bits, the three fields of `spec_pair_hash(f1, f2, dt)` unpack to exactly
/// `(f1, f2, dt)`.
pub proof fn lemma_pair_hash_round_trip(f1: u32, f2: u32, dt: u32)
    by (bit_vector)
    requires
        f1 < 512,
        f2 < 512,
        dt < 0x4000,
    ensures
        spec_pair_hash(f1, f2, dt) >> 23u32 == f1,
        (spec_pair_hash(f1, f2, dt) >> 14u32) & 0x1FFu32 == f2,
        spec_pair_hash(f1, f2, dt) & 0x3FFFu32 == dt,
{
}

proof fn lemma_anchor_hashes_wf(peaks: Seq<(usize, usize)>, i: int, j: int)
    ensures
        forall|k: int|
            0 <= k < anchor_hashes(peaks, i, j).len() ==> hash_wf(
                (#[trigger] anchor_hashes(peaks, i, j)[k]).0,
            ),
    decreases peaks.len() - j,
{
    if j < 0 || j >= peaks.len() {
    } else {
        let dt = peaks[j].0 - peaks[i].0;
        if dt > TARGET_ZONE_END {
        } else {
            lemma_anchor_hashes_wf(peaks, i, j + 1);
            let rest = anchor_hashes(peaks, i, j + 1);
            if dt >= TARGET_ZONE_START && peaks[i].1 < MAX_HASH_BIN && peaks[j].1 < MAX_HASH_BIN {
                let f1 = peaks[i].1 as u32;
                let f2 = peaks[j].1 as u32;
                let d = dt as u32;
                lemma_pair_hash_round_trip(f1, f2, d);
                assert(hash_wf(spec_pair_hash(f1, f2, d)));
                let head = (spec_pair_hash(f1, f2, d), peaks[i].0 as u32);
                let whole = seq![head] + rest;
                assert forall|k: int| 0 <= k < whole.len() implies hash_wf(
                    (#[trigger] whole[k]).0,
                ) by {
                    if k > 0 {
                        assert(whole[k] == rest[k - 1]);
                    }
                }
            }
        }
    }
}

/// A buffer shorter than one window has no frames, and an empty
/// spectrogram yields no peaks and no hashes.
pub proof fn lemma_empty_spectrogram_no_hashes(n: nat)
    requires
        n < WINDOW_SIZE,
    ensures
        spec_num_frames(n) == 0,
        spec_find_peaks(Seq::<Seq<u32>>::empty()) == Seq::<(usize, usize)>::empty(),
        spec_generate_fingerprints(Seq::<Seq<u32>>::empty()) == Seq::<(u32, u32)>::empty(),
{
    assert(sort_by_time(spec_find_peaks(Seq::<Seq<u32>>::empty())) == Seq::<
        (usize, usize),
    >::empty());
}

/// Every hash the extractor emits is well-formed: gap within the target
/// zone, bin fields below `MAX_HASH_BIN`, layout round-tripping.
pub proof fn lemma_emitted_hashes_wf(peaks: Seq<(usize, usize)>, i: int)
    ensures
        forall|k: int|
            0 <= k < fingerprints_from(peaks, i).len() ==> hash_wf(
                (#[trigger] fingerprints_from(peaks, i)[k]).0,
            ),
    decreases peaks.len() - i,
{
    if i < 0 || i >= peaks.len() {
    } else {
        lemma_anchor_hashes_wf(peaks, i, i + 1);
        lemma_emitted_hashes_wf(peaks, i + 1);
        let a = anchor_hashes(peaks, i, i + 1);
        let b = fingerprints_from(peaks, i + 1);
        let whole = a + b;
        assert forall|k: int| 0 <= k < whole.len() implies hash_wf((#[trigger] whole[k]).0) by {
            if k < a.len() {
                assert(whole[k] == a[k]);
            } else {
                assert(whole[k] == b[k - a.len()]);
            }
        }
    }
}

} // verus!
