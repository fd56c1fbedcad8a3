//! Luminance histograms of images, the summary that auto-brightness works
//! from: 256 bins of Rec. 601 luma over (a sample of) the pixels.

use vstd::prelude::*;

verus! {

/// The sampling step actually used: `step`, or 1 when it is 0.
pub open spec fn step_of(step: usize) -> int {
    if step == 0 {
        1
    } else {
        step as int
    }
}

/// How many of the positions `0, st, 2*st, ...` lie below `len`.
pub open spec fn samples(len: int, st: int) -> int {
    if len <= 0 {
        0
    } else {
        (len - 1) / st + 1
    }
}

/// Rec. 601 luma of the pixel at `off`, in fixed point, capped at 255.
pub open spec fn luma_bin(data: Seq<u8>, off: int) -> int {
    let l = (299 * data[off] + 587 * data[off + 1] + 114 * data[off + 2] + 500) / 1000;
    if l > 255 {
        255
    } else {
        l
    }
}

/// How many of the first `cols` sampled pixels of the row at `base` fall in
/// bin `b`.
pub open spec fn row_hits(data: Seq<u8>, base: int, n: int, st: int, b: int, cols: int) -> nat
    decreases cols,
{
    if cols <= 0 {
        0
    } else {
        row_hits(data, base, n, st, b, cols - 1) + if luma_bin(data, base + (cols - 1) * st * n) == b {
            1nat
        } else {
            0nat
        }
    }
}

/// Where sampled row `i` starts.
pub open spec fn row_start(i: int, st: int, rowstride: int) -> int {
    (i * st) * rowstride
}

/// How many sampled pixels of the first `rows` sampled rows fall in bin `b`.
pub open spec fn grid_hits(
    data: Seq<u8>,
    rowstride: int,
    width: int,
    n: int,
    st: int,
    b: int,
    rows: int,
) -> nat
    decreases rows,
{
    if rows <= 0 {
        0
    } else {
        grid_hits(data, rowstride, width, n, st, b, rows - 1) + row_hits(
            data,
            row_start(rows - 1, st, rowstride),
            n,
            st,
            b,
            samples(width, st),
        )
    }
}

proof fn lemma_samples(len: int, st: int, j: int)
    requires
        st >= 1,
        len >= 0,
        0 <= j < samples(len, st),
    ensures
        j * st < len,
        samples(len, st) <= len,
{
    assert(j <= (len - 1) / st);
    assert(j * st <= ((len - 1) / st) * st) by (nonlinear_arith)
        requires
            j <= (len - 1) / st,
            st >= 1,
    ;
    assert(((len - 1) / st) * st <= len - 1) by (nonlinear_arith)
        requires
            st >= 1,
            len >= 1,
    ;
    assert((len - 1) / st <= len - 1) by (nonlinear_arith)
        requires
            st >= 1,
            len >= 1,
    ;
}

proof fn lemma_row_hits_bound(data: Seq<u8>, base: int, n: int, st: int, b: int, cols: int)
    ensures
        row_hits(data, base, n, st, b, cols) <= if cols > 0 {
            cols
        } else {
            0
        },
    decreases cols,
{
    if cols > 0 {
        lemma_row_hits_bound(data, base, n, st, b, cols - 1);
    }
}

/// The first `nb` bins of a row's counts, added up.
pub open spec fn row_bins(data: Seq<u8>, base: int, n: int, st: int, cols: int, nb: int) -> nat
    decreases nb,
{
    if nb <= 0 {
        0
    } else {
        row_bins(data, base, n, st, cols, nb - 1) + row_hits(data, base, n, st, nb - 1, cols)
    }
}

/// The first `nb` bins of the histogram, added up.
pub open spec fn bins_total(
    data: Seq<u8>,
    rowstride: int,
    width: int,
    n: int,
    st: int,
    rows: int,
    nb: int,
) -> nat
    decreases nb,
{
    if nb <= 0 {
        0
    } else {
        bins_total(data, rowstride, width, n, st, rows, nb - 1) + grid_hits(
            data,
            rowstride,
            width,
            n,
            st,
            nb - 1,
            rows,
        )
    }
}

/// The first `nb` entries of a histogram, added up.
pub open spec fn hist_total(h: Seq<u64>, nb: int) -> int
    decreases nb,
{
    if nb <= 0 {
        0
    } else {
        hist_total(h, nb - 1) + h[nb - 1]
    }
}

/// How many of the first `nb` bins are `x`.
pub open spec fn bin_ones(x: int, nb: int) -> nat
    decreases nb,
{
    if nb <= 0 {
        0
    } else {
        bin_ones(x, nb - 1) + if x == nb - 1 {
            1nat
        } else {
            0nat
        }
    }
}

proof fn lemma_bin_ones(x: int, nb: int)
    requires
        0 <= x,
    ensures
        bin_ones(x, nb) == if x < nb {
            1nat
        } else {
            0nat
        },
    decreases nb,
{
    if nb > 0 {
        lemma_bin_ones(x, nb - 1);
    }
}

proof fn lemma_row_bins_step(data: Seq<u8>, base: int, n: int, st: int, cols: int, nb: int)
    requires
        cols >= 1,
    ensures
        row_bins(data, base, n, st, cols, nb) == row_bins(data, base, n, st, cols - 1, nb) + bin_ones(
            luma_bin(data, base + (cols - 1) * st * n),
            nb,
        ),
    decreases nb,
{
    if nb > 0 {
        lemma_row_bins_step(data, base, n, st, cols, nb - 1);
    }
}

proof fn lemma_row_bins(data: Seq<u8>, base: int, n: int, st: int, cols: int)
    requires
        cols >= 0,
    ensures
        row_bins(data, base, n, st, cols, 256) == cols,
    decreases cols,
{
    if cols == 0 {
        lemma_row_bins_zero(data, base, n, st, 256);
    } else {
        lemma_row_bins(data, base, n, st, cols - 1);
        lemma_row_bins_step(data, base, n, st, cols, 256);
        let x = luma_bin(data, base + (cols - 1) * st * n);
        assert(0 <= x < 256);
        lemma_bin_ones(x, 256);
    }
}

proof fn lemma_row_bins_zero(data: Seq<u8>, base: int, n: int, st: int, nb: int)
    ensures
        row_bins(data, base, n, st, 0, nb) == 0,
    decreases nb,
{
    if nb > 0 {
        lemma_row_bins_zero(data, base, n, st, nb - 1);
    }
}

proof fn lemma_bins_total_step(
    data: Seq<u8>,
    rowstride: int,
    width: int,
    n: int,
    st: int,
    rows: int,
    nb: int,
)
    requires
        rows >= 1,
    ensures
        bins_total(data, rowstride, width, n, st, rows, nb) == bins_total(
            data,
            rowstride,
            width,
            n,
            st,
            rows - 1,
            nb,
        ) + row_bins(data, row_start(rows - 1, st, rowstride), n, st, samples(width, st), nb),
    decreases nb,
{
    if nb > 0 {
        lemma_bins_total_step(data, rowstride, width, n, st, rows, nb - 1);
    }
}

proof fn lemma_bins_total_zero(data: Seq<u8>, rowstride: int, width: int, n: int, st: int, nb: int)
    ensures
        bins_total(data, rowstride, width, n, st, 0, nb) == 0,
    decreases nb,
{
    if nb > 0 {
        lemma_bins_total_zero(data, rowstride, width, n, st, nb - 1);
    }
}

proof fn lemma_bins_total(data: Seq<u8>, rowstride: int, width: int, n: int, st: int, rows: int)
    requires
        rows >= 0,
        st >= 1,
    ensures
        bins_total(data, rowstride, width, n, st, rows, 256) == rows * samples(width, st),
    decreases rows,
{
    if rows == 0 {
        lemma_bins_total_zero(data, rowstride, width, n, st, 256);
    } else {
        lemma_bins_total(data, rowstride, width, n, st, rows - 1);
        lemma_bins_total_step(data, rowstride, width, n, st, rows, 256);
        let cw = samples(width, st);
        assert(cw >= 0) by (nonlinear_arith)
            requires
                st >= 1,
                cw == samples(width, st),
        ;
        lemma_row_bins(data, row_start(rows - 1, st, rowstride), n, st, cw);
        assert((rows - 1) * cw + cw == rows * cw) by (nonlinear_arith);
    }
}

proof fn lemma_hist_total(
    h: Seq<u64>,
    data: Seq<u8>,
    rowstride: int,
    width: int,
    n: int,
    st: int,
    rows: int,
    nb: int,
)
    requires
        0 <= nb <= h.len(),
        forall|b: int| 0 <= b < nb ==> h[b] == grid_hits(data, rowstride, width, n, st, b, rows),
    ensures
        hist_total(h, nb) == bins_total(data, rowstride, width, n, st, rows, nb),
    decreases nb,
{
    if nb > 0 {
        lemma_hist_total(h, data, rowstride, width, n, st, rows, nb - 1);
    }
}

proof fn lemma_row_hits_shift(data: Seq<u8>, base: int, off: int, n: int, st: int, b: int, cols: int)
    requires
        0 <= base,
        0 <= off <= data.len(),
        n >= 0,
        st >= 1,
        cols >= 0,
        cols > 0 ==> base + off + (cols - 1) * st * n + 3 <= data.len(),
    ensures
        row_hits(data, base + off, n, st, b, cols) == row_hits(data.skip(off), base, n, st, b, cols),
    decreases cols,
{
    if cols > 0 {
        let x = (cols - 1) * st * n;
        assert(x >= 0) by (nonlinear_arith)
            requires
                cols >= 1,
                st >= 1,
                n >= 0,
                x == (cols - 1) * st * n,
        ;
        if cols > 1 {
            assert((cols - 2) * st * n <= x) by (nonlinear_arith)
                requires
                    cols >= 2,
                    st >= 1,
                    n >= 0,
                    x == (cols - 1) * st * n,
            ;
        }
        lemma_row_hits_shift(data, base, off, n, st, b, cols - 1);
        let d = data.skip(off);
        assert(d[base + x] == data[base + off + x]);
        assert(d[base + x + 1] == data[base + off + x + 1]);
        assert(d[base + x + 2] == data[base + off + x + 2]);
        assert(base + off + x == (base + off) + (cols - 1) * st * n);
        assert(luma_bin(data, (base + off) + (cols - 1) * st * n) == luma_bin(d, base + (cols - 1) * st * n));
    }
}

/// A sampled row that lies inside `data` has all its sampled pixels inside.
proof fn lemma_row_fits(base: int, w: int, n: int, st: int, len: int)
    requires
        w > 0,
        n >= 3,
        st >= 1,
        base + w * n <= len,
    ensures
        base + (samples(w, st) - 1) * st * n + 3 <= len,
{
    let c = samples(w, st);
    lemma_samples(w, st, c - 1);
    assert((c - 1) * st * n + 3 <= w * n) by (nonlinear_arith)
        requires
            (c - 1) * st < w,
            n >= 3,
            c >= 1,
            st >= 1,
    ;
}

proof fn lemma_grid_split(data: Seq<u8>, rs: int, w: int, n: int, st: int, b: int, r: int)
    requires
        st >= 1,
        rs >= 0,
        w >= 0,
        w > 0 ==> n >= 3,
        n >= 0,
        r >= 1,
        forall|i: int| 0 <= i < r ==> #[trigger] row_start(i, st, rs) + w * n <= data.len(),
    ensures
        r >= 2 ==> st * rs <= data.len(),
        grid_hits(data, rs, w, n, st, b, r) == row_hits(data, 0, n, st, b, samples(w, st)) + grid_hits(
            data.skip(st * rs),
            rs,
            w,
            n,
            st,
            b,
            r - 1,
        ),
    decreases r,
{
    assert(row_start(0, st, rs) == 0) by (nonlinear_arith)
        requires
            st >= 1,
    ;
    assert(w * n >= 0) by (nonlinear_arith)
        requires
            w >= 0,
            n >= 0,
    ;
    if r >= 2 {
        assert(row_start(1, st, rs) == st * rs);
        assert(row_start(1, st, rs) + w * n <= data.len());
    }
    assert(grid_hits(data, rs, w, n, st, b, 0) == 0);
    assert(grid_hits(data.skip(st * rs), rs, w, n, st, b, 0) == 0);
    if r > 1 {
        lemma_grid_split(data, rs, w, n, st, b, r - 1);
        let base = row_start(r - 2, st, rs);
        let off = st * rs;
        assert(row_start(r - 1, st, rs) == base + off) by (nonlinear_arith)
            requires
                base == ((r - 2) * st) * rs,
                off == st * rs,
        ;
        assert(base >= 0) by (nonlinear_arith)
            requires
                base == ((r - 2) * st) * rs,
                r >= 2,
                st >= 1,
                rs >= 0,
        ;
        assert(row_start(r - 1, st, rs) + w * n <= data.len());
        if w > 0 {
            lemma_row_fits(base + off, w, n, st, data.len() as int);
        }
        let cols = samples(w, st);
        assert(cols >= 0);
        lemma_row_hits_shift(data, base, off, n, st, b, cols);
    }
}

/// Sampled rows are `step` rows apart (step 0 counting as 1): the histogram
/// of an image taller than `step` is the histogram of its first row plus
/// that of the image starting `step` rows further down. `luminance_histogram`
/// returns `grid_hits` for each bin, so this relates three of its calls; an
/// image whose only bright row is row `2 * step` has it counted.
pub proof fn law_histogram_rows_are_step_apart(
    data: Seq<u8>,
    width: usize,
    height: usize,
    rowstride: usize,
    n_channels: usize,
    step: usize,
    b: int,
)
    requires
        height > step_of(step),
        width > 0 ==> n_channels >= 3,
        forall|i: int|
            0 <= i < samples(height as int, step_of(step)) ==> #[trigger] row_start(
                i,
                step_of(step),
                rowstride as int,
            ) + width * n_channels <= data.len(),
    ensures
        step_of(step) * rowstride <= data.len(),
        grid_hits(
            data,
            rowstride as int,
            width as int,
            n_channels as int,
            step_of(step),
            b,
            samples(height as int, step_of(step)),
        ) == grid_hits(
            data,
            rowstride as int,
            width as int,
            n_channels as int,
            step_of(step),
            b,
            samples(1, step_of(step)),
        ) + grid_hits(
            data.skip(step_of(step) * rowstride),
            rowstride as int,
            width as int,
            n_channels as int,
            step_of(step),
            b,
            samples(height - step_of(step), step_of(step)),
        ),
{
    let st = step_of(step);
    let h = height as int;
    let r = samples(h, st);
    assert(samples(1, st) == 1) by (nonlinear_arith)
        requires
            st >= 1,
    ;
    assert((h - 1) / st == (h - st - 1) / st + 1) by (nonlinear_arith)
        requires
            st >= 1,
            h - st - 1 >= 0,
    ;
    assert(samples(h - st, st) == r - 1);
    assert(r >= 2);
    assert(row_start(0, st, rowstride as int) == 0) by (nonlinear_arith)
        requires
            st >= 1,
    ;
    lemma_grid_split(data, rowstride as int, width as int, n_channels as int, st, b, r);
    assert(grid_hits(data, rowstride as int, width as int, n_channels as int, st, b, 0) == 0);
    assert(grid_hits(data, rowstride as int, width as int, n_channels as int, st, b, 1) == row_hits(
        data,
        row_start(0, st, rowstride as int),
        n_channels as int,
        st,
        b,
        samples(width as int, st),
    ));
    assert(row_start(0, st, rowstride as int) == 0);
}

/// Every sampled pixel lands in exactly one bin: the bins of a histogram add
/// up to the number of sampled pixels, sampled rows times sampled pixels
/// per row.
pub proof fn law_histogram_counts_every_sample(
    data: Seq<u8>,
    width: usize,
    height: usize,
    rowstride: usize,
    n_channels: usize,
    step: usize,
)
    ensures
        bins_total(
            data,
            rowstride as int,
            width as int,
            n_channels as int,
            step_of(step),
            samples(height as int, step_of(step)),
            256,
        ) == samples(height as int, step_of(step)) * samples(width as int, step_of(step)),
{
    let st = step_of(step);
    let rows = samples(height as int, st);
    assert(rows >= 0) by (nonlinear_arith)
        requires
            st >= 1,
            rows == samples(height as int, st),
    ;
    lemma_bins_total(data, rowstride as int, width as int, n_channels as int, st, rows);
}

/// Luminance histogram of packed 8-bit RGB(A) pixels: `height` rows of
/// `width` pixels, each `n_channels` bytes, rows `rowstride` bytes apart.
/// `step` samples every n-th row and every n-th pixel of a row to bound the
/// cost on huge images (0 counts as 1).
pub fn luminance_histogram(
    data: &[u8],
    width: usize,
    height: usize,
    rowstride: usize,
    n_channels: usize,
    step: usize,
) -> (hist: [u64; 256])
    requires
        height > 0 ==> n_channels > 0,
        height > 0 && width > 0 ==> n_channels >= 3,
        forall|i: int|
            0 <= i < samples(height as int, step_of(step)) ==> #[trigger] row_start(
                i,
                step_of(step),
                rowstride as int,
            ) + width * n_channels <= data@.len(),
        height * width <= u64::MAX,
    ensures
        forall|b: int|
            0 <= b < 256 ==> hist@[b] == grid_hits(
                data@,
                rowstride as int,
                width as int,
                n_channels as int,
                step_of(step),
                b,
                samples(height as int, step_of(step)),
            ),
        hist_total(hist@, 256) == samples(height as int, step_of(step)) * samples(
            width as int,
            step_of(step),
        ),
{
    let st: usize = if step == 0 {
        1
    } else {
        step
    };
    let ghost stg = step_of(step);
    let ghost n = n_channels as int;
    let cw: usize = if width == 0 {
        0
    } else {
        (width - 1) / st + 1
    };
    let ch: usize = if height == 0 {
        0
    } else {
        (height - 1) / st + 1
    };
    assert(cw == samples(width as int, stg));
    assert(ch == samples(height as int, stg));
    proof {
        if width > 0 {
            lemma_samples(width as int, stg, 0);
        }
        if height > 0 {
            lemma_samples(height as int, stg, 0);
        }
        assert(ch * cw <= height * width) by (nonlinear_arith)
            requires
                ch <= height,
                cw <= width,
        ;
    }
    let dlen = data.len();
    let mut hist = [0u64; 256];
    let mut i: usize = 0;
    while i < ch
        invariant
            i <= ch,
            st == stg,
            stg == step_of(step),
            n == n_channels,
            dlen == data@.len(),
            stg >= 1,
            ch == samples(height as int, stg),
            cw == samples(width as int, stg),
            ch * cw <= u64::MAX,
            cw <= width,
            height > 0 ==> n_channels > 0,
            height > 0 && width > 0 ==> n_channels >= 3,
            forall|q: int|
                0 <= q < samples(height as int, step_of(step)) ==> #[trigger] row_start(
                    q,
                    step_of(step),
                    rowstride as int,
                ) + width * n_channels <= data@.len(),
            forall|b: int|
                0 <= b < 256 ==> hist@[b] == grid_hits(
                    data@,
                    rowstride as int,
                    width as int,
                    n,
                    stg,
                    b,
                    i as int,
                ),
            forall|b: int| 0 <= b < 256 ==> hist@[b] <= i * cw,
        decreases ch - i,
    {
        proof {
            lemma_samples(height as int, stg, i as int);
        }
        assert(row_start(i as int, step_of(step), rowstride as int) + width * n_channels
            <= data@.len());
        let y = i * st;
        assert(y * rowstride == (i * stg) * rowstride);
        let base = y * rowstride;
        let mut j: usize = 0;
        while j < cw
            invariant
                j <= cw,
                i < ch,
                st == stg,
                stg == step_of(step),
                n == n_channels,
                dlen == data@.len(),
                stg >= 1,
                ch == samples(height as int, stg),
                cw == samples(width as int, stg),
                ch * cw <= u64::MAX,
                cw <= width,
                height > 0 && width > 0 ==> n_channels >= 3,
                base == (i * stg) * rowstride,
                base + width * n_channels <= data@.len(),
                forall|b: int|
                    0 <= b < 256 ==> hist@[b] == grid_hits(
                        data@,
                        rowstride as int,
                        width as int,
                        n,
                        stg,
                        b,
                        i as int,
                    ) + row_hits(data@, base as int, n, stg, b, j as int),
                forall|b: int| 0 <= b < 256 ==> hist@[b] <= i * cw + j,
            decreases cw - j,
        {
            proof {
                lemma_samples(width as int, stg, j as int);
                assert((j * stg) * n_channels + n_channels <= width * n_channels) by (nonlinear_arith)
                    requires
                        j * stg < width,
                ;
                assert(i * cw + j < ch * cw) by (nonlinear_arith)
                    requires
                        i < ch,
                        j < cw,
                ;
            }
            let k = j * st;
            assert(k * n_channels == (j * stg) * n_channels);
            let off = base + k * n_channels;
            assert(off == base + (j * stg) * n);
            let l: u32 = (299 * (data[off] as u32) + 587 * (data[off + 1] as u32) + 114 * (
            data[off + 2] as u32) + 500) / 1000;
            let bin: usize = if l > 255 {
                255
            } else {
                l as usize
            };
            assert(bin == luma_bin(data@, off as int));
            assert(base as int + (j + 1 - 1) * stg * n == off) by (nonlinear_arith)
                requires
                    off == base + (j * stg) * n,
            ;
            hist[bin] = hist[bin] + 1;
            j = j + 1;
        }
        proof {
            assert forall|b: int| 0 <= b < 256 implies hist@[b] == grid_hits(
                data@,
                rowstride as int,
                width as int,
                n,
                stg,
                b,
                i + 1,
            ) by {
                assert(row_start(i + 1 - 1, stg, rowstride as int) == base);
            }
            assert(i * cw + cw == (i + 1) * cw) by (nonlinear_arith);
        }
        i = i + 1;
    }
    proof {
        lemma_hist_total(
            hist@,
            data@,
            rowstride as int,
            width as int,
            n_channels as int,
            stg,
            samples(height as int, stg),
            256,
        );
        law_histogram_counts_every_sample(data@, width, height, rowstride, n_channels, step);
    }
    hist
}

} // verus!
