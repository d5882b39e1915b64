//! Division of an image into horizontal bands, one per worker, and the
//! reassembly of the bands' pixels into the whole image.
use vstd::prelude::*;
use vstd::arithmetic::div_mod::{
    lemma_div_is_ordered, lemma_div_by_multiple, lemma_div_plus_one, lemma_fundamental_div_mod,
    lemma_hoist_over_denominator, lemma_mod_bound,
};
use vstd::arithmetic::mul::lemma_mul_inequality;

verus! {

/// The first render-order row of band `slice` when `rows` rows are shared by
/// `workers` workers; band `workers` starts past the last row.
pub open spec fn band_start(rows: nat, workers: nat, slice: nat) -> nat {
    (slice * rows / workers) as nat
}

/// The pixels of image row `j`, left to right, as (column, row) pairs.
pub open spec fn row_pixels(width: nat, j: int) -> Seq<(u32, u32)> {
    Seq::new(width, |i: int| (i as u32, j as u32))
}

/// The pixels of render-order rows `lo..hi`. Render order runs from the top
/// row of the image down, and image rows count from the bottom: render-order
/// row `q` is image row `height - 1 - q`.
pub open spec fn rows_pixels(width: nat, height: nat, lo: nat, hi: nat) -> Seq<(u32, u32)> {
    Seq::new((hi - lo) as nat, |q: int| row_pixels(width, height - 1 - (lo + q))).flatten()
}

/// The pixels of the whole image in render order.
pub open spec fn image_pixels(width: nat, height: nat) -> Seq<(u32, u32)> {
    rows_pixels(width, height, 0, height)
}

/// The pixels that worker `slice` of `workers` renders, in render order.
pub open spec fn band_pixels(width: nat, height: nat, workers: nat, slice: nat) -> Seq<(u32, u32)> {
    rows_pixels(
        width,
        height,
        band_start(height, workers, slice),
        band_start(height, workers, slice + 1),
    )
}

/// Bands start in order, the first at row 0 and the one past the last at the end of the image.
pub proof fn lemma_band_bounds(rows: nat, workers: nat, slice: nat)
    requires
        workers > 0,
        slice < workers,
    ensures
        band_start(rows, workers, 0) == 0,
        band_start(rows, workers, slice) <= band_start(rows, workers, slice + 1),
        band_start(rows, workers, slice + 1) <= rows,
        band_start(rows, workers, workers) == rows,
{
    let (s, n, k) = (slice as int, rows as int, workers as int);
    lemma_mul_inequality(s, s + 1, n);
    lemma_div_is_ordered(s * n, (s + 1) * n, k);
    lemma_mul_inequality(s + 1, k, n);
    lemma_div_is_ordered((s + 1) * n, k * n, k);
    assert(0 * n == 0);
    lemma_div_by_multiple(rows as int, workers as int);
    assert(workers * rows == rows * workers) by (nonlinear_arith);
}

/// Bands are as equal as whole rows allow: each holds `rows / workers` rows
/// or one more.
pub proof fn lemma_bands_even(rows: nat, workers: nat, slice: nat)
    requires
        workers > 0,
        slice < workers,
    ensures
        rows / workers <= band_start(rows, workers, slice + 1) - band_start(rows, workers, slice)
            <= rows / workers + 1,
{
    let (n, k) = (rows as int, workers as int);
    let a = slice * n;
    let q = n / k;
    let r = n % k;
    lemma_fundamental_div_mod(n, k);
    lemma_mod_bound(n, k);
    assert((slice + 1) * n == a + r + q * k) by (nonlinear_arith)
        requires a == slice * n, n == k * q + r;
    lemma_hoist_over_denominator(a + r, q, k as nat);
    lemma_div_is_ordered(a, a + r, k);
    lemma_div_is_ordered(a + r, a + k, k);
    lemma_div_plus_one(a, k);
    assert(a + k == k + a);
    lemma_band_bounds(rows, workers, slice);
}

/// The render-order row where band `slice` of `workers` begins.
pub fn band_start_row(rows: u32, workers: u32, slice: u32) -> (r: u32)
    requires
        workers > 0,
        slice <= workers,
    ensures
        r == band_start(rows as nat, workers as nat, slice as nat),
{
    proof {
        let (s, n, k) = (slice as int, rows as int, workers as int);
        lemma_mul_inequality(s, k, n);
        lemma_mul_inequality(k, u32::MAX as int, n);
        lemma_div_is_ordered(s * n, k * n, k);
        lemma_div_by_multiple(rows as int, workers as int);
        assert(workers * rows == rows * workers) by (nonlinear_arith);
        assert(u32::MAX as int * rows <= u64::MAX) by (nonlinear_arith)
            requires rows <= u32::MAX;
    }
    let p: u64 = slice as u64 * rows as u64;
    (p / workers as u64) as u32
}

/// Splitting a run of rows at a middle row splits its pixels there.
proof fn lemma_rows_split(width: nat, height: nat, lo: nat, mid: nat, hi: nat)
    requires
        lo <= mid <= hi,
    ensures
        rows_pixels(width, height, lo, hi)
            == rows_pixels(width, height, lo, mid) + rows_pixels(width, height, mid, hi),
{
    let whole = Seq::new((hi - lo) as nat, |q: int| row_pixels(width, height - 1 - (lo + q)));
    let a = Seq::new((mid - lo) as nat, |q: int| row_pixels(width, height - 1 - (lo + q)));
    let b = Seq::new((hi - mid) as nat, |q: int| row_pixels(width, height - 1 - (mid + q)));
    assert(whole =~= a + b);
    vstd::seq_lib::lemma_flatten_concat(a, b);
}

/// Extending a run of rows by one row appends that row's pixels.
proof fn lemma_rows_push(width: nat, height: nat, lo: nat, hi: nat)
    requires
        lo <= hi,
    ensures
        rows_pixels(width, height, lo, hi + 1)
            == rows_pixels(width, height, lo, hi) + row_pixels(width, height - 1 - hi),
{
    lemma_rows_split(width, height, lo, hi, hi + 1);
    let one = Seq::new(1, |q: int| row_pixels(width, height - 1 - (hi + q)));
    one.lemma_flatten_one_element();
}

/// The pixels that one worker renders, in render order: the rows of its band
/// from the top down, each row left to right, as (column, row) pairs where
/// rows count from the bottom of the image.
pub fn slice_pixels(width: u32, height: u32, workers: u32, slice: u32) -> (r: Vec<(u32, u32)>)
    requires
        workers > 0,
        slice < workers,
    ensures
        r@ == band_pixels(width as nat, height as nat, workers as nat, slice as nat),
{
    proof {
        lemma_band_bounds(height as nat, workers as nat, slice as nat);
    }
    let lo = band_start_row(height, workers, slice);
    let hi = band_start_row(height, workers, slice + 1);
    let mut out: Vec<(u32, u32)> = Vec::new();
    let mut q: u32 = lo;
    assert(rows_pixels(width as nat, height as nat, lo as nat, lo as nat) =~= Seq::empty());
    while q < hi
        invariant
            lo <= q <= hi <= height,
            out@ == rows_pixels(width as nat, height as nat, lo as nat, q as nat),
        decreases hi - q,
    {
        let j: u32 = height - 1 - q;
        let mut i: u32 = 0;
        while i < width
            invariant
                lo <= q < hi <= height,
                j == height - 1 - q,
                i <= width,
                out@ == rows_pixels(width as nat, height as nat, lo as nat, q as nat)
                    + row_pixels(width as nat, j as int).subrange(0, i as int),
            decreases width - i,
        {
            out.push((i, j));
            i = i + 1;
            assert(out@ =~= rows_pixels(width as nat, height as nat, lo as nat, q as nat)
                + row_pixels(width as nat, j as int).subrange(0, i as int));
        }
        proof {
            lemma_rows_push(width as nat, height as nat, lo as nat, q as nat);
            assert(row_pixels(width as nat, j as int).subrange(0, i as int)
                =~= row_pixels(width as nat, j as int));
        }
        q = q + 1;
    }
    out
}

/// The parts laid end to end, in order.
pub open spec fn concat_views<T>(parts: Seq<Vec<T>>) -> Seq<T> {
    parts.map_values(|v: Vec<T>| v@).flatten()
}

/// Joins the workers' results in band order into the pixels of the whole image.
pub fn assemble<T: Copy>(parts: &Vec<Vec<T>>) -> (r: Vec<T>)
    ensures
        r@ == concat_views(parts@),
{
    let mut out: Vec<T> = Vec::new();
    let mut k: usize = 0;
    while k < parts.len()
        invariant
            k <= parts@.len(),
            out@ == concat_views(parts@.subrange(0, k as int)),
        decreases parts@.len() - k,
    {
        let part = &parts[k];
        let ghost before = out@;
        let mut i: usize = 0;
        while i < part.len()
            invariant
                i <= part@.len(),
                out@ == before + part@.subrange(0, i as int),
            decreases part@.len() - i,
        {
            out.push(part[i]);
            i = i + 1;
            assert(out@ =~= before + part@.subrange(0, i as int));
        }
        proof {
            let done = parts@.subrange(0, k as int).map_values(|v: Vec<T>| v@);
            assert(parts@.subrange(0, k + 1).map_values(|v: Vec<T>| v@) =~= done.push(part@));
            done.lemma_flatten_push(part@);
            assert(part@.subrange(0, i as int) =~= part@);
        }
        k = k + 1;
    }
    assert(parts@.subrange(0, k as int) =~= parts@);
    out
}

/// The first `n` bands, laid end to end, are the rows above the start of band `n`.
proof fn lemma_bands_prefix(width: nat, height: nat, workers: nat, n: nat)
    requires
        workers > 0,
        n <= workers,
    ensures
        Seq::new(n, |s: int| band_pixels(width, height, workers, s as nat)).flatten()
            == rows_pixels(width, height, 0, band_start(height, workers, n)),
    decreases n,
{
    let bands = Seq::new(n, |s: int| band_pixels(width, height, workers, s as nat));
    if n == 0 {
        assert(rows_pixels(width, height, 0, band_start(height, workers, 0)) =~= Seq::empty()) by {
            lemma_band_bounds(height, workers, 0);
        }
    } else {
        let m = (n - 1) as nat;
        lemma_bands_prefix(width, height, workers, m);
        lemma_band_bounds(height, workers, m);
        let before = Seq::new(m, |s: int| band_pixels(width, height, workers, s as nat));
        assert(bands =~= before.push(band_pixels(width, height, workers, m)));
        before.lemma_flatten_push(band_pixels(width, height, workers, m));
        lemma_rows_split(
            width,
            height,
            0,
            band_start(height, workers, m),
            band_start(height, workers, n),
        );
    }
}

/// Applying `f` to every element commutes with laying the parts end to end.
proof fn lemma_flatten_map<A, B>(parts: Seq<Seq<A>>, f: spec_fn(A) -> B)
    ensures
        parts.map_values(|v: Seq<A>| v.map_values(f)).flatten() == parts.flatten().map_values(f),
    decreases parts.len(),
{
    let mapped = parts.map_values(|v: Seq<A>| v.map_values(f));
    if parts.len() == 0 {
        assert(mapped.flatten() =~= parts.flatten().map_values(f));
    } else {
        lemma_flatten_map(parts.drop_first(), f);
        assert(mapped.drop_first() =~= parts.drop_first().map_values(|v: Seq<A>| v.map_values(f)));
        assert((parts.first() + parts.drop_first().flatten()).map_values(f)
            =~= parts.first().map_values(f) + parts.drop_first().flatten().map_values(f));
        assert(mapped.flatten() =~= parts.flatten().map_values(f));
    }
}

/// Rendering each worker's band with the same per-pixel function and joining
/// the bands in band order gives, pixel for pixel, the rendering of the whole
/// image by a single worker, whatever the number of workers.
pub proof fn lemma_bands_reassemble<T>(
    width: nat,
    height: nat,
    workers: nat,
    render: spec_fn((u32, u32)) -> T,
)
    requires
        workers > 0,
    ensures
        Seq::new(workers, |s: int| band_pixels(width, height, workers, s as nat).map_values(render)).flatten()
            == image_pixels(width, height).map_values(render),
{
    let bands = Seq::new(workers, |s: int| band_pixels(width, height, workers, s as nat));
    lemma_bands_prefix(width, height, workers, workers);
    lemma_band_bounds(height, workers, 0);
    lemma_flatten_map(bands, render);
    assert(bands.map_values(|v: Seq<(u32, u32)>| v.map_values(render))
        =~= Seq::new(workers, |s: int| band_pixels(width, height, workers, s as nat).map_values(render)));
}

} // verus!
