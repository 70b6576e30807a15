//! Palette matching: replacing every block's average color with the nearest
//! catalog key, by squared Euclidean distance in integer color space.
//!
//! The catalog is scanned front to back in its fixed entry order, and a
//! strictly smaller distance is needed to displace the current best, so an
//! exact tie resolves to the earlier entry.

use vstd::prelude::*;

use crate::catalog::TileCatalog;
use crate::MosaicError;

verus! {

/// The `i`-th `c`-byte block of a buffer.
pub open spec fn block_of(buf: Seq<u8>, c: int, i: int) -> Seq<u8> {
    buf.subrange(i * c, i * c + c)
}

/// Squared Euclidean distance over the first `c` components.
pub open spec fn sq_dist(a: Seq<u8>, b: Seq<u8>, c: int) -> int
    decreases c,
{
    if c <= 0 {
        0
    } else {
        sq_dist(a, b, c - 1) + (a[c - 1] - b[c - 1]) * (a[c - 1] - b[c - 1])
    }
}

/// The index of the catalog entry nearest to `t` among the first `n`
/// entries, earliest entry winning ties.
pub open spec fn nearest_upto(cat: TileCatalog, t: Seq<u8>, c: int, n: int) -> int
    decreases n,
{
    if n <= 1 {
        0
    } else {
        let p = nearest_upto(cat, t, c, n - 1);
        if sq_dist(cat.entries@[n - 1].key@, t, c) < sq_dist(cat.entries@[p].key@, t, c) {
            n - 1
        } else {
            p
        }
    }
}

/// The catalog key nearest to `t`.
pub open spec fn nearest_key(cat: TileCatalog, t: Seq<u8>, c: int) -> Seq<u8> {
    cat.entries@[nearest_upto(cat, t, c, cat.entries@.len() as int)].key@
}

/// Block `b2` of `out` holds the catalog key nearest to block `b2` of
/// `target`, and that key is present in the catalog.
pub open spec fn matched_block(
    out: Seq<u8>,
    target: Seq<u8>,
    cat: TileCatalog,
    c: int,
    b2: int,
) -> bool {
    block_of(out, c, b2) == nearest_key(cat, block_of(target, c, b2), c) && cat.has_key(
        block_of(out, c, b2),
    )
}

/// The nearest choice is sound: no entry is strictly nearer, and every
/// earlier entry is strictly farther, so ties break to the earliest key.
pub proof fn lemma_nearest_is_minimal(cat: TileCatalog, t: Seq<u8>, c: int, n: int)
    requires
        1 <= n <= cat.entries@.len(),
    ensures
        ({
            let j = nearest_upto(cat, t, c, n);
            &&& 0 <= j < n
            &&& forall|i: int|
                0 <= i < n ==> sq_dist(cat.entries@[j].key@, t, c) <= sq_dist(
                    #[trigger] cat.entries@[i].key@,
                    t,
                    c,
                )
            &&& forall|i: int|
                0 <= i < j ==> sq_dist(#[trigger] cat.entries@[i].key@, t, c) > sq_dist(
                    cat.entries@[j].key@,
                    t,
                    c,
                )
        }),
    decreases n,
{
    if n > 1 {
        lemma_nearest_is_minimal(cat, t, c, n - 1);
    }
}

/// Squared distances over `c` components stay within `[0, 65025 * c]`.
pub proof fn lemma_sq_dist_bounds(a: Seq<u8>, b: Seq<u8>, c: int)
    requires
        c >= 0,
    ensures
        0 <= sq_dist(a, b, c) <= 65025 * c,
    decreases c,
{
    if c > 0 {
        lemma_sq_dist_bounds(a, b, c - 1);
        let d = a[c - 1] - b[c - 1];
        assert(0 <= d * d <= 65025) by (nonlinear_arith)
            requires
                -255 <= d <= 255,
        ;
    }
}

/// Squared Euclidean distance between two colors of `final_color_type`
/// components each.
#[verifier::loop_isolation(false)]
pub fn sq_distance(a: &Vec<u8>, b: &Vec<u8>, final_color_type: u32) -> (d: u32)
    requires
        a@.len() == final_color_type as int,
        b@.len() == final_color_type as int,
        final_color_type as int * 65025 <= u32::MAX as int,
    ensures
        d as int == sq_dist(a@, b@, final_color_type as int),
{
    let ghost cc = final_color_type as int;
    let mut d: u32 = 0;
    let mut k: usize = 0;
    while k < final_color_type as usize
        invariant
            0 <= k as int <= cc,
            d as int == sq_dist(a@, b@, k as int),
        decreases cc - k,
    {
        proof {
            lemma_sq_dist_bounds(a@, b@, k as int);
            let dk = a@[k as int] - b@[k as int];
            assert(0 <= dk * dk <= 65025) by (nonlinear_arith)
                requires
                    -255 <= dk <= 255,
            ;
            assert(65025 * (k as int) + 65025 <= 65025 * cc) by (nonlinear_arith)
                requires
                    (k as int) < cc,
            ;
            assert(65025 * cc == cc * 65025) by (nonlinear_arith);
        }
        let diff: i32 = a[k] as i32 - b[k] as i32;
        d = d + (diff * diff) as u32;
        k = k + 1;
    }
    d
}

/// Copies the `bi`-th `final_color_type`-byte block of a buffer.
#[verifier::loop_isolation(false)]
pub fn copy_block(buf: &Vec<u8>, final_color_type: u32, bi: usize) -> (r: Vec<u8>)
    requires
        final_color_type >= 1,
        (bi as int + 1) * final_color_type as int <= buf@.len(),
    ensures
        r@ == block_of(buf@, final_color_type as int, bi as int),
        r@.len() == final_color_type as int,
{
    let ghost cc = final_color_type as int;
    proof {
        assert((bi as int) * cc + cc == (bi as int + 1) * cc && 0 <= (bi as int) * cc)
            by (nonlinear_arith)
            requires
                bi as int >= 0,
                cc >= 1,
        ;
    }
    let blen: usize = buf.len();
    let mut r: Vec<u8> = Vec::new();
    let mut k: usize = 0;
    let base: usize = bi * (final_color_type as usize);
    while k < final_color_type as usize
        invariant
            0 <= k as int <= cc,
            base as int == bi as int * cc,
            r@.len() == k as int,
            forall|j: int| 0 <= j < k as int ==> r@[j] == buf@[bi as int * cc + j],
        decreases cc - k,
    {
        r.push(buf[base + k]);
        k = k + 1;
    }
    proof {
        assert(r@ =~= block_of(buf@, cc, bi as int));
    }
    r
}

/// Rewrites every block of the target grid to the catalog key nearest to
/// it; fails with `EmptyCatalog` exactly when the catalog has no entry.
#[verifier::loop_isolation(false)]
pub fn apply_source_palette(
    target_color_buffer: Vec<u8>,
    final_color_type: u32,
    source_colors: &TileCatalog,
) -> (r: Result<Vec<u8>, MosaicError>)
    requires
        final_color_type >= 1,
        final_color_type as int * 65025 <= u32::MAX as int,
        target_color_buffer@.len() as int % final_color_type as int == 0,
        source_colors.wf(final_color_type as int),
    ensures
        r is Err <==> source_colors.entries@.len() == 0,
        r is Err ==> r == Err::<Vec<u8>, MosaicError>(MosaicError::EmptyCatalog),
        r matches Ok(out) ==> out@.len() == target_color_buffer@.len() && forall|bi: int|
            0 <= bi < target_color_buffer@.len() as int / final_color_type as int
                ==> #[trigger] matched_block(
                out@,
                target_color_buffer@,
                *source_colors,
                final_color_type as int,
                bi,
            ),
{
    let ghost cc = final_color_type as int;
    let ghost tlen = target_color_buffer@.len() as int;
    let ncat: usize = source_colors.entries.len();
    if ncat == 0 {
        return Err(MosaicError::EmptyCatalog);
    }
    let c: usize = final_color_type as usize;
    let nb: usize = target_color_buffer.len() / c;
    proof {
        vstd::arithmetic::div_mod::lemma_fundamental_div_mod(tlen, cc);
        vstd::arithmetic::mul::lemma_mul_is_commutative(cc, tlen / cc);
        assert(nb as int * cc == tlen);
    }
    let mut out: Vec<u8> = Vec::new();
    let mut bi: usize = 0;
    while bi < nb
        invariant
            0 <= bi <= nb,
            out@.len() == bi as int * cc,
            forall|b2: int|
                0 <= b2 < bi as int ==> #[trigger] matched_block(
                    out@,
                    target_color_buffer@,
                    *source_colors,
                    cc,
                    b2,
                ),
        decreases nb - bi,
    {
        proof {
            assert((bi as int + 1) * cc <= nb as int * cc) by (nonlinear_arith)
                requires
                    (bi as int) < (nb as int),
                    cc >= 1,
            ;
        }
        let tblock = copy_block(&target_color_buffer, final_color_type, bi);
        let mut best: usize = 0;
        let mut best_d: u32 = sq_distance(&source_colors.entries[0].key, &tblock, final_color_type);
        let mut j: usize = 1;
        while j < ncat
            invariant
                1 <= j <= ncat,
                ncat == source_colors.entries@.len(),
                tblock@ == block_of(target_color_buffer@, cc, bi as int),
                tblock@.len() == cc,
                0 <= (best as int) < j as int,
                best as int == nearest_upto(*source_colors, tblock@, cc, j as int),
                best_d as int == sq_dist(source_colors.entries@[best as int].key@, tblock@, cc),
            decreases ncat - j,
        {
            let d: u32 = sq_distance(&source_colors.entries[j].key, &tblock, final_color_type);
            if d < best_d {
                best = j;
                best_d = d;
            }
            j = j + 1;
        }
        let ghost out0 = out@;
        let mut k: usize = 0;
        while k < c
            invariant
                0 <= k as int <= cc,
                best as int == nearest_upto(*source_colors, tblock@, cc, ncat as int),
                (best as int) < ncat as int,
                ncat == source_colors.entries@.len(),
                out@.len() == out0.len() + k as int,
                out0.len() == bi as int * cc,
                forall|idx: int| 0 <= idx < out0.len() ==> out@[idx] == out0[idx],
                forall|j2: int|
                    0 <= j2 < k as int ==> out@[out0.len() + j2] == source_colors.entries@[
                        best as int
                    ].key@[j2],
            decreases cc - k,
        {
            out.push(source_colors.entries[best].key[k]);
            k = k + 1;
        }
        proof {
            assert forall|b2: int| 0 <= b2 < bi as int + 1 implies #[trigger] matched_block(
                out@,
                target_color_buffer@,
                *source_colors,
                cc,
                b2,
            ) by {
                if b2 < bi as int {
                    assert((b2 + 1) * cc <= bi as int * cc && 0 <= b2 * cc && b2 * cc + cc == (b2
                        + 1) * cc) by (nonlinear_arith)
                        requires
                            0 <= b2 < bi as int,
                            cc >= 1,
                    ;
                    assert(matched_block(out0, target_color_buffer@, *source_colors, cc, b2));
                    assert(block_of(out@, cc, b2) =~= block_of(out0, cc, b2));
                } else {
                    assert(block_of(out@, cc, b2) =~= source_colors.entries@[best as int].key@);
                    assert(source_colors.entries@[best as int].key@ == nearest_key(
                        *source_colors,
                        tblock@,
                        cc,
                    ));
                    assert(source_colors.has_key(source_colors.entries@[best as int].key@));
                }
            }
        }
        proof {
            assert((bi as int) * cc + cc == (bi as int + 1) * cc) by (nonlinear_arith);
        }
        bi = bi + 1;
    }
    proof {
        assert(out@.len() == tlen);
        assert(tlen / cc == nb as int);
    }
    Ok(out)
}

} // verus!
