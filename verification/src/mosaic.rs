//! Mosaic composition: expanding a matched block grid back into a
//! full-resolution image by substituting each block's tile, scanline by
//! scanline.
//!
//! The output is raster-scan ordered: for every output row, the matching
//! row of every tile in that block row is emitted before any tile's next
//! row, rather than concatenating whole tiles block by block.

use vstd::prelude::*;

use crate::catalog::TileCatalog;
use crate::palette::block_of;
use crate::pixel::{cell_idx, lemma_cell_idx_lt, lemma_radix_bound};

verus! {

/// Byte position of channel `k` of output pixel `(xx, rr)` in a mosaic
/// `tw * ts` pixels wide.
pub open spec fn out_pos(tw: int, ts: int, c: int, rr: int, xx: int, k: int) -> int {
    (rr * (tw * ts) + xx) * c + k
}

/// Byte position inside a tile of channel `k` of the tile pixel that
/// output pixel `(xx, rr)` maps onto.
pub open spec fn tile_pos(ts: int, c: int, rr: int, xx: int, k: int) -> int {
    ((rr % ts) * ts + xx % ts) * c + k
}

/// The grid block that output pixel `(xx, rr)` belongs to.
pub open spec fn block_index_of(tw: int, ts: int, rr: int, xx: int) -> int {
    (rr / ts) * tw + xx / ts
}

/// `out` is the finished mosaic of the matched grid `matched`: every output
/// byte is the corresponding byte of the tile stored under the key of the
/// block its pixel falls in.
pub open spec fn mosaic_built(
    out: Seq<u8>,
    matched: Seq<u8>,
    cat: TileCatalog,
    tw: int,
    th: int,
    ts: int,
    c: int,
) -> bool {
    out.len() == ((th * ts) * (tw * ts)) * c && forall|rr: int, xx: int, k: int|
        0 <= rr < th * ts && 0 <= xx < tw * ts && 0 <= k < c ==> out[#[trigger] out_pos(
            tw,
            ts,
            c,
            rr,
            xx,
            k,
        )] == cat.tile_for(block_of(matched, c, block_index_of(tw, ts, rr, xx)))[tile_pos(
            ts,
            c,
            rr,
            xx,
            k,
        )]
}

/// Expands the matched grid into the full-resolution mosaic buffer.  Every
/// block key must be present in the catalog (palette matching guarantees
/// this) and every stored tile must hold `ts * ts` pixels.
#[verifier::loop_isolation(false)]
pub fn construct_mosaic(
    target_color_buffer: Vec<u8>,
    source_chunk_dimensions: u32,
    target_width: u32,
    target_height: u32,
    final_color_type: u32,
    source_colors: &TileCatalog,
) -> (final_buffer: Vec<u8>)
    requires
        final_color_type >= 1,
        source_chunk_dimensions >= 1,
        target_color_buffer@.len() == (target_height as int * target_width as int)
            * final_color_type as int,
        source_colors.wf(final_color_type as int),
        forall|bi: int|
            0 <= bi < target_height as int * target_width as int ==> source_colors.has_key(
                #[trigger] block_of(target_color_buffer@, final_color_type as int, bi),
            ) && source_colors.tile_for(
                block_of(target_color_buffer@, final_color_type as int, bi),
            ).len() == (source_chunk_dimensions as int * source_chunk_dimensions as int)
                * final_color_type as int,
        ((target_height as int * source_chunk_dimensions as int) * (target_width as int
            * source_chunk_dimensions as int)) * final_color_type as int <= usize::MAX as int,
    ensures
        final_buffer@.len() == ((target_height as int * source_chunk_dimensions as int) * (
        target_width as int * source_chunk_dimensions as int)) * final_color_type as int,
        mosaic_built(
            final_buffer@,
            target_color_buffer@,
            *source_colors,
            target_width as int,
            target_height as int,
            source_chunk_dimensions as int,
            final_color_type as int,
        ),
{
    let ghost tw = target_width as int;
    let ghost th = target_height as int;
    let ghost ts = source_chunk_dimensions as int;
    let ghost cc = final_color_type as int;
    let ghost row_px = tw * ts;
    let tlen: usize = target_color_buffer.len();
    let mut final_buffer: Vec<u8> = Vec::new();
    proof {
        assert(out_pos(tw, ts, cc, 0, 0, 0) == 0) by (nonlinear_arith);
    }
    let mut rb: usize = 0;
    while rb < target_height as usize
        invariant
            0 <= rb as int <= th,
            final_buffer@.len() == out_pos(tw, ts, cc, rb as int * ts, 0, 0),
            forall|rr: int, xx: int, k2: int|
                0 <= rr < th * ts && 0 <= xx < row_px && 0 <= k2 < cc && rr < rb as int * ts
                    ==> final_buffer@[#[trigger] out_pos(tw, ts, cc, rr, xx, k2)]
                    == source_colors.tile_for(
                    block_of(target_color_buffer@, cc, block_index_of(tw, ts, rr, xx)),
                )[tile_pos(ts, cc, rr, xx, k2)],
        decreases th - rb,
    {
        let mut sl: usize = 0;
        while sl < source_chunk_dimensions as usize
            invariant
                0 <= sl as int <= ts,
                (rb as int) < th,
                final_buffer@.len() == out_pos(tw, ts, cc, rb as int * ts + sl as int, 0, 0),
                forall|rr: int, xx: int, k2: int|
                    0 <= rr < th * ts && 0 <= xx < row_px && 0 <= k2 < cc && rr < rb as int * ts
                        + sl as int ==> final_buffer@[#[trigger] out_pos(tw, ts, cc, rr, xx, k2)]
                        == source_colors.tile_for(
                        block_of(target_color_buffer@, cc, block_index_of(tw, ts, rr, xx)),
                    )[tile_pos(ts, cc, rr, xx, k2)],
            decreases ts - sl,
        {
            let ghost rr_now = rb as int * ts + sl as int;
            let mut col: usize = 0;
            while col < target_width as usize
                invariant
                    0 <= col as int <= tw,
                    (rb as int) < th,
                    (sl as int) < ts,
                    rr_now == rb as int * ts + sl as int,
                    final_buffer@.len() == out_pos(tw, ts, cc, rr_now, col as int * ts, 0),
                    forall|rr: int, xx: int, k2: int|
                        0 <= rr < th * ts && 0 <= xx < row_px && 0 <= k2 < cc && (rr < rr_now || (rr
                            == rr_now && xx < col as int * ts)) ==> final_buffer@[#[trigger] out_pos(
                            tw,
                            ts,
                            cc,
                            rr,
                            xx,
                            k2,
                        )] == source_colors.tile_for(
                            block_of(target_color_buffer@, cc, block_index_of(tw, ts, rr, xx)),
                        )[tile_pos(ts, cc, rr, xx, k2)],
                decreases tw - col,
            {
                proof {
                    lemma_radix_bound(tw, rb as int, col as int, th);
                    assert((rb as int * tw + col as int) + 1 <= th * tw && (rb as int * tw
                        + col as int + 1) * cc <= (th * tw) * cc && th * tw <= (th * tw) * cc)
                        by (nonlinear_arith)
                        requires
                            0 <= rb as int * tw + (col as int) && rb as int * tw + (col as int) < th * tw,
                            cc >= 1,
                    ;
                }
                let bi: usize = rb * (target_width as usize) + col;
                let key = crate::palette::copy_block(&target_color_buffer, final_color_type, bi);
                let tile: &Vec<u8> = match crate::catalog::find_tile(source_colors, &key) {
                    Some(t) => t,
                    None => vstd::pervasive::unreached(),
                };
                let ghost tile_view = source_colors.tile_for(
                    block_of(target_color_buffer@, cc, bi as int),
                );
                let mut px: usize = 0;
                while px < source_chunk_dimensions as usize
                    invariant
                        0 <= px as int <= ts,
                        (rb as int) < th,
                        (sl as int) < ts,
                        (col as int) < tw,
                        rr_now == rb as int * ts + sl as int,
                        bi as int == rb as int * tw + col as int,
                        tile@ == tile_view,
                        tile_view == source_colors.tile_for(
                            block_of(target_color_buffer@, cc, bi as int),
                        ),
                        tile_view.len() == (ts * ts) * cc,
                        final_buffer@.len() == out_pos(
                            tw,
                            ts,
                            cc,
                            rr_now,
                            col as int * ts + px as int,
                            0,
                        ),
                        forall|rr: int, xx: int, k2: int|
                            0 <= rr < th * ts && 0 <= xx < row_px && 0 <= k2 < cc && (rr < rr_now
                                || (rr == rr_now && xx < col as int * ts + px as int))
                                ==> final_buffer@[#[trigger] out_pos(tw, ts, cc, rr, xx, k2)]
                                == source_colors.tile_for(
                                block_of(target_color_buffer@, cc, block_index_of(tw, ts, rr, xx)),
                            )[tile_pos(ts, cc, rr, xx, k2)],
                    decreases ts - px,
                {
                    let ghost xx_now = col as int * ts + px as int;
                    let mut k: usize = 0;
                    while k < final_color_type as usize
                        invariant
                            0 <= k as int <= cc,
                            (rb as int) < th,
                            (sl as int) < ts,
                            (col as int) < tw,
                            (px as int) < ts,
                            rr_now == rb as int * ts + sl as int,
                            xx_now == col as int * ts + px as int,
                            bi as int == rb as int * tw + col as int,
                            tile@ == tile_view,
                            tile_view == source_colors.tile_for(
                                block_of(target_color_buffer@, cc, bi as int),
                            ),
                            tile_view.len() == (ts * ts) * cc,
                            final_buffer@.len() == out_pos(tw, ts, cc, rr_now, xx_now, k as int),
                            forall|rr: int, xx: int, k2: int|
                                0 <= rr < th * ts && 0 <= xx < row_px && 0 <= k2 < cc && (rr
                                    < rr_now || (rr == rr_now && (xx < xx_now || (xx == xx_now && k2
                                    < k as int)))) ==> final_buffer@[#[trigger] out_pos(
                                    tw,
                                    ts,
                                    cc,
                                    rr,
                                    xx,
                                    k2,
                                )] == source_colors.tile_for(
                                    block_of(
                                        target_color_buffer@,
                                        cc,
                                        block_index_of(tw, ts, rr, xx),
                                    ),
                                )[tile_pos(ts, cc, rr, xx, k2)],
                        decreases cc - k,
                    {
                        let tile_len: usize = tile.len();
                        proof {
                            lemma_radix_bound(ts, sl as int, px as int, ts);
                            lemma_radix_bound(cc, sl as int * ts + px as int, k as int, ts * ts);
                            assert(ts * ts <= (ts * ts) * cc) by (nonlinear_arith)
                                requires
                                    cc >= 1,
                                    ts >= 1,
                            ;
                        }
                        let ti: usize = (sl * (source_chunk_dimensions as usize) + px)
                            * (final_color_type as usize) + k;
                        let ghost buf0 = final_buffer@;
                        final_buffer.push(tile[ti]);
                        proof {
                            vstd::arithmetic::div_mod::lemma_fundamental_div_mod_converse(
                                rr_now,
                                ts,
                                rb as int,
                                sl as int,
                            );
                            vstd::arithmetic::div_mod::lemma_fundamental_div_mod_converse(
                                xx_now,
                                ts,
                                col as int,
                                px as int,
                            );
                            lemma_radix_bound(ts, col as int, px as int, tw);
                            assert forall|rr: int, xx: int, k2: int|
                                0 <= rr < th * ts && 0 <= xx < row_px && 0 <= k2 < cc && (rr
                                    < rr_now || (rr == rr_now && (xx < xx_now || (xx == xx_now && k2
                                    < k as int + 1)))) implies final_buffer@[#[trigger] out_pos(
                                tw,
                                ts,
                                cc,
                                rr,
                                xx,
                                k2,
                            )] == source_colors.tile_for(
                                block_of(target_color_buffer@, cc, block_index_of(tw, ts, rr, xx)),
                            )[tile_pos(ts, cc, rr, xx, k2)] by {
                                if rr < rr_now || (rr == rr_now && (xx < xx_now || (xx == xx_now
                                    && k2 < k as int))) {
                                    lemma_cell_idx_lt(
                                        row_px,
                                        cc,
                                        xx,
                                        rr,
                                        k2,
                                        xx_now,
                                        rr_now,
                                        k as int,
                                    );
                                    assert(cell_idx(row_px, cc, xx, rr, k2) == out_pos(
                                        tw,
                                        ts,
                                        cc,
                                        rr,
                                        xx,
                                        k2,
                                    ));
                                    assert(cell_idx(row_px, cc, xx_now, rr_now, k as int)
                                        == out_pos(tw, ts, cc, rr_now, xx_now, k as int));
                                    assert(final_buffer@[out_pos(tw, ts, cc, rr, xx, k2)] == buf0[
                                        out_pos(tw, ts, cc, rr, xx, k2)]);
                                } else {
                                    assert(out_pos(tw, ts, cc, rr, xx, k2) == buf0.len());
                                    assert(block_index_of(tw, ts, rr, xx) == bi);
                                    assert(tile_pos(ts, cc, rr, xx, k2) == (sl as int * ts
                                        + px as int) * cc + k as int);
                                }
                            }
                        }
                        k = k + 1;
                    }
                    proof {
                        assert((rr_now * row_px + xx_now) * cc + cc == (rr_now * row_px + (xx_now
                            + 1)) * cc) by (nonlinear_arith);
                    }
                    px = px + 1;
                }
                proof {
                    assert(col as int * ts + ts == (col as int + 1) * ts) by (nonlinear_arith);
                }
                col = col + 1;
            }
            proof {
                assert((rr_now * row_px + row_px) * cc == ((rr_now + 1) * row_px) * cc)
                    by (nonlinear_arith);
            }
            sl = sl + 1;
        }
        proof {
            assert(rb as int * ts + ts == (rb as int + 1) * ts) by (nonlinear_arith);
        }
        rb = rb + 1;
    }
    proof {
        assert(out_pos(tw, ts, cc, th * ts, 0, 0) == ((th * ts) * (tw * ts)) * cc)
            by (nonlinear_arith);
    }
    final_buffer
}

/// The mosaic buffer's length is always the block count times the tile
/// area times the channel count, however the blocks are arranged.
pub proof fn lemma_mosaic_length(
    out: Seq<u8>,
    matched: Seq<u8>,
    cat: TileCatalog,
    tw: int,
    th: int,
    ts: int,
    c: int,
)
    requires
        mosaic_built(out, matched, cat, tw, th, ts, c),
    ensures
        out.len() == tw * th * ts * ts * c,
{
    assert(((th * ts) * (tw * ts)) * c == tw * th * ts * ts * c) by (nonlinear_arith);
}

/// The grid that palette matching produces: every block of `target`
/// replaced by the catalog key nearest to it.
pub open spec fn matched_grid(target: Seq<u8>, cat: TileCatalog, c: int) -> Seq<u8> {
    Seq::new(
        target.len(),
        |i: int| crate::palette::nearest_key(cat, block_of(target, c, i / c), c)[i % c],
    )
}

/// Runs the last two phases as one verified step: matches every block of
/// the target grid against the catalog and expands the matched grid into
/// the mosaic.  The composer's preconditions are discharged here by the
/// matcher's postconditions, so a caller needs only a well-formed catalog
/// of uniformly sized tiles.
pub fn render_mosaic(
    target_color_buffer: Vec<u8>,
    source_chunk_dimensions: u32,
    target_width: u32,
    target_height: u32,
    final_color_type: u32,
    source_colors: &TileCatalog,
) -> (r: Result<Vec<u8>, crate::MosaicError>)
    requires
        final_color_type >= 1,
        source_chunk_dimensions >= 1,
        final_color_type as int * 65025 <= u32::MAX as int,
        target_color_buffer@.len() == (target_height as int * target_width as int)
            * final_color_type as int,
        source_colors.wf(final_color_type as int),
        forall|q: Seq<u8>|
            #[trigger] source_colors.has_key(q) ==> source_colors.tile_for(q).len() == (
            source_chunk_dimensions as int * source_chunk_dimensions as int)
                * final_color_type as int,
        ((target_height as int * source_chunk_dimensions as int) * (target_width as int
            * source_chunk_dimensions as int)) * final_color_type as int <= usize::MAX as int,
    ensures
        r is Err <==> source_colors.entries@.len() == 0,
        r is Err ==> r == Err::<Vec<u8>, crate::MosaicError>(crate::MosaicError::EmptyCatalog),
        r matches Ok(out) ==> mosaic_built(
            out@,
            matched_grid(target_color_buffer@, *source_colors, final_color_type as int),
            *source_colors,
            target_width as int,
            target_height as int,
            source_chunk_dimensions as int,
            final_color_type as int,
        ),
{
    let ghost tw = target_width as int;
    let ghost th = target_height as int;
    let ghost ts = source_chunk_dimensions as int;
    let ghost cc = final_color_type as int;
    let ghost target_view = target_color_buffer@;
    let ghost tlen = target_color_buffer@.len() as int;
    proof {
        vstd::arithmetic::div_mod::lemma_div_multiples_vanish(th * tw, cc);
        vstd::arithmetic::mul::lemma_mul_is_commutative(cc, th * tw);
        assert(tlen / cc == th * tw);
        vstd::arithmetic::div_mod::lemma_mod_multiples_basic(th * tw, cc);
        assert(tlen % cc == 0);
    }
    let matched = match crate::palette::apply_source_palette(
        target_color_buffer,
        final_color_type,
        source_colors,
    ) {
        Ok(buffer) => buffer,
        Err(e) => {
            return Err(e);
        },
    };
    proof {
        assert forall|bi: int| 0 <= bi < th * tw implies source_colors.has_key(
            #[trigger] block_of(matched@, cc, bi),
        ) && source_colors.tile_for(block_of(matched@, cc, bi)).len() == (ts * ts) * cc by {
            assert(crate::palette::matched_block(matched@, target_view, *source_colors, cc, bi));
        }
        assert forall|i: int| 0 <= i < tlen implies matched@[i] == matched_grid(
            target_view,
            *source_colors,
            cc,
        )[i] by {
            vstd::arithmetic::div_mod::lemma_fundamental_div_mod(i, cc);
            let bi = i / cc;
            let j = i % cc;
            assert(0 <= bi < th * tw) by {
                vstd::arithmetic::div_mod::lemma_div_is_ordered(i, tlen - 1, cc);
                vstd::arithmetic::div_mod::lemma_multiply_divide_lt(i, cc, th * tw);
                assert(i < cc * (th * tw)) by (nonlinear_arith)
                    requires
                        i < tlen,
                        tlen == (th * tw) * cc,
                ;
            }
            assert(crate::palette::matched_block(matched@, target_view, *source_colors, cc, bi));
            assert(bi * cc + j == i) by (nonlinear_arith)
                requires
                    i == cc * bi + j,
            ;
            assert(bi * cc + cc <= tlen) by (nonlinear_arith)
                requires
                    0 <= bi,
                    bi + 1 <= th * tw,
                    tlen == (th * tw) * cc,
                    cc >= 1,
            ;
            assert(block_of(matched@, cc, bi)[j] == matched@[bi * cc + j]);
        }
        assert(matched@ =~= matched_grid(target_view, *source_colors, cc));
    }
    let out = construct_mosaic(
        matched,
        source_chunk_dimensions,
        target_width,
        target_height,
        final_color_type,
        source_colors,
    );
    Ok(out)
}

/// A matched block's region of the mosaic reproduces its tile byte for
/// byte: within block `(bx, by)` the output holds exactly the stored tile.
pub proof fn lemma_block_region_roundtrip(
    out: Seq<u8>,
    matched: Seq<u8>,
    cat: TileCatalog,
    tw: int,
    th: int,
    ts: int,
    c: int,
    bx: int,
    by: int,
)
    requires
        ts >= 1,
        c >= 1,
        mosaic_built(out, matched, cat, tw, th, ts, c),
        0 <= bx < tw,
        0 <= by < th,
    ensures
        forall|r: int, x: int, k: int|
            0 <= r < ts && 0 <= x < ts && 0 <= k < c ==> out[#[trigger] out_pos(
                tw,
                ts,
                c,
                by * ts + r,
                bx * ts + x,
                k,
            )] == cat.tile_for(block_of(matched, c, by * tw + bx))[(r * ts + x) * c + k],
{
    assert forall|r: int, x: int, k: int|
        0 <= r < ts && 0 <= x < ts && 0 <= k < c implies out[#[trigger] out_pos(
        tw,
        ts,
        c,
        by * ts + r,
        bx * ts + x,
        k,
    )] == cat.tile_for(block_of(matched, c, by * tw + bx))[(r * ts + x) * c + k] by {
        lemma_radix_bound(ts, by, r, th);
        lemma_radix_bound(ts, bx, x, tw);
        vstd::arithmetic::div_mod::lemma_fundamental_div_mod_converse(by * ts + r, ts, by, r);
        vstd::arithmetic::div_mod::lemma_fundamental_div_mod_converse(bx * ts + x, ts, bx, x);
        assert(block_index_of(tw, ts, by * ts + r, bx * ts + x) == by * tw + bx);
        assert(tile_pos(ts, c, by * ts + r, bx * ts + x, k) == (r * ts + x) * c + k);
    }
}

} // verus!
