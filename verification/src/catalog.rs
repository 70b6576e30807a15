//! The tile catalog: an exact-match lookup from a tile's average color to
//! its full-resolution pixel buffer.
//!
//! The catalog is a vector of entries with pairwise distinct keys, kept in
//! insertion order.  That order is part of the catalog's contract: palette
//! matching scans it front to back, so ties in color distance resolve to
//! the earliest inserted key, deterministically.

use vstd::prelude::*;

use crate::pixel::Image;

verus! {

/// One catalog entry: an average color key and the tile pixels it stands for.
pub struct CatalogEntry {
    pub key: Vec<u8>,
    pub tile: Vec<u8>,
}

/// The complete color-to-tile mapping.
pub struct TileCatalog {
    pub entries: Vec<CatalogEntry>,
}

impl TileCatalog {
    /// Every key has `c` components and no two entries share a key.
    pub open spec fn wf(&self, c: int) -> bool {
        (forall|i: int|
            0 <= i < self.entries@.len() ==> (#[trigger] self.entries@[i].key@).len() == c)
            && forall|i: int, j: int|
            0 <= i < j < self.entries@.len() ==> self.entries@[i].key@ != self.entries@[j].key@
    }

    /// Some entry carries exactly this key.
    pub open spec fn has_key(&self, k: Seq<u8>) -> bool {
        exists|i: int| 0 <= i < self.entries@.len() && (#[trigger] self.entries@[i].key@) == k
    }

    /// The position of the entry carrying `k` (meaningful when keys are
    /// distinct and `k` is present).
    pub open spec fn idx_of(&self, k: Seq<u8>) -> int {
        choose|i: int| 0 <= i < self.entries@.len() && (#[trigger] self.entries@[i].key@) == k
    }

    /// The tile stored under key `k`.
    pub open spec fn tile_for(&self, k: Seq<u8>) -> Seq<u8> {
        self.entries@[self.idx_of(k)].tile@
    }

    /// In a well-formed catalog each entry is the one its key resolves to.
    pub proof fn lemma_entry_resolves(&self, c: int, i: int)
        requires
            self.wf(c),
            0 <= i < self.entries@.len(),
        ensures
            self.has_key(self.entries@[i].key@),
            self.idx_of(self.entries@[i].key@) == i,
            self.tile_for(self.entries@[i].key@) == self.entries@[i].tile@,
    {
        let k = self.entries@[i].key@;
        assert(self.has_key(k));
        let j = self.idx_of(k);
        assert(0 <= j < self.entries@.len() && self.entries@[j].key@ == k);
        if i < j {
            assert(self.entries@[i].key@ != self.entries@[j].key@);
        } else if j < i {
            assert(self.entries@[j].key@ != self.entries@[i].key@);
        }
    }

    /// An empty catalog.
    pub fn new() -> (r: TileCatalog)
        ensures
            r.entries@.len() == 0,
            forall|c: int| r.wf(c),
            forall|q: Seq<u8>| !r.has_key(q),
    {
        TileCatalog { entries: Vec::new() }
    }

    /// Inserts a key/tile pair, overwriting the tile of an existing equal
    /// key in place; only the most recent tile for a key survives.
    pub fn insert(self, key: Vec<u8>, tile: Vec<u8>) -> (r: TileCatalog)
        requires
            self.wf(key@.len() as int),
        ensures
            r.wf(key@.len() as int),
            forall|q: Seq<u8>| #[trigger] r.has_key(q) <==> (self.has_key(q) || q == key@),
            r.has_key(key@) && r.tile_for(key@) == tile@,
            forall|q: Seq<u8>|
                #[trigger] self.has_key(q) && q != key@ ==> r.has_key(q) && r.tile_for(q)
                    == self.tile_for(q),
    {
        let ghost c = key@.len() as int;
        let ghost old_cat = self;
        let mut cat = self;
        let mut pos: usize = 0;
        let n: usize = cat.entries.len();
        while pos < n && !key_eq(&cat.entries[pos].key, &key)
            invariant
                cat == old_cat,
                n == cat.entries@.len(),
                0 <= pos <= n,
                forall|i: int| 0 <= i < pos ==> (#[trigger] cat.entries@[i].key@) != key@,
            decreases n - pos,
        {
            pos = pos + 1;
        }
        if pos < n {
            // an equal key sits at `pos`: replace its tile, keep its place
            let ghost old_entries = cat.entries@;
            cat.entries.set(pos, CatalogEntry { key, tile });
            proof {
                assert(cat.entries@[pos as int].key@ == key@);
                assert forall|q: Seq<u8>| #[trigger] cat.has_key(q) implies (old_cat.has_key(q) || q
                    == key@) by {
                    let i = choose|i: int|
                        0 <= i < cat.entries@.len() && (#[trigger] cat.entries@[i].key@) == q;
                    if i != pos as int {
                        assert(old_cat.entries@[i].key@ == q);
                    }
                }
                assert forall|q: Seq<u8>| old_cat.has_key(q) || q == key@ implies #[trigger] cat
                    .has_key(q) by {
                    if q == key@ {
                        assert(cat.entries@[pos as int].key@ == q);
                    } else {
                        let i = choose|i: int|
                            0 <= i < old_cat.entries@.len() && (#[trigger] old_cat.entries@[i].key@)
                                == q;
                        assert(old_cat.entries@[pos as int].key@ == key@);
                        assert(i != pos as int);
                        assert(cat.entries@[i].key@ == q);
                    }
                }
                assert forall|i: int, j: int|
                    0 <= i < j < cat.entries@.len() implies cat.entries@[i].key@ != cat.entries@[j].key@ by {
                    assert(old_cat.entries@[i].key@ != old_cat.entries@[j].key@);
                    assert(old_cat.entries@[pos as int].key@ == key@);
                }
                cat.lemma_entry_resolves(c, pos as int);
                assert forall|q: Seq<u8>|
                    #[trigger] old_cat.has_key(q) && q != key@ implies cat.has_key(q)
                    && cat.tile_for(q) == old_cat.tile_for(q) by {
                    let i = choose|i: int|
                        0 <= i < old_cat.entries@.len() && (#[trigger] old_cat.entries@[i].key@)
                            == q;
                    assert(old_cat.entries@[pos as int].key@ == key@);
                    assert(i != pos as int);
                    assert(cat.entries@[i].key@ == q && cat.entries@[i].tile@ == old_cat.entries@[i].tile@);
                    cat.lemma_entry_resolves(c, i);
                    old_cat.lemma_entry_resolves(c, i);
                }
            }
            cat
        } else {
            let ghost old_entries = cat.entries@;
            cat.entries.push(CatalogEntry { key, tile });
            proof {
                let m = old_entries.len() as int;
                assert(cat.entries@[m].key@ == key@);
                assert forall|q: Seq<u8>| #[trigger] cat.has_key(q) implies (old_cat.has_key(q) || q
                    == key@) by {
                    let i = choose|i: int|
                        0 <= i < cat.entries@.len() && (#[trigger] cat.entries@[i].key@) == q;
                    if i != m {
                        assert(old_cat.entries@[i].key@ == q);
                    }
                }
                assert forall|q: Seq<u8>| old_cat.has_key(q) || q == key@ implies #[trigger] cat
                    .has_key(q) by {
                    if q == key@ {
                        assert(cat.entries@[m].key@ == q);
                    } else {
                        let i = choose|i: int|
                            0 <= i < old_cat.entries@.len() && (#[trigger] old_cat.entries@[i].key@)
                                == q;
                        assert(cat.entries@[i].key@ == q);
                    }
                }
                assert forall|i: int, j: int|
                    0 <= i < j < cat.entries@.len() implies cat.entries@[i].key@ != cat.entries@[j].key@ by {
                    if j == m {
                        // every earlier key differs from the new one: the scan
                        // walked the whole vector without a match
                        assert(cat.entries@[i].key@ == old_cat.entries@[i].key@);
                        assert(old_cat.entries@[i].key@ != key@);
                    } else {
                        assert(old_cat.entries@[i].key@ != old_cat.entries@[j].key@);
                    }
                }
                cat.lemma_entry_resolves(c, m);
                assert forall|q: Seq<u8>|
                    #[trigger] old_cat.has_key(q) && q != key@ implies cat.has_key(q)
                    && cat.tile_for(q) == old_cat.tile_for(q) by {
                    let i = choose|i: int|
                        0 <= i < old_cat.entries@.len() && (#[trigger] old_cat.entries@[i].key@)
                            == q;
                    assert(cat.entries@[i].key@ == q && cat.entries@[i].tile@ == old_cat.entries@[i].tile@);
                    cat.lemma_entry_resolves(c, i);
                    old_cat.lemma_entry_resolves(c, i);
                }
            }
            cat
        }
    }
}

/// Byte-vector equality, checked component by component.
pub fn key_eq(a: &Vec<u8>, b: &Vec<u8>) -> (r: bool)
    ensures
        r == (a@ == b@),
{
    if a.len() != b.len() {
        proof {
            assert(a@ != b@);
        }
        return false;
    }
    let n: usize = a.len();
    let mut i: usize = 0;
    while i < n
        invariant
            n == a@.len() && n == b@.len(),
            0 <= i <= n,
            forall|j: int| 0 <= j < i ==> a@[j] == b@[j],
        decreases n - i,
    {
        if a[i] != b[i] {
            proof {
                assert(a@[i as int] != b@[i as int]);
            }
            return false;
        }
        i = i + 1;
    }
    proof {
        assert(a@ =~= b@);
    }
    true
}

/// A byte-for-byte copy of a byte vector.
pub fn clone_bytes(v: &Vec<u8>) -> (r: Vec<u8>)
    ensures
        r@ == v@,
{
    let r = v.clone();
    proof {
        assert(r@ =~= v@);
    }
    r
}

/// Sum of every `c`-th byte starting at offset `k`, over the first `nb`
/// groups of `c` bytes of `g`.
pub open spec fn channel_sum(g: Seq<u8>, c: int, k: int, nb: int) -> int
    decreases nb,
{
    if nb <= 0 {
        0
    } else {
        channel_sum(g, c, k, nb - 1) + g[(nb - 1) * c + k]
    }
}

/// Channel sums over `nb` groups stay within `[0, 255 * nb]`.
pub proof fn lemma_channel_sum_bounds(g: Seq<u8>, c: int, k: int, nb: int)
    requires
        nb >= 0,
    ensures
        0 <= channel_sum(g, c, k, nb) <= 255 * nb,
    decreases nb,
{
    if nb > 0 {
        lemma_channel_sum_bounds(g, c, k, nb - 1);
    }
}

/// The single color that summarizes a whole block grid: the truncated mean
/// of each channel over all of the grid's blocks.
pub open spec fn average_key(g: Seq<u8>, c: int) -> Seq<u8> {
    Seq::new(
        c as nat,
        |k: int| (channel_sum(g, c, k, g.len() as int / c) / (g.len() as int / c)) as u8,
    )
}

/// Averages all blocks of a grid into one color with `final_color_type`
/// channels, using truncating division by the number of blocks.
#[verifier::loop_isolation(false)]
pub fn average_color(grid: &Vec<u8>, final_color_type: u32) -> (key: Vec<u8>)
    requires
        final_color_type >= 1,
        grid@.len() as int % final_color_type as int == 0,
        grid@.len() >= final_color_type as int,
        grid@.len() * 255 <= u64::MAX as int,
    ensures
        key@ == average_key(grid@, final_color_type as int),
        key@.len() == final_color_type as int,
{
    let ghost cc = final_color_type as int;
    let ghost len = grid@.len() as int;
    let c: usize = final_color_type as usize;
    let nb: usize = grid.len() / c;
    proof {
        vstd::arithmetic::div_mod::lemma_fundamental_div_mod(len, cc);
        vstd::arithmetic::mul::lemma_mul_is_commutative(cc, len / cc);
        vstd::arithmetic::div_mod::lemma_div_multiples_vanish(1, cc);
        vstd::arithmetic::div_mod::lemma_div_is_ordered(cc, len, cc);
        vstd::arithmetic::div_mod::lemma_div_nonincreasing(len, cc);
        assert(nb as int == len / cc);
        assert(nb as int * cc == len);
        assert(nb >= 1);
    }
    let mut key: Vec<u8> = Vec::new();
    let mut k: usize = 0;
    while k < c
        invariant
            0 <= k <= c,
            key@.len() == k as int,
            forall|j: int| 0 <= j < k as int ==> key@[j] == average_key(grid@, cc)[j],
        decreases c - k,
    {
        let mut sum: u64 = 0;
        let mut i: usize = 0;
        while i < nb
            invariant
                0 <= i <= nb,
                k < c,
                sum as int == channel_sum(grid@, cc, k as int, i as int),
            decreases nb - i,
        {
            proof {
                crate::pixel::lemma_radix_bound(cc, i as int, k as int, nb as int);
                lemma_channel_sum_bounds(grid@, cc, k as int, i as int);
                assert(255 * (i as int) + 255 <= 255 * (nb as int)) by (nonlinear_arith)
                    requires
                        (i as int) < (nb as int),
                ;
                assert(255 * (nb as int) <= len * 255) by (nonlinear_arith)
                    requires
                        (nb as int) <= len,
                ;
            }
            sum = sum + grid[i * c + k] as u64;
            i = i + 1;
        }
        proof {
            lemma_channel_sum_bounds(grid@, cc, k as int, nb as int);
            assert(255 * (nb as int) < (nb as int) * 256) by (nonlinear_arith)
                requires
                    (nb as int) >= 1,
            ;
            vstd::arithmetic::div_mod::lemma_multiply_divide_lt(sum as int, nb as int, 256);
        }
        let avg: u64 = sum / (nb as u64);
        key.push(avg as u8);
        k = k + 1;
    }
    proof {
        assert(key@ =~= average_key(grid@, cc));
    }
    key
}

/// One qualifying candidate image: its block grid and its full-resolution
/// pixels, already reduced to the output channel count.
pub struct SourceTile {
    pub color_buffer: Vec<u8>,
    pub pixels: Vec<u8>,
}

/// `i` is the last tile among the first `n` whose grid averages to its key.
pub open spec fn last_with_key_upto(tiles: Seq<SourceTile>, c: int, i: int, n: int) -> bool {
    0 <= i < n && forall|j: int|
        i < j < n ==> average_key(#[trigger] tiles[j].color_buffer@, c) != average_key(
            tiles[i].color_buffer@,
            c,
        )
}

/// Builds the catalog: every tile's grid is averaged into one key and the
/// tile's pixels are stored under it, later tiles overwriting earlier ones
/// with the same exact key.
#[verifier::loop_isolation(false)]
pub fn generate_source_map(source_tiles: Vec<SourceTile>, final_color_type: u32) -> (r:
    TileCatalog)
    requires
        final_color_type >= 1,
        forall|i: int|
            0 <= i < source_tiles@.len() ==> (#[trigger] source_tiles@[i].color_buffer@).len() as int
                % final_color_type as int == 0 && source_tiles@[i].color_buffer@.len()
                >= final_color_type as int && source_tiles@[i].color_buffer@.len() * 255
                <= u64::MAX as int,
    ensures
        r.wf(final_color_type as int),
        forall|q: Seq<u8>|
            #[trigger] r.has_key(q) <==> exists|i: int|
                0 <= i < source_tiles@.len() && average_key(
                    #[trigger] source_tiles@[i].color_buffer@,
                    final_color_type as int,
                ) == q,
        forall|i: int|
            last_with_key_upto(
                source_tiles@,
                final_color_type as int,
                i,
                source_tiles@.len() as int,
            ) ==> r.has_key(average_key(source_tiles@[i].color_buffer@, final_color_type as int))
                && r.tile_for(average_key(source_tiles@[i].color_buffer@, final_color_type as int))
                == source_tiles@[i].pixels@,
{
    let ghost cc = final_color_type as int;
    let mut cat = TileCatalog::new();
    let mut idx: usize = 0;
    let n: usize = source_tiles.len();
    while idx < n
        invariant
            n == source_tiles@.len(),
            0 <= idx <= n,
            cat.wf(cc),
            forall|q: Seq<u8>|
                #[trigger] cat.has_key(q) <==> exists|i: int|
                    0 <= i < idx as int && average_key(
                        #[trigger] source_tiles@[i].color_buffer@,
                        cc,
                    ) == q,
            forall|i: int|
                last_with_key_upto(source_tiles@, cc, i, idx as int) ==> cat.has_key(
                    average_key(source_tiles@[i].color_buffer@, cc),
                ) && cat.tile_for(average_key(source_tiles@[i].color_buffer@, cc))
                    == source_tiles@[i].pixels@,
        decreases n - idx,
    {
        let ghost old_cat = cat;
        let key = average_color(&source_tiles[idx].color_buffer, final_color_type);
        let pixels = clone_bytes(&source_tiles[idx].pixels);
        cat = cat.insert(key, pixels);
        proof {
            let ghost new_key = average_key(source_tiles@[idx as int].color_buffer@, cc);
            assert forall|q: Seq<u8>| #[trigger] cat.has_key(q) implies exists|i: int|
                0 <= i < idx as int + 1 && average_key(#[trigger] source_tiles@[i].color_buffer@, cc)
                    == q by {
                if q == new_key {
                    assert(average_key(source_tiles@[idx as int].color_buffer@, cc) == q);
                } else {
                    assert(old_cat.has_key(q));
                }
            }
            assert forall|i: int|
                0 <= i < idx as int + 1 && average_key(#[trigger] source_tiles@[i].color_buffer@, cc)
                    != new_key implies cat.has_key(average_key(source_tiles@[i].color_buffer@, cc))
                by {
                assert(old_cat.has_key(average_key(source_tiles@[i].color_buffer@, cc)));
            }
            assert forall|i: int| last_with_key_upto(source_tiles@, cc, i, idx as int + 1) implies
                cat.has_key(average_key(source_tiles@[i].color_buffer@, cc)) && cat.tile_for(
                average_key(source_tiles@[i].color_buffer@, cc),
            ) == source_tiles@[i].pixels@ by {
                if i == idx as int {
                } else {
                    assert(average_key(source_tiles@[idx as int].color_buffer@, cc) != average_key(
                        source_tiles@[i].color_buffer@,
                        cc,
                    ));
                    assert(last_with_key_upto(source_tiles@, cc, i, idx as int));
                    assert(old_cat.has_key(average_key(source_tiles@[i].color_buffer@, cc)));
                }
            }
        }
        idx = idx + 1;
    }
    cat
}

/// A candidate image qualifies as a tile: square, of exactly the required
/// side, evenly divisible into blocks, and small enough for the averaging
/// accumulator.
pub open spec fn tile_conforms(image: Image, s: int, tile_side: int) -> bool {
    image.width == image.height && image.width as int == tile_side && tile_side >= 1 && s >= 1
        && tile_side % s == 0 && 255 * s * s <= u32::MAX as int
}

/// Filters and reduces one candidate image: a conforming image becomes a
/// `SourceTile` holding its block grid and its alpha-stripped pixels; any
/// other image is skipped.
pub fn prepare_tile(
    image: &crate::pixel::Image,
    final_color_type: u32,
    pixels_per_chunk: u32,
    tile_side: u32,
) -> (r: Option<SourceTile>)
    requires
        image.wf(),
        1 <= final_color_type <= 3,
    ensures
        r is Some <==> tile_conforms(*image, pixels_per_chunk as int, tile_side as int),
        r matches Some(t) ==> crate::pixel::grid_matches(
            t.color_buffer@,
            image.buffer@,
            image.width as int,
            image.channels as int,
            pixels_per_chunk as int,
            tile_side as int / pixels_per_chunk as int,
            tile_side as int / pixels_per_chunk as int,
            final_color_type as int,
        ) && t.pixels@.len() == (image.width as int * image.height as int)
            * final_color_type as int && (forall|p: int, k: int|
            0 <= p < image.width as int * image.height as int && 0 <= k < final_color_type as int
                ==> t.pixels@[crate::pixel::flat_idx(final_color_type as int, p, k)]
                == image.buffer@[crate::pixel::flat_idx(image.channels as int, p, k)]),
{
    let ghost ss = pixels_per_chunk as int;
    if image.width != image.height {
        return None;
    }
    if image.width != tile_side {
        return None;
    }
    if tile_side == 0 {
        return None;
    }
    if pixels_per_chunk == 0 {
        return None;
    }
    if tile_side % pixels_per_chunk != 0 {
        return None;
    }
    proof {
        assert((pixels_per_chunk as int) * (pixels_per_chunk as int) <= u64::MAX as int)
            by (nonlinear_arith);
    }
    let s2: u64 = (pixels_per_chunk as u64) * (pixels_per_chunk as u64);
    let limit: u64 = (u32::MAX as u64) / 255;
    proof {
        vstd::arithmetic::div_mod::lemma_fundamental_div_mod(u32::MAX as int, 255);
        assert(255 * ss * ss == 255 * (s2 as int)) by (nonlinear_arith)
            requires
                (s2 as int) == ss * ss,
        ;
    }
    if s2 > limit {
        return None;
    }
    let grid = crate::pixel::pixelate(image, final_color_type, pixels_per_chunk);
    let pixels = crate::pixel::strip_channels(image, final_color_type);
    Some(SourceTile { color_buffer: grid.0, pixels })
}

/// Looks a key up in the catalog, handing back the stored tile pixels.
pub fn find_tile<'a>(catalog: &'a TileCatalog, key: &Vec<u8>) -> (r: Option<&'a Vec<u8>>)
    requires
        catalog.wf(key@.len() as int),
    ensures
        match r {
            Some(t) => catalog.has_key(key@) && t@ == catalog.tile_for(key@),
            None => !catalog.has_key(key@),
        },
{
    let n: usize = catalog.entries.len();
    let mut i: usize = 0;
    while i < n
        invariant
            n == catalog.entries@.len(),
            0 <= i <= n,
            catalog.wf(key@.len() as int),
            forall|j: int| 0 <= j < i as int ==> (#[trigger] catalog.entries@[j].key@) != key@,
        decreases n - i,
    {
        if key_eq(&catalog.entries[i].key, key) {
            proof {
                catalog.lemma_entry_resolves(key@.len() as int, i as int);
            }
            return Some(&catalog.entries[i].tile);
        }
        i = i + 1;
    }
    None
}

} // verus!
