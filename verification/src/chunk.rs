//! Chunk-size negotiation: a forward search for a common divisor of both
//! image dimensions, starting at a caller-supplied guess.

use vstd::arithmetic::div_mod::lemma_small_mod;
use vstd::prelude::*;

use crate::MosaicError;

verus! {

/// A chunk size is valid for an image when it is positive and divides both
/// dimensions evenly.
pub open spec fn valid_chunk(c: u32, width: u32, height: u32) -> bool {
    c > 0 && width as int % c as int == 0 && height as int % c as int == 0
}

/// The smaller of the two image dimensions.
pub open spec fn min_dim(width: u32, height: u32) -> int {
    if width <= height {
        width as int
    } else {
        height as int
    }
}

/// Exactly the inputs on which the forward search finds a chunk size: the
/// guess must be positive, and some valid chunk size must be reachable
/// before the search walks past both dimensions.  A candidate above the
/// smaller dimension is reached only when it is the guess itself.
pub open spec fn negotiation_succeeds(guess: u32, width: u32, height: u32) -> bool {
    guess >= 1 && exists|c: u32|
        guess <= c && (c == guess || c as int <= min_dim(width, height) + 1) && valid_chunk(
            c,
            width,
            height,
        )
}

/// Returns the smallest chunk size `c >= pixels_per_chunk` that divides both
/// `width` and `height` evenly; fails with `InvalidChunkSize` when the guess
/// is zero or the search walks past either dimension without finding one.
pub fn pixels_per_chunk_gcf(pixels_per_chunk: u32, width: u32, height: u32) -> (r: Result<
    u32,
    MosaicError,
>)
    ensures
        r is Ok <==> negotiation_succeeds(pixels_per_chunk, width, height),
        r matches Ok(c) ==> pixels_per_chunk <= c && valid_chunk(c, width, height) && (forall|
            d: u32,
        |
            pixels_per_chunk <= d < c ==> !valid_chunk(d, width, height)),
        r is Err ==> r == Err::<u32, MosaicError>(MosaicError::InvalidChunkSize),
{
    if pixels_per_chunk == 0 {
        return Err(MosaicError::InvalidChunkSize);
    }
    let mut c: u32 = pixels_per_chunk;
    loop
        invariant
            1 <= pixels_per_chunk <= c,
            forall|d: u32| pixels_per_chunk <= d < c ==> !valid_chunk(d, width, height),
            c == pixels_per_chunk || c as int <= min_dim(width, height) + 1,
        decreases min_dim(width, height) + 2 - c,
    {
        if width % c == 0 && height % c == 0 {
            assert(negotiation_succeeds(pixels_per_chunk, width, height)) by {
                assert(valid_chunk(c, width, height));
            }
            return Ok(c);
        }
        if c > width || c > height {
            assert(!negotiation_succeeds(pixels_per_chunk, width, height)) by {
                assert(!valid_chunk(c, width, height));
                assert(forall|d: u32|
                    pixels_per_chunk <= d <= c ==> !valid_chunk(d, width, height));
            }
            return Err(MosaicError::InvalidChunkSize);
        }
        assert(c < u32::MAX) by {
            if c == u32::MAX {
                vstd::arithmetic::div_mod::lemma_mod_self_0(c as int);
            }
        }
        c = c + 1;
    }
}

/// When both dimensions are positive and no candidate between the guess and
/// the smaller dimension divides both of them, negotiation must fail: any
/// candidate beyond the smaller dimension cannot divide it.
pub proof fn lemma_negotiation_fails_without_divisor(guess: u32, width: u32, height: u32)
    requires
        width >= 1,
        height >= 1,
        forall|d: u32|
            guess <= d && d as int <= min_dim(width, height) ==> !valid_chunk(d, width, height),
    ensures
        !negotiation_succeeds(guess, width, height),
{
    if negotiation_succeeds(guess, width, height) {
        let c = choose|c: u32|
            guess <= c && (c == guess || c as int <= min_dim(width, height) + 1) && valid_chunk(
                c,
                width,
                height,
            );
        if c as int <= min_dim(width, height) {
            assert(!valid_chunk(c, width, height));
        } else {
            if width <= height {
                assert(width < c);
                lemma_small_mod(width as nat, c as nat);
                assert(width as int % c as int == width);
            } else {
                assert(height < c);
                lemma_small_mod(height as nat, c as nat);
                assert(height as int % c as int == height);
            }
        }
    }
}

} // verus!
