//! What the numeric functions of a caller are known to do.
//!
//! The engines never compute on the value of a sample. They are handed the
//! functions that do: one that tapers a window, one that transforms a frame
//! into its frequency bins, one that transforms bins back into a frame, one
//! that adds two samples, one that scales a sample. Of such a function the
//! engines know what its own contract says and nothing more, and it need not
//! give the same result twice. The relations here read a function's contract
//! over the contents of the vectors that it takes and returns.

use vstd::prelude::*;
use crate::bits::ComplexBits;

verus! {

/// The contents of what a transform into bins returned.
pub open spec fn cells_of(out: Option<Vec<ComplexBits>>) -> Option<Seq<ComplexBits>> {
    match out {
        Some(cells) => Some(cells@),
        None => None,
    }
}

/// The contents of what a transform into samples returned.
pub open spec fn samples_of(out: Option<Vec<u32>>) -> Option<Seq<u32>> {
    match out {
        Some(samples) => Some(samples@),
        None => None,
    }
}

/// `taper` may return `tapered` for a window that holds `window`.
pub open spec fn tapers<W: Fn(&Vec<u32>) -> Vec<u32>>(
    taper: &W,
    window: Seq<u32>,
    tapered: Seq<u32>,
) -> bool {
    exists|a: Vec<u32>, b: Vec<u32>|
        a@ == window && b@ == tapered && #[trigger] taper.ensures((&a,), b)
}

/// `transform` may return `out` for a frame that holds `frame`.
pub open spec fn analyzes<T: Fn(&Vec<u32>) -> Option<Vec<ComplexBits>>>(
    transform: &T,
    frame: Seq<u32>,
    out: Option<Seq<ComplexBits>>,
) -> bool {
    exists|a: Vec<u32>, b: Option<Vec<ComplexBits>>|
        a@ == frame && cells_of(b) == out && #[trigger] transform.ensures((&a,), b)
}

/// `transform` may return `out` for a spectrum that holds `spectrum`.
pub open spec fn synthesizes<T: Fn(&Vec<ComplexBits>) -> Option<Vec<u32>>>(
    transform: &T,
    spectrum: Seq<ComplexBits>,
    out: Option<Seq<u32>>,
) -> bool {
    exists|a: Vec<ComplexBits>, b: Option<Vec<u32>>|
        a@ == spectrum && samples_of(b) == out && #[trigger] transform.ensures((&a,), b)
}

/// `f` can be called on every vector of `len` samples.
pub open spec fn accepts_samples<R, F: Fn(&Vec<u32>) -> R>(f: &F, len: nat) -> bool {
    forall|a: &Vec<u32>| a@.len() == len ==> #[trigger] f.requires((a,))
}

/// `f` can be called on every vector of `len` cells.
pub open spec fn accepts_cells<R, F: Fn(&Vec<ComplexBits>) -> R>(f: &F, len: nat) -> bool {
    forall|a: &Vec<ComplexBits>| a@.len() == len ==> #[trigger] f.requires((a,))
}

/// `taper` has one result for every window: whatever it may return for the
/// same samples holds the same samples.
pub open spec fn tapers_in_one_way<W: Fn(&Vec<u32>) -> Vec<u32>>(taper: &W) -> bool {
    forall|window: Seq<u32>, a: Seq<u32>, b: Seq<u32>|
        #[trigger] tapers(taper, window, a) && #[trigger] tapers(taper, window, b) ==> a == b
}

/// `transform` has one result for every frame.
pub open spec fn analyzes_in_one_way<T: Fn(&Vec<u32>) -> Option<Vec<ComplexBits>>>(
    transform: &T,
) -> bool {
    forall|frame: Seq<u32>, a: Option<Seq<ComplexBits>>, b: Option<Seq<ComplexBits>>|
        #[trigger] analyzes(transform, frame, a) && #[trigger] analyzes(transform, frame, b) ==> a
            == b
}

/// `transform` has one result for every spectrum.
pub open spec fn synthesizes_in_one_way<T: Fn(&Vec<ComplexBits>) -> Option<Vec<u32>>>(
    transform: &T,
) -> bool {
    forall|spectrum: Seq<ComplexBits>, a: Option<Seq<u32>>, b: Option<Seq<u32>>|
        #[trigger] synthesizes(transform, spectrum, a) && #[trigger] synthesizes(
            transform,
            spectrum,
            b,
        ) ==> a == b
}

/// `plus` can be called on every two samples.
pub open spec fn adds_all<A: Fn(u32, u32) -> u32>(plus: &A) -> bool {
    forall|a: u32, b: u32| #[trigger] plus.requires((a, b))
}

/// `scale` can be called on every sample, for a frame of `frame_len` samples.
pub open spec fn scales_all<N: Fn(u32, usize) -> u32>(scale: &N, frame_len: usize) -> bool {
    forall|a: u32| #[trigger] scale.requires((a, frame_len))
}

/// `plus` has one result for every two samples.
pub open spec fn adds_in_one_way<A: Fn(u32, u32) -> u32>(plus: &A) -> bool {
    forall|a: u32, b: u32, c: u32, d: u32|
        #[trigger] plus.ensures((a, b), c) && #[trigger] plus.ensures((a, b), d) ==> c == d
}

/// `scale` has one result for every sample and frame length.
pub open spec fn scales_in_one_way<N: Fn(u32, usize) -> u32>(scale: &N) -> bool {
    forall|a: u32, n: usize, c: u32, d: u32|
        #[trigger] scale.ensures((a, n), c) && #[trigger] scale.ensures((a, n), d) ==> c == d
}

} // verus!
