//! The layout of a padded window.
//!
//! A window that is padded before it is transformed keeps time zero at its
//! centre: its second half opens the frame, its first half closes it, and the
//! zeros lie between them. Without padding the frame is the window itself.

use vstd::prelude::*;
use crate::bits::zeros;
use crate::bits::POSITIVE_ZERO;

verus! {

/// The frame of `window` with `pad` zero samples.
pub open spec fn padded_frame(window: Seq<u32>, pad: nat) -> Seq<u32> {
    if pad == 0 {
        window
    } else {
        let half = (window.len() / 2) as int;
        window.subrange(half, window.len() as int) + zeros(pad) + window.subrange(0, half)
    }
}

/// The window inside a frame that carries `pad` samples of padding: the
/// frame's last samples, half a window of them, and then its first ones.
pub open spec fn depadded(frame: Seq<u32>, pad: nat) -> Seq<u32>
    recommends
        pad <= frame.len(),
{
    if pad == 0 {
        frame
    } else {
        let window = frame.len() - pad;
        let half = window / 2;
        frame.subrange(frame.len() - half, frame.len() as int) + frame.subrange(0, window - half)
    }
}

/// Taking the padding away gives back the window that was padded.
pub proof fn lemma_depad_undoes_pad(window: Seq<u32>, pad: nat)
    ensures
        padded_frame(window, pad).len() == window.len() + pad,
        depadded(padded_frame(window, pad), pad) == window,
{
    if pad > 0 {
        let frame = padded_frame(window, pad);
        assert(depadded(frame, pad) =~= window);
    }
}

/// Lays `window` out as a frame with `pad` zero samples.
pub fn pad_frame(window: &Vec<u32>, pad: usize) -> (frame: Vec<u32>)
    requires
        window@.len() + pad <= usize::MAX,
    ensures
        frame@ == padded_frame(window@, pad as nat),
{
    let len: usize = window.len();
    let mut frame: Vec<u32> = Vec::new();
    if pad == 0 {
        let mut i: usize = 0;
        while i < len
            invariant
                len == window@.len(),
                i <= len,
                frame@ == window@.subrange(0, i as int),
            decreases len - i,
        {
            frame.push(window[i]);
            assert(frame@ =~= window@.subrange(0, i + 1));
            i += 1;
        }
        assert(frame@ =~= window@);
        return frame;
    }
    let half: usize = len / 2;
    let mut i: usize = half;
    while i < len
        invariant
            len == window@.len(),
            half <= i <= len,
            frame@ == window@.subrange(half as int, i as int),
        decreases len - i,
    {
        frame.push(window[i]);
        assert(frame@ =~= window@.subrange(half as int, i + 1));
        i += 1;
    }
    let mut k: usize = 0;
    while k < pad
        invariant
            len == window@.len(),
            k <= pad,
            frame@ == window@.subrange(half as int, len as int) + zeros(k as nat),
        decreases pad - k,
    {
        frame.push(POSITIVE_ZERO);
        assert(frame@ =~= window@.subrange(half as int, len as int) + zeros((k + 1) as nat));
        k += 1;
    }
    let mut j: usize = 0;
    while j < half
        invariant
            len == window@.len(),
            half == len / 2,
            j <= half,
            frame@ == window@.subrange(half as int, len as int) + zeros(pad as nat)
                + window@.subrange(0, j as int),
        decreases half - j,
    {
        frame.push(window[j]);
        assert(frame@ =~= window@.subrange(half as int, len as int) + zeros(pad as nat)
            + window@.subrange(0, j + 1));
        j += 1;
    }
    frame
}

/// Takes `pad` samples of padding out of `frame`.
pub fn depad(frame: Vec<u32>, pad: usize) -> (window: Vec<u32>)
    requires
        pad <= frame@.len(),
    ensures
        window@ == depadded(frame@, pad as nat),
{
    if pad == 0 {
        return frame;
    }
    let len: usize = frame.len();
    let size: usize = len - pad;
    let half: usize = size / 2;
    let mut window: Vec<u32> = Vec::new();
    let mut i: usize = len - half;
    while i < len
        invariant
            len == frame@.len(),
            half <= len,
            len - half <= i <= len,
            window@ == frame@.subrange(len - half, i as int),
        decreases len - i,
    {
        window.push(frame[i]);
        assert(window@ =~= frame@.subrange(len - half, i + 1));
        i += 1;
    }
    let mut j: usize = 0;
    while j < size - half
        invariant
            len == frame@.len(),
            half <= size <= len,
            j <= size - half,
            window@ == frame@.subrange(len - half, len as int) + frame@.subrange(0, j as int),
        decreases size - half - j,
    {
        window.push(frame[j]);
        assert(window@ =~= frame@.subrange(len - half, len as int) + frame@.subrange(0, j + 1));
        j += 1;
    }
    window
}

} // verus!
