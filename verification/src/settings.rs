//! What an analysis and a picture are made with.

use vstd::prelude::*;

verus! {

/// How a signal is cut up: the window's length in samples and the number of
/// zero samples that each window is padded with before it is transformed.
/// Consecutive windows overlap by half.
#[derive(Clone, Copy, Debug)]
pub struct SpectrogramSettings {
    pub window_size: usize,
    pub window_pad_amnt: usize,
}

impl SpectrogramSettings {
    /// The window size is positive and even, and a padded window's length
    /// fits the machine's word.
    pub open spec fn valid(&self) -> bool {
        &&& self.window_size > 0
        &&& self.window_size % 2 == 0
        &&& self.window_size + self.window_pad_amnt <= usize::MAX
    }

    /// Samples between the starts of two consecutive windows.
    pub open spec fn hop(&self) -> nat {
        (self.window_size / 2) as nat
    }

    /// Length of what is transformed: a window and its padding.
    pub open spec fn frame_len(&self) -> nat {
        (self.window_size + self.window_pad_amnt) as nat
    }

    /// Frequency bins of a real transform of `frame_len` samples.
    pub open spec fn bins(&self) -> nat {
        self.frame_len() / 2 + 1
    }

    pub fn is_valid(&self) -> (ok: bool)
        ensures
            ok == self.valid(),
    {
        self.window_size > 0 && self.window_size % 2 == 0 && self.window_pad_amnt <= usize::MAX
            - self.window_size
    }

    pub fn hop_size(&self) -> (hop: usize)
        ensures
            hop == self.hop(),
    {
        self.window_size / 2
    }

    pub fn frame_size(&self) -> (len: usize)
        requires
            self.window_size + self.window_pad_amnt <= usize::MAX,
        ensures
            len == self.frame_len(),
    {
        self.window_size + self.window_pad_amnt
    }

    pub fn bin_count(&self) -> (bins: usize)
        requires
            self.window_size + self.window_pad_amnt <= usize::MAX,
        ensures
            bins == self.bins(),
    {
        (self.window_size + self.window_pad_amnt) / 2 + 1
    }
}

/// Which rows of the matrix a magnitude picture shows, and the range of
/// log-magnitudes that its bytes span. The two ends of `intensity_range` are
/// bit patterns of binary32 numbers.
#[derive(Clone, Copy, Debug)]
pub struct SpectrogramIntensityPlotSettings {
    pub bin_range: [usize; 2],
    pub intensity_range: [u32; 2],
}

/// Which rows of the matrix a phase picture shows, and the angle at which the
/// circle is cut, as the bit pattern of a binary32 number.
#[derive(Clone, Copy, Debug)]
pub struct SpectrogramPhasePlotSettings {
    pub bin_range: [usize; 2],
    pub lower_seam: u32,
}

} // verus!
