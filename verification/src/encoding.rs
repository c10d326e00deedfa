//! Pictures of the matrix, and the matrix from a picture.
//!
//! A picture is a grid of bytes, one row for every bin of a bin range and one
//! column for every column of the matrix, stored row after row. Its first
//! row is the highest bin of the range, as in an image, where up is high.
//! What a byte says of a cell, and a cell of a byte, is for the functions
//! that the caller hands in.

use vstd::prelude::*;
use crate::arith::lemma_cell_index;
use crate::arith::lemma_cell_index_unique;
use crate::bits::is_less;
use crate::bits::less_than;
use crate::bits::ComplexBits;
use crate::error::ConfigurationFault;
use crate::error::SpectrogramError;
use crate::matrix::SpectrogramImage;
use crate::settings::SpectrogramIntensityPlotSettings;
use crate::settings::SpectrogramPhasePlotSettings;

verus! {

/// Rows of the picture of a bin range.
pub open spec fn picture_rows(bin_range: [usize; 2]) -> nat {
    (bin_range[1] - bin_range[0]) as nat
}

/// Where the byte of column `x` and bin `y` lies in a picture that is `width`
/// wide: in the row that is as far from the top as `y` is from the highest
/// bin of the range.
pub open spec fn byte_index(width: usize, bin_range: [usize; 2], x: int, y: int) -> int {
    (bin_range[1] - 1 - y) * width + x
}

/// The place of a byte lies inside the picture, and no two cells of the bin
/// range share a place.
pub proof fn lemma_byte_index(width: usize, bin_range: [usize; 2], x: int, y: int)
    requires
        bin_range[0] <= y < bin_range[1],
        0 <= x < width,
    ensures
        0 <= byte_index(width, bin_range, x, y) < width * picture_rows(bin_range),
        forall|ox: int, oy: int|
            bin_range[0] <= oy < bin_range[1] && 0 <= ox < width && #[trigger] byte_index(
                width,
                bin_range,
                ox,
                oy,
            ) == byte_index(width, bin_range, x, y) ==> ox == x && oy == y,
{
    let top = bin_range[1] as int;
    lemma_cell_index(x, top - 1 - y, width as int, picture_rows(bin_range) as int);
    assert forall|ox: int, oy: int|
        bin_range[0] <= oy < bin_range[1] && 0 <= ox < width && #[trigger] byte_index(
            width,
            bin_range,
            ox,
            oy,
        ) == byte_index(width, bin_range, x, y) implies ox == x && oy == y by {
        lemma_cell_index_unique(ox, top - 1 - oy, x, top - 1 - y, width as int);
    }
}

/// The cell to the left of a cell, where there is one.
pub open spec fn previous_cell(img: &SpectrogramImage, x: int, y: int) -> Option<ComplexBits> {
    if x > 0 {
        Some(img.cell(x - 1, y))
    } else {
        None
    }
}

impl SpectrogramImage {
    /// What stands in the way of a picture of `bin_range` in a buffer of
    /// `buffer_len` bytes, if anything does.
    pub open spec fn picture_fault(&self, bin_range: [usize; 2], buffer_len: nat) -> Option<
        ConfigurationFault,
    > {
        if !self.wf() {
            Some(ConfigurationFault::MatrixShape)
        } else if !(bin_range[0] <= bin_range[1] <= self.height) {
            Some(ConfigurationFault::BinRange)
        } else if buffer_len < self.width * picture_rows(bin_range) {
            Some(ConfigurationFault::BufferLength)
        } else {
            None
        }
    }

    /// Refuses a matrix, a bin range and a buffer that no picture can be
    /// made with.
    pub fn check_picture(&self, bin_range: [usize; 2], buffer_len: usize) -> (r: Result<
        (),
        SpectrogramError,
    >)
        ensures
            r == match self.picture_fault(bin_range, buffer_len as nat) {
                Some(fault) => Err::<(), SpectrogramError>(
                    SpectrogramError::InvalidConfiguration(fault),
                ),
                None => Ok(()),
            },
    {
        if !self.is_well_formed() {
            return Err(SpectrogramError::InvalidConfiguration(ConfigurationFault::MatrixShape));
        }
        if !(bin_range[0] <= bin_range[1] && bin_range[1] <= self.height) {
            return Err(SpectrogramError::InvalidConfiguration(ConfigurationFault::BinRange));
        }
        proof {
            crate::arith::lemma_mul_le(
                self.width as int,
                picture_rows(bin_range) as int,
                self.width as int,
                self.height as int,
            );
            assert(self.data.len() == self.data@.len());
        }
        if buffer_len < self.width * (bin_range[1] - bin_range[0]) {
            return Err(SpectrogramError::InvalidConfiguration(ConfigurationFault::BufferLength));
        }
        Ok(())
    }

    /// `after` is `before` with the picture of `bin_range` written to it:
    /// the byte of every cell of the range is one that `encode` may give for
    /// the cell and the cell to its left, and what lies behind the picture is
    /// as it was.
    pub open spec fn pictured<E: Fn(ComplexBits, Option<ComplexBits>) -> u8>(
        &self,
        bin_range: [usize; 2],
        encode: &E,
        before: Seq<u8>,
        after: Seq<u8>,
    ) -> bool {
        &&& after.len() == before.len()
        &&& forall|x: int, y: int|
            0 <= x < self.width && bin_range[0] <= y < bin_range[1] ==> encode.ensures(
                (self.cell(x, y), previous_cell(self, x, y)),
                #[trigger] after[byte_index(self.width, bin_range, x, y)],
            )
        &&& forall|i: int|
            self.width * picture_rows(bin_range) <= i < before.len() ==> after[i] == before[i]
    }

    /// Writes the picture of `bin_range`, column after column and in each
    /// column from the lowest bin up.
    pub fn encode_cells<E>(&self, bin_range: [usize; 2], buffer: &mut [u8], encode: &E) where
        E: Fn(ComplexBits, Option<ComplexBits>) -> u8,

        requires
            self.picture_fault(bin_range, old(buffer)@.len()) is None,
            forall|cell: ComplexBits, left: Option<ComplexBits>|
                #[trigger] encode.requires((cell, left)),
        ensures
            self.pictured(bin_range, encode, old(buffer)@, final(buffer)@),
    {
        let first: usize = bin_range[0];
        let top: usize = bin_range[1];
        let len: usize = buffer.len();
        let mut x: usize = 0;
        while x < self.width
            invariant
                len == buffer@.len(),
                self.picture_fault(bin_range, old(buffer)@.len()) is None,
                forall|cell: ComplexBits, left: Option<ComplexBits>|
                    #[trigger] encode.requires((cell, left)),
                first == bin_range[0],
                top == bin_range[1],
                x <= self.width,
                buffer@.len() == old(buffer)@.len(),
                forall|cx: int, cy: int|
                    0 <= cx < x && first <= cy < top ==> encode.ensures(
                        (self.cell(cx, cy), previous_cell(self, cx, cy)),
                        #[trigger] buffer@[byte_index(self.width, bin_range, cx, cy)],
                    ),
                forall|i: int|
                    self.width * picture_rows(bin_range) <= i < buffer@.len() ==> buffer@[i]
                        == old(buffer)@[i],
            decreases self.width - x,
        {
            let mut y: usize = first;
            while y < top
                invariant
                    len == buffer@.len(),
                    self.picture_fault(bin_range, old(buffer)@.len()) is None,
                    forall|cell: ComplexBits, left: Option<ComplexBits>|
                        #[trigger] encode.requires((cell, left)),
                    first == bin_range[0],
                    top == bin_range[1],
                    x < self.width,
                    first <= y <= top,
                    buffer@.len() == old(buffer)@.len(),
                    forall|cx: int, cy: int|
                        first <= cy < top && (0 <= cx < x || (cx == x && cy < y))
                            ==> encode.ensures(
                            (self.cell(cx, cy), previous_cell(self, cx, cy)),
                            #[trigger] buffer@[byte_index(self.width, bin_range, cx, cy)],
                        ),
                    forall|i: int|
                        self.width * picture_rows(bin_range) <= i < buffer@.len() ==> buffer@[i]
                            == old(buffer)@[i],
                decreases top - y,
            {
                let cell: ComplexBits = self.get_at(x, y);
                let left: Option<ComplexBits> = if x > 0 {
                    Some(self.get_at(x - 1, y))
                } else {
                    None
                };
                let byte: u8 = encode(cell, left);
                proof {
                    lemma_byte_index(self.width, bin_range, x as int, y as int);
                    lemma_cell_index(
                        x as int,
                        top - 1 - y,
                        self.width as int,
                        picture_rows(bin_range) as int,
                    );
                }
                let index: usize = (top - 1 - y) * self.width + x;
                let ghost prior = buffer@;
                buffer[index] = byte;
                proof {
                    assert forall|cx: int, cy: int|
                        first <= cy < top && (0 <= cx < x || (cx == x && cy < y + 1))
                        implies encode.ensures(
                        (self.cell(cx, cy), previous_cell(self, cx, cy)),
                        #[trigger] buffer@[byte_index(self.width, bin_range, cx, cy)],
                    ) by {
                        lemma_byte_index(self.width, bin_range, cx, cy);
                        let place = byte_index(self.width, bin_range, cx, cy);
                        if cx == x && cy == y {
                        } else {
                            assert(place != index);
                            assert(buffer@[place] == prior[place]);
                        }
                    }
                }
                y += 1;
            }
            x += 1;
        }
    }

    /// What stands in the way of a magnitude picture in a buffer of
    /// `buffer_len` bytes, if anything does: what stands in the way of any
    /// picture, or an intensity range whose lower end is not less than its
    /// upper end.
    pub open spec fn intensity_fault(
        &self,
        settings: SpectrogramIntensityPlotSettings,
        buffer_len: nat,
    ) -> Option<ConfigurationFault> {
        if self.picture_fault(settings.bin_range, buffer_len) is Some {
            self.picture_fault(settings.bin_range, buffer_len)
        } else if !less_than(settings.intensity_range[0], settings.intensity_range[1]) {
            Some(ConfigurationFault::IntensityRange)
        } else {
            None
        }
    }

    /// Refuses a matrix, settings and a buffer that no magnitude picture can
    /// be made with.
    pub fn check_intensity_picture(
        &self,
        settings: &SpectrogramIntensityPlotSettings,
        buffer_len: usize,
    ) -> (r: Result<(), SpectrogramError>)
        ensures
            r == match self.intensity_fault(*settings, buffer_len as nat) {
                Some(fault) => Err::<(), SpectrogramError>(
                    SpectrogramError::InvalidConfiguration(fault),
                ),
                None => Ok(()),
            },
    {
        match self.check_picture(settings.bin_range, buffer_len) {
            Err(e) => {
                return Err(e);
            },
            Ok(_) => {},
        }
        if !is_less(settings.intensity_range[0], settings.intensity_range[1]) {
            return Err(
                SpectrogramError::InvalidConfiguration(ConfigurationFault::IntensityRange),
            );
        }
        Ok(())
    }

    /// `after` is `before` with the magnitude picture written to it: the
    /// byte of every cell of the bin range is one that `encode` may give for
    /// the cell and the two ends of the intensity range.
    pub open spec fn intensity_pictured<E: Fn(ComplexBits, u32, u32) -> u8>(
        &self,
        settings: SpectrogramIntensityPlotSettings,
        encode: &E,
        before: Seq<u8>,
        after: Seq<u8>,
    ) -> bool {
        &&& after.len() == before.len()
        &&& forall|x: int, y: int|
            0 <= x < self.width && settings.bin_range[0] <= y < settings.bin_range[1]
                ==> encode.ensures(
                (self.cell(x, y), settings.intensity_range[0], settings.intensity_range[1]),
                #[trigger] after[byte_index(self.width, settings.bin_range, x, y)],
            )
        &&& forall|i: int|
            self.width * picture_rows(settings.bin_range) <= i < before.len() ==> after[i]
                == before[i]
    }

    /// Writes the magnitude picture of the bin range to `buffer`, or refuses
    /// and leaves `buffer` as it is.
    pub fn to_intensity_bytes<E>(
        &self,
        settings: &SpectrogramIntensityPlotSettings,
        buffer: &mut [u8],
        encode: E,
    ) -> (r: Result<(), SpectrogramError>) where E: Fn(ComplexBits, u32, u32) -> u8
        requires
            forall|cell: ComplexBits|
                #[trigger] encode.requires(
                    (cell, settings.intensity_range[0], settings.intensity_range[1]),
                ),
        ensures
            match r {
                Ok(_) => {
                    &&& self.intensity_fault(*settings, old(buffer)@.len()) is None
                    &&& self.intensity_pictured(*settings, &encode, old(buffer)@, final(buffer)@)
                },
                Err(e) => {
                    &&& self.intensity_fault(*settings, old(buffer)@.len()) is Some
                    &&& e == SpectrogramError::InvalidConfiguration(
                        self.intensity_fault(*settings, old(buffer)@.len())->0,
                    )
                    &&& final(buffer)@ == old(buffer)@
                },
            },
    {
        match self.check_intensity_picture(settings, buffer.len()) {
            Err(e) => {
                return Err(e);
            },
            Ok(_) => {},
        }
        let low: u32 = settings.intensity_range[0];
        let high: u32 = settings.intensity_range[1];
        let kernel: &E = &encode;
        let each = |cell: ComplexBits, left: Option<ComplexBits>| -> (byte: u8)
            requires
                kernel.requires((cell, low, high)),
            ensures
                kernel.ensures((cell, low, high), byte),
            { kernel(cell, low, high) };
        self.encode_cells(settings.bin_range, buffer, &each);
        Ok(())
    }

    /// A buffer of zero bytes for the picture of `bin_range`, where the
    /// matrix and the bin range allow one.
    pub fn picture_buffer(&self, bin_range: [usize; 2]) -> (r: Result<Vec<u8>, SpectrogramError>)
        ensures
            match r {
                Ok(bytes) => {
                    &&& self.picture_fault(bin_range, usize::MAX as nat) is None
                    &&& bytes@.len() == self.width * picture_rows(bin_range)
                    &&& self.picture_fault(bin_range, bytes@.len()) is None
                    &&& forall|i: int| 0 <= i < bytes@.len() ==> bytes@[i] == 0
                },
                Err(e) => {
                    &&& self.picture_fault(bin_range, usize::MAX as nat) is Some
                    &&& e == SpectrogramError::InvalidConfiguration(
                        self.picture_fault(bin_range, usize::MAX as nat)->0,
                    )
                },
            },
    {
        match self.check_picture(bin_range, usize::MAX) {
            Err(e) => {
                return Err(e);
            },
            Ok(_) => {},
        }
        proof {
            crate::arith::lemma_mul_le(
                self.width as int,
                picture_rows(bin_range) as int,
                self.width as int,
                self.height as int,
            );
            assert(self.data.len() == self.data@.len());
        }
        let size: usize = self.width * (bin_range[1] - bin_range[0]);
        let mut bytes: Vec<u8> = Vec::new();
        let mut i: usize = 0;
        while i < size
            invariant
                i <= size,
                bytes@.len() == i,
                forall|k: int| 0 <= k < i ==> bytes@[k] == 0,
            decreases size - i,
        {
            bytes.push(0u8);
            i += 1;
        }
        Ok(bytes)
    }

    /// The magnitude picture of the bin range.
    pub fn create_intensity_bytes<E>(
        &self,
        settings: &SpectrogramIntensityPlotSettings,
        encode: E,
    ) -> (r: Result<Vec<u8>, SpectrogramError>) where E: Fn(ComplexBits, u32, u32) -> u8
        requires
            forall|cell: ComplexBits|
                #[trigger] encode.requires(
                    (cell, settings.intensity_range[0], settings.intensity_range[1]),
                ),
        ensures
            match r {
                Ok(bytes) => {
                    &&& self.intensity_fault(*settings, usize::MAX as nat) is None
                    &&& bytes@.len() == self.width * picture_rows(settings.bin_range)
                    &&& self.intensity_pictured(*settings, &encode, bytes@, bytes@)
                },
                Err(e) => {
                    &&& self.intensity_fault(*settings, usize::MAX as nat) is Some
                    &&& e == SpectrogramError::InvalidConfiguration(
                        self.intensity_fault(*settings, usize::MAX as nat)->0,
                    )
                },
            },
    {
        let mut myvec: Vec<u8> = match self.picture_buffer(settings.bin_range) {
            Ok(bytes) => bytes,
            Err(e) => {
                return Err(e);
            },
        };
        if !is_less(settings.intensity_range[0], settings.intensity_range[1]) {
            return Err(
                SpectrogramError::InvalidConfiguration(ConfigurationFault::IntensityRange),
            );
        }
        let kernel: &E = &encode;
        let written = self.to_intensity_bytes(settings, myvec.as_mut_slice(), kernel);
        Ok(myvec)
    }

    /// `after` is `before` with the phase picture written to it: the byte of
    /// every cell of the bin range is one that `encode` may give for the
    /// cell and the seam.
    pub open spec fn phase_pictured<E: Fn(ComplexBits, u32) -> u8>(
        &self,
        settings: SpectrogramPhasePlotSettings,
        encode: &E,
        before: Seq<u8>,
        after: Seq<u8>,
    ) -> bool {
        &&& after.len() == before.len()
        &&& forall|x: int, y: int|
            0 <= x < self.width && settings.bin_range[0] <= y < settings.bin_range[1]
                ==> encode.ensures(
                (self.cell(x, y), settings.lower_seam),
                #[trigger] after[byte_index(self.width, settings.bin_range, x, y)],
            )
        &&& forall|i: int|
            self.width * picture_rows(settings.bin_range) <= i < before.len() ==> after[i]
                == before[i]
    }

    /// Writes the phase picture of the bin range to `buffer`, or refuses and
    /// leaves `buffer` as it is.
    pub fn to_absolute_phase_bytes<E>(
        &self,
        settings: &SpectrogramPhasePlotSettings,
        buffer: &mut [u8],
        encode: E,
    ) -> (r: Result<(), SpectrogramError>) where E: Fn(ComplexBits, u32) -> u8
        requires
            forall|cell: ComplexBits| #[trigger] encode.requires((cell, settings.lower_seam)),
        ensures
            match r {
                Ok(_) => {
                    &&& self.picture_fault(settings.bin_range, old(buffer)@.len()) is None
                    &&& self.phase_pictured(*settings, &encode, old(buffer)@, final(buffer)@)
                },
                Err(e) => {
                    &&& self.picture_fault(settings.bin_range, old(buffer)@.len()) is Some
                    &&& e == SpectrogramError::InvalidConfiguration(
                        self.picture_fault(settings.bin_range, old(buffer)@.len())->0,
                    )
                    &&& final(buffer)@ == old(buffer)@
                },
            },
    {
        match self.check_picture(settings.bin_range, buffer.len()) {
            Err(e) => {
                return Err(e);
            },
            Ok(_) => {},
        }
        let seam: u32 = settings.lower_seam;
        let kernel: &E = &encode;
        let each = |cell: ComplexBits, left: Option<ComplexBits>| -> (byte: u8)
            requires
                kernel.requires((cell, seam)),
            ensures
                kernel.ensures((cell, seam), byte),
            { kernel(cell, seam) };
        self.encode_cells(settings.bin_range, buffer, &each);
        Ok(())
    }

    /// The phase picture of the bin range.
    pub fn create_phase_bytes<E>(&self, settings: &SpectrogramPhasePlotSettings, encode: E) -> (r:
        Result<Vec<u8>, SpectrogramError>) where E: Fn(ComplexBits, u32) -> u8
        requires
            forall|cell: ComplexBits| #[trigger] encode.requires((cell, settings.lower_seam)),
        ensures
            match r {
                Ok(bytes) => {
                    &&& self.picture_fault(settings.bin_range, usize::MAX as nat) is None
                    &&& bytes@.len() == self.width * picture_rows(settings.bin_range)
                    &&& self.phase_pictured(*settings, &encode, bytes@, bytes@)
                },
                Err(e) => {
                    &&& self.picture_fault(settings.bin_range, usize::MAX as nat) is Some
                    &&& e == SpectrogramError::InvalidConfiguration(
                        self.picture_fault(settings.bin_range, usize::MAX as nat)->0,
                    )
                },
            },
    {
        let mut myvec: Vec<u8> = match self.picture_buffer(settings.bin_range) {
            Ok(bytes) => bytes,
            Err(e) => {
                return Err(e);
            },
        };
        let kernel: &E = &encode;
        let written = self.to_absolute_phase_bytes(settings, myvec.as_mut_slice(), kernel);
        Ok(myvec)
    }

    /// `after` is `before` with the picture of phase steps written to it:
    /// the byte of every cell of the bin range is one that `encode` may give
    /// for the cell, the cell to its left, and the seam. The cells of the
    /// first column have no cell to their left.
    pub open spec fn relative_phase_pictured<E: Fn(ComplexBits, Option<ComplexBits>, u32) -> u8>(
        &self,
        settings: SpectrogramPhasePlotSettings,
        encode: &E,
        before: Seq<u8>,
        after: Seq<u8>,
    ) -> bool {
        &&& after.len() == before.len()
        &&& forall|x: int, y: int|
            0 <= x < self.width && settings.bin_range[0] <= y < settings.bin_range[1]
                ==> encode.ensures(
                (self.cell(x, y), previous_cell(self, x, y), settings.lower_seam),
                #[trigger] after[byte_index(self.width, settings.bin_range, x, y)],
            )
        &&& forall|i: int|
            self.width * picture_rows(settings.bin_range) <= i < before.len() ==> after[i]
                == before[i]
    }

    /// Writes the picture of phase steps from column to column to `buffer`,
    /// or refuses and leaves `buffer` as it is.
    pub fn to_relative_phase_bytes<E>(
        &self,
        settings: &SpectrogramPhasePlotSettings,
        buffer: &mut [u8],
        encode: E,
    ) -> (r: Result<(), SpectrogramError>) where E: Fn(ComplexBits, Option<ComplexBits>, u32) -> u8
        requires
            forall|cell: ComplexBits, left: Option<ComplexBits>|
                #[trigger] encode.requires((cell, left, settings.lower_seam)),
        ensures
            match r {
                Ok(_) => {
                    &&& self.picture_fault(settings.bin_range, old(buffer)@.len()) is None
                    &&& self.relative_phase_pictured(
                        *settings,
                        &encode,
                        old(buffer)@,
                        final(buffer)@,
                    )
                },
                Err(e) => {
                    &&& self.picture_fault(settings.bin_range, old(buffer)@.len()) is Some
                    &&& e == SpectrogramError::InvalidConfiguration(
                        self.picture_fault(settings.bin_range, old(buffer)@.len())->0,
                    )
                    &&& final(buffer)@ == old(buffer)@
                },
            },
    {
        match self.check_picture(settings.bin_range, buffer.len()) {
            Err(e) => {
                return Err(e);
            },
            Ok(_) => {},
        }
        let seam: u32 = settings.lower_seam;
        let kernel: &E = &encode;
        let each = |cell: ComplexBits, left: Option<ComplexBits>| -> (byte: u8)
            requires
                kernel.requires((cell, left, seam)),
            ensures
                kernel.ensures((cell, left, seam), byte),
            { kernel(cell, left, seam) };
        self.encode_cells(settings.bin_range, buffer, &each);
        Ok(())
    }

    /// The picture of phase steps from column to column.
    pub fn create_relative_phase_bytes<E>(
        &self,
        settings: &SpectrogramPhasePlotSettings,
        encode: E,
    ) -> (r: Result<Vec<u8>, SpectrogramError>) where
        E: Fn(ComplexBits, Option<ComplexBits>, u32) -> u8,

        requires
            forall|cell: ComplexBits, left: Option<ComplexBits>|
                #[trigger] encode.requires((cell, left, settings.lower_seam)),
        ensures
            match r {
                Ok(bytes) => {
                    &&& self.picture_fault(settings.bin_range, usize::MAX as nat) is None
                    &&& bytes@.len() == self.width * picture_rows(settings.bin_range)
                    &&& self.relative_phase_pictured(*settings, &encode, bytes@, bytes@)
                },
                Err(e) => {
                    &&& self.picture_fault(settings.bin_range, usize::MAX as nat) is Some
                    &&& e == SpectrogramError::InvalidConfiguration(
                        self.picture_fault(settings.bin_range, usize::MAX as nat)->0,
                    )
                },
            },
    {
        let mut myvec: Vec<u8> = match self.picture_buffer(settings.bin_range) {
            Ok(bytes) => bytes,
            Err(e) => {
                return Err(e);
            },
        };
        let kernel: &E = &encode;
        let written = self.to_relative_phase_bytes(settings, myvec.as_mut_slice(), kernel);
        Ok(myvec)
    }
}

} // verus!
