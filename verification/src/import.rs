//! The matrix from a picture of magnitudes.
//!
//! Every byte of the picture is turned into a magnitude by a function of the
//! caller, and the magnitude is put into the cell that the byte stands for:
//! in place of what the cell held, or worked into it by a second function.
//! The rows outside the picture's bin range stay as they are or are made
//! zero.

use vstd::prelude::*;
use crate::arith::lemma_cell_index;
use crate::bits::ComplexBits;
use crate::encoding::byte_index;
use crate::encoding::lemma_byte_index;
use crate::error::SpectrogramError;
use crate::matrix::SpectrogramImage;
use crate::settings::SpectrogramIntensityPlotSettings;

verus! {

/// What becomes of the rows outside the bin range of a picture.
#[derive(Clone, Copy, Debug, PartialEq, Eq, Structural)]
pub enum ZeroingBehavior {
    ZeroOutsideRange,
    NoZeroing,
}

/// `after` is what `apply` may make of the cell `before` and a magnitude
/// that `decode` may give for `byte` in the intensity range from `low` to
/// `high`.
pub open spec fn cell_imported<D, P>(
    decode: &D,
    apply: &P,
    byte: u8,
    low: u32,
    high: u32,
    before: ComplexBits,
    after: ComplexBits,
) -> bool where D: Fn(u8, u32, u32) -> u32, P: Fn(ComplexBits, u32) -> ComplexBits {
    exists|intensity: u32|
        #[trigger] decode.ensures((byte, low, high), intensity) && apply.ensures(
            (before, intensity),
            after,
        )
}

impl SpectrogramImage {
    /// Makes the cells of column `x` zero that lie below `first_bin` or at
    /// and above `last_bin_plus_one`.
    pub fn zero_outside_range(&mut self, x: usize, first_bin: usize, last_bin_plus_one: usize)
        requires
            old(self).wf(),
            x < old(self).width,
        ensures
            final(self).same_shape(old(self)),
            forall|cx: int, cy: int|
                0 <= cx < old(self).width && 0 <= cy < old(self).height
                    ==> #[trigger] final(self).cell(cx, cy) == if cx == x && !(first_bin <= cy
                    < last_bin_plus_one) {
                    ComplexBits::spec_zero()
                } else {
                    old(self).cell(cx, cy)
                },
    {
        let mut y: usize = 0;
        while y < self.height
            invariant
                self.same_shape(old(self)),
                x < self.width,
                y <= self.height,
                forall|cx: int, cy: int|
                    0 <= cx < self.width && 0 <= cy < self.height ==> #[trigger] self.cell(cx, cy)
                        == if cx == x && cy < y && !(first_bin <= cy < last_bin_plus_one) {
                        ComplexBits::spec_zero()
                    } else {
                        old(self).cell(cx, cy)
                    },
            decreases self.height - y,
        {
            if y < first_bin || y >= last_bin_plus_one {
                self.set_at(x, y, ComplexBits::zero());
            }
            y += 1;
        }
    }

    /// The cell of column `x` and row `y` is as an import leaves it: inside
    /// the bin range made of its byte and of what it was in `before`,
    /// outside the range zero or as it was.
    pub open spec fn import_holds_at<D, P>(
        &self,
        before: &SpectrogramImage,
        settings: SpectrogramIntensityPlotSettings,
        buffer: Seq<u8>,
        zeroing: ZeroingBehavior,
        decode: &D,
        apply: &P,
        x: int,
        y: int,
    ) -> bool where D: Fn(u8, u32, u32) -> u32, P: Fn(ComplexBits, u32) -> ComplexBits {
        if settings.bin_range[0] <= y < settings.bin_range[1] {
            cell_imported(
                decode,
                apply,
                buffer[byte_index(self.width, settings.bin_range, x, y)],
                settings.intensity_range[0],
                settings.intensity_range[1],
                before.cell(x, y),
                self.cell(x, y),
            )
        } else {
            self.cell(x, y) == if zeroing == ZeroingBehavior::ZeroOutsideRange {
                ComplexBits::spec_zero()
            } else {
                before.cell(x, y)
            }
        }
    }

    /// `self` is `before` with the magnitudes of a picture worked in.
    pub open spec fn imported_from<D, P>(
        &self,
        before: &SpectrogramImage,
        settings: SpectrogramIntensityPlotSettings,
        buffer: Seq<u8>,
        zeroing: ZeroingBehavior,
        decode: &D,
        apply: &P,
    ) -> bool where D: Fn(u8, u32, u32) -> u32, P: Fn(ComplexBits, u32) -> ComplexBits {
        &&& self.same_shape(before)
        &&& forall|x: int, y: int|
            0 <= x < self.width && 0 <= y < self.height ==> #[trigger] self.import_holds_at(
                before,
                settings,
                buffer,
                zeroing,
                decode,
                apply,
                x,
                y,
            )
    }

    /// How far an import has come when the columns before `next_x` are done
    /// and, of column `next_x`, the bins of the range below `next_y`.
    pub open spec fn import_reached<D, P>(
        &self,
        before: &SpectrogramImage,
        settings: SpectrogramIntensityPlotSettings,
        buffer: Seq<u8>,
        zeroing: ZeroingBehavior,
        decode: &D,
        apply: &P,
        x: int,
        y: int,
        next_x: int,
        next_y: int,
    ) -> bool where D: Fn(u8, u32, u32) -> u32, P: Fn(ComplexBits, u32) -> ComplexBits {
        if x < next_x {
            self.import_holds_at(before, settings, buffer, zeroing, decode, apply, x, y)
        } else if x == next_x && settings.bin_range[0] <= y < next_y {
            cell_imported(
                decode,
                apply,
                buffer[byte_index(self.width, settings.bin_range, x, y)],
                settings.intensity_range[0],
                settings.intensity_range[1],
                before.cell(x, y),
                self.cell(x, y),
            )
        } else {
            self.cell(x, y) == before.cell(x, y)
        }
    }

    /// Works the magnitudes of a picture into the matrix, column after
    /// column and in each column from the lowest bin of the range up.
    pub fn internal_apply_intensity_bytes<D, P>(
        &mut self,
        settings: &SpectrogramIntensityPlotSettings,
        buffer: &[u8],
        zeroing: ZeroingBehavior,
        decode: &D,
        apply: &P,
    ) where D: Fn(u8, u32, u32) -> u32, P: Fn(ComplexBits, u32) -> ComplexBits
        requires
            old(self).picture_fault(settings.bin_range, buffer@.len()) is None,
            forall|byte: u8|
                #[trigger] decode.requires(
                    (byte, settings.intensity_range[0], settings.intensity_range[1]),
                ),
            forall|cell: ComplexBits, intensity: u32| #[trigger] apply.requires((cell, intensity)),
        ensures
            final(self).imported_from(old(self), *settings, buffer@, zeroing, decode, apply),
    {
        let first: usize = settings.bin_range[0];
        let top: usize = settings.bin_range[1];
        let low: u32 = settings.intensity_range[0];
        let high: u32 = settings.intensity_range[1];
        let len: usize = buffer.len();
        let mut x: usize = 0;
        while x < self.width
            invariant
                len == buffer@.len(),
                first == settings.bin_range[0],
                top == settings.bin_range[1],
                low == settings.intensity_range[0],
                high == settings.intensity_range[1],
                old(self).picture_fault(settings.bin_range, buffer@.len()) is None,
                forall|byte: u8| #[trigger] decode.requires((byte, low, high)),
                forall|cell: ComplexBits, intensity: u32|
                    #[trigger] apply.requires((cell, intensity)),
                self.same_shape(old(self)),
                x <= self.width,
                forall|cx: int, cy: int|
                    0 <= cx < self.width && 0 <= cy < self.height ==> #[trigger] self.import_reached(
                        old(self),
                        *settings,
                        buffer@,
                        zeroing,
                        decode,
                        apply,
                        cx,
                        cy,
                        x as int,
                        first as int,
                    ),
            decreases self.width - x,
        {
            let mut y: usize = first;
            while y < top
                invariant
                    len == buffer@.len(),
                    first == settings.bin_range[0],
                    top == settings.bin_range[1],
                    low == settings.intensity_range[0],
                    high == settings.intensity_range[1],
                    old(self).picture_fault(settings.bin_range, buffer@.len()) is None,
                    forall|byte: u8| #[trigger] decode.requires((byte, low, high)),
                    forall|cell: ComplexBits, intensity: u32|
                        #[trigger] apply.requires((cell, intensity)),
                    self.same_shape(old(self)),
                    x < self.width,
                    first <= y <= top,
                    forall|cx: int, cy: int|
                        0 <= cx < self.width && 0 <= cy < self.height
                            ==> #[trigger] self.import_reached(
                            old(self),
                            *settings,
                            buffer@,
                            zeroing,
                            decode,
                            apply,
                            cx,
                            cy,
                            x as int,
                            y as int,
                        ),
                decreases top - y,
            {
                proof {
                    lemma_byte_index(self.width, settings.bin_range, x as int, y as int);
                    lemma_cell_index(
                        x as int,
                        top - 1 - y,
                        self.width as int,
                        (top - first) as int,
                    );
                }
                let byte_val: u8 = buffer[(top - 1 - y) * self.width + x];
                let intensity: u32 = decode(byte_val, low, high);
                let current: ComplexBits = self.get_at(x, y);
                let applied: ComplexBits = apply(current, intensity);
                let ghost prior = *self;
                self.set_at(x, y, applied);
                proof {
                    assert(prior.import_reached(
                        old(self),
                        *settings,
                        buffer@,
                        zeroing,
                        decode,
                        apply,
                        x as int,
                        y as int,
                        x as int,
                        y as int,
                    ));
                    assert forall|cx: int, cy: int|
                        0 <= cx < self.width && 0 <= cy < self.height
                        implies #[trigger] self.import_reached(
                        old(self),
                        *settings,
                        buffer@,
                        zeroing,
                        decode,
                        apply,
                        cx,
                        cy,
                        x as int,
                        y + 1,
                    ) by {
                        assert(prior.import_reached(
                            old(self),
                            *settings,
                            buffer@,
                            zeroing,
                            decode,
                            apply,
                            cx,
                            cy,
                            x as int,
                            y as int,
                        ));
                        if cx == x && cy == y {
                            assert(self.cell(cx, cy) == applied);
                        } else {
                            assert(self.cell(cx, cy) == prior.cell(cx, cy));
                        }
                    }
                }
                y += 1;
            }
            let ghost filled = *self;
            match zeroing {
                ZeroingBehavior::ZeroOutsideRange => {
                    self.zero_outside_range(x, first, top);
                },
                ZeroingBehavior::NoZeroing => {},
            }
            proof {
                assert forall|cx: int, cy: int|
                    0 <= cx < self.width && 0 <= cy < self.height
                    implies #[trigger] self.import_reached(
                    old(self),
                    *settings,
                    buffer@,
                    zeroing,
                    decode,
                    apply,
                    cx,
                    cy,
                    x + 1,
                    first as int,
                ) by {
                    assert(filled.import_reached(
                        old(self),
                        *settings,
                        buffer@,
                        zeroing,
                        decode,
                        apply,
                        cx,
                        cy,
                        x as int,
                        top as int,
                    ));
                    if zeroing == ZeroingBehavior::ZeroOutsideRange {
                        assert(self.cell(cx, cy) == if cx == x && !(first <= cy < top) {
                            ComplexBits::spec_zero()
                        } else {
                            filled.cell(cx, cy)
                        });
                    }
                }
            }
            x += 1;
        }
        proof {
            assert forall|cx: int, cy: int|
                0 <= cx < self.width && 0 <= cy < self.height
                implies #[trigger] self.import_holds_at(
                old(self),
                *settings,
                buffer@,
                zeroing,
                decode,
                apply,
                cx,
                cy,
            ) by {
                assert(self.import_reached(
                    old(self),
                    *settings,
                    buffer@,
                    zeroing,
                    decode,
                    apply,
                    cx,
                    cy,
                    self.width as int,
                    first as int,
                ));
            }
        }
    }

    /// The cell of column `x` and row `y` is as a picture of magnitudes
    /// alone leaves it: inside the bin range it is real, with a magnitude
    /// that `decode` may give for its byte; outside the range it is zero or
    /// as it was.
    pub open spec fn replaced_at<D: Fn(u8, u32, u32) -> u32>(
        &self,
        before: &SpectrogramImage,
        settings: SpectrogramIntensityPlotSettings,
        buffer: Seq<u8>,
        zero_outside: bool,
        decode: &D,
        x: int,
        y: int,
    ) -> bool {
        if settings.bin_range[0] <= y < settings.bin_range[1] {
            &&& self.cell(x, y).im == crate::bits::POSITIVE_ZERO
            &&& decode.ensures(
                (
                    buffer[byte_index(self.width, settings.bin_range, x, y)],
                    settings.intensity_range[0],
                    settings.intensity_range[1],
                ),
                self.cell(x, y).re,
            )
        } else {
            self.cell(x, y) == if zero_outside {
                ComplexBits::spec_zero()
            } else {
                before.cell(x, y)
            }
        }
    }

    /// Puts the magnitudes of a picture in place of the cells of its bin
    /// range, each with phase zero, and makes the other rows zero where
    /// `zero_outside` asks for it. A matrix, bin range or buffer that no
    /// picture can be read with is refused, and the matrix stays as it is.
    pub fn phaseless_from_intensity_bytes<D>(
        &mut self,
        settings: &SpectrogramIntensityPlotSettings,
        buffer: &[u8],
        zero_outside: bool,
        decode: D,
    ) -> (r: Result<(), SpectrogramError>) where D: Fn(u8, u32, u32) -> u32
        requires
            forall|byte: u8|
                #[trigger] decode.requires(
                    (byte, settings.intensity_range[0], settings.intensity_range[1]),
                ),
        ensures
            match r {
                Ok(_) => {
                    &&& old(self).intensity_fault(*settings, buffer@.len()) is None
                    &&& final(self).same_shape(old(self))
                    &&& forall|x: int, y: int|
                        0 <= x < old(self).width && 0 <= y < old(self).height
                            ==> #[trigger] final(self).replaced_at(
                            old(self),
                            *settings,
                            buffer@,
                            zero_outside,
                            &decode,
                            x,
                            y,
                        )
                },
                Err(e) => {
                    &&& old(self).intensity_fault(*settings, buffer@.len()) is Some
                    &&& e == SpectrogramError::InvalidConfiguration(
                        old(self).intensity_fault(*settings, buffer@.len())->0,
                    )
                    &&& *final(self) == *old(self)
                },
            },
    {
        match self.check_intensity_picture(settings, buffer.len()) {
            Err(e) => {
                return Err(e);
            },
            Ok(_) => {},
        }
        let replace = |cell: ComplexBits, intensity: u32| -> (c: ComplexBits)
            ensures
                c == ComplexBits::spec_from_real(intensity),
            { ComplexBits::from_real(intensity) };
        let zeroing = if zero_outside {
            ZeroingBehavior::ZeroOutsideRange
        } else {
            ZeroingBehavior::NoZeroing
        };
        self.internal_apply_intensity_bytes(settings, buffer, zeroing, &decode, &replace);
        proof {
            assert forall|x: int, y: int|
                0 <= x < self.width && 0 <= y < self.height implies #[trigger] self.replaced_at(
                old(self),
                *settings,
                buffer@,
                zero_outside,
                &decode,
                x,
                y,
            ) by {
                assert(self.import_holds_at(
                    old(self),
                    *settings,
                    buffer@,
                    zeroing,
                    &decode,
                    &replace,
                    x,
                    y,
                ));
            }
        }
        Ok(())
    }

    /// Works the magnitudes of a picture into the cells of its bin range:
    /// each cell becomes what `scale` makes of it and its magnitude. The
    /// other rows stay as they are. A matrix, bin range or buffer that no
    /// picture can be read with is refused, and the matrix stays as it is.
    pub fn apply_intensity_bytes<D, M>(
        &mut self,
        settings: &SpectrogramIntensityPlotSettings,
        buffer: &[u8],
        decode: D,
        scale: M,
    ) -> (r: Result<(), SpectrogramError>) where
        D: Fn(u8, u32, u32) -> u32,
        M: Fn(ComplexBits, u32) -> ComplexBits,

        requires
            forall|byte: u8|
                #[trigger] decode.requires(
                    (byte, settings.intensity_range[0], settings.intensity_range[1]),
                ),
            forall|cell: ComplexBits, intensity: u32| #[trigger] scale.requires((cell, intensity)),
        ensures
            match r {
                Ok(_) => {
                    &&& old(self).intensity_fault(*settings, buffer@.len()) is None
                    &&& final(self).imported_from(
                        old(self),
                        *settings,
                        buffer@,
                        ZeroingBehavior::NoZeroing,
                        &decode,
                        &scale,
                    )
                },
                Err(e) => {
                    &&& old(self).intensity_fault(*settings, buffer@.len()) is Some
                    &&& e == SpectrogramError::InvalidConfiguration(
                        old(self).intensity_fault(*settings, buffer@.len())->0,
                    )
                    &&& *final(self) == *old(self)
                },
            },
    {
        match self.check_intensity_picture(settings, buffer.len()) {
            Err(e) => {
                return Err(e);
            },
            Ok(_) => {},
        }
        self.internal_apply_intensity_bytes(
            settings,
            buffer,
            ZeroingBehavior::NoZeroing,
            &decode,
            &scale,
        );
        Ok(())
    }
}

} // verus!
