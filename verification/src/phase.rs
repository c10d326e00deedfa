//! Changing the cells of a matrix in place: taking the phase away, putting a
//! phase on, and whatever else a function of the caller makes of a cell.

use vstd::prelude::*;
use crate::arith::lemma_cell_index;
use crate::bits::ComplexBits;
use crate::bits::ONE;
use crate::bits::POSITIVE_ZERO;
use crate::error::ConfigurationFault;
use crate::error::SpectrogramError;
use crate::matrix::SpectrogramImage;

verus! {

/// `after` is `before` without its phases: every cell is real, with a
/// magnitude that `magnitude` may give for the cell that it was.
pub open spec fn phase_eliminated<M: Fn(ComplexBits) -> u32>(
    magnitude: &M,
    before: Seq<ComplexBits>,
    after: Seq<ComplexBits>,
) -> bool {
    &&& after.len() == before.len()
    &&& forall|i: int|
        0 <= i < before.len() ==> (#[trigger] after[i]).im == POSITIVE_ZERO && magnitude.ensures(
            (before[i],),
            after[i].re,
        )
}

/// Taking the phase away twice is taking it away once, where the magnitude
/// of a real number that is itself a magnitude is that number: the second
/// time leaves every cell as the first time made it.
pub proof fn lemma_eliminate_phase_twice<M: Fn(ComplexBits) -> u32>(
    magnitude: &M,
    start: Seq<ComplexBits>,
    once: Seq<ComplexBits>,
    twice: Seq<ComplexBits>,
)
    requires
        phase_eliminated(magnitude, start, once),
        phase_eliminated(magnitude, once, twice),
        forall|cell: ComplexBits, m: u32, again: u32|
            #[trigger] magnitude.ensures((cell,), m) && #[trigger] magnitude.ensures(
                (ComplexBits::spec_from_real(m),),
                again,
            ) ==> again == m,
    ensures
        twice == once,
{
    assert forall|i: int| 0 <= i < once.len() implies twice[i] == once[i] by {
        assert(once[i] == ComplexBits::spec_from_real(once[i].re));
        assert(magnitude.ensures((start[i],), once[i].re));
        assert(magnitude.ensures((once[i],), twice[i].re));
        assert(twice[i].im == POSITIVE_ZERO);
    }
    assert(twice =~= once);
}

/// One step along a row when a phase picture is put on: `next` is the phase
/// factor of this column, made from the factor `carried` over from the
/// column before and the factor that `phasor` may give for the byte. Where
/// the picture holds phases and not steps, nothing is carried over.
pub open spec fn phase_step<P, M>(
    phasor: &P,
    times: &M,
    byte: u8,
    seam: u32,
    relative: bool,
    carried: ComplexBits,
    next: ComplexBits,
) -> bool where P: Fn(u8, u32) -> ComplexBits, M: Fn(ComplexBits, ComplexBits) -> ComplexBits {
    exists|current: ComplexBits|
        #[trigger] phasor.ensures((byte, seam), current) && if relative {
            times.ensures((carried, current), next)
        } else {
            next == current
        }
}

/// The cell of column `x` is turned by the phase factor of its column, and
/// that factor is a step from the factor of the column before.
pub open spec fn turned_at<P, M>(
    phasor: &P,
    times: &M,
    byte: u8,
    seam: u32,
    relative: bool,
    factors: Seq<ComplexBits>,
    before: Seq<ComplexBits>,
    after: Seq<ComplexBits>,
    x: int,
) -> bool where P: Fn(u8, u32) -> ComplexBits, M: Fn(ComplexBits, ComplexBits) -> ComplexBits {
    &&& phase_step(phasor, times, byte, seam, relative, factors[x], factors[x + 1])
    &&& times.ensures((before[x], factors[x + 1]), after[x])
}

/// `after` is the row `before` with phases put on: there are phase factors,
/// one carried over to every column and the first of them `1.0`, such that
/// each is a step from the one before it and each cell is what `times` may
/// make of the cell that it was and the factor of its column.
pub open spec fn row_phased<P, M>(
    phasor: &P,
    times: &M,
    byte: u8,
    seam: u32,
    relative: bool,
    before: Seq<ComplexBits>,
    after: Seq<ComplexBits>,
) -> bool where P: Fn(u8, u32) -> ComplexBits, M: Fn(ComplexBits, ComplexBits) -> ComplexBits {
    exists|factors: Seq<ComplexBits>|
        {
            &&& #[trigger] factors.len() == before.len() + 1
            &&& after.len() == before.len()
            &&& factors[0] == ComplexBits::spec_from_real(ONE)
            &&& forall|x: int|
                0 <= x < before.len() ==> #[trigger] turned_at(
                    phasor,
                    times,
                    byte,
                    seam,
                    relative,
                    factors,
                    before,
                    after,
                    x,
                )
        }
}

impl SpectrogramImage {
    /// Row `y`, from the first column to the last.
    pub open spec fn row(&self, y: int) -> Seq<ComplexBits> {
        Seq::new(self.width as nat, |x: int| self.cell(x, y))
    }

    /// Replaces every cell by its magnitude, as a real number with phase
    /// zero.
    pub fn eliminate_phase<M>(&mut self, magnitude: M) where M: Fn(ComplexBits) -> u32
        requires
            forall|cell: ComplexBits| #[trigger] magnitude.requires((cell,)),
        ensures
            final(self).width == old(self).width,
            final(self).height == old(self).height,
            phase_eliminated(&magnitude, old(self).data@, final(self).data@),
    {
        let len: usize = self.data.len();
        let mut i: usize = 0;
        while i < len
            invariant
                forall|cell: ComplexBits| #[trigger] magnitude.requires((cell,)),
                self.width == old(self).width,
                self.height == old(self).height,
                len == self.data@.len(),
                len == old(self).data@.len(),
                i <= len,
                forall|k: int|
                    0 <= k < i ==> (#[trigger] self.data@[k]).im == POSITIVE_ZERO
                        && magnitude.ensures((old(self).data@[k],), self.data@[k].re),
                forall|k: int| i <= k < len ==> self.data@[k] == old(self).data@[k],
            decreases len - i,
        {
            let norm: u32 = magnitude(self.data[i]);
            self.data[i] = ComplexBits::from_real(norm);
            i += 1;
        }
    }

    /// Replaces every cell by what `update` makes of its column, its row and
    /// the cell itself, column after column.
    pub fn map_cells<F>(&mut self, update: F) where F: Fn(usize, usize, ComplexBits) -> ComplexBits
        requires
            old(self).wf(),
            forall|x: usize, y: usize, cell: ComplexBits| #[trigger] update.requires((x, y, cell)),
        ensures
            final(self).wf(),
            final(self).width == old(self).width,
            final(self).height == old(self).height,
            forall|x: int, y: int|
                0 <= x < old(self).width && 0 <= y < old(self).height ==> update.ensures(
                    (x as usize, y as usize, old(self).cell(x, y)),
                    #[trigger] final(self).cell(x, y),
                ),
    {
        let mut x: usize = 0;
        while x < self.width
            invariant
                forall|x: usize, y: usize, cell: ComplexBits|
                    #[trigger] update.requires((x, y, cell)),
                self.wf(),
                self.width == old(self).width,
                self.height == old(self).height,
                x <= self.width,
                forall|cx: int, cy: int|
                    0 <= cx < self.width && 0 <= cy < self.height ==> if cx < x {
                        update.ensures(
                            (cx as usize, cy as usize, old(self).cell(cx, cy)),
                            #[trigger] self.cell(cx, cy),
                        )
                    } else {
                        self.cell(cx, cy) == old(self).cell(cx, cy)
                    },
            decreases self.width - x,
        {
            let mut y: usize = 0;
            while y < self.height
                invariant
                    forall|x: usize, y: usize, cell: ComplexBits|
                        #[trigger] update.requires((x, y, cell)),
                    self.wf(),
                    self.width == old(self).width,
                    self.height == old(self).height,
                    x < self.width,
                    y <= self.height,
                    forall|cx: int, cy: int|
                        0 <= cx < self.width && 0 <= cy < self.height ==> if cx < x || (cx == x
                            && cy < y) {
                            update.ensures(
                                (cx as usize, cy as usize, old(self).cell(cx, cy)),
                                #[trigger] self.cell(cx, cy),
                            )
                        } else {
                            self.cell(cx, cy) == old(self).cell(cx, cy)
                        },
                decreases self.height - y,
            {
                let cell: ComplexBits = self.get_at(x, y);
                let updated: ComplexBits = update(x, y, cell);
                self.set_at(x, y, updated);
                y += 1;
            }
            x += 1;
        }
    }

    /// What stands in the way of putting a phase picture on: a matrix that
    /// does not hold its cells, or a buffer that ends before the first byte
    /// of the last row.
    pub open spec fn phase_fault(&self, buffer_len: nat) -> Option<ConfigurationFault> {
        if !self.wf() {
            Some(ConfigurationFault::MatrixShape)
        } else if self.width > 0 && self.height > 0 && buffer_len <= (self.height - 1)
            * self.width {
            Some(ConfigurationFault::BufferLength)
        } else {
            None
        }
    }

    /// Puts phases on the cells, row after row. Row `y` is turned by what
    /// the byte at `y * width` stands for: every cell by that phase, or,
    /// where `relative` says that the byte is a step from column to column,
    /// each cell by one step more than the cell to its left. A matrix or a
    /// buffer that this cannot be done with is refused, and the matrix stays
    /// as it is.
    pub fn apply_phase_bytes<P, M>(
        &mut self,
        lower_seam: u32,
        buffer: &[u8],
        relative: bool,
        phasor: P,
        times: M,
    ) -> (r: Result<(), SpectrogramError>) where
        P: Fn(u8, u32) -> ComplexBits,
        M: Fn(ComplexBits, ComplexBits) -> ComplexBits,

        requires
            forall|byte: u8| #[trigger] phasor.requires((byte, lower_seam)),
            forall|a: ComplexBits, b: ComplexBits| #[trigger] times.requires((a, b)),
        ensures
            match r {
                Ok(_) => {
                    &&& old(self).phase_fault(buffer@.len()) is None
                    &&& final(self).wf()
                    &&& final(self).width == old(self).width
                    &&& final(self).height == old(self).height
                    &&& forall|y: int|
                        0 <= y < old(self).height ==> row_phased(
                            &phasor,
                            &times,
                            buffer@[y * old(self).width],
                            lower_seam,
                            relative,
                            old(self).row(y),
                            #[trigger] final(self).row(y),
                        )
                },
                Err(e) => {
                    &&& old(self).phase_fault(buffer@.len()) is Some
                    &&& e == SpectrogramError::InvalidConfiguration(
                        old(self).phase_fault(buffer@.len())->0,
                    )
                    &&& *final(self) == *old(self)
                },
            },
    {
        if !self.is_well_formed() {
            return Err(SpectrogramError::InvalidConfiguration(ConfigurationFault::MatrixShape));
        }
        if self.width > 0 && self.height > 0 {
            proof {
                lemma_cell_index(
                    0,
                    self.height - 1,
                    self.width as int,
                    self.height as int,
                );
                assert(self.data.len() == self.data@.len());
            }
            if buffer.len() <= (self.height - 1) * self.width {
                return Err(
                    SpectrogramError::InvalidConfiguration(ConfigurationFault::BufferLength),
                );
            }
        }
        let len: usize = buffer.len();
        let mut y: usize = 0;
        while y < self.height
            invariant
                len == buffer@.len(),
                forall|byte: u8| #[trigger] phasor.requires((byte, lower_seam)),
                forall|a: ComplexBits, b: ComplexBits| #[trigger] times.requires((a, b)),
                old(self).phase_fault(buffer@.len()) is None,
                self.wf(),
                self.width == old(self).width,
                self.height == old(self).height,
                y <= self.height,
                forall|cy: int|
                    0 <= cy < y ==> row_phased(
                        &phasor,
                        &times,
                        buffer@[cy * self.width],
                        lower_seam,
                        relative,
                        old(self).row(cy),
                        #[trigger] self.row(cy),
                    ),
                forall|cx: int, cy: int|
                    0 <= cx < self.width && y <= cy < self.height ==> #[trigger] self.cell(cx, cy)
                        == old(self).cell(cx, cy),
            decreases self.height - y,
        {
            let mut phased: ComplexBits = ComplexBits::one();
            let ghost mut factors: Seq<ComplexBits> = seq![phased];
            let ghost begun = *self;
            let mut x: usize = 0;
            while x < self.width
                invariant
                    len == buffer@.len(),
                    forall|byte: u8| #[trigger] phasor.requires((byte, lower_seam)),
                    forall|a: ComplexBits, b: ComplexBits| #[trigger] times.requires((a, b)),
                    old(self).phase_fault(buffer@.len()) is None,
                    self.wf(),
                    begun.wf(),
                    self.width == old(self).width,
                    self.height == old(self).height,
                    begun.width == self.width,
                    begun.height == self.height,
                    y < self.height,
                    x <= self.width,
                    factors.len() == x + 1,
                    factors[0] == ComplexBits::spec_from_real(ONE),
                    factors[x as int] == phased,
                    forall|cx: int|
                        0 <= cx < x ==> #[trigger] turned_at(
                            &phasor,
                            &times,
                            buffer@[y * self.width],
                            lower_seam,
                            relative,
                            factors,
                            old(self).row(y as int),
                            self.row(y as int),
                            cx,
                        ),
                    forall|cx: int, cy: int|
                        0 <= cx < self.width && 0 <= cy < self.height && (cy != y || cx >= x)
                            ==> #[trigger] self.cell(cx, cy) == begun.cell(cx, cy),
                    forall|cx: int|
                        0 <= cx < self.width ==> #[trigger] begun.cell(cx, y as int) == old(
                            self,
                        ).cell(cx, y as int),
                decreases self.width - x,
            {
                proof {
                    lemma_cell_index(0, y as int, self.width as int, self.height as int);
                    assert(y * self.width <= (self.height - 1) * self.width) by (nonlinear_arith)
                        requires
                            y <= self.height - 1,
                            0 <= self.width,
                    ;
                }
                let curr_byte: u8 = buffer[y * self.width];
                let curr_phase: ComplexBits = phasor(curr_byte, lower_seam);
                let ghost carried = phased;
                if relative {
                    phased = times(phased, curr_phase);
                } else {
                    phased = curr_phase;
                }
                let cell: ComplexBits = self.get_at(x, y);
                let turned: ComplexBits = times(cell, phased);
                let ghost prior = *self;
                self.set_at(x, y, turned);
                proof {
                    let ghost earlier = factors;
                    factors = factors.push(phased);
                    assert(phase_step(
                        &phasor,
                        &times,
                        curr_byte,
                        lower_seam,
                        relative,
                        carried,
                        phased,
                    ));
                    assert forall|cx: int| 0 <= cx < x + 1 implies #[trigger] turned_at(
                        &phasor,
                        &times,
                        buffer@[y * self.width],
                        lower_seam,
                        relative,
                        factors,
                        old(self).row(y as int),
                        self.row(y as int),
                        cx,
                    ) by {
                        assert(self.row(y as int)[cx] == self.cell(cx, y as int));
                        assert(prior.row(y as int)[cx] == prior.cell(cx, y as int));
                        assert(old(self).row(y as int)[cx] == old(self).cell(cx, y as int));
                        if cx < x {
                            assert(turned_at(
                                &phasor,
                                &times,
                                buffer@[y * self.width],
                                lower_seam,
                                relative,
                                earlier,
                                old(self).row(y as int),
                                prior.row(y as int),
                                cx,
                            ));
                            assert(factors[cx] == earlier[cx]);
                            assert(factors[cx + 1] == earlier[cx + 1]);
                            assert(self.cell(cx, y as int) == prior.cell(cx, y as int));
                        } else {
                            assert(prior.cell(cx, y as int) == begun.cell(cx, y as int));
                            assert(begun.cell(cx, y as int) == old(self).cell(cx, y as int));
                            assert(self.cell(cx, y as int) == turned);
                        }
                    }
                }
                x += 1;
            }
            proof {
                assert(factors.len() == old(self).row(y as int).len() + 1);
                assert(row_phased(
                    &phasor,
                    &times,
                    buffer@[y * self.width],
                    lower_seam,
                    relative,
                    old(self).row(y as int),
                    self.row(y as int),
                ));
                assert forall|cy: int| 0 <= cy < y implies row_phased(
                    &phasor,
                    &times,
                    buffer@[cy * self.width],
                    lower_seam,
                    relative,
                    old(self).row(cy),
                    #[trigger] self.row(cy),
                ) by {
                    assert(self.row(cy) =~= begun.row(cy));
                }
            }
            y += 1;
        }
        Ok(())
    }
}

} // verus!
