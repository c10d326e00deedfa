//! The spectral matrix.

use vstd::prelude::*;
use crate::arith::lemma_cell_index;
use crate::arith::lemma_cell_index_unique;
use crate::bits::ComplexBits;

verus! {

/// A grid of complex cells: `width` columns, one per window, by `height`
/// rows, one per frequency bin, row 0 the lowest frequency. The cell of
/// column `x` and row `y` is stored at `y * width + x`.
#[derive(Clone, Debug)]
pub struct SpectrogramImage {
    pub width: usize,
    pub height: usize,
    pub data: Vec<ComplexBits>,
}

impl View for SpectrogramImage {
    type V = Seq<Seq<ComplexBits>>;

    /// The matrix as its columns.
    open spec fn view(&self) -> Seq<Seq<ComplexBits>> {
        Seq::new(self.width as nat, |x: int| self.column(x))
    }
}

/// `n` cells of `+0.0 + 0.0i`.
pub open spec fn zero_cells(n: nat) -> Seq<ComplexBits> {
    Seq::new(n, |i: int| ComplexBits::spec_zero())
}

impl SpectrogramImage {
    /// The storage holds exactly the cells of the grid.
    pub open spec fn wf(&self) -> bool {
        self.data@.len() == self.width * self.height
    }

    /// The two matrices have one shape, and both hold all their cells.
    pub open spec fn same_shape(&self, other: &SpectrogramImage) -> bool {
        &&& self.wf()
        &&& other.wf()
        &&& self.width == other.width
        &&& self.height == other.height
    }

    pub open spec fn cell(&self, x: int, y: int) -> ComplexBits {
        self.data@[y * self.width + x]
    }

    pub open spec fn column(&self, x: int) -> Seq<ComplexBits> {
        Seq::new(self.height as nat, |y: int| self.cell(x, y))
    }

    /// Decides [`Self::wf`].
    pub fn is_well_formed(&self) -> (ok: bool)
        ensures
            ok == self.wf(),
    {
        match self.width.checked_mul(self.height) {
            Some(cells) => self.data.len() == cells,
            None => {
                assert(self.data.len() == self.data@.len());
                false
            },
        }
    }

    /// A matrix of `width` by `height` cells, each `+0.0 + 0.0i`.
    pub fn new_empty(width: usize, height: usize) -> (img: SpectrogramImage)
        requires
            width * height <= usize::MAX,
        ensures
            img.wf(),
            img.width == width,
            img.height == height,
            img.data@ == zero_cells((width * height) as nat),
    {
        let total: usize = width * height;
        let mut data: Vec<ComplexBits> = Vec::new();
        let mut i: usize = 0;
        while i < total
            invariant
                i <= total,
                data@.len() == i,
                forall|j: int| 0 <= j < i ==> data@[j] == ComplexBits::spec_zero(),
            decreases total - i,
        {
            data.push(ComplexBits::zero());
            i += 1;
        }
        assert(data@ =~= zero_cells((width * height) as nat));
        SpectrogramImage { width, height, data }
    }

    /// Where the cell of column `x` and row `y` is stored.
    pub fn get_index(&self, x: usize, y: usize) -> (index: usize)
        requires
            self.wf(),
            x < self.width,
            y < self.height,
        ensures
            index == y * self.width + x,
            index < self.data@.len(),
    {
        proof {
            lemma_cell_index(x as int, y as int, self.width as int, self.height as int);
            assert(self.data.len() == self.data@.len());
        }
        y * self.width + x
    }

    pub fn get_at(&self, x: usize, y: usize) -> (cell: ComplexBits)
        requires
            self.wf(),
            x < self.width,
            y < self.height,
        ensures
            cell == self.cell(x as int, y as int),
    {
        let index = self.get_index(x, y);
        self.data[index]
    }

    /// The cell of column `x` and row `y`, to be written to. Nothing else
    /// changes.
    pub fn mut_get_at(&mut self, x: usize, y: usize) -> (cell: &mut ComplexBits)
        requires
            old(self).wf(),
            x < old(self).width,
            y < old(self).height,
        ensures
            *cell == old(self).cell(x as int, y as int),
            final(self).width == old(self).width,
            final(self).height == old(self).height,
            final(self).data@ == old(self).data@.update(
                y * old(self).width + x,
                *final(cell),
            ),
            final(self).wf(),
    {
        let index = self.get_index(x, y);
        &mut self.data[index]
    }

    /// Writes `value` to the cell of column `x` and row `y`. Every other
    /// cell stays as it is.
    pub fn set_at(&mut self, x: usize, y: usize, value: ComplexBits)
        requires
            old(self).wf(),
            x < old(self).width,
            y < old(self).height,
        ensures
            final(self).wf(),
            final(self).width == old(self).width,
            final(self).height == old(self).height,
            final(self).data@ == old(self).data@.update(y * old(self).width + x, value),
            forall|cx: int, cy: int|
                0 <= cx < old(self).width && 0 <= cy < old(self).height
                    ==> #[trigger] final(self).cell(cx, cy) == if cx == x && cy == y {
                    value
                } else {
                    old(self).cell(cx, cy)
                },
    {
        *self.mut_get_at(x, y) = value;
        proof {
            assert forall|cx: int, cy: int|
                0 <= cx < self.width && 0 <= cy < self.height implies #[trigger] self.cell(cx, cy)
                == if cx == x && cy == y {
                value
            } else {
                old(self).cell(cx, cy)
            } by {
                lemma_cell_index(cx, cy, self.width as int, self.height as int);
                lemma_cell_index(x as int, y as int, self.width as int, self.height as int);
                if cy * self.width + cx == y * self.width + x {
                    lemma_cell_index_unique(cx, cy, x as int, y as int, self.width as int);
                }
            }
        }
    }

    /// Copies column `x` into the rows of `spectrum`, lowest bin first, and
    /// fills what is left of `spectrum` with zero cells.
    pub fn get_column(&self, x: usize, spectrum: &mut [ComplexBits])
        requires
            self.wf(),
            x < self.width,
            self.height <= old(spectrum)@.len(),
        ensures
            final(spectrum)@ == self.column(x as int) + zero_cells(
                (old(spectrum)@.len() - self.height) as nat,
            ),
    {
        let len: usize = spectrum.len();
        let mut y: usize = 0;
        while y < self.height
            invariant
                self.wf(),
                x < self.width,
                y <= self.height <= len,
                spectrum@.len() == len,
                forall|k: int| 0 <= k < y ==> spectrum@[k] == self.cell(x as int, k),
            decreases self.height - y,
        {
            spectrum[y] = self.get_at(x, y);
            y += 1;
        }
        while y < len
            invariant
                self.height <= y <= len,
                spectrum@.len() == len,
                forall|k: int| 0 <= k < self.height ==> spectrum@[k] == self.cell(x as int, k),
                forall|k: int| self.height <= k < y ==> spectrum@[k] == ComplexBits::spec_zero(),
            decreases len - y,
        {
            spectrum[y] = ComplexBits::zero();
            y += 1;
        }
        assert(spectrum@ =~= self.column(x as int) + zero_cells((len - self.height) as nat));
    }

    /// Writes the first `height` cells of `spectrum` to column `x`, lowest
    /// bin first. The other columns stay as they are.
    pub fn set_column(&mut self, x: usize, spectrum: &[ComplexBits])
        requires
            old(self).wf(),
            x < old(self).width,
            old(self).height <= spectrum@.len(),
        ensures
            final(self).wf(),
            final(self).width == old(self).width,
            final(self).height == old(self).height,
            final(self).column(x as int) == spectrum@.subrange(0, old(self).height as int),
            forall|other: int|
                0 <= other < old(self).width && other != x ==> #[trigger] final(self).column(other)
                    == old(self).column(other),
    {
        let mut y: usize = 0;
        while y < self.height
            invariant
                self.wf(),
                self.width == old(self).width,
                self.height == old(self).height,
                x < self.width,
                y <= self.height <= spectrum@.len(),
                forall|cx: int, cy: int|
                    0 <= cx < self.width && 0 <= cy < self.height ==> #[trigger] self.cell(cx, cy)
                        == if cx == x && cy < y {
                        spectrum@[cy]
                    } else {
                        old(self).cell(cx, cy)
                    },
            decreases self.height - y,
        {
            self.set_at(x, y, spectrum[y]);
            y += 1;
        }
        assert(self.column(x as int) =~= spectrum@.subrange(0, self.height as int));
        assert forall|other: int| 0 <= other < self.width && other != x implies #[trigger] self.column(
            other,
        ) == old(self).column(other) by {
            assert(self.column(other) =~= old(self).column(other));
        }
    }
}

/// Two matrices of one shape whose columns agree hold the same cells.
pub proof fn lemma_same_columns_same_cells(a: &SpectrogramImage, b: &SpectrogramImage)
    requires
        a.wf(),
        b.wf(),
        a.width == b.width,
        a.height == b.height,
        forall|x: int| 0 <= x < a.width ==> #[trigger] a.column(x) == b.column(x),
    ensures
        a@ == b@,
        a.data@ == b.data@,
{
    assert(a@ =~= b@);
    assert forall|i: int| 0 <= i < a.data@.len() implies a.data@[i] == b.data@[i] by {
        let width = a.width as int;
        if width > 0 {
            let x = i % width;
            let y = i / width;
            vstd::arithmetic::div_mod::lemma_fundamental_div_mod(i, width);
            vstd::arithmetic::div_mod::lemma_mod_bound(i, width);
            assert(y * width == width * y) by (nonlinear_arith);
            assert(0 <= y < a.height) by (nonlinear_arith)
                requires
                    0 <= i < width * a.height,
                    i == width * y + x,
                    0 <= x < width,
            ;
            assert(a.column(x)[y] == a.cell(x, y));
            assert(b.column(x)[y] == b.cell(x, y));
        } else {
            assert(a.width * a.height == 0) by (nonlinear_arith)
                requires
                    a.width == 0,
            ;
        }
    }
    assert(a.data@ =~= b.data@);
}

} // verus!
