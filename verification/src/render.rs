//! From a signal straight to a picture of its levels.
//!
//! The signal is cut into windows as for an analysis, in one go and without
//! workers. A function of the caller gives a level for every frequency of a
//! window, the levels of the lower half of the frequencies are laid out as a
//! picture with the highest of them in the first row, and every level is
//! turned into a pixel by a second function, which is also told the highest
//! level of the whole picture.

use vstd::prelude::*;
use crate::arith::lemma_cell_index;
use crate::arith::lemma_cell_index_unique;
use crate::bits::stands_before;
use crate::bits::total_order_key;
use crate::error::ConfigurationFault;
use crate::error::SpectrogramError;
use crate::forward::copy_range;
use crate::forward::lemma_padded_len;
use crate::forward::lemma_segments;
use crate::forward::pad_signal;
use crate::forward::padded_signal;
use crate::forward::segment;
use crate::forward::segment_count;
use crate::kernel::accepts_samples;
use crate::kernel::samples_of;
use crate::kernel::tapers;

verus! {

/// `peak` is one of `levels`, and none of them stands after it.
pub open spec fn is_highest(levels: Seq<u32>, peak: u32) -> bool {
    &&& levels.contains(peak)
    &&& forall|i: int|
        0 <= i < levels.len() ==> total_order_key(#[trigger] levels[i]) <= total_order_key(peak)
}

/// The level that stands last in the total order.
pub fn highest(levels: &Vec<u32>) -> (peak: u32)
    requires
        levels@.len() > 0,
    ensures
        is_highest(levels@, peak),
{
    let mut peak: u32 = levels[0];
    let mut i: usize = 1;
    while i < levels.len()
        invariant
            1 <= i <= levels@.len(),
            levels@.contains(peak),
            forall|k: int|
                0 <= k < i ==> total_order_key(#[trigger] levels@[k]) <= total_order_key(peak),
        decreases levels@.len() - i,
    {
        if stands_before(peak, levels[i]) {
            peak = levels[i];
        }
        i += 1;
    }
    peak
}

/// `column` holds the levels that the two functions may give for `window`:
/// `taper` gave a window of the same length, and `measure` gave `column`, a
/// level for each of its frequencies.
pub open spec fn are_levels_of<W, T>(
    taper: &W,
    measure: &T,
    window: Seq<u32>,
    column: Seq<u32>,
) -> bool where W: Fn(&Vec<u32>) -> Vec<u32>, T: Fn(&Vec<u32>) -> Option<Vec<u32>> {
    exists|tapered: Seq<u32>|
        {
            &&& #[trigger] tapers(taper, window, tapered)
            &&& tapered.len() == window.len()
            &&& measures(measure, tapered, Some(column))
            &&& column.len() == window.len()
        }
}

/// `measure` may return `out` for a window that holds `window`.
pub open spec fn measures<T: Fn(&Vec<u32>) -> Option<Vec<u32>>>(
    measure: &T,
    window: Seq<u32>,
    out: Option<Seq<u32>>,
) -> bool {
    exists|a: Vec<u32>, b: Option<Vec<u32>>|
        a@ == window && samples_of(b) == out && #[trigger] measure.ensures((&a,), b)
}

/// The two functions may give nothing usable for `window`.
pub open spec fn levels_fail_on<W, T>(taper: &W, measure: &T, window: Seq<u32>) -> bool where
    W: Fn(&Vec<u32>) -> Vec<u32>,
    T: Fn(&Vec<u32>) -> Option<Vec<u32>>,
 {
    exists|tapered: Seq<u32>|
        {
            &&& #[trigger] tapers(taper, window, tapered)
            &&& tapered.len() != window.len() || exists|out: Option<Seq<u32>>|
                {
                    &&& #[trigger] measures(measure, tapered, out)
                    &&& (out is None || out->0.len() != window.len())
                }
        }
}

/// The two functions may give a level for every frequency of `window`.
pub open spec fn levels_succeed_on<W, T>(taper: &W, measure: &T, window: Seq<u32>) -> bool where
    W: Fn(&Vec<u32>) -> Vec<u32>,
    T: Fn(&Vec<u32>) -> Option<Vec<u32>>,
 {
    exists|column: Seq<u32>| #[trigger] are_levels_of(taper, measure, window, column)
}

/// Where the level of window `x` and frequency `bin` lies in a picture that
/// is `width` wide and `height` high: frequency 0 in the last row.
pub open spec fn level_index(width: nat, height: nat, x: int, bin: int) -> int {
    (height - bin - 1) * width + x
}

/// `levels` is the picture of the columns: the lower half of the frequencies
/// of every column, the highest of them in the first row.
pub open spec fn laid_out(columns: Seq<Seq<u32>>, height: nat, levels: Seq<u32>) -> bool {
    &&& levels.len() == columns.len() * height
    &&& forall|x: int, bin: int|
        0 <= x < columns.len() && 0 <= bin < height ==> levels[#[trigger] level_index(
            columns.len(),
            height,
            x,
            bin,
        )] == columns[x][bin]
}

/// A picture: `width * height` pixels, row after row.
#[derive(Clone, Debug)]
pub struct LevelPicture<P> {
    pub width: usize,
    pub height: usize,
    pub pixels: Vec<P>,
}

/// `picture` is a picture of the levels of `signal`.
pub open spec fn is_picture_of<W, T, E, P>(
    taper: &W,
    measure: &T,
    encode: &E,
    window_size: usize,
    signal: Seq<u32>,
    picture: &LevelPicture<P>,
) -> bool where
    W: Fn(&Vec<u32>) -> Vec<u32>,
    T: Fn(&Vec<u32>) -> Option<Vec<u32>>,
    E: Fn(u32, u32) -> P,
 {
    &&& picture.width == segment_count(signal.len(), window_size as nat)
    &&& picture.height == window_size / 2
    &&& exists|columns: Seq<Seq<u32>>, levels: Seq<u32>|
        {
            &&& columns.len() == picture.width
            &&& forall|x: int|
                0 <= x < picture.width ==> are_levels_of(
                    taper,
                    measure,
                    segment(
                        padded_signal(signal, window_size as nat),
                        window_size as nat,
                        x,
                    ),
                    #[trigger] columns[x],
                )
            &&& #[trigger] laid_out(columns, picture.height as nat, levels)
            &&& are_pixels_of(encode, levels, picture.pixels@)
        }
}

/// Every pixel is what `encode` may make of its level and of the highest
/// level of the picture.
pub open spec fn are_pixels_of<E: Fn(u32, u32) -> P, P>(
    encode: &E,
    levels: Seq<u32>,
    pixels: Seq<P>,
) -> bool {
    exists|peak: u32|
        {
            &&& #[trigger] is_highest(levels, peak)
            &&& pixels.len() == levels.len()
            &&& forall|i: int|
                0 <= i < levels.len() ==> encode.ensures((levels[i], peak), #[trigger] pixels[i])
        }
}

/// The signal and its picture fit the machine's word.
pub open spec fn picture_fits(len: nat, window_size: usize) -> bool {
    &&& len + 2 * window_size <= usize::MAX
    &&& segment_count(len, window_size as nat) * (window_size / 2) <= usize::MAX
}

/// The picture of the levels of a signal, in one go.
///
/// A window size that is zero or odd is refused before any work is done.
/// The first window that the two functions give nothing usable for ends the
/// work: its number is returned and no picture is.
pub fn analyze_st<W, T, E, P>(
    query: &Vec<u32>,
    window_size: usize,
    taper: W,
    measure: T,
    encode: E,
) -> (r: Result<LevelPicture<P>, SpectrogramError>) where
    W: Fn(&Vec<u32>) -> Vec<u32>,
    T: Fn(&Vec<u32>) -> Option<Vec<u32>>,
    E: Fn(u32, u32) -> P,

    requires
        window_size > 0 && window_size % 2 == 0 ==> {
            &&& picture_fits(query@.len(), window_size)
            &&& accepts_samples(&taper, window_size as nat)
            &&& accepts_samples(&measure, window_size as nat)
            &&& forall|level: u32, peak: u32| #[trigger] encode.requires((level, peak))
        },
    ensures
        match r {
            Ok(picture) => {
                &&& window_size > 0
                &&& window_size % 2 == 0
                &&& is_picture_of(&taper, &measure, &encode, window_size, query@, &picture)
            },
            Err(SpectrogramError::InvalidConfiguration(fault)) => {
                &&& fault == ConfigurationFault::WindowSize
                &&& (window_size == 0 || window_size % 2 == 1)
            },
            Err(SpectrogramError::TransformFailed { column }) => {
                &&& window_size > 0
                &&& window_size % 2 == 0
                &&& column < segment_count(query@.len(), window_size as nat)
                &&& levels_fail_on(
                    &taper,
                    &measure,
                    segment(
                        padded_signal(query@, window_size as nat),
                        window_size as nat,
                        column as int,
                    ),
                )
                &&& forall|k: int|
                    0 <= k < column ==> levels_succeed_on(
                        &taper,
                        &measure,
                        #[trigger] segment(
                            padded_signal(query@, window_size as nat),
                            window_size as nat,
                            k,
                        ),
                    )
            },
        },
{
    if window_size == 0 || window_size % 2 == 1 {
        return Err(SpectrogramError::InvalidConfiguration(ConfigurationFault::WindowSize));
    }
    let hop_size: usize = window_size / 2;
    let padded: Vec<u32> = pad_signal(query, window_size);
    proof {
        lemma_padded_len(query@.len(), window_size as nat);
        lemma_segments(query@.len(), window_size as nat);
    }
    let seg_count: usize = padded.len() / hop_size - 1;
    let end_width: usize = seg_count;
    let end_height: usize = window_size / 2;
    let total: usize = end_width * end_height;
    let mut results: Vec<u32> = Vec::new();
    let mut n: usize = 0;
    while n < total
        invariant
            n <= total,
            results@.len() == n,
        decreases total - n,
    {
        results.push(0u32);
        n += 1;
    }
    let ghost mut columns: Seq<Seq<u32>> = Seq::empty();
    let mut i: usize = 0;
    while i < seg_count
        invariant
            window_size > 0,
            window_size % 2 == 0,
            hop_size == window_size / 2,
            end_height == window_size / 2,
            end_width == seg_count,
            total == end_width * end_height,
            padded@ == padded_signal(query@, window_size as nat),
            padded@.len() == (seg_count + 1) * hop_size,
            seg_count == segment_count(query@.len(), window_size as nat),
            accepts_samples(&taper, window_size as nat),
            accepts_samples(&measure, window_size as nat),
            results@.len() == total,
            i <= seg_count,
            columns.len() == i,
            forall|x: int|
                0 <= x < i ==> are_levels_of(
                    &taper,
                    &measure,
                    segment(padded@, window_size as nat, x),
                    #[trigger] columns[x],
                ),
            forall|x: int, bin: int|
                0 <= x < i && 0 <= bin < end_height ==> results@[#[trigger] level_index(
                    end_width as nat,
                    end_height as nat,
                    x,
                    bin,
                )] == columns[x][bin],
        decreases seg_count - i,
    {
        proof {
            assert(0 <= i * hop_size && i * hop_size + 2 * hop_size <= (seg_count + 1) * hop_size)
                by (nonlinear_arith)
                requires
                    0 <= i < seg_count,
                    0 <= hop_size,
            ;
            assert(padded.len() == padded@.len());
        }
        let segment_start: usize = i * hop_size;
        let seg: Vec<u32> = copy_range(&padded, segment_start, segment_start + window_size);
        proof {
            assert forall|k: int| 0 <= k < i implies levels_succeed_on(
                &taper,
                &measure,
                #[trigger] segment(padded@, window_size as nat, k),
            ) by {
                assert(are_levels_of(
                    &taper,
                    &measure,
                    segment(padded@, window_size as nat, k),
                    columns[k],
                ));
            }
        }
        let tapered: Vec<u32> = taper(&seg);
        assert(tapers(&taper, seg@, tapered@));
        if tapered.len() != window_size {
            return Err(SpectrogramError::TransformFailed { column: i });
        }
        let out: Option<Vec<u32>> = measure(&tapered);
        assert(measures(&measure, tapered@, samples_of(out)));
        let mags: Vec<u32> = match out {
            Some(mags) => mags,
            None => {
                return Err(SpectrogramError::TransformFailed { column: i });
            },
        };
        if mags.len() != window_size {
            return Err(SpectrogramError::TransformFailed { column: i });
        }
        assert(are_levels_of(&taper, &measure, seg@, mags@));
        let ghost earlier = columns;
        let mut ind: usize = 0;
        while ind < end_height
            invariant
                end_height == window_size / 2,
                end_width == seg_count,
                total == end_width * end_height,
                results@.len() == total,
                mags@.len() == window_size,
                i < seg_count,
                ind <= end_height,
                earlier.len() == i,
                forall|x: int, bin: int|
                    0 <= x < i && 0 <= bin < end_height ==> results@[#[trigger] level_index(
                        end_width as nat,
                        end_height as nat,
                        x,
                        bin,
                    )] == earlier[x][bin],
                forall|bin: int|
                    0 <= bin < ind ==> results@[#[trigger] level_index(
                        end_width as nat,
                        end_height as nat,
                        i as int,
                        bin,
                    )] == mags@[bin],
            decreases end_height - ind,
        {
            let x: usize = i;
            let y: usize = end_height - ind - 1;
            proof {
                lemma_cell_index(x as int, y as int, end_width as int, end_height as int);
            }
            let ghost prior = results@;
            results[y * end_width + x] = mags[ind];
            proof {
                assert forall|ox: int, bin: int|
                    0 <= ox < i && 0 <= bin < end_height implies results@[#[trigger] level_index(
                    end_width as nat,
                    end_height as nat,
                    ox,
                    bin,
                )] == earlier[ox][bin] by {
                    lemma_cell_index(
                        ox,
                        end_height - bin - 1,
                        end_width as int,
                        end_height as int,
                    );
                    if level_index(end_width as nat, end_height as nat, ox, bin) == y * end_width
                        + x {
                        lemma_cell_index_unique(
                            ox,
                            end_height - bin - 1,
                            x as int,
                            y as int,
                            end_width as int,
                        );
                    }
                    assert(prior[level_index(end_width as nat, end_height as nat, ox, bin)]
                        == earlier[ox][bin]);
                }
                assert forall|bin: int| 0 <= bin < ind + 1 implies results@[#[trigger] level_index(
                    end_width as nat,
                    end_height as nat,
                    i as int,
                    bin,
                )] == mags@[bin] by {
                    lemma_cell_index(
                        i as int,
                        end_height - bin - 1,
                        end_width as int,
                        end_height as int,
                    );
                    if bin < ind {
                        if level_index(end_width as nat, end_height as nat, i as int, bin) == y
                            * end_width + x {
                            lemma_cell_index_unique(
                                i as int,
                                end_height - bin - 1,
                                x as int,
                                y as int,
                                end_width as int,
                            );
                        }
                        assert(prior[level_index(
                            end_width as nat,
                            end_height as nat,
                            i as int,
                            bin,
                        )] == mags@[bin]);
                    }
                }
            }
            ind += 1;
        }
        proof {
            columns = columns.push(mags@);
            assert forall|x: int| 0 <= x < i + 1 implies are_levels_of(
                &taper,
                &measure,
                segment(padded@, window_size as nat, x),
                #[trigger] columns[x],
            ) by {
                if x < i {
                    assert(columns[x] == earlier[x]);
                }
            }
            assert forall|x: int, bin: int|
                0 <= x < i + 1 && 0 <= bin < end_height implies results@[#[trigger] level_index(
                end_width as nat,
                end_height as nat,
                x,
                bin,
            )] == columns[x][bin] by {
                if x < i {
                    assert(columns[x] == earlier[x]);
                }
            }
        }
        i += 1;
    }
    proof {
        assert(end_width * end_height > 0) by (nonlinear_arith)
            requires
                end_width >= 3,
                end_height >= 1,
        ;
    }
    let maxd: u32 = highest(&results);
    let mut subpx: Vec<P> = Vec::new();
    let mut k: usize = 0;
    while k < total
        invariant
            total == results@.len(),
            k <= total,
            subpx@.len() == k,
            forall|level: u32, peak: u32| #[trigger] encode.requires((level, peak)),
            forall|j: int| 0 <= j < k ==> encode.ensures((results@[j], maxd), #[trigger] subpx@[j]),
        decreases total - k,
    {
        subpx.push(encode(results[k], maxd));
        k += 1;
    }
    let picture = LevelPicture { width: end_width, height: end_height, pixels: subpx };
    proof {
        assert(laid_out(columns, end_height as nat, results@));
        assert(is_highest(results@, maxd));
        assert(are_pixels_of(&encode, results@, picture.pixels@));
    }
    Ok(picture)
}

} // verus!
