//! From a spectral matrix back to a signal.
//!
//! Every column is transformed back into a window of samples. The windows
//! start half a window apart, so each sample of the output lies in at most
//! two of them: the output is built by adding every window, in the order of
//! the columns, to a buffer of zeros, and is scaled at the end.

use vstd::prelude::*;
use crate::bits::zeros;
use crate::bits::ComplexBits;
use crate::bits::POSITIVE_ZERO;
use crate::error::ConfigurationFault;
use crate::error::SpectrogramError;
use crate::forward::check_configuration;
use crate::forward::configuration_fault;
use crate::frame::depad;
use crate::frame::depadded;
use crate::matrix::zero_cells;
use crate::matrix::SpectrogramImage;
use crate::kernel::accepts_cells;
use crate::kernel::adds_all;
use crate::kernel::samples_of;
use crate::kernel::scales_all;
use crate::kernel::adds_in_one_way;
use crate::kernel::scales_in_one_way;
use crate::kernel::synthesizes;
use crate::kernel::synthesizes_in_one_way;
use crate::partition::lemma_shares_adjoin;
use crate::partition::lemma_shares_end;
use crate::partition::share;
use crate::partition::share_start;
use crate::partition::Share;
use crate::settings::SpectrogramSettings;

verus! {

/// Samples of the signal that a matrix of `width` columns leads to.
pub open spec fn output_len(width: nat, window: nat) -> nat {
    (window / 2) * width + window / 2
}

/// A spectrum whose lowest and highest bin are made real: the imaginary part
/// of each of the two is `+0.0`, and everything else is as it was, the real
/// parts of the two bins too.
pub open spec fn repaired(spectrum: Seq<ComplexBits>) -> Seq<ComplexBits> {
    if spectrum.len() > 0 {
        let low = spectrum.update(0, ComplexBits::spec_from_real(spectrum[0].re));
        low.update(spectrum.len() - 1, ComplexBits::spec_from_real(low[spectrum.len() - 1].re))
    } else {
        spectrum
    }
}

/// What is transformed back for column `x`: the column, filled up with zero
/// cells to the number of bins, and repaired at its ends where that is asked
/// for.
pub open spec fn prepared_spectrum(
    img: &SpectrogramImage,
    x: int,
    settings: SpectrogramSettings,
    awful_hack: bool,
) -> Seq<ComplexBits> {
    let filled = img.column(x) + zero_cells((settings.bins() - img.height) as nat);
    if awful_hack {
        repaired(filled)
    } else {
        filled
    }
}

/// `samples` is the window that `transform` may make of `spectrum`: it gave
/// a frame of the transform's length, and `samples` is that frame without
/// its padding.
pub open spec fn is_frame_of<T: Fn(&Vec<ComplexBits>) -> Option<Vec<u32>>>(
    transform: &T,
    settings: SpectrogramSettings,
    spectrum: Seq<ComplexBits>,
    samples: Seq<u32>,
) -> bool {
    exists|raw: Seq<u32>|
        {
            &&& #[trigger] synthesizes(transform, spectrum, Some(raw))
            &&& raw.len() == settings.frame_len()
            &&& samples == depadded(raw, settings.window_pad_amnt as nat)
        }
}

/// `transform` may make nothing usable of `spectrum`: nothing at all, or a
/// frame of another length.
pub open spec fn synthesis_fails_on<T: Fn(&Vec<ComplexBits>) -> Option<Vec<u32>>>(
    transform: &T,
    settings: SpectrogramSettings,
    spectrum: Seq<ComplexBits>,
) -> bool {
    exists|out: Option<Seq<u32>>|
        {
            &&& #[trigger] synthesizes(transform, spectrum, out)
            &&& (out is None || out->0.len() != settings.frame_len())
        }
}

/// `transform` may make a window of `spectrum`.
pub open spec fn synthesis_succeeds_on<T: Fn(&Vec<ComplexBits>) -> Option<Vec<u32>>>(
    transform: &T,
    settings: SpectrogramSettings,
    spectrum: Seq<ComplexBits>,
) -> bool {
    exists|samples: Seq<u32>| #[trigger] is_frame_of(transform, settings, spectrum, samples)
}

/// Makes the lowest and the highest bin real: the imaginary part of each
/// becomes `+0.0`, and its real part stays.
pub fn repair_edges(spectrum: &mut Vec<ComplexBits>)
    ensures
        final(spectrum)@ == repaired(old(spectrum)@),
{
    let len: usize = spectrum.len();
    if len > 0 {
        let low: ComplexBits = ComplexBits::from_real(spectrum[0].re);
        spectrum[0] = low;
        let high: ComplexBits = ComplexBits::from_real(spectrum[len - 1].re);
        spectrum[len - 1] = high;
    }
}

/// One column's way back: the spectrum is repaired at its ends where
/// `awful_hack` asks for it, transformed, and freed of its padding.
pub fn undo_to_real_no_changes<T>(
    spectrum: &mut Vec<ComplexBits>,
    settings: &SpectrogramSettings,
    awful_hack: bool,
    transform: &T,
) -> (r: Option<Vec<u32>>) where T: Fn(&Vec<ComplexBits>) -> Option<Vec<u32>>
    requires
        settings.valid(),
        accepts_cells(transform, old(spectrum)@.len()),
    ensures
        final(spectrum)@ == if awful_hack {
            repaired(old(spectrum)@)
        } else {
            old(spectrum)@
        },
        match r {
            Some(samples) => is_frame_of(transform, *settings, final(spectrum)@, samples@),
            None => synthesis_fails_on(transform, *settings, final(spectrum)@),
        },
{
    if awful_hack {
        repair_edges(spectrum);
    }
    let out: Option<Vec<u32>> = transform(spectrum);
    assert(synthesizes(transform, spectrum@, samples_of(out)));
    match out {
        Some(raw) => {
            if raw.len() == settings.frame_size() {
                Some(depad(raw, settings.window_pad_amnt))
            } else {
                None
            }
        },
        None => None,
    }
}

/// What a worker hands to the one writer of the output: a window of samples
/// and the place of its first sample.
#[derive(Clone, Debug)]
pub struct FrameMessage {
    pub offset: usize,
    pub samples: Vec<u32>,
}

/// A worker's part of a synthesis: the windows of the columns of its share,
/// in order. The first column that `transform` makes nothing of ends it.
pub fn synthesize_share<T>(
    img: &SpectrogramImage,
    settings: &SpectrogramSettings,
    share: Share,
    awful_hack: bool,
    transform: &T,
) -> (r: Result<Vec<FrameMessage>, SpectrogramError>) where
    T: Fn(&Vec<ComplexBits>) -> Option<Vec<u32>>,

    requires
        settings.valid(),
        img.wf(),
        img.height <= settings.bins(),
        share.start + share.len <= img.width,
        settings.hop() * img.width <= usize::MAX,
        accepts_cells(transform, settings.bins()),
    ensures
        match r {
            Ok(messages) => {
                &&& messages@.len() == share.len
                &&& forall|i: int|
                    0 <= i < share.len ==> {
                        &&& (#[trigger] messages@[i]).offset == (share.start + i) * settings.hop()
                        &&& is_frame_of(
                            transform,
                            *settings,
                            prepared_spectrum(img, share.start + i, *settings, awful_hack),
                            messages@[i].samples@,
                        )
                    }
            },
            Err(e) => exists|x: int|
                {
                    &&& share.start <= x < share.start + share.len
                    &&& e == (SpectrogramError::TransformFailed { column: x as usize })
                    &&& synthesis_fails_on(
                        transform,
                        *settings,
                        #[trigger] prepared_spectrum(img, x, *settings, awful_hack),
                    )
                    &&& forall|k: int|
                        share.start <= k < x ==> synthesis_succeeds_on(
                            transform,
                            *settings,
                            #[trigger] prepared_spectrum(img, k, *settings, awful_hack),
                        )
                },
        },
{
    let hop: usize = settings.hop_size();
    let bins: usize = settings.bin_count();
    let mut spectrum: Vec<ComplexBits> = Vec::new();
    let mut b: usize = 0;
    while b < bins
        invariant
            b <= bins,
            spectrum@.len() == b,
        decreases bins - b,
    {
        spectrum.push(ComplexBits::zero());
        b += 1;
    }
    let mut messages: Vec<FrameMessage> = Vec::new();
    let mut i: usize = 0;
    while i < share.len
        invariant
            settings.valid(),
            img.wf(),
            img.height <= bins,
            bins == settings.bins(),
            hop == settings.hop(),
            share.start + share.len <= img.width,
            settings.hop() * img.width <= usize::MAX,
            accepts_cells(transform, settings.bins()),
            spectrum@.len() == bins,
            i <= share.len,
            messages@.len() == i,
            forall|k: int|
                0 <= k < i ==> {
                    &&& (#[trigger] messages@[k]).offset == (share.start + k) * settings.hop()
                    &&& is_frame_of(
                        transform,
                        *settings,
                        prepared_spectrum(img, share.start + k, *settings, awful_hack),
                        messages@[k].samples@,
                    )
                },
        decreases share.len - i,
    {
        let x: usize = share.start + i;
        img.get_column(x, spectrum.as_mut_slice());
        assert(0 <= x * hop <= hop * img.width) by (nonlinear_arith)
            requires
                0 <= x < img.width,
                0 <= hop,
        ;
        let undone: Option<Vec<u32>> = undo_to_real_no_changes(
            &mut spectrum,
            settings,
            awful_hack,
            transform,
        );
        assert(spectrum@ == prepared_spectrum(img, x as int, *settings, awful_hack));
        match undone {
            Some(samples) => {
                messages.push(FrameMessage { offset: x * hop, samples });
            },
            None => {
                proof {
                    assert forall|k: int| share.start <= k < x implies synthesis_succeeds_on(
                        transform,
                        *settings,
                        #[trigger] prepared_spectrum(img, k, *settings, awful_hack),
                    ) by {
                        let m = messages@[k - share.start];
                        assert(is_frame_of(
                            transform,
                            *settings,
                            prepared_spectrum(
                                img,
                                share.start + (k - share.start),
                                *settings,
                                awful_hack,
                            ),
                            m.samples@,
                        ));
                    }
                }
                return Err(SpectrogramError::TransformFailed { column: x });
            },
        }
        i += 1;
    }
    Ok(messages)
}

/// What the writer of the output does with one window: `after` is `before`
/// with each sample of the window added to the sample at its place, from
/// `offset` on, and nothing else changed.
pub open spec fn accumulated<A: Fn(u32, u32) -> u32>(
    plus: &A,
    before: Seq<u32>,
    offset: int,
    samples: Seq<u32>,
    after: Seq<u32>,
) -> bool {
    &&& after.len() == before.len()
    &&& forall|j: int|
        0 <= j < before.len() ==> if offset <= j < offset + samples.len() {
            plus.ensures((before[j], samples[j - offset]), #[trigger] after[j])
        } else {
            after[j] == before[j]
        }
}

/// Adds a window to the output, from `offset` on.
pub fn accumulate<A>(output: &mut Vec<u32>, offset: usize, samples: &[u32], plus: &A) where
    A: Fn(u32, u32) -> u32,

    requires
        offset + samples@.len() <= old(output)@.len(),
        adds_all(plus),
    ensures
        accumulated(plus, old(output)@, offset as int, samples@, final(output)@),
{
    let len: usize = samples.len();
    let total: usize = output.len();
    let mut i: usize = 0;
    while i < len
        invariant
            len == samples@.len(),
            i <= len,
            output@.len() == total,
            offset + len <= output@.len(),
            output@.len() == old(output)@.len(),
            adds_all(plus),
            forall|j: int|
                0 <= j < output@.len() ==> if offset <= j < offset + i {
                    plus.ensures((old(output)@[j], samples@[j - offset]), #[trigger] output@[j])
                } else {
                    output@[j] == old(output)@[j]
                },
        decreases len - i,
    {
        let sum: u32 = plus(output[i + offset], samples[i]);
        output[i + offset] = sum;
        i += 1;
    }
}

/// `out` is `sums` with every sample scaled for a transform of `frame_len`
/// samples.
pub open spec fn normalized<N: Fn(u32, usize) -> u32>(
    scale: &N,
    frame_len: usize,
    sums: Seq<u32>,
    out: Seq<u32>,
) -> bool {
    &&& out.len() == sums.len()
    &&& forall|j: int| 0 <= j < sums.len() ==> scale.ensures((sums[j], frame_len), #[trigger] out[j])
}

/// Scales every sample of the output for a transform of `frame_len` samples.
pub fn normalize<N>(output: &mut Vec<u32>, frame_len: usize, scale: &N) where
    N: Fn(u32, usize) -> u32,

    requires
        scales_all(scale, frame_len),
    ensures
        normalized(scale, frame_len, old(output)@, final(output)@),
{
    let len: usize = output.len();
    let mut i: usize = 0;
    while i < len
        invariant
            len == output@.len(),
            output@.len() == old(output)@.len(),
            i <= len,
            scales_all(scale, frame_len),
            forall|j: int| 0 <= j < i ==> scale.ensures((old(output)@[j], frame_len), #[trigger] output@[j]),
            forall|j: int| i <= j < len ==> output@[j] == old(output)@[j],
        decreases len - i,
    {
        let scaled: u32 = scale(output[i], frame_len);
        output[i] = scaled;
        i += 1;
    }
}

/// `value` is sample `j` of the output once the windows of the first `done`
/// columns have been added to a buffer of zeros, in the order of the columns.
///
/// Sample `j` lies in the half window with number `j / hop`. The window that
/// starts there holds it in its first half, the window before that one in
/// its second half, and no other window holds it. So `value` is zero, or
/// zero plus one sample of one window, or that plus one sample of the next.
pub open spec fn sums_to<A: Fn(u32, u32) -> u32>(
    plus: &A,
    frames: Seq<Seq<u32>>,
    hop: nat,
    done: nat,
    j: int,
    value: u32,
) -> bool {
    let k = j / (hop as int);
    let r = j % (hop as int);
    let earlier = 1 <= k <= done;
    let later = 0 <= k < done;
    if earlier && later {
        exists|t: u32|
            #[trigger] plus.ensures((POSITIVE_ZERO, frames[k - 1][r + hop]), t) && plus.ensures(
                (t, frames[k][r]),
                value,
            )
    } else if earlier {
        plus.ensures((POSITIVE_ZERO, frames[k - 1][r + hop]), value)
    } else if later {
        plus.ensures((POSITIVE_ZERO, frames[k][r]), value)
    } else {
        value == POSITIVE_ZERO
    }
}

/// `sums` is what adding all of `frames` to a buffer of zeros leads to, each
/// frame half a window further on than the one before it.
pub open spec fn overlap_added<A: Fn(u32, u32) -> u32>(
    plus: &A,
    frames: Seq<Seq<u32>>,
    hop: nat,
    sums: Seq<u32>,
) -> bool {
    &&& sums.len() == hop * frames.len() + hop
    &&& forall|j: int|
        0 <= j < sums.len() ==> sums_to(plus, frames, hop, frames.len(), j, #[trigger] sums[j])
}

/// The half window that a sample lies in.
proof fn lemma_half_window(j: int, hop: int, c: int)
    requires
        hop > 0,
        c * hop <= j < c * hop + hop,
    ensures
        j / hop == c,
        j % hop == j - c * hop,
{
    vstd::arithmetic::div_mod::lemma_fundamental_div_mod_converse(j, hop, c, j - c * hop);
}

/// Adding the window of the next column keeps the account of every sample.
proof fn lemma_accumulate_step<A: Fn(u32, u32) -> u32>(
    plus: &A,
    frames: Seq<Seq<u32>>,
    hop: nat,
    before: Seq<u32>,
    frame: Seq<u32>,
    after: Seq<u32>,
)
    requires
        hop > 0,
        frame.len() == 2 * hop,
        frames.len() * hop + 2 * hop <= before.len(),
        forall|j: int|
            0 <= j < before.len() ==> sums_to(plus, frames, hop, frames.len(), j, #[trigger] before[j]),
        accumulated(plus, before, (frames.len() * hop) as int, frame, after),
    ensures
        forall|j: int|
            0 <= j < after.len() ==> sums_to(
                plus,
                frames.push(frame),
                hop,
                frames.len() + 1,
                j,
                #[trigger] after[j],
            ),
{
    let c = frames.len() as int;
    let h = hop as int;
    let next = frames.push(frame);
    assert forall|j: int| 0 <= j < after.len() implies sums_to(
        plus,
        next,
        hop,
        (c + 1) as nat,
        j,
        #[trigger] after[j],
    ) by {
        let k = j / h;
        let r = j % h;
        vstd::arithmetic::div_mod::lemma_fundamental_div_mod(j, h);
        vstd::arithmetic::div_mod::lemma_mod_bound(j, h);
        vstd::arithmetic::div_mod::lemma_div_pos_is_pos(j, h);
        assert(sums_to(plus, frames, hop, c as nat, j, before[j]));
        assert((c + 1) * h == c * h + h) by (nonlinear_arith);
        if c * h <= j < c * h + h {
            lemma_half_window(j, h, c);
            if c >= 1 {
                assert(next[k - 1] == frames[k - 1]);
                assert(plus.ensures((POSITIVE_ZERO, next[k - 1][r + hop]), before[j]));
            }
        } else if c * h + h <= j < c * h + 2 * h {
            lemma_half_window(j, h, c + 1);
        } else {
            assert(after[j] == before[j]);
            if j < c * h {
                assert(k < c) by (nonlinear_arith)
                    requires
                        j == h * k + r,
                        0 <= r,
                        j < c * h,
                        h > 0,
                ;
                if k >= 1 {
                    assert(next[k - 1] == frames[k - 1]);
                }
                assert(next[k] == frames[k]);
            } else {
                assert(k >= c + 2) by (nonlinear_arith)
                    requires
                        j == h * k + r,
                        r < h,
                        j >= c * h + 2 * h,
                        h > 0,
                ;
            }
        }
    }
}

/// The windows of the messages, in the order of the messages.
pub open spec fn frames_of(messages: Seq<FrameMessage>) -> Seq<Seq<u32>> {
    Seq::new(messages.len(), |i: int| messages[i].samples@)
}

/// The messages are those of all columns, in the order of the columns:
/// message `i` holds a whole window and the place of column `i`.
pub open spec fn in_column_order(messages: Seq<FrameMessage>, settings: SpectrogramSettings) -> bool {
    forall|i: int|
        0 <= i < messages.len() ==> (#[trigger] messages[i]).offset == i * settings.hop()
            && messages[i].samples@.len() == settings.window_size
}

/// What the one writer of the output does with the messages of the workers:
/// it adds every window to a buffer of zeros, in the order of the columns,
/// and so each sample of the output gets the windows that hold it in a fixed
/// order. Messages that are not those of all columns in their order are
/// refused.
pub fn overlap_add<A>(
    messages: &Vec<FrameMessage>,
    settings: &SpectrogramSettings,
    plus: &A,
) -> (r: Option<Vec<u32>>) where A: Fn(u32, u32) -> u32
    requires
        settings.valid(),
        output_len(messages@.len(), settings.window_size as nat) <= usize::MAX,
        adds_all(plus),
    ensures
        r is Some <==> in_column_order(messages@, *settings),
        r is Some ==> overlap_added(plus, frames_of(messages@), settings.hop(), r->0@),
{
    let hop_size: usize = settings.hop_size();
    let width: usize = messages.len();
    assert(0 <= hop_size * width) by (nonlinear_arith)
        requires
            0 <= hop_size,
            0 <= width,
    ;
    let total_sample_count: usize = hop_size * width + hop_size;
    let mut output_samples: Vec<u32> = Vec::new();
    let mut n: usize = 0;
    while n < total_sample_count
        invariant
            n <= total_sample_count,
            output_samples@ == zeros(n as nat),
        decreases total_sample_count - n,
    {
        output_samples.push(POSITIVE_ZERO);
        assert(output_samples@ =~= zeros((n + 1) as nat));
        n += 1;
    }
    let ghost mut frames: Seq<Seq<u32>> = Seq::empty();
    proof {
        assert forall|j: int| 0 <= j < output_samples@.len() implies sums_to(
            plus,
            frames,
            hop_size as nat,
            0,
            j,
            #[trigger] output_samples@[j],
        ) by {
            vstd::arithmetic::div_mod::lemma_div_pos_is_pos(j, hop_size as int);
        }
    }
    let mut i: usize = 0;
    while i < width
        invariant
            settings.valid(),
            hop_size == settings.hop(),
            hop_size > 0,
            width == messages@.len(),
            total_sample_count == hop_size * width + hop_size,
            adds_all(plus),
            output_samples@.len() == total_sample_count,
            i <= width,
            frames == frames_of(messages@).subrange(0, i as int),
            forall|k: int|
                0 <= k < i ==> (#[trigger] messages@[k]).offset == k * settings.hop()
                    && messages@[k].samples@.len() == settings.window_size,
            forall|j: int|
                0 <= j < total_sample_count ==> sums_to(
                    plus,
                    frames,
                    hop_size as nat,
                    frames.len(),
                    j,
                    #[trigger] output_samples@[j],
                ),
        decreases width - i,
    {
        assert(0 <= i * hop_size && i * hop_size + 2 * hop_size <= hop_size * width + hop_size)
            by (nonlinear_arith)
            requires
                0 <= i < width,
                hop_size > 0,
        ;
        if messages[i].offset != i * hop_size || messages[i].samples.len()
            != settings.window_size {
            return None;
        }
        let ghost before = output_samples@;
        accumulate(&mut output_samples, messages[i].offset, messages[i].samples.as_slice(), plus);
        proof {
            lemma_accumulate_step(
                plus,
                frames,
                hop_size as nat,
                before,
                messages@[i as int].samples@,
                output_samples@,
            );
            frames = frames.push(messages@[i as int].samples@);
            assert(frames =~= frames_of(messages@).subrange(0, i + 1));
        }
        i += 1;
    }
    proof {
        assert(frames_of(messages@).subrange(0, width as int) =~= frames_of(messages@));
        assert(hop_size * width == width * hop_size) by (nonlinear_arith);
    }
    Some(output_samples)
}

/// What stands in the way of a synthesis, if anything does.
pub open spec fn synthesis_fault(
    img: &SpectrogramImage,
    settings: SpectrogramSettings,
    thread_ct: usize,
) -> Option<ConfigurationFault> {
    if configuration_fault(settings, thread_ct) is Some {
        configuration_fault(settings, thread_ct)
    } else if !img.wf() || img.height > settings.bins() {
        Some(ConfigurationFault::MatrixShape)
    } else {
        None
    }
}

/// `frames` holds the window of every column, in the order of the columns.
pub open spec fn are_frames_of<T: Fn(&Vec<ComplexBits>) -> Option<Vec<u32>>>(
    transform: &T,
    settings: SpectrogramSettings,
    awful_hack: bool,
    img: &SpectrogramImage,
    frames: Seq<Seq<u32>>,
) -> bool {
    &&& frames.len() == img.width
    &&& forall|x: int|
        0 <= x < img.width ==> is_frame_of(
            transform,
            settings,
            prepared_spectrum(img, x, settings, awful_hack),
            #[trigger] frames[x],
        )
}

/// `out` is a signal of the matrix: every column was transformed back into
/// its window, the windows were added up half a window apart, and every sum
/// was scaled.
pub open spec fn is_synthesis_of<T, A, N>(
    transform: &T,
    plus: &A,
    scale: &N,
    settings: SpectrogramSettings,
    awful_hack: bool,
    img: &SpectrogramImage,
    out: Seq<u32>,
) -> bool where
    T: Fn(&Vec<ComplexBits>) -> Option<Vec<u32>>,
    A: Fn(u32, u32) -> u32,
    N: Fn(u32, usize) -> u32,
 {
    exists|frames: Seq<Seq<u32>>, sums: Seq<u32>|
        {
            &&& are_frames_of(transform, settings, awful_hack, img, frames)
            &&& #[trigger] overlap_added(plus, frames, settings.hop(), sums)
            &&& normalized(scale, settings.frame_len() as usize, sums, out)
        }
}

/// The three functions can be called on what the synthesis hands them.
pub open spec fn synthesis_callable<T, A, N>(
    transform: &T,
    plus: &A,
    scale: &N,
    settings: SpectrogramSettings,
) -> bool where
    T: Fn(&Vec<ComplexBits>) -> Option<Vec<u32>>,
    A: Fn(u32, u32) -> u32,
    N: Fn(u32, usize) -> u32,
 {
    &&& accepts_cells(transform, settings.bins())
    &&& adds_all(plus)
    &&& scales_all(scale, settings.frame_len() as usize)
}

/// Decides whether the signal of a matrix of `width` columns fits the
/// machine's word: whether `output_len(width, window_size) <= usize::MAX`.
pub fn output_fits_machine(width: usize, settings: &SpectrogramSettings) -> (ok: bool)
    ensures
        ok == (output_len(width as nat, settings.window_size as nat) <= usize::MAX),
{
    let hop: usize = settings.hop_size();
    match hop.checked_mul(width) {
        Some(product) => product <= usize::MAX - hop,
        None => {
            assert(hop * width >= 0);
            false
        },
    }
}

/// What a synthesis with `thread_ct` workers may come to.
///
/// It is refused where the settings, the worker count or the matrix cannot
/// be worked with, and only there. Else it is a signal of the matrix, of
/// half a window for every column and one half more, or the number of the
/// first column that `transform` may make nothing of: every column before
/// it was made a window of.
pub open spec fn synthesis_outcome<T, A, N>(
    transform: &T,
    plus: &A,
    scale: &N,
    settings: SpectrogramSettings,
    thread_ct: usize,
    awful_hack: bool,
    img: &SpectrogramImage,
    r: Result<Vec<u32>, SpectrogramError>,
) -> bool where
    T: Fn(&Vec<ComplexBits>) -> Option<Vec<u32>>,
    A: Fn(u32, u32) -> u32,
    N: Fn(u32, usize) -> u32,
 {
    match r {
        Ok(out) => {
            &&& synthesis_fault(img, settings, thread_ct) is None
            &&& out@.len() == output_len(img.width as nat, settings.window_size as nat)
            &&& is_synthesis_of(transform, plus, scale, settings, awful_hack, img, out@)
        },
        Err(SpectrogramError::InvalidConfiguration(fault)) => synthesis_fault(
            img,
            settings,
            thread_ct,
        ) == Some(fault),
        Err(SpectrogramError::TransformFailed { column }) => {
            &&& synthesis_fault(img, settings, thread_ct) is None
            &&& column < img.width
            &&& synthesis_fails_on(
                transform,
                settings,
                prepared_spectrum(img, column as int, settings, awful_hack),
            )
            &&& forall|k: int|
                0 <= k < column ==> synthesis_succeeds_on(
                    transform,
                    settings,
                    #[trigger] prepared_spectrum(img, k, settings, awful_hack),
                )
        },
    }
}

/// The signal of a spectral matrix.
///
/// The columns are shared out among `thread_ct` workers, and the shares are
/// worked through one after the other, each column in its turn. A caller
/// that runs the workers side by side gives each of them
/// [`synthesize_share`], puts what they send into the order of the columns,
/// hands it to [`overlap_add`] and ends with [`normalize`].
///
/// The caller sees to it that the signal fits the machine's word, which
/// [`output_fits_machine`] decides.
///
/// Settings, a worker count or a matrix that cannot be worked with are
/// refused before any work is done. The first column that `transform` makes
/// nothing of ends the synthesis: its number is returned and no signal is.
pub fn inverse_mt<T, A, N>(
    spectrogram: &SpectrogramImage,
    settings: &SpectrogramSettings,
    thread_ct: usize,
    awful_hack: bool,
    transform: T,
    plus: A,
    scale: N,
) -> (r: Result<Vec<u32>, SpectrogramError>) where
    T: Fn(&Vec<ComplexBits>) -> Option<Vec<u32>>,
    A: Fn(u32, u32) -> u32,
    N: Fn(u32, usize) -> u32,

    requires
        synthesis_fault(spectrogram, *settings, thread_ct) is None ==> output_len(
            spectrogram.width as nat,
            settings.window_size as nat,
        ) <= usize::MAX,
        synthesis_fault(spectrogram, *settings, thread_ct) is None ==> synthesis_callable(
            &transform,
            &plus,
            &scale,
            *settings,
        ),
    ensures
        synthesis_outcome(
            &transform,
            &plus,
            &scale,
            *settings,
            thread_ct,
            awful_hack,
            spectrogram,
            r,
        ),
{
    match check_configuration(settings, thread_ct) {
        Err(e) => {
            return Err(e);
        },
        Ok(_) => {},
    }
    if !spectrogram.is_well_formed() || spectrogram.height > settings.bin_count() {
        return Err(SpectrogramError::InvalidConfiguration(ConfigurationFault::MatrixShape));
    }
    let width: usize = spectrogram.width;
    assert(0 <= settings.hop() * width) by (nonlinear_arith)
        requires
            0 <= settings.hop(),
            0 <= width,
    ;
    let mut gathered: Vec<FrameMessage> = Vec::new();
    let mut id: usize = 0;
    while id < thread_ct
        invariant
            settings.valid(),
            thread_ct > 0,
            id <= thread_ct,
            spectrogram.wf(),
            spectrogram.height <= settings.bins(),
            width == spectrogram.width,
            settings.hop() * width + settings.hop() <= usize::MAX,
            synthesis_callable(&transform, &plus, &scale, *settings),
            gathered@.len() == share_start(width as nat, thread_ct as nat, id as nat),
            gathered@.len() <= width,
            forall|x: int|
                0 <= x < gathered@.len() ==> {
                    &&& (#[trigger] gathered@[x]).offset == x * settings.hop()
                    &&& is_frame_of(
                        &transform,
                        *settings,
                        prepared_spectrum(spectrogram, x, *settings, awful_hack),
                        gathered@[x].samples@,
                    )
                },
        decreases thread_ct - id,
    {
        let part: Share = share(width, thread_ct, id);
        proof {
            lemma_shares_adjoin(width as nat, thread_ct as nat, id as nat);
        }
        match synthesize_share(spectrogram, settings, part, awful_hack, &transform) {
            Err(e) => {
                proof {
                    let x = choose|x: int|
                        {
                            &&& part.start <= x < part.start + part.len
                            &&& e == (SpectrogramError::TransformFailed { column: x as usize })
                            &&& synthesis_fails_on(
                                &transform,
                                *settings,
                                #[trigger] prepared_spectrum(
                                    spectrogram,
                                    x,
                                    *settings,
                                    awful_hack,
                                ),
                            )
                            &&& forall|k: int|
                                part.start <= k < x ==> synthesis_succeeds_on(
                                    &transform,
                                    *settings,
                                    #[trigger] prepared_spectrum(
                                        spectrogram,
                                        k,
                                        *settings,
                                        awful_hack,
                                    ),
                                )
                        };
                    assert forall|k: int| 0 <= k < x implies synthesis_succeeds_on(
                        &transform,
                        *settings,
                        #[trigger] prepared_spectrum(spectrogram, k, *settings, awful_hack),
                    ) by {
                        if k < part.start {
                            assert(is_frame_of(
                                &transform,
                                *settings,
                                prepared_spectrum(spectrogram, k, *settings, awful_hack),
                                gathered@[k].samples@,
                            ));
                        }
                    }
                }
                return Err(e);
            },
            Ok(messages) => {
                let mut messages = messages;
                let ghost earlier = gathered@;
                let ghost new = messages@;
                gathered.append(&mut messages);
                proof {
                    assert forall|x: int| 0 <= x < gathered@.len() implies {
                        &&& (#[trigger] gathered@[x]).offset == x * settings.hop()
                        &&& is_frame_of(
                            &transform,
                            *settings,
                            prepared_spectrum(spectrogram, x, *settings, awful_hack),
                            gathered@[x].samples@,
                        )
                    } by {
                        if x < earlier.len() {
                            assert(gathered@[x] == earlier[x]);
                        } else {
                            let k = x - part.start;
                            assert(gathered@[x] == new[k]);
                            assert(new[k].offset == (part.start + k) * settings.hop());
                        }
                    }
                }
            },
        }
        id += 1;
    }
    proof {
        lemma_shares_end(width as nat, thread_ct as nat);
        assert forall|x: int| 0 <= x < gathered@.len() implies (#[trigger] gathered@[x]).offset == x
            * settings.hop() && gathered@[x].samples@.len() == settings.window_size by {
            lemma_frame_len(
                &transform,
                *settings,
                prepared_spectrum(spectrogram, x, *settings, awful_hack),
                gathered@[x].samples@,
            );
        }
        assert(settings.hop() * width == (settings.window_size / 2) * width);
    }
    let mut output_samples: Vec<u32> = overlap_add(&gathered, settings, &plus).unwrap();
    let ghost sums = output_samples@;
    normalize(&mut output_samples, settings.frame_size(), &scale);
    proof {
        let frames = frames_of(gathered@);
        assert(overlap_added(&plus, frames, settings.hop(), sums));
        assert(are_frames_of(&transform, *settings, awful_hack, spectrogram, frames));
        assert(settings.hop() * width == width * settings.hop()) by (nonlinear_arith);
    }
    Ok(output_samples)
}

/// `mended` is `img` with its edge rows made real: the cells of the lowest
/// row, and those of the row of the transform's highest bin where the matrix
/// reaches that far, keep their real parts and have `+0.0` as imaginary
/// part. Every other cell is as in `img`.
pub open spec fn has_edges_made_real(
    img: &SpectrogramImage,
    mended: &SpectrogramImage,
    settings: SpectrogramSettings,
) -> bool {
    &&& mended.same_shape(img)
    &&& forall|x: int, y: int|
        0 <= x < img.width && 0 <= y < img.height ==> #[trigger] mended.cell(x, y) == if y == 0 || y
            == settings.bins() - 1 {
            ComplexBits::spec_from_real(img.cell(x, y).re)
        } else {
            img.cell(x, y)
        }
}

/// What is transformed back for a column with the repair is what is
/// transformed back without it for the same column of the matrix with its
/// edge rows made real.
pub proof fn lemma_repair_makes_edges_real(
    img: &SpectrogramImage,
    mended: &SpectrogramImage,
    settings: SpectrogramSettings,
    x: int,
)
    requires
        has_edges_made_real(img, mended, settings),
        img.height <= settings.bins(),
        0 <= x < img.width,
    ensures
        prepared_spectrum(img, x, settings, true) == prepared_spectrum(mended, x, settings, false),
{
    let fill = zero_cells((settings.bins() - img.height) as nat);
    let before = img.column(x) + fill;
    let after = mended.column(x) + fill;
    assert forall|y: int| 0 <= y < before.len() implies repaired(before)[y] == after[y] by {
        if y < img.height {
            assert(mended.column(x)[y] == mended.cell(x, y));
            assert(img.column(x)[y] == img.cell(x, y));
        }
    }
    assert(repaired(before) =~= after);
}

/// A synthesis with the repair is a synthesis without it of the matrix with
/// its edge rows made real: whatever the one may come to, the other may.
pub proof fn lemma_repair_is_synthesis_of_real_edges<T, A, N>(
    transform: &T,
    plus: &A,
    scale: &N,
    settings: SpectrogramSettings,
    thread_ct: usize,
    img: &SpectrogramImage,
    mended: &SpectrogramImage,
    r: Result<Vec<u32>, SpectrogramError>,
) where
    T: Fn(&Vec<ComplexBits>) -> Option<Vec<u32>>,
    A: Fn(u32, u32) -> u32,
    N: Fn(u32, usize) -> u32,

    requires
        has_edges_made_real(img, mended, settings),
        synthesis_outcome(transform, plus, scale, settings, thread_ct, true, img, r),
    ensures
        synthesis_outcome(transform, plus, scale, settings, thread_ct, false, mended, r),
{
    match r {
        Ok(out) => {
            let (frames, sums) = choose|frames: Seq<Seq<u32>>, sums: Seq<u32>|
                {
                    &&& are_frames_of(transform, settings, true, img, frames)
                    &&& #[trigger] overlap_added(plus, frames, settings.hop(), sums)
                    &&& normalized(scale, settings.frame_len() as usize, sums, out@)
                };
            assert forall|x: int| 0 <= x < mended.width implies is_frame_of(
                transform,
                settings,
                prepared_spectrum(mended, x, settings, false),
                #[trigger] frames[x],
            ) by {
                lemma_repair_makes_edges_real(img, mended, settings, x);
            }
            assert(are_frames_of(transform, settings, false, mended, frames));
        },
        Err(SpectrogramError::TransformFailed { column }) => {
            lemma_repair_makes_edges_real(img, mended, settings, column as int);
            assert forall|k: int| 0 <= k < column implies synthesis_succeeds_on(
                transform,
                settings,
                #[trigger] prepared_spectrum(mended, k, settings, false),
            ) by {
                lemma_repair_makes_edges_real(img, mended, settings, k);
                assert(synthesis_succeeds_on(
                    transform,
                    settings,
                    prepared_spectrum(img, k, settings, true),
                ));
            }
        },
        Err(SpectrogramError::InvalidConfiguration(fault)) => {},
    }
}

/// A window that came back from a column is as long as the settings say.
pub proof fn lemma_frame_len<T: Fn(&Vec<ComplexBits>) -> Option<Vec<u32>>>(
    transform: &T,
    settings: SpectrogramSettings,
    spectrum: Seq<ComplexBits>,
    samples: Seq<u32>,
)
    requires
        settings.valid(),
        is_frame_of(transform, settings, spectrum, samples),
    ensures
        samples.len() == settings.window_size,
        samples.len() == 2 * settings.hop(),
{
}

/// The signal of the matrix of a signal is as long as that signal was with
/// its padding.
pub proof fn lemma_round_trip_len(len: nat, window: nat)
    requires
        window > 0,
        window % 2 == 0,
    ensures
        output_len(crate::forward::segment_count(len, window), window)
            == crate::forward::padded_len(len, window),
{
    crate::forward::lemma_segments(len, window);
    let count = crate::forward::segment_count(len, window);
    let hop = window / 2;
    assert(hop * count + hop == (count + 1) * hop) by (nonlinear_arith);
}

/// The windows that hold a sample: window `x` reaches from `x * hop` over
/// two half windows, so it holds sample `j` just when it starts in `j`'s half
/// window or in the one before.
pub proof fn lemma_windows_over_sample(j: int, hop: int, x: int)
    requires
        hop > 0,
        0 <= j,
        0 <= x,
    ensures
        (x * hop <= j < x * hop + 2 * hop) <==> (x == j / hop || x == j / hop - 1),
{
    let k = j / hop;
    vstd::arithmetic::div_mod::lemma_fundamental_div_mod(j, hop);
    vstd::arithmetic::div_mod::lemma_mod_bound(j, hop);
    assert(hop * k == k * hop) by (nonlinear_arith);
    assert((k - 1) * hop == k * hop - hop) by (nonlinear_arith);
    if x < k - 1 {
        assert(x * hop + 2 * hop <= k * hop) by (nonlinear_arith)
            requires
                x + 2 <= k,
                hop > 0,
        ;
    } else if x > k {
        assert(x * hop >= k * hop + hop) by (nonlinear_arith)
            requires
                x >= k + 1,
                hop > 0,
        ;
    }
}

/// The last window ends where the output ends.
pub proof fn lemma_windows_fill_output(width: nat, window: nat)
    requires
        width > 0,
        window % 2 == 0,
    ensures
        (width - 1) * (window / 2) + window == output_len(width, window),
{
    let hop = window / 2;
    assert((width - 1) * hop + 2 * hop == hop * width + hop) by (nonlinear_arith);
}

/// `transform` does not both make a window of a spectrum and make nothing
/// of it, where it has one result for every input.
pub proof fn lemma_synthesis_success_excludes_failure<T: Fn(&Vec<ComplexBits>) -> Option<Vec<u32>>>(
    transform: &T,
    settings: SpectrogramSettings,
    spectrum: Seq<ComplexBits>,
)
    requires
        synthesizes_in_one_way(transform),
        synthesis_succeeds_on(transform, settings, spectrum),
    ensures
        !synthesis_fails_on(transform, settings, spectrum),
{
    if synthesis_fails_on(transform, settings, spectrum) {
        let samples = choose|samples: Seq<u32>|
            #[trigger] is_frame_of(transform, settings, spectrum, samples);
        let raw = choose|raw: Seq<u32>|
            {
                &&& #[trigger] synthesizes(transform, spectrum, Some(raw))
                &&& raw.len() == settings.frame_len()
                &&& samples == depadded(raw, settings.window_pad_amnt as nat)
            };
        let out = choose|out: Option<Seq<u32>>|
            {
                &&& #[trigger] synthesizes(transform, spectrum, out)
                &&& (out is None || out->0.len() != settings.frame_len())
            };
        assert(out == Some(raw));
        assert(false);
    }
}

/// Two outcomes are one: the same refusal, or the same samples.
pub open spec fn same_synthesis(
    a: Result<Vec<u32>, SpectrogramError>,
    b: Result<Vec<u32>, SpectrogramError>,
) -> bool {
    match (a, b) {
        (Ok(x), Ok(y)) => x@ == y@,
        (Err(e), Err(f)) => e == f,
        _ => false,
    }
}

/// A synthesis does not depend on the number of its workers: where each of
/// the three functions has one result for every input, what [`inverse_mt`]
/// comes to with one number of workers it comes to with any other, sample
/// for sample the same signal or the same refusal.
pub proof fn lemma_synthesis_does_not_depend_on_workers<T, A, N>(
    transform: &T,
    plus: &A,
    scale: &N,
    settings: SpectrogramSettings,
    awful_hack: bool,
    img: &SpectrogramImage,
    workers_a: usize,
    workers_b: usize,
    a: Result<Vec<u32>, SpectrogramError>,
    b: Result<Vec<u32>, SpectrogramError>,
) where
    T: Fn(&Vec<ComplexBits>) -> Option<Vec<u32>>,
    A: Fn(u32, u32) -> u32,
    N: Fn(u32, usize) -> u32,

    requires
        workers_a > 0,
        workers_b > 0,
        synthesizes_in_one_way(transform),
        adds_in_one_way(plus),
        scales_in_one_way(scale),
        synthesis_outcome(transform, plus, scale, settings, workers_a, awful_hack, img, a),
        synthesis_outcome(transform, plus, scale, settings, workers_b, awful_hack, img, b),
    ensures
        same_synthesis(a, b),
{
    match (a, b) {
        (Ok(x), Ok(y)) => {
            lemma_synthesis_is_unique(transform, plus, scale, settings, awful_hack, img, x@, y@);
        },
        (Ok(x), Err(SpectrogramError::TransformFailed { column })) => {
            lemma_synthesis_made_every_window(
                transform,
                plus,
                scale,
                settings,
                awful_hack,
                img,
                x@,
                column as int,
            );
            lemma_synthesis_success_excludes_failure(
                transform,
                settings,
                prepared_spectrum(img, column as int, settings, awful_hack),
            );
        },
        (Err(SpectrogramError::TransformFailed { column }), Ok(y)) => {
            lemma_synthesis_made_every_window(
                transform,
                plus,
                scale,
                settings,
                awful_hack,
                img,
                y@,
                column as int,
            );
            lemma_synthesis_success_excludes_failure(
                transform,
                settings,
                prepared_spectrum(img, column as int, settings, awful_hack),
            );
        },
        (
            Err(SpectrogramError::TransformFailed { column: first }),
            Err(SpectrogramError::TransformFailed { column: second }),
        ) => {
            if first < second {
                lemma_synthesis_success_excludes_failure(
                    transform,
                    settings,
                    prepared_spectrum(img, first as int, settings, awful_hack),
                );
            } else if second < first {
                lemma_synthesis_success_excludes_failure(
                    transform,
                    settings,
                    prepared_spectrum(img, second as int, settings, awful_hack),
                );
            }
        },
        _ => {},
    }
}

/// A signal of a matrix was made of a window of every column.
pub proof fn lemma_synthesis_made_every_window<T, A, N>(
    transform: &T,
    plus: &A,
    scale: &N,
    settings: SpectrogramSettings,
    awful_hack: bool,
    img: &SpectrogramImage,
    out: Seq<u32>,
    x: int,
) where
    T: Fn(&Vec<ComplexBits>) -> Option<Vec<u32>>,
    A: Fn(u32, u32) -> u32,
    N: Fn(u32, usize) -> u32,

    requires
        is_synthesis_of(transform, plus, scale, settings, awful_hack, img, out),
        0 <= x < img.width,
    ensures
        synthesis_succeeds_on(
            transform,
            settings,
            prepared_spectrum(img, x, settings, awful_hack),
        ),
{
    let (frames, sums) = choose|frames: Seq<Seq<u32>>, sums: Seq<u32>|
        {
            &&& are_frames_of(transform, settings, awful_hack, img, frames)
            &&& #[trigger] overlap_added(plus, frames, settings.hop(), sums)
            &&& normalized(scale, settings.frame_len() as usize, sums, out)
        };
    assert(is_frame_of(
        transform,
        settings,
        prepared_spectrum(img, x, settings, awful_hack),
        frames[x],
    ));
}

/// Where each of the three functions has one result for every input, a
/// matrix has one signal.
pub proof fn lemma_synthesis_is_unique<T, A, N>(
    transform: &T,
    plus: &A,
    scale: &N,
    settings: SpectrogramSettings,
    awful_hack: bool,
    img: &SpectrogramImage,
    a: Seq<u32>,
    b: Seq<u32>,
) where
    T: Fn(&Vec<ComplexBits>) -> Option<Vec<u32>>,
    A: Fn(u32, u32) -> u32,
    N: Fn(u32, usize) -> u32,

    requires
        synthesizes_in_one_way(transform),
        adds_in_one_way(plus),
        scales_in_one_way(scale),
        is_synthesis_of(transform, plus, scale, settings, awful_hack, img, a),
        is_synthesis_of(transform, plus, scale, settings, awful_hack, img, b),
    ensures
        a == b,
{
    let hop = settings.hop();
    let len = settings.frame_len() as usize;
    let (fa, sa) = choose|frames: Seq<Seq<u32>>, sums: Seq<u32>|
        {
            &&& are_frames_of(transform, settings, awful_hack, img, frames)
            &&& #[trigger] overlap_added(plus, frames, hop, sums)
            &&& normalized(scale, len, sums, a)
        };
    let (fb, sb) = choose|frames: Seq<Seq<u32>>, sums: Seq<u32>|
        {
            &&& are_frames_of(transform, settings, awful_hack, img, frames)
            &&& #[trigger] overlap_added(plus, frames, hop, sums)
            &&& normalized(scale, len, sums, b)
        };
    assert forall|x: int| 0 <= x < img.width implies fa[x] == fb[x] by {
        let spectrum = prepared_spectrum(img, x, settings, awful_hack);
        assert(is_frame_of(transform, settings, spectrum, fa[x]));
        assert(is_frame_of(transform, settings, spectrum, fb[x]));
        let ra = choose|raw: Seq<u32>|
            {
                &&& #[trigger] synthesizes(transform, spectrum, Some(raw))
                &&& raw.len() == settings.frame_len()
                &&& fa[x] == depadded(raw, settings.window_pad_amnt as nat)
            };
        let rb = choose|raw: Seq<u32>|
            {
                &&& #[trigger] synthesizes(transform, spectrum, Some(raw))
                &&& raw.len() == settings.frame_len()
                &&& fb[x] == depadded(raw, settings.window_pad_amnt as nat)
            };
        assert(Some(ra) == Some(rb));
    }
    assert(fa =~= fb);
    assert forall|j: int| 0 <= j < sa.len() implies sa[j] == sb[j] by {
        assert(sums_to(plus, fa, hop, fa.len(), j, sa[j]));
        assert(sums_to(plus, fa, hop, fa.len(), j, sb[j]));
        let k = j / (hop as int);
        let r = j % (hop as int);
        if 1 <= k <= fa.len() && 0 <= k < fa.len() {
            let ta = choose|t: u32|
                #[trigger] plus.ensures((POSITIVE_ZERO, fa[k - 1][r + hop]), t) && plus.ensures(
                    (t, fa[k][r]),
                    sa[j],
                );
            let tb = choose|t: u32|
                #[trigger] plus.ensures((POSITIVE_ZERO, fa[k - 1][r + hop]), t) && plus.ensures(
                    (t, fa[k][r]),
                    sb[j],
                );
            assert(ta == tb);
        }
    }
    assert(sa =~= sb);
    assert forall|j: int| 0 <= j < a.len() implies a[j] == b[j] by {
        assert(scale.ensures((sa[j], len), a[j]));
        assert(scale.ensures((sa[j], len), b[j]));
    }
    assert(a =~= b);
}

} // verus!
