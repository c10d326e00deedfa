//! From a signal to its spectral matrix.
//!
//! The signal is padded with zeros on both sides, so that its length is a
//! whole number of windows and the first and the last window begin and end in
//! padding. Windows start half a window apart. Each is tapered, laid out as a
//! frame and transformed, and what comes back is one column of the matrix.

use vstd::prelude::*;
use crate::bits::zeros;
use crate::bits::ComplexBits;
use crate::bits::POSITIVE_ZERO;
use crate::error::ConfigurationFault;
use crate::error::SpectrogramError;
use crate::frame::pad_frame;
use crate::frame::padded_frame;
use crate::matrix::lemma_same_columns_same_cells;
use crate::matrix::SpectrogramImage;
use crate::kernel::accepts_samples;
use crate::kernel::analyzes;
use crate::kernel::analyzes_in_one_way;
use crate::kernel::tapers_in_one_way;
use crate::kernel::cells_of;
use crate::kernel::tapers;
use crate::partition::share;
use crate::partition::share_start;
use crate::partition::lemma_shares_adjoin;
use crate::partition::lemma_shares_end;
use crate::partition::Share;
pub use crate::render::analyze_st;
use crate::settings::SpectrogramSettings;

verus! {

/// Zero samples added to a signal of `len` samples: what it lacks of a whole
/// number of windows, and one window more.
pub open spec fn padding(len: nat, window: nat) -> nat {
    (2 * window - len % window) as nat
}

/// The zero samples in front of the signal: half of them, rounded down.
pub open spec fn lead_padding(len: nat, window: nat) -> nat {
    padding(len, window) / 2
}

/// The zero samples behind the signal.
pub open spec fn trail_padding(len: nat, window: nat) -> nat {
    (padding(len, window) - lead_padding(len, window)) as nat
}

pub open spec fn padded_len(len: nat, window: nat) -> nat {
    len + padding(len, window)
}

pub open spec fn padded_signal(signal: Seq<u32>, window: nat) -> Seq<u32> {
    zeros(lead_padding(signal.len(), window)) + signal + zeros(
        trail_padding(signal.len(), window),
    )
}

/// Windows cut from a signal of `len` samples: one for every half window of
/// the padded signal but the last.
pub open spec fn segment_count(len: nat, window: nat) -> nat {
    (padded_len(len, window) / (window / 2) - 1) as nat
}

/// Window `x` of a padded signal.
pub open spec fn segment(padded: Seq<u32>, window: nat, x: int) -> Seq<u32> {
    padded.subrange(x * (window / 2), x * (window / 2) + window)
}

/// A padded signal is a whole number of windows long, two more than fit
/// into the signal.
pub proof fn lemma_padded_len(len: nat, window: nat)
    requires
        window > 0,
    ensures
        padded_len(len, window) == (len / window + 2) * window,
        padded_len(len, window) <= len + 2 * window,
        padded_signal(Seq::new(len, |i: int| POSITIVE_ZERO), window).len() == padded_len(
            len,
            window,
        ),
{
    vstd::arithmetic::div_mod::lemma_fundamental_div_mod(len as int, window as int);
    assert((len / window + 2) * window == window * (len / window) + 2 * window)
        by (nonlinear_arith);
}

/// With an even window there are an odd number of windows, and each of them
/// lies inside the padded signal; the last one ends with it.
pub proof fn lemma_segments(len: nat, window: nat)
    requires
        window > 0,
        window % 2 == 0,
    ensures
        padded_len(len, window) / (window / 2) == 2 * (len / window) + 4,
        segment_count(len, window) == 2 * (len / window) + 3,
        (segment_count(len, window) + 1) * (window / 2) == padded_len(len, window),
        forall|x: int|
            0 <= x < segment_count(len, window) ==> 0 <= #[trigger] (x * (window / 2)) && x * (
                window / 2) + window <= padded_len(len, window),
{
    let hop = window / 2;
    let whole = len / window + 2;
    lemma_padded_len(len, window);
    assert(window == 2 * hop);
    assert(whole * window == (2 * whole) * hop) by (nonlinear_arith)
        requires
            window == 2 * hop,
    ;
    vstd::arithmetic::div_mod::lemma_div_multiples_vanish((2 * whole) as int, hop as int);
    assert(((2 * whole) * hop) / hop == 2 * whole) by {
        assert((2 * whole) * hop == hop * (2 * whole)) by (nonlinear_arith);
    }
    let count = segment_count(len, window);
    assert(count == 2 * whole - 1);
    assert((count + 1) * hop == (2 * whole) * hop);
    assert forall|x: int| 0 <= x < count implies 0 <= #[trigger] (x * hop) && x * hop + window
        <= padded_len(len, window) by {
        assert(0 <= x * hop && x * hop + 2 * hop <= (count + 1) * hop) by (nonlinear_arith)
            requires
                0 <= x < count,
                0 <= hop,
        ;
    }
}

/// The signal begins and ends at least half a window inside the padded
/// signal, and at most a whole one.
pub proof fn lemma_padding_surrounds(len: nat, window: nat)
    requires
        window > 0,
        window % 2 == 0,
    ensures
        window / 2 <= lead_padding(len, window) <= window,
        window / 2 <= trail_padding(len, window) <= window,
        lead_padding(len, window) + len + trail_padding(len, window) == padded_len(len, window),
{
    vstd::arithmetic::div_mod::lemma_mod_bound(len as int, window as int);
}

/// Every sample of the signal lies in two windows: in the second half of
/// one and in the first half of the next.
pub proof fn lemma_signal_in_two_windows(len: nat, window: nat, i: nat)
    requires
        window > 0,
        window % 2 == 0,
        i < len,
    ensures
        1 <= (lead_padding(len, window) + i) / (window / 2) < segment_count(len, window),
{
    let hop = (window / 2) as int;
    let j = (lead_padding(len, window) + i) as int;
    let k = j / hop;
    lemma_padding_surrounds(len, window);
    lemma_segments(len, window);
    vstd::arithmetic::div_mod::lemma_fundamental_div_mod(j, hop);
    vstd::arithmetic::div_mod::lemma_mod_bound(j, hop);
    let count = segment_count(len, window) as int;
    assert(1 <= k < count) by (nonlinear_arith)
        requires
            j == hop * k + j % hop,
            0 <= j % hop < hop,
            hop <= j,
            j + hop < (count + 1) * hop,
            hop > 0,
    ;
}

/// What stands in the way of an analysis or a synthesis, if anything does.
pub open spec fn configuration_fault(
    settings: SpectrogramSettings,
    thread_ct: usize,
) -> Option<ConfigurationFault> {
    if !settings.valid() {
        Some(ConfigurationFault::WindowSize)
    } else if thread_ct == 0 {
        Some(ConfigurationFault::ThreadCount)
    } else {
        None
    }
}

/// Refuses settings and worker counts that cannot be worked with.
pub fn check_configuration(settings: &SpectrogramSettings, thread_ct: usize) -> (r: Result<
    (),
    SpectrogramError,
>)
    ensures
        r == match configuration_fault(*settings, thread_ct) {
            Some(fault) => Err::<(), SpectrogramError>(
                SpectrogramError::InvalidConfiguration(fault),
            ),
            None => Ok(()),
        },
{
    if !settings.is_valid() {
        Err(SpectrogramError::InvalidConfiguration(ConfigurationFault::WindowSize))
    } else if thread_ct == 0 {
        Err(SpectrogramError::InvalidConfiguration(ConfigurationFault::ThreadCount))
    } else {
        Ok(())
    }
}

/// Decides [`lead_padding`]: where the first sample of the signal lies in the
/// padded signal.
pub fn lead_padding_of(len: usize, window_size: usize) -> (lead: usize)
    requires
        window_size > 0,
        2 * window_size <= usize::MAX,
    ensures
        lead == lead_padding(len as nat, window_size as nat),
{
    (window_size + window_size - len % window_size) / 2
}

/// The signal with its zeros in front and behind.
pub fn pad_signal(query: &Vec<u32>, window_size: usize) -> (padded: Vec<u32>)
    requires
        window_size > 0,
        query@.len() + 2 * window_size <= usize::MAX,
    ensures
        padded@ == padded_signal(query@, window_size as nat),
        padded@.len() == padded_len(query@.len(), window_size as nat),
{
    let len: usize = query.len();
    let not_fit_in_window: usize = len % window_size;
    let to_pad_by: usize = window_size + window_size - not_fit_in_window;
    let to_pad_by_on_left: usize = to_pad_by / 2;
    let to_pad_by_on_right: usize = to_pad_by - to_pad_by_on_left;
    let mut padded: Vec<u32> = Vec::new();
    let mut i: usize = 0;
    while i < to_pad_by_on_left
        invariant
            i <= to_pad_by_on_left,
            padded@ == zeros(i as nat),
        decreases to_pad_by_on_left - i,
    {
        padded.push(POSITIVE_ZERO);
        assert(padded@ =~= zeros((i + 1) as nat));
        i += 1;
    }
    let mut j: usize = 0;
    while j < len
        invariant
            len == query@.len(),
            j <= len,
            padded@ == zeros(to_pad_by_on_left as nat) + query@.subrange(0, j as int),
        decreases len - j,
    {
        padded.push(query[j]);
        assert(padded@ =~= zeros(to_pad_by_on_left as nat) + query@.subrange(0, j + 1));
        j += 1;
    }
    assert(query@.subrange(0, len as int) =~= query@);
    let mut k: usize = 0;
    while k < to_pad_by_on_right
        invariant
            k <= to_pad_by_on_right,
            padded@ == zeros(to_pad_by_on_left as nat) + query@ + zeros(k as nat),
        decreases to_pad_by_on_right - k,
    {
        padded.push(POSITIVE_ZERO);
        assert(padded@ =~= zeros(to_pad_by_on_left as nat) + query@ + zeros((k + 1) as nat));
        k += 1;
    }
    padded
}

/// The samples of `source` from `start` up to `end`.
pub fn copy_range(source: &Vec<u32>, start: usize, end: usize) -> (part: Vec<u32>)
    requires
        start <= end <= source@.len(),
    ensures
        part@ == source@.subrange(start as int, end as int),
{
    let mut part: Vec<u32> = Vec::new();
    let mut i: usize = start;
    while i < end
        invariant
            start <= i <= end <= source@.len(),
            part@ == source@.subrange(start as int, i as int),
        decreases end - i,
    {
        part.push(source[i]);
        assert(part@ =~= source@.subrange(start as int, i + 1));
        i += 1;
    }
    part
}

/// Both functions can be called on what the analysis hands them: `taper` on
/// every window, `transform` on every frame.
pub open spec fn analysis_callable<W, T>(
    taper: &W,
    transform: &T,
    settings: SpectrogramSettings,
) -> bool where W: Fn(&Vec<u32>) -> Vec<u32>, T: Fn(&Vec<u32>) -> Option<Vec<ComplexBits>> {
    &&& accepts_samples(taper, settings.window_size as nat)
    &&& accepts_samples(transform, settings.frame_len())
}

/// `column` is what the two functions may make of `window`: `taper` gave a
/// window of the same length, and `transform` gave `column`, one cell for
/// every bin, for the frame of that tapered window.
pub open spec fn is_column_of<W, T>(
    taper: &W,
    transform: &T,
    settings: SpectrogramSettings,
    window: Seq<u32>,
    column: Seq<ComplexBits>,
) -> bool where W: Fn(&Vec<u32>) -> Vec<u32>, T: Fn(&Vec<u32>) -> Option<Vec<ComplexBits>> {
    exists|tapered: Seq<u32>|
        {
            &&& #[trigger] tapers(taper, window, tapered)
            &&& tapered.len() == settings.window_size
            &&& analyzes(
                transform,
                padded_frame(tapered, settings.window_pad_amnt as nat),
                Some(column),
            )
            &&& column.len() == settings.bins()
        }
}

/// The two functions may make nothing usable of `window`: `taper` gave a
/// window of another length, or `transform` gave nothing, or not one cell
/// for every bin.
pub open spec fn fails_on<W, T>(
    taper: &W,
    transform: &T,
    settings: SpectrogramSettings,
    window: Seq<u32>,
) -> bool where W: Fn(&Vec<u32>) -> Vec<u32>, T: Fn(&Vec<u32>) -> Option<Vec<ComplexBits>> {
    exists|tapered: Seq<u32>|
        {
            &&& #[trigger] tapers(taper, window, tapered)
            &&& tapered.len() != settings.window_size || exists|out: Option<Seq<ComplexBits>>|
                {
                    &&& #[trigger] analyzes(
                        transform,
                        padded_frame(tapered, settings.window_pad_amnt as nat),
                        out,
                    )
                    &&& (out is None || out->0.len() != settings.bins())
                }
        }
}

/// One window's analysis: column `x` of the matrix.
pub fn analyze_segment<W, T>(
    padded: &Vec<u32>,
    settings: &SpectrogramSettings,
    x: usize,
    taper: &W,
    transform: &T,
) -> (r: Result<Vec<ComplexBits>, SpectrogramError>) where
    W: Fn(&Vec<u32>) -> Vec<u32>,
    T: Fn(&Vec<u32>) -> Option<Vec<ComplexBits>>,

    requires
        settings.valid(),
        x * settings.hop() + settings.window_size <= padded@.len(),
        analysis_callable(taper, transform, *settings),
    ensures
        match r {
            Ok(column) => is_column_of(
                taper,
                transform,
                *settings,
                segment(padded@, settings.window_size as nat, x as int),
                column@,
            ),
            Err(e) => e == (SpectrogramError::TransformFailed { column: x }) && fails_on(
                taper,
                transform,
                *settings,
                segment(padded@, settings.window_size as nat, x as int),
            ),
        },
{
    let hop: usize = settings.hop_size();
    assert(0 <= x * hop) by (nonlinear_arith)
        requires
            0 <= x,
            0 <= hop,
    ;
    assert(padded.len() == padded@.len());
    let start: usize = x * hop;
    let window: Vec<u32> = copy_range(padded, start, start + settings.window_size);
    let tapered: Vec<u32> = taper(&window);
    assert(tapers(taper, window@, tapered@));
    if tapered.len() != settings.window_size {
        return Err(SpectrogramError::TransformFailed { column: x });
    }
    let frame: Vec<u32> = pad_frame(&tapered, settings.window_pad_amnt);
    let out: Option<Vec<ComplexBits>> = transform(&frame);
    assert(analyzes(transform, frame@, cells_of(out)));
    match out {
        Some(column) => {
            if column.len() == settings.bin_count() {
                Ok(column)
            } else {
                Err(SpectrogramError::TransformFailed { column: x })
            }
        },
        None => Err(SpectrogramError::TransformFailed { column: x }),
    }
}

/// What a worker hands to the one writer of the matrix: a column and where
/// it belongs.
#[derive(Clone, Debug)]
pub struct ColumnMessage {
    pub column: usize,
    pub cells: Vec<ComplexBits>,
}

/// Every message names a column of the matrix and holds a cell for each of
/// its rows.
pub open spec fn columns_fit(img: &SpectrogramImage, messages: Seq<ColumnMessage>) -> bool {
    forall|i: int|
        0 <= i < messages.len() ==> (#[trigger] messages[i]).column < img.width && img.height
            <= messages[i].cells@.len()
}

/// No two messages name one column.
pub open spec fn columns_distinct(messages: Seq<ColumnMessage>) -> bool {
    forall|i: int, j: int|
        0 <= i < j < messages.len() ==> (#[trigger] messages[i]).column
            != (#[trigger] messages[j]).column
}

/// One of the messages names column `x`.
pub open spec fn names_column(messages: Seq<ColumnMessage>, x: int) -> bool {
    exists|i: int| 0 <= i < messages.len() && (#[trigger] messages[i]).column == x
}

/// `after` is `before` with the messages written to it: every column that a
/// message names holds the cells of that message, and every other column is
/// as it was. Nothing here depends on the order of the messages.
pub open spec fn collected(
    before: &SpectrogramImage,
    messages: Seq<ColumnMessage>,
    after: &SpectrogramImage,
) -> bool {
    &&& after.same_shape(before)
    &&& forall|i: int|
        0 <= i < messages.len() ==> after.column((#[trigger] messages[i]).column as int)
            == messages[i].cells@.subrange(0, before.height as int)
    &&& forall|x: int|
        0 <= x < before.width && !names_column(messages, x) ==> #[trigger] after.column(x)
            == before.column(x)
}

/// What the one writer of the matrix does with the messages of the workers,
/// in whatever order they came: it writes every column where its message
/// says. Messages that do not fit the matrix, or two for one column, are
/// refused as a whole, and the matrix stays as it is.
pub fn collect_columns(img: &mut SpectrogramImage, messages: &Vec<ColumnMessage>) -> (ok: bool)
    requires
        old(img).wf(),
    ensures
        ok == (columns_fit(old(img), messages@) && columns_distinct(messages@)),
        ok ==> collected(old(img), messages@, final(img)),
        !ok ==> *final(img) == *old(img),
{
    let count: usize = messages.len();
    let mut seen: Vec<bool> = Vec::new();
    let mut x: usize = 0;
    while x < img.width
        invariant
            x <= img.width,
            seen@.len() == x,
            forall|k: int| 0 <= k < x ==> !seen@[k],
        decreases img.width - x,
    {
        seen.push(false);
        x += 1;
    }
    let mut i: usize = 0;
    while i < count
        invariant
            count == messages@.len(),
            i <= count,
            seen@.len() == img.width,
            forall|k: int|
                0 <= k < i ==> (#[trigger] messages@[k]).column < img.width && img.height
                    <= messages@[k].cells@.len(),
            forall|a: int, b: int|
                0 <= a < b < i ==> (#[trigger] messages@[a]).column
                    != (#[trigger] messages@[b]).column,
            forall|c: int|
                0 <= c < img.width ==> (#[trigger] seen@[c] <==> names_column(
                    messages@.subrange(0, i as int),
                    c,
                )),
        decreases count - i,
    {
        let column: usize = messages[i].column;
        if column >= img.width || messages[i].cells.len() < img.height {
            return false;
        }
        if seen[column] {
            proof {
                let earlier = choose|k: int|
                    0 <= k < i && (#[trigger] messages@.subrange(0, i as int)[k]).column == column;
                assert(messages@[earlier].column == messages@[i as int].column);
            }
            return false;
        }
        let ghost marked = seen@;
        seen[column] = true;
        proof {
            assert forall|c: int| 0 <= c < img.width implies (#[trigger] seen@[c] <==> names_column(
                messages@.subrange(0, i + 1),
                c,
            )) by {
                let shorter = messages@.subrange(0, i as int);
                let longer = messages@.subrange(0, i + 1);
                if names_column(longer, c) {
                    let k = choose|k: int| 0 <= k < longer.len() && (#[trigger] longer[k]).column == c;
                    if k < i {
                        assert(shorter[k].column == c);
                    }
                }
                if marked[c] {
                    let k = choose|k: int|
                        0 <= k < shorter.len() && (#[trigger] shorter[k]).column == c;
                    assert(longer[k].column == c);
                }
                if c == column {
                    assert(longer[i as int].column == c);
                }
            }
            assert forall|a: int, b: int| 0 <= a < b < i + 1 implies (#[trigger] messages@[a]).column
                != (#[trigger] messages@[b]).column by {
                if b == i && messages@[a].column == column {
                    assert(messages@.subrange(0, i as int)[a].column == column);
                }
            }
        }
        i += 1;
    }
    let mut n: usize = 0;
    while n < count
        invariant
            count == messages@.len(),
            n <= count,
            columns_fit(old(img), messages@),
            columns_distinct(messages@),
            img.same_shape(old(img)),
            forall|k: int|
                0 <= k < n ==> img.column((#[trigger] messages@[k]).column as int)
                    == messages@[k].cells@.subrange(0, img.height as int),
            forall|c: int|
                0 <= c < img.width && !names_column(messages@.subrange(0, n as int), c)
                    ==> #[trigger] img.column(c) == old(img).column(c),
        decreases count - n,
    {
        let ghost before = *img;
        img.set_column(messages[n].column, messages[n].cells.as_slice());
        proof {
            assert forall|k: int| 0 <= k < n + 1 implies img.column(
                (#[trigger] messages@[k]).column as int,
            ) == messages@[k].cells@.subrange(0, img.height as int) by {
                if k < n {
                    assert(messages@[k].column != messages@[n as int].column);
                    assert(img.column(messages@[k].column as int) == before.column(
                        messages@[k].column as int,
                    ));
                }
            }
            assert forall|c: int|
                0 <= c < img.width && !names_column(
                    messages@.subrange(0, n + 1),
                    c,
                ) implies #[trigger] img.column(c) == old(img).column(c) by {
                let shorter = messages@.subrange(0, n as int);
                let longer = messages@.subrange(0, n + 1);
                assert(longer[n as int].column != c);
                if names_column(shorter, c) {
                    let k = choose|k: int|
                        0 <= k < shorter.len() && (#[trigger] shorter[k]).column == c;
                    assert(longer[k].column == c);
                }
                assert(img.column(c) == before.column(c));
            }
        }
        n += 1;
    }
    assert(messages@.subrange(0, count as int) =~= messages@);
    true
}

/// One of the messages names column `column` and holds `cells`.
pub open spec fn holds_message(
    messages: Seq<ColumnMessage>,
    column: usize,
    cells: Seq<ComplexBits>,
) -> bool {
    exists|i: int|
        0 <= i < messages.len() && (#[trigger] messages[i]).column == column && messages[i].cells@
            == cells
}

/// The matrix does not depend on the order in which the workers' messages
/// come: two runs of messages that hold the same messages, in whatever
/// order, leave the same matrix.
pub proof fn lemma_collected_in_any_order(
    before: &SpectrogramImage,
    first: Seq<ColumnMessage>,
    second: Seq<ColumnMessage>,
    a: &SpectrogramImage,
    b: &SpectrogramImage,
)
    requires
        collected(before, first, a),
        collected(before, second, b),
        forall|i: int|
            0 <= i < first.len() ==> holds_message(
                second,
                (#[trigger] first[i]).column,
                first[i].cells@,
            ),
        forall|i: int|
            0 <= i < second.len() ==> holds_message(
                first,
                (#[trigger] second[i]).column,
                second[i].cells@,
            ),
    ensures
        a@ == b@,
        a.data@ == b.data@,
{
    assert forall|x: int| 0 <= x < a.width implies #[trigger] a.column(x) == b.column(x) by {
        if names_column(first, x) {
            let i = choose|i: int| 0 <= i < first.len() && (#[trigger] first[i]).column == x;
            assert(holds_message(second, first[i].column, first[i].cells@));
            let j = choose|j: int|
                0 <= j < second.len() && (#[trigger] second[j]).column == first[i].column
                    && second[j].cells@ == first[i].cells@;
            assert(a.column(first[i].column as int) == first[i].cells@.subrange(
                0,
                before.height as int,
            ));
            assert(b.column(second[j].column as int) == second[j].cells@.subrange(
                0,
                before.height as int,
            ));
        } else {
            if names_column(second, x) {
                let j = choose|j: int| 0 <= j < second.len() && (#[trigger] second[j]).column == x;
                assert(holds_message(first, second[j].column, second[j].cells@));
                let i = choose|i: int|
                    0 <= i < first.len() && (#[trigger] first[i]).column == second[j].column
                        && first[i].cells@ == second[j].cells@;
                assert(false);
            }
            assert(a.column(x) == before.column(x));
            assert(b.column(x) == before.column(x));
        }
    }
    lemma_same_columns_same_cells(a, b);
}

/// The two functions may make a column of `window`.
pub open spec fn succeeds_on<W, T>(
    taper: &W,
    transform: &T,
    settings: SpectrogramSettings,
    window: Seq<u32>,
) -> bool where W: Fn(&Vec<u32>) -> Vec<u32>, T: Fn(&Vec<u32>) -> Option<Vec<ComplexBits>> {
    exists|column: Seq<ComplexBits>|
        #[trigger] is_column_of(taper, transform, settings, window, column)
}

/// A worker's part of an analysis: the columns of its share, in order. The
/// first window that the two functions make nothing of ends it.
pub fn analyze_share<W, T>(
    padded: &Vec<u32>,
    settings: &SpectrogramSettings,
    share: Share,
    taper: &W,
    transform: &T,
) -> (r: Result<Vec<ColumnMessage>, SpectrogramError>) where
    W: Fn(&Vec<u32>) -> Vec<u32>,
    T: Fn(&Vec<u32>) -> Option<Vec<ComplexBits>>,

    requires
        settings.valid(),
        (share.start + share.len + 1) * settings.hop() <= padded@.len(),
        analysis_callable(taper, transform, *settings),
    ensures
        match r {
            Ok(messages) => {
                &&& messages@.len() == share.len
                &&& forall|i: int|
                    0 <= i < share.len ==> {
                        &&& (#[trigger] messages@[i]).column == share.start + i
                        &&& is_column_of(
                            taper,
                            transform,
                            *settings,
                            segment(padded@, settings.window_size as nat, share.start + i),
                            messages@[i].cells@,
                        )
                    }
            },
            Err(e) => exists|x: int|
                {
                    &&& share.start <= x < share.start + share.len
                    &&& e == (SpectrogramError::TransformFailed { column: x as usize })
                    &&& #[trigger] fails_on(
                        taper,
                        transform,
                        *settings,
                        segment(padded@, settings.window_size as nat, x),
                    )
                    &&& forall|k: int|
                        share.start <= k < x ==> succeeds_on(
                            taper,
                            transform,
                            *settings,
                            #[trigger] segment(padded@, settings.window_size as nat, k),
                        )
                },
        },
{
    let hop: usize = settings.hop_size();
    let mut messages: Vec<ColumnMessage> = Vec::new();
    let mut i: usize = 0;
    assert(padded.len() == padded@.len());
    assert(share.start + share.len <= padded@.len()) by (nonlinear_arith)
        requires
            (share.start + share.len + 1) * hop <= padded@.len(),
            hop >= 1,
    ;
    while i < share.len
        invariant
            settings.valid(),
            hop == settings.hop(),
            hop >= 1,
            (share.start + share.len + 1) * hop <= padded@.len(),
            share.start + share.len <= usize::MAX,
            analysis_callable(taper, transform, *settings),
            i <= share.len,
            messages@.len() == i,
            forall|k: int|
                0 <= k < i ==> {
                    &&& (#[trigger] messages@[k]).column == share.start + k
                    &&& is_column_of(
                        taper,
                        transform,
                        *settings,
                        segment(padded@, settings.window_size as nat, share.start + k),
                        messages@[k].cells@,
                    )
                },
        decreases share.len - i,
    {
        let x: usize = share.start + i;
        assert(x * hop + 2 * hop <= (share.start + share.len + 1) * hop) by (nonlinear_arith)
            requires
                x < share.start + share.len,
                hop >= 0,
        ;
        match analyze_segment(padded, settings, x, taper, transform) {
            Ok(cells) => {
                messages.push(ColumnMessage { column: x, cells });
            },
            Err(e) => {
                proof {
                    assert forall|k: int| share.start <= k < x implies succeeds_on(
                        taper,
                        transform,
                        *settings,
                        #[trigger] segment(padded@, settings.window_size as nat, k),
                    ) by {
                        let m = messages@[k - share.start];
                        assert(is_column_of(
                            taper,
                            transform,
                            *settings,
                            segment(
                                padded@,
                                settings.window_size as nat,
                                share.start + (k - share.start),
                            ),
                            m.cells@,
                        ));
                    }
                }
                return Err(e);
            },
        }
        i += 1;
    }
    Ok(messages)
}

/// The signal and the matrix that it leads to fit the machine's word.
pub open spec fn fits(len: nat, settings: SpectrogramSettings) -> bool {
    &&& len + 2 * settings.window_size <= usize::MAX
    &&& segment_count(len, settings.window_size as nat) * settings.bins() <= usize::MAX
}

/// Decides [`fits`].
pub fn fits_machine(len: usize, settings: &SpectrogramSettings) -> (ok: bool)
    requires
        settings.valid(),
    ensures
        ok == fits(len as nat, *settings),
{
    let window: usize = settings.window_size;
    if window > usize::MAX / 2 || len > usize::MAX - 2 * window {
        return false;
    }
    proof {
        lemma_padded_len(len as nat, window as nat);
        lemma_segments(len as nat, window as nat);
        vstd::arithmetic::div_mod::lemma_fundamental_div_mod(len as int, window as int);
        let whole = len as int / window as int;
        assert(2 * whole <= len) by (nonlinear_arith)
            requires
                window * whole <= len,
                window >= 2,
                whole >= 0,
        ;
    }
    let count: usize = 2 * (len / window) + 3;
    let bins: usize = settings.bin_count();
    match count.checked_mul(bins) {
        Some(_) => true,
        None => false,
    }
}

/// `img` is a spectral matrix of `signal`: it has a column for every window
/// and a row for every bin, and each column is what the two functions may
/// make of its window.
pub open spec fn is_analysis_of<W, T>(
    taper: &W,
    transform: &T,
    settings: SpectrogramSettings,
    signal: Seq<u32>,
    img: &SpectrogramImage,
) -> bool where W: Fn(&Vec<u32>) -> Vec<u32>, T: Fn(&Vec<u32>) -> Option<Vec<ComplexBits>> {
    &&& img.wf()
    &&& img.width == segment_count(signal.len(), settings.window_size as nat)
    &&& img.height == settings.bins()
    &&& forall|x: int|
        0 <= x < img.width ==> is_column_of(
            taper,
            transform,
            settings,
            segment(
                padded_signal(signal, settings.window_size as nat),
                settings.window_size as nat,
                x,
            ),
            #[trigger] img.column(x),
        )
}

/// What an analysis with `thread_ct` workers may come to.
///
/// It is refused where the settings or the worker count cannot be worked
/// with, and only there. Else it is a spectral matrix of the signal, or the
/// number of the first window that the two functions may make nothing of:
/// every window before it was made a column of.
pub open spec fn analysis_outcome<W, T>(
    taper: &W,
    transform: &T,
    settings: SpectrogramSettings,
    thread_ct: usize,
    signal: Seq<u32>,
    r: Result<SpectrogramImage, SpectrogramError>,
) -> bool where W: Fn(&Vec<u32>) -> Vec<u32>, T: Fn(&Vec<u32>) -> Option<Vec<ComplexBits>> {
    match r {
        Ok(img) => {
            &&& configuration_fault(settings, thread_ct) is None
            &&& is_analysis_of(taper, transform, settings, signal, &img)
        },
        Err(SpectrogramError::InvalidConfiguration(fault)) => configuration_fault(
            settings,
            thread_ct,
        ) == Some(fault),
        Err(SpectrogramError::TransformFailed { column }) => {
            &&& configuration_fault(settings, thread_ct) is None
            &&& column < segment_count(signal.len(), settings.window_size as nat)
            &&& fails_on(
                taper,
                transform,
                settings,
                segment(
                    padded_signal(signal, settings.window_size as nat),
                    settings.window_size as nat,
                    column as int,
                ),
            )
            &&& forall|k: int|
                0 <= k < column ==> succeeds_on(
                    taper,
                    transform,
                    settings,
                    #[trigger] segment(
                        padded_signal(signal, settings.window_size as nat),
                        settings.window_size as nat,
                        k,
                    ),
                )
        },
    }
}

/// The spectral matrix of a signal.
///
/// The windows are shared out among `thread_ct` workers, and the shares are
/// worked through one after the other, each window in its turn. A caller
/// that runs the workers side by side gives each of them [`analyze_share`]
/// and hands what they send to [`collect_columns`], in whatever order it
/// came.
///
/// The caller sees to it that the signal and the matrix fit the machine's
/// word, which [`fits_machine`] decides.
///
/// Settings or a worker count that cannot be worked with are refused before
/// any work is done. The first window that the two functions make nothing of
/// ends the analysis: its number is returned and the matrix is not.
pub fn analyze_mt<W, T>(
    query: &Vec<u32>,
    settings: &SpectrogramSettings,
    thread_ct: usize,
    taper: W,
    transform: T,
) -> (r: Result<SpectrogramImage, SpectrogramError>) where
    W: Fn(&Vec<u32>) -> Vec<u32>,
    T: Fn(&Vec<u32>) -> Option<Vec<ComplexBits>>,

    requires
        configuration_fault(*settings, thread_ct) is None ==> fits(query@.len(), *settings),
        configuration_fault(*settings, thread_ct) is None ==> analysis_callable(
            &taper,
            &transform,
            *settings,
        ),
    ensures
        analysis_outcome(&taper, &transform, *settings, thread_ct, query@, r),
{
    match check_configuration(settings, thread_ct) {
        Err(e) => {
            return Err(e);
        },
        Ok(_) => {},
    }
    let window: usize = settings.window_size;
    let hop: usize = settings.hop_size();
    let bins: usize = settings.bin_count();
    let padded: Vec<u32> = pad_signal(query, window);
    proof {
        lemma_padded_len(query@.len(), window as nat);
        lemma_segments(query@.len(), window as nat);
    }
    let seg_count: usize = padded.len() / hop - 1;
    let mut img = SpectrogramImage::new_empty(seg_count, bins);
    let mut id: usize = 0;
    while id < thread_ct
        invariant
            settings.valid(),
            thread_ct > 0,
            id <= thread_ct,
            window == settings.window_size,
            bins == settings.bins(),
            padded@ == padded_signal(query@, window as nat),
            padded@.len() == padded_len(query@.len(), window as nat),
            seg_count == segment_count(query@.len(), window as nat),
            (seg_count + 1) * settings.hop() == padded@.len(),
            analysis_callable(&taper, &transform, *settings),
            img.wf(),
            img.width == seg_count,
            img.height == bins,
            forall|x: int|
                0 <= x < share_start(seg_count as nat, thread_ct as nat, id as nat)
                    ==> is_column_of(
                    &taper,
                    &transform,
                    *settings,
                    segment(padded@, window as nat, x),
                    #[trigger] img.column(x),
                ),
        decreases thread_ct - id,
    {
        let part: Share = share(seg_count, thread_ct, id);
        proof {
            lemma_shares_adjoin(seg_count as nat, thread_ct as nat, id as nat);
            assert((part.start + part.len + 1) * settings.hop() <= (seg_count + 1)
                * settings.hop()) by (nonlinear_arith)
                requires
                    part.start + part.len <= seg_count,
            ;
        }
        match analyze_share(&padded, settings, part, &taper, &transform) {
            Err(e) => {
                proof {
                    let x = choose|x: int|
                        {
                            &&& part.start <= x < part.start + part.len
                            &&& e == (SpectrogramError::TransformFailed { column: x as usize })
                            &&& #[trigger] fails_on(
                                &taper,
                                &transform,
                                *settings,
                                segment(padded@, settings.window_size as nat, x),
                            )
                            &&& forall|k: int|
                                part.start <= k < x ==> succeeds_on(
                                    &taper,
                                    &transform,
                                    *settings,
                                    #[trigger] segment(padded@, settings.window_size as nat, k),
                                )
                        };
                    assert forall|k: int| 0 <= k < x implies succeeds_on(
                        &taper,
                        &transform,
                        *settings,
                        #[trigger] segment(padded@, window as nat, k),
                    ) by {
                        if k < part.start {
                            assert(is_column_of(
                                &taper,
                                &transform,
                                *settings,
                                segment(padded@, window as nat, k),
                                img.column(k),
                            ));
                        }
                    }
                }
                return Err(e);
            },
            Ok(messages) => {
                let ghost before = img;
                proof {
                    assert forall|k: int| 0 <= k < messages@.len() implies (
                    #[trigger] messages@[k]).cells@.len() == bins by {
                        assert(is_column_of(
                            &taper,
                            &transform,
                            *settings,
                            segment(padded@, window as nat, part.start + k),
                            messages@[k].cells@,
                        ));
                    }
                }
                let written: bool = collect_columns(&mut img, &messages);
                proof {
                    assert(written);
                    assert forall|x: int| 0 <= x < part.start + part.len implies is_column_of(
                        &taper,
                        &transform,
                        *settings,
                        segment(padded@, window as nat, x),
                        #[trigger] img.column(x),
                    ) by {
                        if x < part.start {
                            if names_column(messages@, x) {
                                let k = choose|k: int|
                                    0 <= k < messages@.len() && (#[trigger] messages@[k]).column
                                        == x;
                                assert(false);
                            }
                            assert(img.column(x) == before.column(x));
                        } else {
                            let m = messages@[x - part.start];
                            assert(m.column == x);
                            assert(m.cells@.subrange(0, bins as int) =~= m.cells@);
                            assert(is_column_of(
                                &taper,
                                &transform,
                                *settings,
                                segment(padded@, window as nat, part.start + (x - part.start)),
                                m.cells@,
                            ));
                        }
                    }
                }
            },
        }
        id += 1;
    }
    proof {
        lemma_shares_end(seg_count as nat, thread_ct as nat);
    }
    Ok(img)
}

/// The two functions do not both make a column of a window and make nothing
/// of it, where each of them has one result for every input.
pub proof fn lemma_success_excludes_failure<W, T>(
    taper: &W,
    transform: &T,
    settings: SpectrogramSettings,
    window: Seq<u32>,
) where W: Fn(&Vec<u32>) -> Vec<u32>, T: Fn(&Vec<u32>) -> Option<Vec<ComplexBits>>
    requires
        tapers_in_one_way(taper),
        analyzes_in_one_way(transform),
        succeeds_on(taper, transform, settings, window),
    ensures
        !fails_on(taper, transform, settings, window),
{
    if fails_on(taper, transform, settings, window) {
        let pad = settings.window_pad_amnt as nat;
        let column = choose|column: Seq<ComplexBits>|
            #[trigger] is_column_of(taper, transform, settings, window, column);
        let good = choose|t: Seq<u32>|
            {
                &&& #[trigger] tapers(taper, window, t)
                &&& t.len() == settings.window_size
                &&& analyzes(transform, padded_frame(t, pad), Some(column))
                &&& column.len() == settings.bins()
            };
        let bad = choose|t: Seq<u32>|
            {
                &&& #[trigger] tapers(taper, window, t)
                &&& t.len() != settings.window_size || exists|out: Option<Seq<ComplexBits>>|
                    {
                        &&& #[trigger] analyzes(transform, padded_frame(t, pad), out)
                        &&& (out is None || out->0.len() != settings.bins())
                    }
            };
        assert(good == bad);
        let out = choose|out: Option<Seq<ComplexBits>>|
            {
                &&& #[trigger] analyzes(transform, padded_frame(bad, pad), out)
                &&& (out is None || out->0.len() != settings.bins())
            };
        assert(out == Some(column));
        assert(false);
    }
}

/// Two outcomes are one: the same refusal, or matrices of one shape with
/// the same cells.
pub open spec fn same_analysis(
    a: Result<SpectrogramImage, SpectrogramError>,
    b: Result<SpectrogramImage, SpectrogramError>,
) -> bool {
    match (a, b) {
        (Ok(x), Ok(y)) => x.width == y.width && x.height == y.height && x.data@ == y.data@,
        (Err(e), Err(f)) => e == f,
        _ => false,
    }
}

/// An analysis does not depend on the number of its workers: where each of
/// the two functions has one result for every input, what [`analyze_mt`]
/// comes to with one number of workers it comes to with any other, cell for
/// cell the same matrix or the same refusal.
pub proof fn lemma_analysis_does_not_depend_on_workers<W, T>(
    taper: &W,
    transform: &T,
    settings: SpectrogramSettings,
    signal: Seq<u32>,
    workers_a: usize,
    workers_b: usize,
    a: Result<SpectrogramImage, SpectrogramError>,
    b: Result<SpectrogramImage, SpectrogramError>,
) where W: Fn(&Vec<u32>) -> Vec<u32>, T: Fn(&Vec<u32>) -> Option<Vec<ComplexBits>>
    requires
        workers_a > 0,
        workers_b > 0,
        tapers_in_one_way(taper),
        analyzes_in_one_way(transform),
        analysis_outcome(taper, transform, settings, workers_a, signal, a),
        analysis_outcome(taper, transform, settings, workers_b, signal, b),
    ensures
        same_analysis(a, b),
{
    let window = settings.window_size as nat;
    let padded = padded_signal(signal, window);
    match (a, b) {
        (Ok(x), Ok(y)) => {
            lemma_analysis_is_unique(taper, transform, settings, signal, &x, &y);
        },
        (Ok(x), Err(SpectrogramError::TransformFailed { column })) => {
            assert(is_column_of(
                taper,
                transform,
                settings,
                segment(padded, window, column as int),
                x.column(column as int),
            ));
            lemma_success_excludes_failure(
                taper,
                transform,
                settings,
                segment(padded, window, column as int),
            );
        },
        (Err(SpectrogramError::TransformFailed { column }), Ok(y)) => {
            assert(is_column_of(
                taper,
                transform,
                settings,
                segment(padded, window, column as int),
                y.column(column as int),
            ));
            lemma_success_excludes_failure(
                taper,
                transform,
                settings,
                segment(padded, window, column as int),
            );
        },
        (
            Err(SpectrogramError::TransformFailed { column: first }),
            Err(SpectrogramError::TransformFailed { column: second }),
        ) => {
            if first < second {
                lemma_success_excludes_failure(
                    taper,
                    transform,
                    settings,
                    segment(padded, window, first as int),
                );
            } else if second < first {
                lemma_success_excludes_failure(
                    taper,
                    transform,
                    settings,
                    segment(padded, window, second as int),
                );
            }
        },
        _ => {},
    }
}

/// Where each of the two functions has one result for every input, a signal
/// has one spectral matrix.
pub proof fn lemma_analysis_is_unique<W, T>(
    taper: &W,
    transform: &T,
    settings: SpectrogramSettings,
    signal: Seq<u32>,
    a: &SpectrogramImage,
    b: &SpectrogramImage,
) where W: Fn(&Vec<u32>) -> Vec<u32>, T: Fn(&Vec<u32>) -> Option<Vec<ComplexBits>>
    requires
        tapers_in_one_way(taper),
        analyzes_in_one_way(transform),
        is_analysis_of(taper, transform, settings, signal, a),
        is_analysis_of(taper, transform, settings, signal, b),
    ensures
        a.width == b.width,
        a.height == b.height,
        a@ == b@,
        a.data@ == b.data@,
{
    let window = settings.window_size as nat;
    let pad = settings.window_pad_amnt as nat;
    assert forall|x: int| 0 <= x < a.width implies #[trigger] a.column(x) == b.column(x) by {
        let seg = segment(padded_signal(signal, window), window, x);
        assert(is_column_of(taper, transform, settings, seg, a.column(x)));
        assert(is_column_of(taper, transform, settings, seg, b.column(x)));
        let ta = choose|t: Seq<u32>|
            {
                &&& #[trigger] tapers(taper, seg, t)
                &&& t.len() == settings.window_size
                &&& analyzes(transform, padded_frame(t, pad), Some(a.column(x)))
                &&& a.column(x).len() == settings.bins()
            };
        let tb = choose|t: Seq<u32>|
            {
                &&& #[trigger] tapers(taper, seg, t)
                &&& t.len() == settings.window_size
                &&& analyzes(transform, padded_frame(t, pad), Some(b.column(x)))
                &&& b.column(x).len() == settings.bins()
            };
        assert(ta == tb);
        assert(Some(a.column(x)) == Some(b.column(x)));
    }
    lemma_same_columns_same_cells(a, b);
}

} // verus!
