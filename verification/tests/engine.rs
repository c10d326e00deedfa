use std::f32::consts::TAU;
use std::sync::Arc;

use realfft::num_complex::Complex32;
use realfft::ComplexToReal;
use realfft::RealFftPlanner;
use realfft::RealToComplex;
use spectrogram::forward::analyze_mt;
use spectrogram::forward::analyze_share;
use spectrogram::forward::collect_columns;
use spectrogram::forward::pad_signal;
use spectrogram::forward::lead_padding_of;
use spectrogram::inverse::inverse_mt;
use spectrogram::inverse::normalize;
use spectrogram::inverse::overlap_add;
use spectrogram::inverse::synthesize_share;
use spectrogram::partition::shares;
use spectrogram::render::analyze_st;
use spectrogram::ComplexBits;
use spectrogram::ConfigurationFault;
use spectrogram::SpectrogramError;
use spectrogram::SpectrogramImage;
use spectrogram::SpectrogramSettings;

fn bits_of(samples: &[f32]) -> Vec<u32> {
    samples.iter().map(|s| s.to_bits()).collect()
}

fn values_of(bits: &[u32]) -> Vec<f32> {
    bits.iter().map(|b| f32::from_bits(*b)).collect()
}

fn hann(n: usize, recip_len: f32) -> f32 {
    0.5f32 * (1f32 - (TAU * n as f32 * recip_len).cos())
}

fn taper(window: &Vec<u32>) -> Vec<u32> {
    let recip_len = ((window.len() - 1) as f32).recip();
    window
        .iter()
        .enumerate()
        .map(|(i, b)| (f32::from_bits(*b) * hann(i, recip_len)).to_bits())
        .collect()
}

fn forward_with(fft: Arc<dyn RealToComplex<f32>>) -> impl Fn(&Vec<u32>) -> Option<Vec<ComplexBits>> {
    move |frame: &Vec<u32>| {
        let mut inputs = values_of(frame);
        let mut outputs = fft.make_output_vec();
        fft.process(&mut inputs, &mut outputs).ok()?;
        Some(
            outputs
                .into_iter()
                .map(|c| {
                    let doubled = c * 2f32;
                    ComplexBits { re: doubled.re.to_bits(), im: doubled.im.to_bits() }
                })
                .collect(),
        )
    }
}

fn inverse_with(ifft: Arc<dyn ComplexToReal<f32>>) -> impl Fn(&Vec<ComplexBits>) -> Option<Vec<u32>> {
    move |spectrum: &Vec<ComplexBits>| {
        let mut inputs: Vec<Complex32> = spectrum
            .iter()
            .map(|c| Complex32::new(f32::from_bits(c.re), f32::from_bits(c.im)))
            .collect();
        let mut outputs = ifft.make_output_vec();
        ifft.process(&mut inputs, &mut outputs).ok()?;
        Some(bits_of(&outputs))
    }
}

fn plus(a: u32, b: u32) -> u32 {
    (f32::from_bits(a) + f32::from_bits(b)).to_bits()
}

fn scale(sample: u32, frame_len: usize) -> u32 {
    let len_recip = (frame_len as f32).recip();
    (f32::from_bits(sample) * (len_recip / 2f32)).to_bits()
}

fn unscaled(sample: u32, _frame_len: usize) -> u32 {
    sample
}

fn analyze(signal: &[f32], settings: &SpectrogramSettings, thread_ct: usize) -> SpectrogramImage {
    let fft = RealFftPlanner::<f32>::new()
        .plan_fft_forward(settings.window_size + settings.window_pad_amnt);
    analyze_mt(&bits_of(signal), settings, thread_ct, taper, forward_with(fft)).unwrap()
}

fn synthesize(
    img: &SpectrogramImage,
    settings: &SpectrogramSettings,
    thread_ct: usize,
    awful_hack: bool,
) -> Result<Vec<f32>, SpectrogramError> {
    let ifft = RealFftPlanner::<f32>::new()
        .plan_fft_inverse(settings.window_size + settings.window_pad_amnt);
    inverse_mt(img, settings, thread_ct, awful_hack, inverse_with(ifft), plus, scale)
        .map(|out| values_of(&out))
}

fn sine(frequency: f32, sample_rate: f32, count: usize) -> Vec<f32> {
    (0..count).map(|n| (TAU * frequency * n as f32 / sample_rate).sin()).collect()
}

fn row_energies(img: &SpectrogramImage) -> Vec<f64> {
    (0..img.height)
        .map(|y| {
            (0..img.width)
                .map(|x| {
                    let c = img.get_at(x, y);
                    let re = f32::from_bits(c.re) as f64;
                    let im = f32::from_bits(c.im) as f64;
                    re * re + im * im
                })
                .sum()
        })
        .collect()
}

fn dominant_row(img: &SpectrogramImage) -> usize {
    let energies = row_energies(img);
    let mut best = 0;
    for y in 0..energies.len() {
        if energies[y] > energies[best] {
            best = y;
        }
    }
    best
}

fn normalized_rms_error(expected: &[f32], got: &[f32]) -> f64 {
    let mut num = 0f64;
    let mut den = 0f64;
    for i in 0..expected.len() {
        let d = (got[i] - expected[i]) as f64;
        num += d * d;
        den += (expected[i] as f64) * (expected[i] as f64);
    }
    (num / den).sqrt()
}

fn chirp(count: usize) -> Vec<f32> {
    (0..count)
        .map(|n| {
            let t = n as f32 / 48000f32;
            0.6f32 * (TAU * 220f32 * t).sin() + 0.3f32 * (TAU * (900f32 + 400f32 * t) * t).sin()
        })
        .collect()
}

#[test]
fn round_trip_reproduces_the_signal() {
    let settings = SpectrogramSettings { window_size: 32768, window_pad_amnt: 0 };
    let signal = chirp(100_000);
    let img = analyze(&signal, &settings, 4);
    let out = synthesize(&img, &settings, 4, false).unwrap();
    let lead = lead_padding_of(signal.len(), settings.window_size);
    assert_eq!(out.len(), (img.width + 1) * (settings.window_size / 2));
    let error = normalized_rms_error(&signal, &out[lead..lead + signal.len()]);
    assert!(error < 1e-4, "normalized rms error {}", error);
}

#[test]
fn round_trip_with_padded_windows_reproduces_the_signal() {
    let settings = SpectrogramSettings { window_size: 16384, window_pad_amnt: 4096 };
    let signal = chirp(60_000);
    let img = analyze(&signal, &settings, 3);
    assert_eq!(img.height, (16384 + 4096) / 2 + 1);
    let out = synthesize(&img, &settings, 3, false).unwrap();
    let lead = lead_padding_of(signal.len(), settings.window_size);
    let error = normalized_rms_error(&signal, &out[lead..lead + signal.len()]);
    assert!(error < 2e-4, "normalized rms error {}", error);
}

#[test]
fn round_trip_keeps_the_padding_silent() {
    let settings = SpectrogramSettings { window_size: 1024, window_pad_amnt: 0 };
    let signal = chirp(5000);
    let img = analyze(&signal, &settings, 2);
    let out = synthesize(&img, &settings, 2, false).unwrap();
    let lead = lead_padding_of(signal.len(), settings.window_size);
    for j in 0..lead {
        assert!(out[j].abs() < 1e-3, "sample {} is {}", j, out[j]);
    }
    for j in lead + signal.len()..out.len() {
        assert!(out[j].abs() < 1e-3, "sample {} is {}", j, out[j]);
    }
}

#[test]
fn worker_count_does_not_change_the_analysis() {
    let settings = SpectrogramSettings { window_size: 512, window_pad_amnt: 0 };
    let signal = chirp(20_000);
    let one = analyze(&signal, &settings, 1);
    for thread_ct in [2usize, 3, 7, 15, 200] {
        let many = analyze(&signal, &settings, thread_ct);
        assert_eq!(many.width, one.width);
        assert_eq!(many.height, one.height);
        assert_eq!(many.data, one.data);
    }
}

#[test]
fn worker_count_does_not_change_the_synthesis() {
    let settings = SpectrogramSettings { window_size: 512, window_pad_amnt: 0 };
    let signal = chirp(20_000);
    let img = analyze(&signal, &settings, 1);
    let one = bits_of(&synthesize(&img, &settings, 1, false).unwrap());
    for thread_ct in [2usize, 3, 7, 15, 200] {
        let many = bits_of(&synthesize(&img, &settings, thread_ct, false).unwrap());
        assert_eq!(many, one);
    }
}

#[test]
fn sums_at_window_starts_are_the_sample_times_twice_the_window() {
    let settings = SpectrogramSettings { window_size: 2048, window_pad_amnt: 0 };
    let hop = settings.window_size / 2;
    let signal = chirp(30_000);
    let img = analyze(&signal, &settings, 4);
    let ifft = RealFftPlanner::<f32>::new().plan_fft_inverse(settings.window_size);
    let sums = values_of(
        &inverse_mt(&img, &settings, 4, false, inverse_with(ifft), plus, unscaled).unwrap(),
    );
    let lead = lead_padding_of(signal.len(), settings.window_size);
    let factor = 2f32 * settings.window_size as f32;
    let mut checked = 0;
    for k in 1..img.width + 1 {
        let j = k * hop;
        if j >= lead && j < lead + signal.len() {
            let expected = factor * signal[j - lead];
            assert!(
                (sums[j] - expected).abs() <= 2e-3 * factor,
                "sample {}: {} for {}",
                j,
                sums[j],
                expected
            );
            checked += 1;
        }
    }
    assert!(checked > 20);
}

#[test]
fn sine_wave_peaks_in_bin_27() {
    let settings = SpectrogramSettings { window_size: 3000, window_pad_amnt: 0 };
    let signal = sine(440f32, 48000f32, 480_000);
    let img = analyze(&signal, &settings, 15);
    assert_eq!(img.width, 323);
    assert_eq!(img.height, 1501);
    assert_eq!(dominant_row(&img), 27);
    let out = synthesize(&img, &settings, 15, false).unwrap();
    assert_eq!(out.len(), 486_000);
    let lead = lead_padding_of(signal.len(), settings.window_size);
    assert_eq!(lead, 3000);
    let again = analyze(&out[lead..lead + signal.len()], &settings, 15);
    assert_eq!(dominant_row(&again), 27);
}

#[test]
fn odd_window_is_refused() {
    let settings = SpectrogramSettings { window_size: 3001, window_pad_amnt: 0 };
    let fft = RealFftPlanner::<f32>::new().plan_fft_forward(3001);
    let r = analyze_mt(&bits_of(&chirp(9000)), &settings, 4, taper, forward_with(fft));
    assert_eq!(
        r.err(),
        Some(SpectrogramError::InvalidConfiguration(ConfigurationFault::WindowSize))
    );
}

#[test]
fn empty_window_is_refused() {
    let settings = SpectrogramSettings { window_size: 0, window_pad_amnt: 8 };
    let r = analyze_mt(&bits_of(&chirp(100)), &settings, 4, taper, |_frame: &Vec<u32>| None);
    assert_eq!(
        r.err(),
        Some(SpectrogramError::InvalidConfiguration(ConfigurationFault::WindowSize))
    );
}

#[test]
fn window_and_padding_beyond_the_word_are_refused() {
    let settings = SpectrogramSettings { window_size: 8, window_pad_amnt: usize::MAX - 3 };
    let r = analyze_mt(&bits_of(&chirp(100)), &settings, 4, taper, |_frame: &Vec<u32>| None);
    assert_eq!(
        r.err(),
        Some(SpectrogramError::InvalidConfiguration(ConfigurationFault::WindowSize))
    );
}

#[test]
fn no_workers_are_refused() {
    let settings = SpectrogramSettings { window_size: 64, window_pad_amnt: 0 };
    let fft = RealFftPlanner::<f32>::new().plan_fft_forward(64);
    let r = analyze_mt(&bits_of(&chirp(900)), &settings, 0, taper, forward_with(fft));
    assert_eq!(
        r.err(),
        Some(SpectrogramError::InvalidConfiguration(ConfigurationFault::ThreadCount))
    );
    let img = SpectrogramImage::new_empty(4, 33);
    assert_eq!(
        synthesize(&img, &settings, 0, false).err(),
        Some(SpectrogramError::InvalidConfiguration(ConfigurationFault::ThreadCount))
    );
}

#[test]
fn window_fault_comes_before_worker_fault() {
    let settings = SpectrogramSettings { window_size: 63, window_pad_amnt: 0 };
    let img = SpectrogramImage::new_empty(4, 33);
    assert_eq!(
        synthesize(&img, &settings, 0, false).err(),
        Some(SpectrogramError::InvalidConfiguration(ConfigurationFault::WindowSize))
    );
}

#[test]
fn transform_of_the_wrong_length_names_the_first_column() {
    let settings = SpectrogramSettings { window_size: 64, window_pad_amnt: 0 };
    let fft = RealFftPlanner::<f32>::new().plan_fft_forward(32);
    let r = analyze_mt(&bits_of(&chirp(900)), &settings, 3, taper, forward_with(fft));
    assert_eq!(r.err(), Some(SpectrogramError::TransformFailed { column: 0 }));
}

#[test]
fn failing_transform_names_its_column() {
    let settings = SpectrogramSettings { window_size: 8, window_pad_amnt: 0 };
    let signal: Vec<u32> = (1..=40).collect();
    // The window that starts with the sample 17 is refused; its column is
    // found from where that sample lies in the padded signal.
    let lead = lead_padding_of(signal.len(), 8);
    let column = (lead + 16) / 4;
    assert_eq!((lead + 16) % 4, 0);
    assert_eq!(column, 6);
    let only_some = |frame: &Vec<u32>| {
        if frame[0] == 17 {
            None
        } else {
            Some(vec![ComplexBits { re: frame[0], im: 0 }; 5])
        }
    };
    for thread_ct in [1usize, 2, 5] {
        let r = analyze_mt(&signal, &settings, thread_ct, |w: &Vec<u32>| w.clone(), only_some);
        assert_eq!(r.err(), Some(SpectrogramError::TransformFailed { column }));
    }
}

#[test]
fn taper_of_the_wrong_length_fails_the_column() {
    let settings = SpectrogramSettings { window_size: 8, window_pad_amnt: 0 };
    let signal: Vec<u32> = (1..=40).collect();
    let r = analyze_mt(
        &signal,
        &settings,
        2,
        |w: &Vec<u32>| w[1..].to_vec(),
        |_frame: &Vec<u32>| Some(vec![ComplexBits { re: 0, im: 0 }; 5]),
    );
    assert_eq!(r.err(), Some(SpectrogramError::TransformFailed { column: 0 }));
}

#[test]
fn matrix_taller_than_the_transform_is_refused() {
    let settings = SpectrogramSettings { window_size: 64, window_pad_amnt: 0 };
    let img = SpectrogramImage::new_empty(4, 34);
    assert_eq!(
        synthesize(&img, &settings, 2, false).err(),
        Some(SpectrogramError::InvalidConfiguration(ConfigurationFault::MatrixShape))
    );
}

#[test]
fn matrix_with_missing_cells_is_refused() {
    let settings = SpectrogramSettings { window_size: 64, window_pad_amnt: 0 };
    let mut img = SpectrogramImage::new_empty(4, 33);
    img.data.pop();
    assert_eq!(
        synthesize(&img, &settings, 2, false).err(),
        Some(SpectrogramError::InvalidConfiguration(ConfigurationFault::MatrixShape))
    );
}

#[test]
fn shorter_matrix_is_filled_with_zero_bins() {
    let settings = SpectrogramSettings { window_size: 64, window_pad_amnt: 0 };
    let signal = chirp(2000);
    let full = analyze(&signal, &settings, 2);
    let mut low = SpectrogramImage::new_empty(full.width, 10);
    let mut cut = SpectrogramImage::new_empty(full.width, full.height);
    for x in 0..full.width {
        for y in 0..10 {
            *low.mut_get_at(x, y) = full.get_at(x, y);
            *cut.mut_get_at(x, y) = full.get_at(x, y);
        }
    }
    let a = bits_of(&synthesize(&low, &settings, 2, false).unwrap());
    let b = bits_of(&synthesize(&cut, &settings, 2, false).unwrap());
    assert_eq!(a, b);
}

fn with_real_edges(img: &SpectrogramImage, settings: &SpectrogramSettings) -> SpectrogramImage {
    let mut mended = img.clone();
    let top = settings.bin_count() - 1;
    for x in 0..img.width {
        for y in [0, top] {
            if y < img.height {
                let cell = img.get_at(x, y);
                mended.set_at(x, y, ComplexBits { re: cell.re, im: 0f32.to_bits() });
            }
        }
    }
    mended
}

#[test]
fn edited_edges_fail_the_column_unless_repaired() {
    let settings = SpectrogramSettings { window_size: 64, window_pad_amnt: 0 };
    let signal = chirp(2000);
    let mut img = analyze(&signal, &settings, 2);
    *img.mut_get_at(5, 0) = ComplexBits { re: 1f32.to_bits(), im: 1f32.to_bits() };
    assert_eq!(
        synthesize(&img, &settings, 3, false).err(),
        Some(SpectrogramError::TransformFailed { column: 5 })
    );
    let repaired = synthesize(&img, &settings, 3, true).unwrap();
    assert_eq!(repaired.len(), (img.width + 1) * 32);
    // What the repair does to the column: the imaginary part of the edge
    // goes, its real part stays.
    let by_hand = with_real_edges(&img, &settings);
    assert_eq!(by_hand.get_at(5, 0), ComplexBits { re: 1f32.to_bits(), im: 0 });
    let expected = synthesize(&by_hand, &settings, 3, false).unwrap();
    assert_eq!(bits_of(&repaired), bits_of(&expected));
    // The real part that stayed is heard: the column is not the one with a
    // silent edge.
    let mut silent = by_hand.clone();
    silent.set_at(5, 0, ComplexBits { re: 0, im: 0 });
    let other = synthesize(&silent, &settings, 3, false).unwrap();
    assert!(bits_of(&repaired) != bits_of(&other));
}

#[test]
fn repair_is_synthesis_of_the_matrix_with_real_edges() {
    for (pad, height) in [(0usize, 33usize), (16, 41), (0, 20), (0, 1)] {
        let settings = SpectrogramSettings { window_size: 64, window_pad_amnt: pad };
        let mut img = SpectrogramImage::new_empty(9, height);
        for x in 0..9 {
            for y in 0..height {
                let re = ((x * 31 + y * 17) % 23) as f32 - 11f32;
                let im = ((x * 13 + y * 7) % 19) as f32 - 9f32;
                img.set_at(x, y, ComplexBits { re: re.to_bits(), im: im.to_bits() });
            }
        }
        let before = img.data.clone();
        let mended = with_real_edges(&img, &settings);
        for thread_ct in [1usize, 4] {
            let repaired = synthesize(&img, &settings, thread_ct, true).unwrap();
            let expected = synthesize(&mended, &settings, thread_ct, false).unwrap();
            assert_eq!(bits_of(&repaired), bits_of(&expected));
        }
        assert_eq!(img.data, before);
        assert!(synthesize(&img, &settings, 2, false).is_err());
    }
}

#[test]
fn empty_signal_has_three_columns() {
    let settings = SpectrogramSettings { window_size: 16, window_pad_amnt: 0 };
    let img = analyze(&[], &settings, 2);
    assert_eq!(img.width, 3);
    assert_eq!(img.height, 9);
    for cell in &img.data {
        assert_eq!(f32::from_bits(cell.re), 0f32);
        assert_eq!(f32::from_bits(cell.im), 0f32);
    }
    let out = synthesize(&img, &settings, 2, false).unwrap();
    assert_eq!(out, vec![0f32; 32]);
}

#[test]
fn empty_matrix_gives_half_a_window_of_silence() {
    let settings = SpectrogramSettings { window_size: 16, window_pad_amnt: 0 };
    let img = SpectrogramImage::new_empty(0, 9);
    let out = synthesize(&img, &settings, 2, false).unwrap();
    assert_eq!(bits_of(&out), vec![0u32; 8]);
}

#[test]
fn picture_of_a_sine_is_brightest_in_its_row() {
    let signal = sine(6000f32, 48000f32, 48_000);
    let window_size = 512;
    let fft = rustfft::FftPlanner::<f32>::new().plan_fft_forward(window_size);
    let measure = move |tapered: &Vec<u32>| {
        let mut inputs: Vec<Complex32> =
            tapered.iter().map(|f| Complex32::from(f32::from_bits(*f))).collect();
        fft.process(&mut inputs);
        Some(inputs.iter().map(|f| (f.norm() * 4f32).ln().to_bits()).collect::<Vec<u32>>())
    };
    let pixel = |level: u32, peak: u32| {
        let mind = -3f32;
        let range = f32::from_bits(peak) - mind;
        ((f32::from_bits(level) - mind) / range * 255f32) as u8
    };
    let picture = analyze_st(&bits_of(&signal), window_size, taper, measure, pixel).unwrap();
    assert_eq!(picture.height, 256);
    assert_eq!(picture.width, 2 * (48_000 / 512) + 3);
    assert_eq!(picture.pixels.len(), picture.width * picture.height);
    assert_eq!(*picture.pixels.iter().max().unwrap(), 255);
    // 6000 Hz is frequency 64 of 512 at 48000 Hz; frequency 0 is the last row.
    let row = picture.height - 1 - 64;
    let middle = picture.width / 2;
    let column: Vec<u8> =
        (0..picture.height).map(|y| picture.pixels[y * picture.width + middle]).collect();
    let brightest = (0..picture.height).max_by_key(|y| column[*y]).unwrap();
    assert!(column[row] >= 250);
    assert!(brightest + 1 >= row && brightest <= row + 1);
}

#[test]
fn shares_worked_in_any_order_give_the_same_matrix() {
    let settings = SpectrogramSettings { window_size: 256, window_pad_amnt: 64 };
    let signal = chirp(9_000);
    let whole = analyze(&signal, &settings, 1);
    let padded = pad_signal(&bits_of(&signal), settings.window_size);
    let fft = RealFftPlanner::<f32>::new().plan_fft_forward(320);
    let transform = forward_with(fft);
    let parts = shares(whole.width, 5);
    let mut messages = Vec::new();
    for id in [3usize, 0, 4, 2, 1] {
        messages.extend(analyze_share(&padded, &settings, parts[id], &taper, &transform).unwrap());
    }
    messages.reverse();
    let mut img = SpectrogramImage::new_empty(whole.width, whole.height);
    assert!(collect_columns(&mut img, &messages));
    assert_eq!(img.data, whole.data);
}

#[test]
fn shares_worked_in_any_order_give_the_same_signal() {
    let settings = SpectrogramSettings { window_size: 256, window_pad_amnt: 64 };
    let signal = chirp(9_000);
    let img = analyze(&signal, &settings, 1);
    let whole = bits_of(&synthesize(&img, &settings, 1, false).unwrap());
    let ifft = RealFftPlanner::<f32>::new().plan_fft_inverse(320);
    let transform = inverse_with(ifft);
    let parts = shares(img.width, 5);
    let mut messages = Vec::new();
    for id in [3usize, 0, 4, 2, 1] {
        messages.extend(synthesize_share(&img, &settings, parts[id], false, &transform).unwrap());
    }
    assert_eq!(overlap_add(&messages, &settings, &plus), None);
    messages.sort_by_key(|message| message.offset);
    let mut out = overlap_add(&messages, &settings, &plus).unwrap();
    normalize(&mut out, 320, &scale);
    assert_eq!(out, whole);
}
