use std::f32::consts::TAU;

use realfft::num_complex::Complex32;
use spectrogram::ComplexBits;
use spectrogram::ConfigurationFault;
use spectrogram::SpectrogramError;
use spectrogram::SpectrogramImage;
use spectrogram::SpectrogramIntensityPlotSettings;
use spectrogram::SpectrogramPhasePlotSettings;

fn as_frac(v: f32) -> u8 {
    (v * u8::MAX as f32) as u8
}

fn to_frac(byte: u8) -> f32 {
    byte as f32 / u8::MAX as f32
}

fn complex(cell: ComplexBits) -> Complex32 {
    Complex32::new(f32::from_bits(cell.re), f32::from_bits(cell.im))
}

fn cell_of(c: Complex32) -> ComplexBits {
    ComplexBits { re: c.re.to_bits(), im: c.im.to_bits() }
}

fn intensity_byte(cell: ComplexBits, low: u32, high: u32) -> u8 {
    let low = f32::from_bits(low);
    let range = f32::from_bits(high) - low;
    as_frac((complex(cell).norm_sqr().ln() * 0.5f32 - low) / range)
}

fn intensity_of(byte: u8, low: u32, high: u32) -> u32 {
    let low = f32::from_bits(low);
    let range = f32::from_bits(high) - low;
    let as_float = if byte == 0 { f32::NEG_INFINITY } else { to_frac(byte) };
    (as_float * range + low).exp().to_bits()
}

fn scaled_by(cell: ComplexBits, intensity: u32) -> ComplexBits {
    cell_of(complex(cell) * f32::from_bits(intensity))
}

fn magnitude(cell: ComplexBits) -> u32 {
    complex(cell).norm().to_bits()
}

fn arg_seamed_at(c: Complex32, lower_seam: f32) -> f32 {
    let raw_arg = c.arg();
    let arg_0_tau = (raw_arg + TAU) % TAU;
    ((arg_0_tau - lower_seam) + TAU) % TAU
}

fn phase_byte(cell: ComplexBits, seam: u32) -> u8 {
    as_frac(arg_seamed_at(complex(cell), f32::from_bits(seam)) / TAU)
}

fn phase_step_byte(cell: ComplexBits, left: Option<ComplexBits>, seam: u32) -> u8 {
    match left {
        Some(left) => {
            as_frac(arg_seamed_at(complex(cell) / complex(left), f32::from_bits(seam)) / TAU)
        }
        None => as_frac(arg_seamed_at(complex(cell), f32::from_bits(seam))),
    }
}

fn phasor(byte: u8, seam: u32) -> ComplexBits {
    let phase = to_frac(byte) * TAU + f32::from_bits(seam);
    cell_of((Complex32::i() * phase).exp())
}

fn times(a: ComplexBits, b: ComplexBits) -> ComplexBits {
    cell_of(complex(a) * complex(b))
}

fn intensity_settings(first: usize, top: usize) -> SpectrogramIntensityPlotSettings {
    SpectrogramIntensityPlotSettings {
        bin_range: [first, top],
        intensity_range: [(-3f32).to_bits(), 10f32.to_bits()],
    }
}

fn numbered(width: usize, height: usize) -> SpectrogramImage {
    let mut img = SpectrogramImage::new_empty(width, height);
    for x in 0..width {
        for y in 0..height {
            img.set_at(x, y, ComplexBits { re: (10 * y + x) as u32, im: 0 });
        }
    }
    img
}

fn low_byte(cell: ComplexBits, _low: u32, _high: u32) -> u8 {
    cell.re as u8
}

fn wavy(width: usize, height: usize) -> SpectrogramImage {
    let mut img = SpectrogramImage::new_empty(width, height);
    for x in 0..width {
        for y in 0..height {
            let r = 0.05f32 + 40f32 * ((x * 7 + y * 13) % 31) as f32;
            let phase = 0.37f32 * (x * 3 + y) as f32;
            img.set_at(x, y, cell_of(Complex32::from_polar(r, phase)));
        }
    }
    img
}

#[test]
fn picture_has_the_highest_bin_in_its_first_row() {
    let img = numbered(3, 4);
    let bytes = img.create_intensity_bytes(&intensity_settings(0, 4), low_byte).unwrap();
    assert_eq!(bytes, vec![30, 31, 32, 20, 21, 22, 10, 11, 12, 0, 1, 2]);
}

#[test]
fn picture_of_a_bin_range_holds_the_rows_of_the_range() {
    let img = numbered(3, 5);
    let bytes = img.create_intensity_bytes(&intensity_settings(1, 3), low_byte).unwrap();
    assert_eq!(bytes, vec![20, 21, 22, 10, 11, 12]);
    let none = img.create_intensity_bytes(&intensity_settings(2, 2), low_byte).unwrap();
    assert!(none.is_empty());
}

#[test]
fn picture_leaves_the_rest_of_a_longer_buffer() {
    let img = numbered(2, 3);
    let mut buffer = vec![99u8; 6];
    img.to_intensity_bytes(&intensity_settings(1, 3), &mut buffer, low_byte).unwrap();
    assert_eq!(buffer, vec![20, 21, 10, 11, 99, 99]);
}

#[test]
fn pictures_are_refused_with_their_fault() {
    let img = numbered(2, 3);
    let mut buffer = vec![99u8; 6];
    assert_eq!(
        img.to_intensity_bytes(&intensity_settings(1, 4), &mut buffer, low_byte),
        Err(SpectrogramError::InvalidConfiguration(ConfigurationFault::BinRange))
    );
    assert_eq!(
        img.to_intensity_bytes(&intensity_settings(2, 1), &mut buffer, low_byte),
        Err(SpectrogramError::InvalidConfiguration(ConfigurationFault::BinRange))
    );
    let mut short = vec![99u8; 5];
    assert_eq!(
        img.to_intensity_bytes(&intensity_settings(0, 3), &mut short, low_byte),
        Err(SpectrogramError::InvalidConfiguration(ConfigurationFault::BufferLength))
    );
    assert_eq!(short, vec![99u8; 5]);
    assert_eq!(buffer, vec![99u8; 6]);
    let mut broken = numbered(2, 3);
    broken.data.pop();
    assert_eq!(
        broken.to_intensity_bytes(&intensity_settings(0, 9), &mut short, low_byte),
        Err(SpectrogramError::InvalidConfiguration(ConfigurationFault::MatrixShape))
    );
    assert_eq!(
        broken.create_intensity_bytes(&intensity_settings(0, 3), low_byte).err(),
        Some(SpectrogramError::InvalidConfiguration(ConfigurationFault::MatrixShape))
    );
    assert_eq!(
        img.create_intensity_bytes(&intensity_settings(0, 4), low_byte).err(),
        Some(SpectrogramError::InvalidConfiguration(ConfigurationFault::BinRange))
    );
    let phase = SpectrogramPhasePlotSettings { bin_range: [3, 2], lower_seam: 0 };
    assert_eq!(
        img.create_phase_bytes(&phase, phase_byte).err(),
        Some(SpectrogramError::InvalidConfiguration(ConfigurationFault::BinRange))
    );
    assert_eq!(
        img.create_relative_phase_bytes(&phase, phase_step_byte).err(),
        Some(SpectrogramError::InvalidConfiguration(ConfigurationFault::BinRange))
    );
    assert_eq!(
        img.to_absolute_phase_bytes(&phase, &mut buffer, phase_byte),
        Err(SpectrogramError::InvalidConfiguration(ConfigurationFault::BinRange))
    );
    assert_eq!(
        img.to_relative_phase_bytes(&phase, &mut buffer, phase_step_byte),
        Err(SpectrogramError::InvalidConfiguration(ConfigurationFault::BinRange))
    );
}

#[test]
fn magnitude_bytes_scale_the_log_magnitude() {
    let mut img = SpectrogramImage::new_empty(1, 4);
    img.set_at(0, 0, cell_of(Complex32::new(1f32, 0f32)));
    img.set_at(0, 1, cell_of(Complex32::new(0f32, (10f32).exp())));
    img.set_at(0, 2, cell_of(Complex32::new(0f32, 0f32)));
    img.set_at(0, 3, cell_of(Complex32::new((3.5f32).exp(), 0f32)));
    let bytes = img.create_intensity_bytes(&intensity_settings(0, 4), intensity_byte).unwrap();
    // ln 1 = 0 lies 3/13 of the way from -3 to 10.
    assert_eq!(bytes[3], (3f32 / 13f32 * 255f32) as u8);
    assert_eq!(bytes[3], 58);
    assert!(bytes[2] >= 254);
    assert_eq!(bytes[1], 0);
    assert_eq!(bytes[0], 127);
}

#[test]
fn magnitudes_survive_a_picture_within_one_step() {
    let img = wavy(9, 7);
    let settings = intensity_settings(0, 7);
    let first = img.create_intensity_bytes(&settings, intensity_byte).unwrap();
    let mut back = SpectrogramImage::new_empty(9, 7);
    back.phaseless_from_intensity_bytes(&settings, &first, false, intensity_of).unwrap();
    let second = back.create_intensity_bytes(&settings, intensity_byte).unwrap();
    assert_eq!(first.len(), second.len());
    for i in 0..first.len() {
        let d = (first[i] as i32 - second[i] as i32).abs();
        assert!(d <= 1, "byte {}: {} then {}", i, first[i], second[i]);
    }
    let mut third_img = SpectrogramImage::new_empty(9, 7);
    third_img.phaseless_from_intensity_bytes(&settings, &second, false, intensity_of).unwrap();
    let third = third_img.create_intensity_bytes(&settings, intensity_byte).unwrap();
    for i in 0..second.len() {
        let d = (second[i] as i32 - third[i] as i32).abs();
        assert!(d <= 1, "byte {}: {} then {}", i, second[i], third[i]);
    }
}

#[test]
fn picture_of_magnitudes_replaces_the_cells_of_its_range() {
    let mut img = numbered(2, 4);
    let settings = intensity_settings(1, 3);
    // Rows of the picture: bin 2, then bin 1.
    let buffer = vec![255u8, 0, 128, 51];
    img.phaseless_from_intensity_bytes(&settings, &buffer, false, intensity_of).unwrap();
    let before = numbered(2, 4);
    assert_eq!(complex(img.get_at(0, 2)), Complex32::new((10f32).exp(), 0f32));
    assert_eq!(complex(img.get_at(1, 2)), Complex32::new(0f32, 0f32));
    let mid = (128f32 / 255f32 * 13f32 - 3f32).exp();
    assert_eq!(complex(img.get_at(0, 1)), Complex32::new(mid, 0f32));
    let low = (51f32 / 255f32 * 13f32 - 3f32).exp();
    assert_eq!(complex(img.get_at(1, 1)), Complex32::new(low, 0f32));
    for x in 0..2 {
        assert_eq!(img.get_at(x, 0), before.get_at(x, 0));
        assert_eq!(img.get_at(x, 3), before.get_at(x, 3));
        assert_eq!(img.get_at(x, 1).im, 0);
    }
    let mut zeroed = numbered(2, 4);
    zeroed.phaseless_from_intensity_bytes(&settings, &buffer, true, intensity_of).unwrap();
    for x in 0..2 {
        assert_eq!(zeroed.get_at(x, 0), ComplexBits { re: 0, im: 0 });
        assert_eq!(zeroed.get_at(x, 3), ComplexBits { re: 0, im: 0 });
        assert_eq!(zeroed.get_at(x, 1), img.get_at(x, 1));
        assert_eq!(zeroed.get_at(x, 2), img.get_at(x, 2));
    }
}

#[test]
fn picture_of_magnitudes_scales_the_cells_of_its_range() {
    let mut img = wavy(2, 3);
    let before = wavy(2, 3);
    let settings = intensity_settings(0, 2);
    let buffer = vec![58u8, 255, 0, 100];
    img.apply_intensity_bytes(&settings, &buffer, intensity_of, scaled_by).unwrap();
    let factor = |byte: u8| f32::from_bits(intensity_of(byte, settings.intensity_range[0], settings.intensity_range[1]));
    assert_eq!(complex(img.get_at(0, 1)), complex(before.get_at(0, 1)) * factor(58));
    assert_eq!(complex(img.get_at(1, 1)), complex(before.get_at(1, 1)) * factor(255));
    assert_eq!(complex(img.get_at(0, 0)), complex(before.get_at(0, 0)) * 0f32);
    assert_eq!(complex(img.get_at(1, 0)), complex(before.get_at(1, 0)) * factor(100));
    assert_eq!(img.get_at(0, 2), before.get_at(0, 2));
    assert_eq!(img.get_at(1, 2), before.get_at(1, 2));
}

#[test]
fn imports_are_refused_with_their_fault() {
    let mut img = numbered(2, 3);
    let buffer = vec![1u8; 3];
    assert_eq!(
        img.phaseless_from_intensity_bytes(&intensity_settings(0, 2), &buffer, true, intensity_of),
        Err(SpectrogramError::InvalidConfiguration(ConfigurationFault::BufferLength))
    );
    assert_eq!(
        img.apply_intensity_bytes(&intensity_settings(0, 4), &buffer, intensity_of, scaled_by),
        Err(SpectrogramError::InvalidConfiguration(ConfigurationFault::BinRange))
    );
    assert_eq!(img.data, numbered(2, 3).data);
    assert_eq!(
        img.apply_phase_bytes(0, &buffer, false, phasor, times),
        Err(SpectrogramError::InvalidConfiguration(ConfigurationFault::BufferLength))
    );
    img.data.pop();
    assert_eq!(
        img.apply_phase_bytes(0, &buffer, false, phasor, times),
        Err(SpectrogramError::InvalidConfiguration(ConfigurationFault::MatrixShape))
    );
}

#[test]
fn eliminating_the_phase_twice_changes_nothing_more() {
    let mut img = wavy(11, 6);
    let before = wavy(11, 6);
    img.eliminate_phase(magnitude);
    let once = img.data.clone();
    for i in 0..once.len() {
        assert_eq!(once[i].im, 0);
        assert_eq!(once[i].re, magnitude(before.data[i]));
        assert_eq!(magnitude(once[i]), magnitude(before.data[i]));
    }
    img.eliminate_phase(magnitude);
    assert_eq!(img.data, once);
    for i in 0..once.len() {
        assert_eq!(magnitude(img.data[i]), magnitude(before.data[i]));
    }
    assert_eq!(img.width, 11);
    assert_eq!(img.height, 6);
}

#[test]
fn phase_bytes_scale_the_angle_from_the_seam() {
    let mut img = SpectrogramImage::new_empty(2, 2);
    img.set_at(0, 0, cell_of(Complex32::new(1f32, 0f32)));
    img.set_at(1, 0, cell_of(Complex32::new(0f32, 1f32)));
    img.set_at(0, 1, cell_of(Complex32::new(-1f32, 0f32)));
    img.set_at(1, 1, cell_of(Complex32::new(0f32, -1f32)));
    let settings = SpectrogramPhasePlotSettings { bin_range: [0, 2], lower_seam: 0f32.to_bits() };
    let bytes = img.create_phase_bytes(&settings, phase_byte).unwrap();
    assert_eq!(bytes, vec![127, 191, 0, 63]);
    let turned = SpectrogramPhasePlotSettings {
        bin_range: [0, 2],
        lower_seam: (TAU / 4f32).to_bits(),
    };
    let bytes = img.create_phase_bytes(&turned, phase_byte).unwrap();
    assert_eq!(bytes[2], 191);
    assert_eq!(bytes[0], 63);
    assert_eq!(bytes[1], 127);
}

#[test]
fn relative_phase_bytes_show_the_step_from_the_left() {
    let mut img = SpectrogramImage::new_empty(3, 1);
    img.set_at(0, 0, cell_of(Complex32::new(0f32, 2f32)));
    img.set_at(1, 0, cell_of(Complex32::new(-3f32, 0f32)));
    img.set_at(2, 0, cell_of(Complex32::new(3f32, 0f32)));
    let settings = SpectrogramPhasePlotSettings { bin_range: [0, 1], lower_seam: 0f32.to_bits() };
    let bytes = img.create_relative_phase_bytes(&settings, phase_step_byte).unwrap();
    // The first column has nothing to its left: its byte is its own angle,
    // a quarter turn, not divided by a whole turn, and so as large as a
    // byte gets.
    assert_eq!(bytes[0], 255);
    assert_eq!(bytes[1], 63);
    assert_eq!(bytes[2], 127);
    let mut buffer = vec![7u8; 5];
    img.to_relative_phase_bytes(&settings, &mut buffer, phase_step_byte).unwrap();
    assert_eq!(buffer, vec![255, 63, 127, 7, 7]);
    let mut absolute = vec![7u8; 4];
    img.to_absolute_phase_bytes(&settings, &mut absolute, phase_byte).unwrap();
    assert_eq!(absolute, vec![63, 127, 0, 7]);
}

fn tag(byte: u8, seam: u32) -> ComplexBits {
    ComplexBits { re: byte as u32 + seam, im: 0 }
}

fn join(a: ComplexBits, b: ComplexBits) -> ComplexBits {
    ComplexBits { re: a.re.wrapping_mul(10).wrapping_add(b.re), im: a.im + 1 }
}

#[test]
fn phases_are_put_on_row_by_row() {
    let one = 1f32.to_bits();
    let mut img = SpectrogramImage::new_empty(3, 2);
    for x in 0..3 {
        for y in 0..2 {
            img.set_at(x, y, ComplexBits { re: (1 + x + 3 * y) as u32, im: 0 });
        }
    }
    // Row y is turned by the byte at y * width: 5 for row 0, 8 for row 1.
    let buffer = vec![5u8, 6, 7, 8];
    let mut absolute = SpectrogramImage { width: 3, height: 2, data: img.data.clone() };
    absolute.apply_phase_bytes(100, &buffer, false, tag, join).unwrap();
    for x in 0..3u32 {
        assert_eq!(absolute.get_at(x as usize, 0), ComplexBits { re: (1 + x) * 10 + 105, im: 1 });
        assert_eq!(absolute.get_at(x as usize, 1), ComplexBits { re: (4 + x) * 10 + 108, im: 1 });
    }
    img.apply_phase_bytes(100, &buffer, true, tag, join).unwrap();
    let first = one.wrapping_mul(10).wrapping_add(105);
    let second = first.wrapping_mul(10).wrapping_add(105);
    let third = second.wrapping_mul(10).wrapping_add(105);
    assert_eq!(img.get_at(0, 0).re, 10u32.wrapping_add(first));
    assert_eq!(img.get_at(1, 0).re, 20u32.wrapping_add(second));
    assert_eq!(img.get_at(2, 0).re, 30u32.wrapping_add(third));
    let first = one.wrapping_mul(10).wrapping_add(108);
    let second = first.wrapping_mul(10).wrapping_add(108);
    assert_eq!(img.get_at(0, 1).re, 40u32.wrapping_add(first));
    assert_eq!(img.get_at(1, 1).re, 50u32.wrapping_add(second));
}

#[test]
fn phases_turn_the_cells_and_keep_their_magnitudes() {
    let mut img = wavy(4, 3);
    let before = wavy(4, 3);
    let buffer = vec![64u8; 12];
    img.apply_phase_bytes(0f32.to_bits(), &buffer, false, phasor, times).unwrap();
    for i in 0..img.data.len() {
        let was = complex(before.data[i]);
        let is = complex(img.data[i]);
        assert!((is.norm() - was.norm()).abs() <= 1e-4 * was.norm());
        let turn = (is / was).arg();
        assert!((turn - 64f32 / 255f32 * TAU).abs() < 1e-3);
    }
    let mut stepped = wavy(4, 3);
    stepped.apply_phase_bytes(0f32.to_bits(), &buffer, true, phasor, times).unwrap();
    for x in 0..4 {
        let was = complex(before.get_at(x, 1));
        let is = complex(stepped.get_at(x, 1));
        let expected = Complex32::from_polar(1f32, (x + 1) as f32 * 64f32 / 255f32 * TAU);
        assert!(((is / was) - expected).norm() < 1e-3);
    }
}

#[test]
fn every_cell_is_handed_its_place() {
    let mut img = numbered(3, 2);
    img.map_cells(|x: usize, y: usize, cell: ComplexBits| ComplexBits {
        re: cell.re + 100,
        im: (10 * x + y) as u32,
    });
    for x in 0..3 {
        for y in 0..2 {
            assert_eq!(
                img.get_at(x, y),
                ComplexBits { re: (10 * y + x + 100) as u32, im: (10 * x + y) as u32 }
            );
        }
    }
}

#[test]
fn intensity_range_must_rise() {
    let img = numbered(2, 3);
    let mut buffer = vec![99u8; 6];
    let fault = Err(SpectrogramError::InvalidConfiguration(ConfigurationFault::IntensityRange));
    for (low, high) in [(10f32, -3f32), (2f32, 2f32), (0f32, -0f32), (f32::NAN, 1f32), (0f32, f32::NAN)] {
        let settings = SpectrogramIntensityPlotSettings {
            bin_range: [0, 3],
            intensity_range: [low.to_bits(), high.to_bits()],
        };
        assert_eq!(img.to_intensity_bytes(&settings, &mut buffer, low_byte), fault);
        assert_eq!(buffer, vec![99u8; 6]);
        assert_eq!(img.create_intensity_bytes(&settings, low_byte).err(), fault.err());
        let mut target = numbered(2, 3);
        assert_eq!(
            target.phaseless_from_intensity_bytes(&settings, &buffer, true, intensity_of),
            fault
        );
        assert_eq!(
            target.apply_intensity_bytes(&settings, &buffer, intensity_of, scaled_by),
            fault
        );
        assert_eq!(target.data, numbered(2, 3).data);
    }
    // The bin range and the buffer are looked at first.
    let both = SpectrogramIntensityPlotSettings {
        bin_range: [0, 4],
        intensity_range: [1f32.to_bits(), 0f32.to_bits()],
    };
    assert_eq!(
        img.to_intensity_bytes(&both, &mut buffer, low_byte),
        Err(SpectrogramError::InvalidConfiguration(ConfigurationFault::BinRange))
    );
    let rising = SpectrogramIntensityPlotSettings {
        bin_range: [0, 3],
        intensity_range: [f32::NEG_INFINITY.to_bits(), f32::INFINITY.to_bits()],
    };
    assert_eq!(img.to_intensity_bytes(&rising, &mut buffer, low_byte), Ok(()));
}
