use line_extract::blocks::{detect_blocks, Block};
use line_extract::errors::LineError;
use line_extract::expand::{expand_boundaries, CropInterval};
use line_extract::frac::Frac;
use line_extract::pipeline::{extract_lines, PipelineConfig};
use line_extract::profile::{row_profile, ImageGrid, Pixel};
use line_extract::smooth::smooth;
use line_extract::threshold::{binarize, percentile_index, threshold_value};

fn px(v: u8) -> Pixel {
    Pixel { r: v, g: v, b: v }
}

/// An image built from one grey level per row.
fn image_from_rows(width: usize, levels: &[u8]) -> ImageGrid {
    let mut rows = Vec::new();
    for &level in levels {
        let mut row = Vec::new();
        for _ in 0..width {
            row.push(px(level));
        }
        rows.push(row);
    }
    ImageGrid { width, height: levels.len(), rows }
}

fn config(cutoff: Frac, above: Frac, below: Frac) -> PipelineConfig {
    PipelineConfig { cutoff, above, below }
}

fn half() -> Frac {
    Frac::new(1, 2)
}

fn zero() -> Frac {
    Frac::new(0, 1)
}

#[test]
fn all_white_image_yields_no_blocks() {
    let img = image_from_rows(5, &[255; 20]);
    let kernel = vec![1u64];
    let r = extract_lines(&img, &kernel, &config(half(), zero(), zero()));
    assert_eq!(r.unwrap_err(), LineError::NoBlocksFound);
}

#[test]
fn all_black_image_yields_no_blocks() {
    // uniform in the other direction: nothing is strictly below the cutoff
    let img = image_from_rows(5, &[0; 20]);
    let kernel = vec![1u64];
    let r = extract_lines(&img, &kernel, &config(half(), zero(), zero()));
    assert_eq!(r.unwrap_err(), LineError::NoBlocksFound);
}

#[test]
fn single_band_is_detected_exactly() {
    let mut levels = [255u8; 20];
    for y in 5..=9 {
        levels[y] = 0;
    }
    let img = image_from_rows(4, &levels);
    let kernel = vec![1u64];
    let r = extract_lines(&img, &kernel, &config(half(), zero(), zero())).unwrap();
    assert_eq!(r.intervals, vec![CropInterval { start: 5, end: 9 }]);
}

#[test]
fn detector_finds_single_run() {
    let mut bin = vec![false; 20];
    for y in 5..=9 {
        bin[y] = true;
    }
    let blocks = detect_blocks(&bin);
    assert_eq!(blocks, vec![Block { start: 5, end: 9 }]);
}

#[test]
fn detector_on_all_background_is_empty() {
    assert_eq!(detect_blocks(&vec![false; 10]), vec![]);
}

#[test]
fn detector_drops_trailing_run() {
    // a text run that reaches the last row is never closed, so not emitted
    let bin = vec![false, true, true];
    assert_eq!(detect_blocks(&bin), vec![]);
    let bin2 = vec![true, true, false, true];
    assert_eq!(detect_blocks(&bin2), vec![Block { start: 0, end: 1 }]);
}

#[test]
fn detector_finds_two_runs_in_order() {
    let mut bin = vec![false; 15];
    for y in 2..=4 {
        bin[y] = true;
    }
    for y in 8..=10 {
        bin[y] = true;
    }
    let blocks = detect_blocks(&bin);
    assert_eq!(blocks, vec![Block { start: 2, end: 4 }, Block { start: 8, end: 10 }]);
}

#[test]
fn smoother_output_length_equals_input_length() {
    let p = vec![3u64, 1, 4, 1, 5, 9, 2];
    let kernel = vec![1u64, 0, 0, 0, 0, 0, 0, 0, 0, 0, 0, 0, 0, 0, 0];
    let out = smooth(&p, &kernel).unwrap();
    assert_eq!(out.len(), p.len());
    assert_eq!(out, p);
}

#[test]
fn smoother_substitutes_at_the_edges() {
    // past the last row the first value is read, before the first row the
    // last value — the reference pipeline's wrap-like edge policy
    let p = vec![10u64, 20, 30];
    let kernel = vec![1u64, 1];
    let out = smooth(&p, &kernel).unwrap();
    assert_eq!(out, vec![10 + 20 + 30, 20 + 30 + 10, 30 + 10 + 20]);
}

#[test]
fn smoother_applies_weights() {
    let p = vec![10u64, 20, 30];
    let kernel = vec![2u64, 3];
    let out = smooth(&p, &kernel).unwrap();
    // centre row: 20*2 + (30 + 10)*3
    assert_eq!(out[1], 160);
}

#[test]
fn smoother_reports_overflow() {
    let p = vec![u64::MAX];
    let kernel = vec![2u64];
    assert!(smooth(&p, &kernel).is_none());
}

#[test]
fn percentile_index_stays_in_range() {
    assert_eq!(percentile_index(7, &Frac::new(9, 10)), 6);
    assert_eq!(percentile_index(1, &Frac::new(9, 10)), 0);
    assert_eq!(percentile_index(100, &half()), 50);
    assert_eq!(percentile_index(3, &Frac::new(0, 5)), 0);
}

#[test]
fn threshold_picks_percentile_of_sorted_values() {
    let p = vec![5u64, 1, 9];
    // ascending: [1, 5, 9]; floor(1/3 * 3) = 1
    assert_eq!(threshold_value(&p, &Frac::new(1, 3)).unwrap(), 5);
    assert_eq!(threshold_value(&p, &Frac::new(0, 3)).unwrap(), 1);
    assert_eq!(threshold_value(&p, &Frac::new(2, 3)).unwrap(), 9);
}

#[test]
fn threshold_rejects_empty_profile() {
    let p: Vec<u64> = vec![];
    assert_eq!(threshold_value(&p, &half()).unwrap_err(), LineError::EmptyProfile);
}

#[test]
fn binarize_marks_rows_strictly_below_cutoff() {
    let p = vec![5u64, 7, 3, 7];
    assert_eq!(binarize(&p, 7), vec![true, false, true, false]);
    assert_eq!(binarize(&p, 3), vec![false, false, false, false]);
}

#[test]
fn zero_padding_keeps_block_bounds() {
    let blocks = vec![Block { start: 10, end: 19 }, Block { start: 30, end: 39 }];
    let intervals = expand_boundaries(&blocks, &zero(), &zero(), 100);
    assert_eq!(
        intervals,
        vec![CropInterval { start: 10, end: 19 }, CropInterval { start: 30, end: 39 }]
    );
}

#[test]
fn padding_uses_gaps_and_truncates() {
    let blocks = vec![Block { start: 10, end: 19 }, Block { start: 30, end: 39 }];
    // first block: gap before is 10 (to the top), gap after is 30 - 19 = 11
    // second block: gap before is 30 - 19 = 11, gap after is 100 - 39 = 61
    let intervals = expand_boundaries(&blocks, &Frac::new(7, 10), &Frac::new(6, 10), 100);
    assert_eq!(intervals[0], CropInterval { start: 10 - 7, end: 19 + 6 });
    assert_eq!(intervals[1], CropInterval { start: 30 - 7, end: 39 + 36 });
}

#[test]
fn larger_fractions_widen_intervals() {
    let blocks = vec![Block { start: 10, end: 19 }];
    let narrow = expand_boundaries(&blocks, &Frac::new(1, 2), &Frac::new(1, 2), 40);
    let wide = expand_boundaries(&blocks, &Frac::new(7, 10), &Frac::new(7, 10), 40);
    assert!(wide[0].start <= narrow[0].start);
    assert!(narrow[0].end <= wide[0].end);
    assert!(wide[0].end - wide[0].start > narrow[0].end - narrow[0].start);
}

#[test]
fn end_to_end_two_bands() {
    // 10 wide, 100 tall: white, black band, white, black band, white
    let mut levels = [255u8; 100];
    for y in 10..=19 {
        levels[y] = 0;
    }
    for y in 30..=39 {
        levels[y] = 0;
    }
    let img = image_from_rows(10, &levels);
    let kernel = vec![1u64];  // near-no blur
    let r = extract_lines(&img, &kernel, &config(half(), zero(), zero())).unwrap();
    assert_eq!(
        r.intervals,
        vec![CropInterval { start: 10, end: 19 }, CropInterval { start: 30, end: 39 }]
    );
    assert_eq!(r.smoothed.len(), 100);
    // the diagnostic channel is exactly the smoothed profile
    let profile = row_profile(&img).unwrap();
    assert_eq!(r.smoothed, smooth(&profile, &kernel).unwrap());
}

#[test]
fn invalid_image_is_rejected() {
    let img = ImageGrid { width: 0, height: 0, rows: Vec::new() };
    let kernel = vec![1u64];
    let r = extract_lines(&img, &kernel, &config(half(), zero(), zero()));
    assert_eq!(r.unwrap_err(), LineError::InvalidImage);
}

#[test]
fn full_below_padding_reaches_past_the_image() {
    // the last block's end plus the whole gap to the bottom lands on
    // image_height itself, one past the last row
    let mut levels = [255u8; 20];
    for y in 5..=9 {
        levels[y] = 0;
    }
    let img = image_from_rows(3, &levels);
    let kernel = vec![1u64];
    let r = extract_lines(&img, &kernel, &config(half(), zero(), Frac::new(1, 1)));
    assert_eq!(r.unwrap_err(), LineError::OutOfBoundsCrop);
}

#[test]
fn overflowing_kernel_is_reported() {
    let img = image_from_rows(1, &[255u8; 3]);
    let kernel = vec![u64::MAX];
    let r = extract_lines(&img, &kernel, &config(half(), zero(), zero()));
    assert_eq!(r.unwrap_err(), LineError::ArithmeticOverflow);
}

#[test]
fn row_profile_sums_channels() {
    let img = ImageGrid {
        width: 2,
        height: 2,
        rows: vec![
            vec![Pixel { r: 1, g: 2, b: 3 }, Pixel { r: 4, g: 5, b: 6 }],
            vec![px(255), px(0)],
        ],
    };
    let p = row_profile(&img).unwrap();
    assert_eq!(p, vec![1 + 2 + 3 + 4 + 5 + 6, 765]);
}

#[test]
fn error_descriptions_name_the_failure() {
    assert_eq!(LineError::InvalidImage.describe(), "image has zero width or height");
    assert_eq!(LineError::NoBlocksFound.describe(), "no text blocks were found");
}
