use telemetry_sampler::analyze_brightness;
use telemetry_sampler::gray_value;
use telemetry_sampler::process_frames;
use telemetry_sampler::sort_grays;
use telemetry_sampler::BrightnessSample;
use telemetry_sampler::CaptureCadence;
use telemetry_sampler::Event;
use telemetry_sampler::PixelGrid;
use telemetry_sampler::DEFAULT_INTERVAL_MS;

/// A frame whose pixels are pure gray levels, so each pixel's gray value
/// equals its channel value.
fn gray_grid(grays: &[u8]) -> PixelGrid {
    let mut rgba: Vec<u8> = Vec::new();
    for &v in grays {
        rgba.push(v);
        rgba.push(v);
        rgba.push(v);
        rgba.push(255);
    }
    PixelGrid { rgba }
}

#[test]
fn grayscale_red_rounds_to_76() {
    assert_eq!(gray_value(255, 0, 0), 76);
}

#[test]
fn grayscale_rounds_to_nearest() {
    assert_eq!(gray_value(0, 255, 0), 150);
    assert_eq!(gray_value(0, 0, 255), 29);
}

#[test]
fn grayscale_extremes() {
    assert_eq!(gray_value(0, 0, 0), 0);
    assert_eq!(gray_value(255, 255, 255), 255);
}

#[test]
fn brightness_two_by_two_grid() {
    let grid = gray_grid(&[10, 20, 30, 40]);
    let s = analyze_brightness(&grid);
    assert_eq!(s.count, 4);
    assert_eq!(s.sum, 100);
    assert_eq!(s.sum_sq, 3000);
    assert_eq!(s.median_doubled, 50);
    let mean = s.sum as f64 / s.count as f64;
    let median = s.median_doubled as f64 / 2.0;
    let variance = (s.sum_sq as f64 - (s.sum as f64) * (s.sum as f64) / (s.count as f64))
        / (s.count as f64);
    let stddev = variance.sqrt();
    assert_eq!(mean, 25.0);
    assert_eq!(median, 25.0);
    assert!((stddev - 125.0_f64.sqrt()).abs() < 1e-12);
    assert!((stddev - 11.180339887498949).abs() < 1e-9);
}

#[test]
fn median_of_odd_pixel_count() {
    let grid = gray_grid(&[30, 10, 20]);
    let s = analyze_brightness(&grid);
    assert_eq!(s.count, 3);
    assert_eq!(s.sum, 60);
    assert_eq!(s.median_doubled, 40);
}

#[test]
fn single_red_pixel_statistics() {
    let grid = PixelGrid { rgba: vec![255, 0, 0, 255] };
    let s = analyze_brightness(&grid);
    assert_eq!(
        s,
        BrightnessSample { count: 1, sum: 76, sum_sq: 76 * 76, median_doubled: 152 }
    );
}

#[test]
fn sort_grays_orders_values() {
    assert_eq!(sort_grays(&vec![3, 1, 2, 1]), vec![1, 1, 2, 3]);
    assert_eq!(sort_grays(&vec![]), vec![]);
    assert_eq!(sort_grays(&vec![255, 0]), vec![0, 255]);
}

#[test]
fn partial_display_failure_skips_only_failed() {
    let g1 = gray_grid(&[10]);
    let g3 = gray_grid(&[40, 40]);
    let frames = vec![Some(g1), None, Some(g3)];
    let events = process_frames(&frames);
    assert_eq!(events.len(), 2);
    match events[0] {
        Event::ScreenBrightness { sample } => {
            assert_eq!(sample.count, 1);
            assert_eq!(sample.sum, 10);
        }
        _ => panic!("expected a brightness event"),
    }
    match events[1] {
        Event::ScreenBrightness { sample } => {
            assert_eq!(sample.count, 2);
            assert_eq!(sample.sum, 80);
            assert_eq!(sample.median_doubled, 80);
        }
        _ => panic!("expected a brightness event"),
    }
}

#[test]
fn empty_or_failed_frames_yield_no_event() {
    let frames: Vec<Option<PixelGrid>> = vec![Some(PixelGrid { rgba: vec![] }), None];
    assert_eq!(process_frames(&frames).len(), 0);
}

#[test]
fn malformed_frame_is_skipped() {
    let frames = vec![Some(PixelGrid { rgba: vec![1, 2, 3] })];
    assert_eq!(process_frames(&frames).len(), 0);
}

#[test]
fn cadence_spacing_at_least_interval() {
    let mut c = CaptureCadence::new(100, 1000);
    assert!(!c.due(1050));
    assert!(!c.due(1099));
    assert!(c.due(1100));
    assert!(c.due(1200));
    c.mark_captured(1100);
    assert!(!c.due(1150));
    assert!(!c.due(1199));
    assert!(c.due(1200));
    assert!(!c.due(900));
}

#[test]
fn default_interval_is_100ms() {
    assert_eq!(DEFAULT_INTERVAL_MS, 100);
}
