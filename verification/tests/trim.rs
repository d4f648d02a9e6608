use kokoro_rs::trim::{frame_count, frame_span, trim, trim_range};

/// Which frames of `audio` are within 60 decibels of the loudest one.
fn loud(audio: &[f32]) -> Vec<bool> {
    let floor = 1e-5f32 * 1e-5;
    let power: Vec<f32> = (0..frame_count(audio.len()))
        .map(|f| {
            let (from, to) = frame_span(audio.len(), f);
            audio[from..to].iter().map(|s| s * s).sum::<f32>() / 2048.0
        })
        .collect();
    let peak = power.iter().copied().fold(0.0f32, f32::max);
    let reference = 10.0 * floor.max(peak).log10();
    power
        .iter()
        .map(|&p| 10.0 * floor.max(p).log10() - reference > -60.0)
        .collect()
}

fn range(audio: &[f32]) -> (usize, usize) {
    trim_range(audio.len(), &loud(audio))
}

#[test]
fn an_all_silent_signal_is_left_alone() {
    // Nothing is below the peak when everything is the peak.
    assert_eq!(range(&vec![0.0; 12_000]), (0, 12_000));
}

#[test]
fn bounds_match_the_python_implementation() {
    let mut audio = vec![0.0f32; 12_000];
    for (i, s) in audio.iter_mut().enumerate().take(8_000).skip(4_000) {
        *s = ((i - 4_000) as f32 * 0.1).sin();
    }
    assert_eq!(range(&audio), (3_072, 9_216));
}

#[test]
fn a_signal_with_no_silence_is_left_alone() {
    let audio: Vec<f32> = (0..12_000).map(|i| (i as f32 * 0.1).sin()).collect();
    let (start, end) = range(&audio);
    assert_eq!(start, 0);
    assert_eq!(end, audio.len());
}

#[test]
fn a_signal_shorter_than_a_frame_is_left_alone() {
    let audio = vec![0.5f32; 100];
    assert_eq!(range(&audio), (0, 100));
}

#[test]
fn frames_reach_half_a_frame_to_either_side() {
    assert_eq!(frame_count(0), 1);
    assert_eq!(frame_count(511), 1);
    assert_eq!(frame_count(512), 2);
    assert_eq!(frame_span(12_000, 0), (0, 1024));
    assert_eq!(frame_span(12_000, 4), (1024, 3072));
    assert_eq!(frame_span(12_000, 23), (10_752, 12_000));
    assert_eq!(frame_span(0, 0), (0, 0));
}

#[test]
fn trimming_keeps_what_is_between_loud_frames() {
    let audio: Vec<u32> = (0..2000).collect();
    assert_eq!(trim(audio.clone(), &[false, true, false, false]), audio[512..1024]);
    assert_eq!(trim(audio.clone(), &[false, true, false, true]), audio[512..2000]);
    assert_eq!(trim(audio.clone(), &[true, false, false, true]), audio);
    assert_eq!(trim(audio.clone(), &[false; 4]), [0u32; 0]);
}
