use kokoro_rs::audio::playback::{
    after_offer, before_offer, begin_write, close_step, CloseStep, Offer, Playback, WriteStep,
};
use kokoro_rs::audio::wav::{pcm_bytes, wav_header, Flushed, StdoutWavSink, UNKNOWN};
use kokoro_rs::audio::{
    check_wav, device_line, find_device, output_config, sink_kind, ConfigRange, DeviceError,
    SinkKind,
};

#[test]
fn header_declares_unknown_lengths() {
    let header = wav_header(24_000, 1, 16);
    assert_eq!(header.len(), 44);
    assert_eq!(&header[0..4], b"RIFF");
    assert_eq!(&header[4..8], &UNKNOWN.to_le_bytes());
    assert_eq!(&header[8..12], b"WAVE");
    assert_eq!(&header[40..44], &UNKNOWN.to_le_bytes());
    // Byte rate and block align for 24 kHz mono 16-bit.
    assert_eq!(
        u32::from_le_bytes(header[28..32].try_into().unwrap()),
        48_000
    );
    assert_eq!(u16::from_le_bytes(header[32..34].try_into().unwrap()), 2);
}

#[test]
fn header_declares_the_format() {
    let header = wav_header(44_100, 2, 24);
    assert_eq!(&header[12..16], b"fmt ");
    assert_eq!(&header[16..20], &16u32.to_le_bytes());
    assert_eq!(&header[20..22], &1u16.to_le_bytes());
    assert_eq!(&header[22..24], &2u16.to_le_bytes());
    assert_eq!(&header[24..28], &44_100u32.to_le_bytes());
    assert_eq!(&header[28..32], &264_600u32.to_le_bytes());
    assert_eq!(&header[32..34], &6u16.to_le_bytes());
    assert_eq!(&header[34..36], &24u16.to_le_bytes());
    assert_eq!(&header[36..40], b"data");
}

#[test]
fn file_sink_rejects_formats_it_cannot_write() {
    let err = match check_wav(Some("flac"), "out.flac") {
        Err(e) => e,
        Ok(_) => panic!("expected a FLAC path to be rejected"),
    };
    assert!(err.to_string().contains("only WAV output"), "{err}");
    assert_eq!(err, "only WAV output is supported, but out.flac was requested");
    assert!(check_wav(None, "out").is_err());
    assert!(check_wav(Some("wave"), "out.wave").is_err());
    assert_eq!(check_wav(Some("wav"), "out.wav"), Ok(()));
    assert_eq!(check_wav(Some("WaV"), "out.WaV"), Ok(()));
}

#[test]
fn samples_are_written_low_byte_first() {
    let samples = [0i16, 1, -1, 258, i16::MIN, i16::MAX];
    let expected: Vec<u8> = samples.iter().flat_map(|s| s.to_le_bytes()).collect();
    assert_eq!(pcm_bytes(&samples), expected);
}

#[test]
fn a_closed_stream_takes_no_samples() {
    let (mut sink, header) = StdoutWavSink::new(24_000);
    assert_eq!(header, wav_header(24_000, 1, 16));
    assert_eq!(sink.write(&[1]), Some(vec![1, 0]));
    // A closed pipe is how a reader ends; not an error.
    assert_eq!(sink.close(Flushed::<String>::BrokenPipe), Ok(()));
    assert_eq!(sink.write(&[1]), None);
    assert_eq!(sink.close(Flushed::<String>::Done), Ok(()));
    assert_eq!(sink.close(Flushed::Failed("disk full")), Err("disk full"));
}

#[test]
fn output_selects_the_sink() {
    assert_eq!(sink_kind(None), SinkKind::Speakers);
    assert_eq!(sink_kind(Some("-")), SinkKind::Stdout);
    assert_eq!(sink_kind(Some("--")), SinkKind::File);
    assert_eq!(sink_kind(Some("")), SinkKind::File);
    assert_eq!(sink_kind(Some("out.wav")), SinkKind::File);
}

#[test]
fn devices_are_found_by_index_or_name() {
    let names: Vec<String> = ["Built-in Output", "USB Audio", "usb 2"]
        .iter()
        .map(|s| s.to_string())
        .collect();
    assert_eq!(find_device(&names, "1"), Ok(1));
    assert_eq!(find_device(&names, "+2"), Ok(2));
    assert_eq!(find_device(&names, "3"), Err(DeviceError::NoIndex(3)));
    assert_eq!(find_device(&names, "uSb"), Ok(1));
    assert_eq!(find_device(&names, "usb 2"), Ok(2));
    assert_eq!(find_device(&names, ""), Ok(0));
    assert_eq!(find_device(&names, "hdmi"), Err(DeviceError::NoMatch));
    assert_eq!(find_device(&Vec::new(), ""), Err(DeviceError::NoMatch));
    assert_eq!(DeviceError::NoIndex(3).message("3"), "no output device with index 3");
    assert_eq!(
        DeviceError::NoMatch.message("hd\"mi"),
        "no output device matching \"hd\\\"mi\""
    );
}

#[test]
fn the_first_configuration_that_fits_is_used() {
    let range = |is_float: bool, min_rate: u32, max_rate: u32| ConfigRange {
        is_float,
        min_rate,
        max_rate,
    };
    let configs = vec![
        range(false, 8_000, 96_000),
        range(true, 44_100, 96_000),
        range(true, 8_000, 24_000),
        range(true, 24_000, 48_000),
    ];
    assert_eq!(output_config(&configs, 24_000), Some(2));
    assert_eq!(output_config(&configs, 48_000), Some(1));
    assert_eq!(output_config(&configs, 4_000), None);
}

#[test]
fn devices_are_listed_with_their_rates() {
    assert_eq!(device_line(Some("USB"), 3, "USB", Some(48_000)), "* 3  USB  (48000 Hz)");
    assert_eq!(device_line(Some("HDMI"), 0, "USB", None), "  0  USB  (unavailable)");
    assert_eq!(device_line(None, 12, "USB", Some(8)), "  12  USB  (8 Hz)");
}

#[test]
fn playback_duplicates_mono_and_fills_with_silence() {
    let mut queue: Vec<Vec<u32>> = vec![vec![1, 2], vec![3]];
    let mut playback = Playback::new();
    assert_eq!(
        playback.fill(4, 2, 0, false, &mut queue, true),
        (vec![1, 1, 2, 2], false)
    );
    assert_eq!(queue, [[3]]);
    // The queue runs dry, and the last frame is not a full one.
    assert_eq!(
        playback.fill(5, 2, 0, false, &mut queue, true),
        (vec![3, 3, 0, 0, 0], true)
    );
    assert_eq!(playback.fill(0, 2, 0, false, &mut queue, true), (vec![], false));
    // More may come, and a chunk without samples is passed over.
    assert_eq!(playback.fill(2, 2, 0, false, &mut queue, false), (vec![0, 0], false));
    queue = vec![vec![], vec![9]];
    assert_eq!(playback.fill(4, 2, 0, false, &mut queue, false), (vec![9, 9, 0, 0], false));
}

#[test]
fn playback_goes_on_where_it_stopped() {
    let mut queue: Vec<Vec<u32>> = vec![vec![4, 5, 6], vec![7, 8]];
    let mut playback = Playback::new();
    let mut heard: Vec<u32> = Vec::new();
    for _ in 0..3 {
        let (samples, drained) = playback.fill(2, 1, 0, false, &mut queue, false);
        heard.extend(samples);
        assert!(!drained);
    }
    assert_eq!(heard, [4, 5, 6, 7, 8, 0]);
    // Abandoned, it is silent, and what is queued stays where it is.
    queue.push(vec![1]);
    assert_eq!(playback.fill(3, 1, 9, true, &mut queue, false), (vec![9, 9, 9], true));
    assert_eq!(queue, [[1]]);
}

#[test]
fn playback_wants_no_more_than_the_buffer_takes() {
    let mut queue: Vec<Vec<u32>> = Vec::new();
    let mut playback = Playback::new();
    assert!(!playback.wants(&queue, 0, 2));
    assert!(playback.wants(&queue, 1, 2));
    queue.push(vec![1, 2, 3]);
    assert!(!playback.wants(&queue, 6, 2));
    assert!(playback.wants(&queue, 7, 2));
    assert_eq!(playback.fill(2, 1, 0, false, &mut queue, false), (vec![1, 2], false));
    assert!(!playback.wants(&queue, 1, 1));
    assert!(playback.wants(&queue, 2, 1));
}

#[test]
fn chunks_are_offered_until_they_are_taken() {
    assert_eq!(begin_write(true, true), WriteStep::Fail);
    assert_eq!(begin_write(false, false), WriteStep::Done);
    assert_eq!(begin_write(false, true), WriteStep::Offer);
    assert_eq!(before_offer(false, true), WriteStep::Offer);
    assert_eq!(before_offer(true, false), WriteStep::Done);
    assert_eq!(before_offer(true, true), WriteStep::Fail);
    assert_eq!(after_offer(Offer::Sent, true), WriteStep::Done);
    assert_eq!(after_offer(Offer::Full, true), WriteStep::Wait);
    assert_eq!(after_offer(Offer::Disconnected, true), WriteStep::Fail);
    assert_eq!(after_offer(Offer::Disconnected, false), WriteStep::Done);
}

#[test]
fn closing_waits_for_the_queue() {
    assert_eq!(close_step(false, false), CloseStep::Wait);
    assert_eq!(close_step(true, false), CloseStep::PlayOut);
    assert_eq!(close_step(true, true), CloseStep::Stop);
    assert_eq!(close_step(false, true), CloseStep::Stop);
}
