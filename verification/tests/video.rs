use frostify::video::avcc_to_annex_b;

#[test]
fn avcc_single_nal_to_annex_b() {
    // 4-byte length (3) + payload AB CD EF.
    let sample = [0, 0, 0, 3, 0xAB, 0xCD, 0xEF];
    let out = avcc_to_annex_b(&sample, 4).unwrap();
    assert_eq!(out, [0, 0, 0, 1, 0xAB, 0xCD, 0xEF]);
}

#[test]
fn avcc_two_nals_to_annex_b() {
    let sample = [0, 0, 0, 2, 0x11, 0x22, 0, 0, 0, 1, 0x33];
    let out = avcc_to_annex_b(&sample, 4).unwrap();
    assert_eq!(out, [0, 0, 0, 1, 0x11, 0x22, 0, 0, 0, 1, 0x33]);
}

#[test]
fn avcc_truncated_length_is_none() {
    // Declares 10 bytes but only 2 follow.
    let sample = [0, 0, 0, 10, 0xAB, 0xCD];
    assert!(avcc_to_annex_b(&sample, 4).is_none());
}

#[test]
fn avcc_one_byte_prefixes() {
    let sample = [2, 0x11, 0x22, 1, 0x33];
    let out = avcc_to_annex_b(&sample, 1).unwrap();
    assert_eq!(out, [0, 0, 0, 1, 0x11, 0x22, 0, 0, 0, 1, 0x33]);
}

#[test]
fn avcc_trailing_short_prefix_dropped() {
    let sample = [0, 0, 0, 1, 0x44, 0, 0];
    let out = avcc_to_annex_b(&sample, 4).unwrap();
    assert_eq!(out, [0, 0, 0, 1, 0x44]);
}

#[test]
fn avcc_empty_sample_is_empty() {
    let out = avcc_to_annex_b(&[], 4).unwrap();
    assert!(out.is_empty());
}

use frostify::video::{nal_length_size, prepare_clip, AvcInfo, FrameSearch, SampleRange, TrackInfo};

#[test]
fn length_size_from_low_two_bits() {
    assert_eq!(nal_length_size(3), 4);
    assert_eq!(nal_length_size(0), 1);
    assert_eq!(nal_length_size(0xFF), 4);
    assert_eq!(nal_length_size(0xFD), 2);
}

fn avc_track(samples: Vec<SampleRange>) -> TrackInfo {
    TrackInfo {
        is_video: true,
        avc: Some(AvcInfo {
            length_size_minus_one: 3,
            sequence_parameter_sets: vec![vec![0x67, 0x42]],
            picture_parameter_sets: vec![vec![0x68]],
        }),
        timescale: 90_000,
        samples,
    }
}

#[test]
fn prepare_clip_frames_headers_and_samples() {
    // Two samples: one NAL of 2 bytes, then an empty sample, then one of 1 byte.
    let file = [9, 9, 0, 0, 0, 2, 0x11, 0x22, 0, 0, 0, 1, 0x33];
    let tracks = vec![
        TrackInfo { is_video: false, avc: None, timescale: 1, samples: vec![] },
        avc_track(vec![
            SampleRange { start: 2, end: 8, duration: 3000 },
            SampleRange { start: 8, end: 8, duration: 1 },
            SampleRange { start: 8, end: 13, duration: 6000 },
        ]),
    ];
    let clip = prepare_clip(&file, &tracks).unwrap();
    assert_eq!(clip.headers, vec![0, 0, 0, 1, 0x67, 0x42, 0, 0, 0, 1, 0x68]);
    assert_eq!(clip.timescale, 90_000);
    assert_eq!(clip.units.len(), 2);
    assert_eq!(clip.units[0], (vec![0, 0, 0, 1, 0x11, 0x22], 3000));
    assert_eq!(clip.units[1], (vec![0, 0, 0, 1, 0x33], 6000));
}

#[test]
fn prepare_clip_refusals() {
    let file = [0, 0, 0, 1, 0x11];
    let good = SampleRange { start: 0, end: 5, duration: 1 };
    // No video track.
    let no_video = vec![TrackInfo { is_video: false, avc: None, timescale: 1, samples: vec![good] }];
    assert!(prepare_clip(&file, &no_video).is_none());
    // First video track is not AVC, even though a later one is.
    let not_avc = vec![TrackInfo { is_video: true, avc: None, timescale: 1, samples: vec![good] }, avc_track(vec![good])];
    assert!(prepare_clip(&file, &not_avc).is_none());
    // Sample range past the end of the file.
    let past = vec![avc_track(vec![SampleRange { start: 0, end: 6, duration: 1 }])];
    assert!(prepare_clip(&file, &past).is_none());
    // Declared NAL length runs past the sample.
    let overrun = vec![avc_track(vec![SampleRange { start: 0, end: 4, duration: 1 }])];
    assert!(prepare_clip(&[0, 0, 0, 9], &overrun).is_none());
    // Only empty samples.
    let empty = vec![avc_track(vec![SampleRange { start: 0, end: 0, duration: 1 }])];
    assert!(prepare_clip(&file, &empty).is_none());
    // No parameter set at all.
    let mut bare = avc_track(vec![good]);
    bare.avc = Some(AvcInfo { length_size_minus_one: 3, sequence_parameter_sets: vec![], picture_parameter_sets: vec![] });
    assert!(prepare_clip(&file, &[bare].into_iter().collect()).is_none());
    assert!(prepare_clip(&file, &vec![avc_track(vec![good])]).is_some());
}

#[test]
fn frame_search_wraps_and_gives_up() {
    let mut s = FrameSearch::new(1, 3);
    assert_eq!(s.step(), Some((1, false)));
    assert_eq!(s.step(), Some((2, false)));
    assert_eq!(s.step(), Some((0, true)));
    assert_eq!(s.step(), Some((1, false)));
    assert_eq!(s.step(), None);
    assert_eq!(s.step(), None);
}

#[test]
fn frame_search_from_the_end_wraps_first() {
    let mut s = FrameSearch::new(2, 2);
    assert_eq!(s.step(), Some((0, true)));
    assert_eq!(s.step(), Some((1, false)));
    assert_eq!(s.step(), Some((0, true)));
    assert_eq!(s.step(), None);
}
