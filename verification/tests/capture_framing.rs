use wmp_modern::capture::{
    aligned_len, buffer_duration_hns, decimate, schedule_windows, stereo_words, FFT_SIZE, HOP_SIZE,
    N_WAVE_EMITTED, PROC_LOOPBACK_PERIOD_HNS,
};

#[test]
fn aligned_len_keeps_whole_frames() {
    assert_eq!(aligned_len(17, 8), 16);
    assert_eq!(aligned_len(7, 8), 0);
    assert_eq!(aligned_len(64, 8), 64);
    assert_eq!(aligned_len(0, 8), 0);
}

#[test]
fn stereo_words_are_little_endian() {
    let bytes = [1u8, 0, 0, 0, 0, 0, 128, 63, 0xff, 0xff, 0xff, 0xff, 0x78, 0x56, 0x34, 0x12];
    let w = stereo_words(&bytes, 8);
    assert_eq!(w, vec![(1, 0x3f80_0000), (0xffff_ffff, 0x1234_5678)]);
    assert_eq!(f32::from_bits(w[0].1), 1.0);
}

#[test]
fn stereo_words_skip_extra_bytes_of_wider_frames() {
    let bytes = [1u8, 0, 0, 0, 2, 0, 0, 0, 9, 9, 9, 9];
    assert_eq!(stereo_words(&bytes, 12), vec![(1, 2)]);
}

#[test]
fn windows_overlap_by_half() {
    assert_eq!(schedule_windows(1023), (0, 1023));
    assert_eq!(schedule_windows(1024), (1, 512));
    assert_eq!(schedule_windows(1535), (1, 1023));
    assert_eq!(schedule_windows(1536), (2, 512));
    assert_eq!(schedule_windows(0), (0, 0));
    assert_eq!(FFT_SIZE, 2 * HOP_SIZE);
}

#[test]
fn waveform_takes_every_fourth_sample() {
    let window: Vec<u32> = (0..FFT_SIZE as u32).collect();
    let wave = decimate(&window, FFT_SIZE / N_WAVE_EMITTED);
    assert_eq!(wave.len(), N_WAVE_EMITTED);
    assert_eq!(wave[0], 0);
    assert_eq!(wave[1], 4);
    assert_eq!(wave[255], 1020);
    assert_eq!(decimate(&[1, 2, 3, 4, 5], 2), vec![1, 3, 5]);
    assert_eq!(decimate::<u8>(&[], 3), Vec::<u8>::new());
}

#[test]
fn buffer_duration_depends_on_capture_kind() {
    assert_eq!(buffer_duration_hns(Some(1234), 30_000), PROC_LOOPBACK_PERIOD_HNS);
    assert_eq!(buffer_duration_hns(None, 30_000), 30_000);
}

#[test]
fn windows_carry_over_between_reads() {
    for b in [0usize, 100, 1023, 1024, 1500, 2047, 3000] {
        for n in [0usize, 1, 511, 512, 1024, 5000] {
            let (w1, rem) = schedule_windows(b);
            let (w2, _) = schedule_windows(rem + n);
            assert_eq!(w1 + w2, schedule_windows(b + n).0, "{} {}", b, n);
        }
    }
}
