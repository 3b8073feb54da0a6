use ip_core::buffer::WindowBuffer;
use std::time::Duration;

fn buffer(window_size: usize, hop_size: usize, sample_rate: usize) -> WindowBuffer<f32> {
    WindowBuffer::try_new(window_size, hop_size, sample_rate).expect("hop_size must be in (0, window_size]")
}

#[test]
#[should_panic]
fn rejects_hop_size_larger_than_window() {
    buffer(512, 1024, 44_100);
}

#[test]
fn no_window_until_enough_samples_accumulate() {
    let mut buf = buffer(1024, 256, 44_100);
    assert!(buf.push(&vec![0.0; 128]).is_empty());
    assert!(buf.push(&vec![0.0; 128]).is_empty()); // 256 total, still short
}

#[test]
fn emits_one_window_once_full() {
    let mut buf = buffer(1024, 256, 44_100);
    let windows = buf.push(&vec![0.0; 1024]);
    assert_eq!(windows.len(), 1);
    assert_eq!(windows[0].samples.len(), 1024);
}

#[test]
fn non_overlapping_when_hop_equals_window_size() {
    let mut buf = buffer(512, 512, 44_100);
    let windows = buf.push(&vec![0.0; 1536]); // exactly 3 windows, no remainder
    assert_eq!(windows.len(), 3);
}

#[test]
fn partial_trailing_samples_remain_buffered_for_next_push() {
    let mut buf = buffer(1024, 1024, 44_100);
    assert_eq!(buf.push(&vec![0.0; 1500]).len(), 1); // 1 window, 476 leftover
    let windows = buf.push(&vec![0.0; 1024]); // 476 + 1024 = 1500 -> another window, 476 leftover
    assert_eq!(windows.len(), 1);
}

#[test]
fn overlapping_windows_carry_correct_content_and_timestamps() {
    // 128-sample blocks trickling into a window=1024, hop=256 buffer, with
    // index-valued samples so the exact overlap slicing can be checked.
    let mut buf = buffer(1024, 256, 44_100);
    let all_samples: Vec<f32> = (0..2048).map(|i| i as f32).collect();

    let mut windows = Vec::new();
    for chunk in all_samples.chunks(128) {
        windows.extend(buf.push(chunk));
    }

    // (2048 - 1024) / 256 + 1 = 5 windows.
    assert_eq!(windows.len(), 5);
    for (i, window) in windows.iter().enumerate() {
        let expected_start = i * 256;
        let expected: Vec<f64> = (expected_start..expected_start + 1024).map(|v| v as f64).collect();
        let samples: Vec<f64> = window.samples.iter().map(|&s| s as f64).collect();
        assert_eq!(samples, expected, "window {i} content mismatch");

        let expected_end_sample = (expected_start + 1024) as f64;
        let expected_ts = Duration::from_secs_f64(expected_end_sample / 44_100.0);
        assert_eq!(window.end_sample, (expected_start + 1024) as u64);
        let timestamp = Duration::from_secs_f64(window.end_sample as f64 / 44_100.0);
        assert_eq!(timestamp, expected_ts, "window {i} timestamp mismatch");
    }
}

#[test]
fn zero_hop_is_rejected() {
    assert!(WindowBuffer::<f32>::try_new(1024, 0, 44_100).is_none());
    assert!(WindowBuffer::<f32>::try_new(1024, 1024, 44_100).is_some());
}

#[test]
fn one_big_block_and_many_small_blocks_give_the_same_windows() {
    let samples: Vec<i32> = (0..3000).collect();
    let mut whole = WindowBuffer::new(700, 300, 48_000);
    let at_once = whole.push(&samples);

    let mut pieces = WindowBuffer::new(700, 300, 48_000);
    let mut trickled = Vec::new();
    for chunk in samples.chunks(97) {
        trickled.extend(pieces.push(chunk));
    }
    assert_eq!(at_once, trickled);
    // (3000 - 700) / 300 + 1 windows, the k-th starting at sample 300 * k.
    assert_eq!(at_once.len(), 8);
    for (k, window) in at_once.iter().enumerate() {
        assert_eq!(window.samples[0], (300 * k) as i32);
        assert_eq!(window.samples.len(), 700);
    }
}

#[test]
fn windows_end_where_their_last_sample_ends() {
    let mut buf = WindowBuffer::new(3, 3, 7);
    let windows = buf.push(&[1u8, 2, 3, 4, 5, 6]);
    assert_eq!(windows.len(), 2);
    assert_eq!(windows[0].end_sample, 3);
    assert_eq!(windows[1].end_sample, 6);
    assert_eq!(buf.sample_rate(), 7);
}

#[test]
fn a_zero_sample_rate_is_fine_until_a_window_completes() {
    let mut buf = WindowBuffer::new(4, 2, 0);
    assert!(buf.push(&[0u8, 1, 2]).is_empty());
}

#[test]
fn held_and_stepped_past_sample_counts() {
    let mut buf = WindowBuffer::new(4, 3, 8_000);
    assert_eq!(buf.pending_len(), 0);
    assert_eq!(buf.consumed_samples(), 0);
    let windows = buf.push(&[0u8; 9]);
    // Windows start at samples 0 and 3; the hop past the second leaves 3 held.
    assert_eq!(windows.len(), 2);
    assert_eq!(buf.consumed_samples(), 6);
    assert_eq!(buf.pending_len(), 3);
    assert_eq!(windows[1].end_sample, 7);
}

#[test]
fn a_zero_sample_rate_still_cuts_windows() {
    // The rate only matters once a window's end sample is turned into a time.
    let mut buf = WindowBuffer::new(2, 1, 0);
    let windows = buf.push(&[0u8, 1, 2]);
    assert_eq!(windows.len(), 2);
    assert_eq!(windows[1].end_sample, 3);
}
