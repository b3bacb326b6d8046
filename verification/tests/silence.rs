use zipvoice_rs::silence::{remove_long_silence, split_intervals, trim_interval};

fn frames(len: usize, active: &[usize]) -> Vec<bool> {
    let n = (len + 511) / 512;
    let mut act = vec![false; n];
    for &i in active {
        act[i] = true;
    }
    act
}

#[test]
fn split_intervals_closes_at_inactive_frames_and_end() {
    let act = vec![false, true, true, false, true];
    assert_eq!(split_intervals(&act, 512, 2500), vec![(512, 1536), (2048, 2500)]);
    assert_eq!(split_intervals(&[], 512, 0), Vec::<(usize, usize)>::new());
}

#[test]
fn long_silence_kept_when_no_sound() {
    let samples: Vec<u32> = (0..5000).collect();
    let act = frames(5000, &[]);
    assert_eq!(remove_long_silence(&samples, &act), samples);
}

#[test]
fn long_silence_merges_close_intervals() {
    let samples: Vec<u32> = (0..100_000).collect();
    let act = frames(100_000, &[60, 61, 150, 190]);
    let out = remove_long_silence(&samples, &act);
    let mut expected: Vec<u32> = (6720..55744).collect();
    expected.extend(55744..100_000u32);
    assert_eq!(out, expected);
}

#[test]
fn long_silence_cuts_long_gap() {
    let samples: Vec<u32> = (0..100_000).collect();
    let act = frames(100_000, &[10, 180]);
    let out = remove_long_silence(&samples, &act);
    let mut expected: Vec<u32> = (0..29632).collect();
    expected.extend(68160..100_000u32);
    assert_eq!(out, expected);
    assert!(out.len() <= samples.len());
}

#[test]
fn trim_interval_keeps_edges() {
    let len = 10_000;
    let mut act = vec![false; len / 128 + 1];
    assert_eq!(trim_interval(&act, len), (0, len));
    act[30] = true;
    act[40] = true;
    assert_eq!(trim_interval(&act, len), (1440, 7648));
    let mut act = vec![false; len / 128 + 1];
    act[2] = true;
    act[78] = true;
    assert_eq!(trim_interval(&act, len), (0, 10_000));
    assert_eq!(trim_interval(&[false], 0), (0, 0));
}

#[test]
fn long_silence_keeps_every_active_interval() {
    let samples: Vec<u32> = (0..100_000).collect();
    let act = frames(100_000, &[10, 95, 180]);
    let intervals = split_intervals(&act, 512, 100_000);
    let out = remove_long_silence(&samples, &act);
    for (start, end) in intervals {
        let needle: Vec<u32> = (start as u32..end as u32).collect();
        assert!(out.windows(needle.len()).any(|w| w == needle.as_slice()));
    }
}

#[test]
fn trim_keeps_every_active_frame() {
    let len = 20_000;
    let mut act = vec![false; len / 128 + 1];
    for k in [40, 77, 100] {
        act[k] = true;
    }
    let (start, end) = trim_interval(&act, len);
    for k in [40usize, 77, 100] {
        assert!(start <= k * 128);
        assert!(end >= (k * 128 + 128).min(len));
    }
}
