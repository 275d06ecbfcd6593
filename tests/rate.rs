use noisereduce::rate::{downsample, downsample_3x, upsample, upsample_3x, RATE_FACTOR};

fn lerp(f: usize) -> impl Fn(f32, f32, usize) -> f32 {
    move |a, b, k| a * ((f - k) as f32 / f as f32) + b * (k as f32 / f as f32)
}

#[test]
fn upsample_length_is_factor_times_input() {
    for n in 0usize..8 {
        let s: Vec<f32> = (0..n).map(|i| i as f32).collect();
        for f in 1usize..5 {
            assert_eq!(upsample(&s, f, lerp(f)).len(), f * n);
        }
    }
}

#[test]
fn upsample_empty_and_single() {
    let empty: Vec<f32> = vec![];
    assert!(upsample_3x(&empty, lerp(3)).is_empty());
    assert_eq!(upsample_3x(&[0.5f32], lerp(3)), vec![0.5f32, 0.5, 0.5]);
}

#[test]
fn upsample_interpolates_pairs() {
    let up = upsample_3x(&[0.0f32, 3.0, 6.0], lerp(3));
    assert_eq!(up.len(), 9);
    let expected = [0.0f32, 1.0, 2.0, 3.0, 4.0, 5.0, 6.0, 6.0, 6.0];
    for (a, b) in up.iter().zip(expected.iter()) {
        assert!((a - b).abs() < 1e-5, "{} vs {}", a, b);
    }
}

#[test]
fn upsample_matches_two_thirds_one_third() {
    let (a, b) = (0.7f32, -1.3f32);
    let up = upsample_3x(&[a, b], lerp(3));
    assert_eq!(up[0], a);
    assert_eq!(up[1], a * (2.0 / 3.0) + b * (1.0 / 3.0));
    assert_eq!(up[2], a * (1.0 / 3.0) + b * (2.0 / 3.0));
}

#[test]
fn upsample_ends_with_last_sample() {
    let s = [0.1f32, -0.4, 0.9, 0.25];
    for f in 1usize..6 {
        let up = upsample(&s, f, lerp(f));
        for v in &up[up.len() - f..] {
            assert_eq!(*v, 0.25);
        }
    }
}

#[test]
fn downsample_length_rounds_up() {
    let cases = [(0usize, 3usize, 0usize), (1, 3, 1), (3, 3, 1), (4, 3, 2), (9, 3, 3), (10, 3, 4), (5, 1, 5), (7, 2, 4)];
    for (n, f, expected) in cases {
        let s: Vec<u32> = (0..n as u32).collect();
        assert_eq!(downsample(&s, f).len(), expected);
    }
}

#[test]
fn downsample_keeps_every_third_from_the_first() {
    let s: Vec<u32> = (0..10).collect();
    assert_eq!(downsample_3x(&s), vec![0, 3, 6, 9]);
}

#[test]
fn downsample_recovers_upsampled_input() {
    let s = [0.0f32, 1.0, 2.0];
    let up = upsample(&s, RATE_FACTOR, lerp(RATE_FACTOR));
    assert_eq!(up.len(), 9);
    assert_eq!(downsample(&up, RATE_FACTOR), vec![0.0f32, 1.0, 2.0]);
}
