use noisereduce::stream::FrameStream;

const FRAME: usize = 480;

fn lerp(a: f32, b: f32, k: usize) -> f32 {
    a * ((3 - k) as f32 / 3.0) + b * (k as f32 / 3.0)
}

fn drive(mut stream: FrameStream<f32>, mut denoise: impl FnMut(&[f32]) -> Vec<f32>) -> Vec<f32> {
    while let Some(frame) = stream.next_frame() {
        let out = denoise(&frame);
        stream.accept(&out);
    }
    assert!(stream.is_finished());
    stream.finish()
}

#[test]
fn native_identity_keeps_input() {
    for n in [0usize, 1, FRAME - 1, FRAME, FRAME + 1, 3 * FRAME + 17] {
        let s: Vec<f32> = (0..n).map(|i| (i as f32) * 0.5 - 7.0).collect();
        let out = drive(FrameStream::native(s.clone(), FRAME, 0.0), |f| f.to_vec());
        assert_eq!(out, s);
    }
}

#[test]
fn frames_are_zero_padded_and_padding_is_dropped() {
    let s = vec![1.0f32; 7];
    let mut stream = FrameStream::native(s, 4, 0.0);
    let first = stream.next_frame().unwrap();
    assert_eq!(first, vec![1.0f32; 4]);
    stream.accept(&[2.0f32; 4]);
    let second = stream.next_frame().unwrap();
    assert_eq!(second, vec![1.0f32, 1.0, 1.0, 0.0]);
    stream.accept(&[3.0f32; 4]);
    assert!(stream.next_frame().is_none());
    assert!(stream.is_finished());
    assert_eq!(stream.finish(), vec![2.0f32, 2.0, 2.0, 2.0, 3.0, 3.0, 3.0]);
}

#[test]
fn output_length_matches_input_for_any_denoiser() {
    for n in [0usize, 5, 480, 1000] {
        let s = vec![0.3f32; n];
        let out = drive(FrameStream::native(s, FRAME, 0.0), |f| vec![9.0f32; f.len()]);
        assert_eq!(out.len(), n);
    }
}

#[test]
fn silent_secondary_buffer_stays_silent() {
    let s = vec![0.0f32; 16000];
    let stream = FrameStream::secondary(&s, FRAME, 0.0, lerp);
    let out = drive(stream, |f| f.to_vec());
    assert_eq!(out.len(), 16000);
    assert!(out.iter().all(|v| *v == 0.0));
}

#[test]
fn secondary_identity_returns_input() {
    let s: Vec<f32> = (0..1001).map(|i| ((i % 17) as f32) - 8.0).collect();
    let out = drive(FrameStream::secondary(&s, FRAME, 0.0, lerp), |f| f.to_vec());
    assert_eq!(out, s);
}

#[test]
fn secondary_sample_counts() {
    for n in [0usize, 1, 2, 159, 160, 161] {
        let s = vec![0.5f32; n];
        let out = drive(FrameStream::secondary(&s, FRAME, 0.0, lerp), |f| f.to_vec());
        assert_eq!(out.len(), n);
    }
}

fn running_sum(state: &mut f32, frame: &[f32]) -> Vec<f32> {
    frame
        .iter()
        .map(|v| {
            *state += *v;
            *state
        })
        .collect()
}

#[test]
fn frames_are_fed_in_order() {
    let s: Vec<f32> = (0..10).map(|i| i as f32).collect();
    let mut sum = 0.0f32;
    let in_order = drive(FrameStream::native(s.clone(), 4, 0.0), |f| running_sum(&mut sum, f));
    assert_eq!(in_order, vec![0.0f32, 1.0, 3.0, 6.0, 10.0, 15.0, 21.0, 28.0, 36.0, 45.0]);

    let mut stream = FrameStream::native(s, 4, 0.0);
    let mut frames = Vec::new();
    while let Some(frame) = stream.next_frame() {
        frames.push(frame.clone());
        stream.accept(&frame);
    }
    let mut sum = 0.0f32;
    let mut outs: Vec<Vec<f32>> = frames.iter().rev().map(|f| running_sum(&mut sum, f)).collect();
    outs.reverse();
    let mut reordered = FrameStream::native((0..10).map(|i| i as f32).collect(), 4, 0.0);
    for out in &outs {
        assert!(reordered.next_frame().is_some());
        reordered.accept(out);
    }
    assert_ne!(reordered.finish(), in_order);
}
