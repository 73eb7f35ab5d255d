use gmcl_speech::audio::{
    blocks, capture, downmix, last_samples, resample_linear_mono, DecodeInput, SampleRing,
};

fn mean(f: &[f32]) -> f32 {
    let mut s = 0.0f32;
    for x in f {
        s += x;
    }
    s / (f.len() as f32)
}

fn locate(i: usize, in_hz: u32, out_hz: u32) -> (usize, f32) {
    let t = (i as f32) * (in_hz as f32) / (out_hz as f32);
    let i0 = t.floor() as usize;
    (i0, t - (i0 as f32))
}

fn blend(a: f32, b: f32, frac: f32) -> f32 {
    a * (1.0 - frac) + b * frac
}

#[test]
fn downmix_takes_the_mean_of_whole_frames() {
    assert_eq!(downmix(&[1.0, 3.0, 5.0, 7.0, 9.0], 2, &mean), vec![2.0, 6.0]);
    assert_eq!(downmix(&[1.0, 2.0], 1, &mean), vec![1.0, 2.0]);
    assert_eq!(downmix(&[1.0, 2.0], 0, &mean), vec![1.0, 2.0]);
    assert_eq!(downmix(&[1.0, 2.0, 6.0], 3, &mean), vec![3.0]);
    assert!(downmix(&[1.0], 2, &mean).is_empty());
}

#[test]
fn blocks_are_a_tenth_of_a_second() {
    assert_eq!(blocks(&vec![1, 2, 3, 4, 5], 20), vec![vec![1, 2], vec![3, 4], vec![5]]);
    assert_eq!(blocks(&vec![1, 2, 3, 4], 29), vec![vec![1, 2], vec![3, 4]]);
    assert!(blocks(&Vec::<i32>::new(), 20).is_empty());
    assert_eq!(blocks(&vec![1, 2], 48_000), vec![vec![1, 2]]);
}

#[test]
fn capture_downmixes_and_cuts() {
    assert_eq!(capture(&[1.0, 3.0, 5.0, 7.0, 2.0, 2.0], 2, 20, &mean), vec![
        vec![2.0, 6.0],
        vec![2.0]
    ]);
}

#[test]
fn the_ring_keeps_four_seconds() {
    let mut r: SampleRing<i32> = SampleRing::new(2);
    r.absorb(&vec![1, 2, 3]);
    assert_eq!(r.to_vec(), vec![1, 2, 3]);
    r.absorb(&vec![4, 5, 6, 7, 8, 9, 10]);
    assert_eq!(r.to_vec(), vec![3, 4, 5, 6, 7, 8, 9, 10]);
    r.absorb(&(0..20).collect());
    assert_eq!(r.to_vec(), (12..20).collect::<Vec<i32>>());
}

#[test]
fn blocks_leave_in_the_ring_what_the_whole_would() {
    let samples: Vec<i32> = (0..57).collect();
    let mut whole: SampleRing<i32> = SampleRing::new(10);
    whole.absorb(&samples);
    for rate in [10, 20, 70, 600] {
        let mut parts: SampleRing<i32> = SampleRing::new(10);
        for b in blocks(&samples, rate) {
            parts.absorb(&b);
        }
        assert_eq!(parts.to_vec(), whole.to_vec());
    }
}

#[test]
fn a_ring_without_a_rate_keeps_nothing() {
    let mut r: SampleRing<i32> = SampleRing::new(0);
    r.absorb(&vec![1, 2]);
    assert!(r.to_vec().is_empty());
}

#[test]
fn resampling_interpolates() {
    let input = vec![0.0f32, 10.0, 20.0, 30.0];
    let up = resample_linear_mono(&input, 1, 2, &locate, &blend).unwrap();
    assert_eq!(up, vec![0.0, 5.0, 10.0, 15.0, 20.0, 25.0, 30.0, 30.0]);
    let down = resample_linear_mono(&input, 2, 1, &locate, &blend).unwrap();
    assert_eq!(down, vec![0.0, 20.0]);
    let odd = resample_linear_mono(&input, 3, 2, &locate, &blend).unwrap();
    assert_eq!(odd, vec![0.0, 15.0]);
}

#[test]
fn resampling_to_the_same_rate_copies() {
    let input = vec![1.0f32, 2.0];
    assert_eq!(resample_linear_mono(&input, 5, 5, &locate, &blend), Some(input.clone()));
    assert_eq!(resample_linear_mono(&Vec::new(), 0, 5, &locate, &blend), Some(vec![]));
}

#[test]
fn resampling_to_no_rate_leaves_nothing() {
    assert_eq!(resample_linear_mono(&vec![1.0f32], 5, 0, &locate, &blend), Some(vec![]));
}

#[test]
fn a_place_outside_the_input_is_refused() {
    let input = vec![1.0f32, 2.0];
    assert_eq!(resample_linear_mono(&input, 1, 2, &|_i: usize, _a: u32, _b: u32| (2usize, 0.0f32), &blend), None);
}

#[test]
fn last_samples_takes_the_end() {
    assert_eq!(last_samples(vec![1, 2, 3], 2), vec![2, 3]);
    assert_eq!(last_samples(vec![1, 2, 3], 3), vec![1, 2, 3]);
    assert_eq!(last_samples(vec![1, 2, 3], 5), vec![1, 2, 3]);
}

#[test]
fn decode_input_is_the_last_three_seconds() {
    let mut r: SampleRing<f32> = SampleRing::new(48_000);
    r.absorb(&vec![0.5; 23_999]);
    assert!(matches!(r.decode_input(&locate, &blend), DecodeInput::TooShort));
    r.absorb(&vec![0.5; 1]);
    match r.decode_input(&locate, &blend) {
        DecodeInput::Samples(a) => assert_eq!(a, vec![0.5; 8_000]),
        _ => panic!(),
    }
    r.absorb(&(0..192_000).map(|i| (i / 48_000) as f32).collect());
    match r.decode_input(&locate, &blend) {
        DecodeInput::Samples(a) => {
            assert_eq!(a.len(), 48_000);
            assert_eq!(a[0], 1.0);
            assert_eq!(a[16_000], 2.0);
            assert_eq!(a[47_999], 3.0);
        }
        _ => panic!(),
    }
}

#[test]
fn decode_input_at_the_decoders_own_rate() {
    let mut r: SampleRing<f32> = SampleRing::new(16_000);
    r.absorb(&vec![1.0; 9_000]);
    match r.decode_input(&locate, &blend) {
        DecodeInput::Samples(a) => assert_eq!(a.len(), 9_000),
        _ => panic!(),
    }
}

#[test]
fn decode_input_reports_a_misplaced_sample() {
    let mut r: SampleRing<f32> = SampleRing::new(8_000);
    r.absorb(&vec![1.0; 8_000]);
    assert!(matches!(
        r.decode_input(&|_i: usize, _a: u32, _b: u32| (usize::MAX, 0.0f32), &blend),
        DecodeInput::Misplaced
    ));
}
