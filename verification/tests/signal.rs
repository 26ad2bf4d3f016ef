//! Time, level, rates and channels against the same formulas in floating point.

use silero_vad::data::{AudioChunk, ControlMessageType, MediaInput};
use silero_vad::numbers::Binary32;
use silero_vad::signal;
use silero_vad::{SileroVADConfig, SileroVADNode};

fn next(seed: &mut u64) -> u64 {
    *seed ^= *seed << 13;
    *seed ^= *seed >> 7;
    *seed ^= *seed << 17;
    *seed
}

fn noise(len: usize, seed: u64) -> Vec<f32> {
    let mut seed = seed;
    (0..len).map(|_| (next(&mut seed) >> 40) as f32 / 8388608.0 - 1.0).collect()
}

fn patterns(samples: &[f32]) -> Vec<Binary32> {
    samples.iter().map(|s| Binary32::from_bits(s.to_bits())).collect()
}

fn floats(samples: &[Binary32]) -> Vec<f32> {
    samples.iter().map(|s| f32::from_bits(s.to_bits())).collect()
}

fn same(a: f32, b: f32) -> bool {
    a.to_bits() == b.to_bits() || (a.is_nan() && b.is_nan())
}

fn same_all(a: &[f32], b: &[f32]) -> bool {
    a.len() == b.len() && a.iter().zip(b).all(|(x, y)| same(*x, *y))
}

fn resampled(audio: &[f32], from: u32, to: u32) -> Vec<f32> {
    if from == to {
        return audio.to_vec();
    }
    let ratio = from as f32 / to as f32;
    let len = (audio.len() as f32 / ratio) as usize;
    (0..len)
        .map(|i| {
            let pos = i as f32 * ratio;
            let at = pos as usize;
            let rest = pos - at as f32;
            if at + 1 < audio.len() {
                audio[at] * (1.0 - rest) + audio[at + 1] * rest
            } else {
                audio[at]
            }
        })
        .collect()
}

fn mixed(audio: &[f32], channels: u32) -> Vec<f32> {
    audio.chunks(channels as usize).map(|c| c.iter().sum::<f32>() / channels as f32).collect()
}

fn node(sampling_rate: u32) -> SileroVADNode {
    SileroVADNode::new(SileroVADConfig { sampling_rate, ..SileroVADConfig::default() })
}

#[test]
fn durations_are_those_of_the_formula() {
    let rates = [0u32, 1, 7, 1000, 8000, 16000, 44100, 48000, u32::MAX];
    let mut counts: Vec<usize> = vec![0, 1, 15, 16, 512, 1599, 1600, 1601, 16_777_217, usize::MAX];
    let mut seed = 11u64;
    for _ in 0..200 {
        counts.push((next(&mut seed) >> (next(&mut seed) % 60)) as usize);
    }
    for rate in rates {
        for n in &counts {
            let ms = *n as f32 / rate as f32 * 1000.0;
            assert_eq!(signal::duration_ms(*n, rate), ms as u32);
            assert_eq!(signal::position_ms(*n, rate), ms as u64);
        }
    }
}

#[test]
fn a_tenth_of_a_second_is_a_hundred_milliseconds() {
    assert_eq!(signal::duration_ms(1600, 16_000), 100);
    assert_eq!(signal::duration_ms(1599, 16_000), 99);
    assert_eq!(signal::position_ms(512, 16_000), 32);
    assert_eq!(signal::duration_ms(0, 0), 0);
    assert_eq!(signal::duration_ms(1, 0), u32::MAX);
    assert_eq!(signal::position_ms(1, 0), u64::MAX);
}

#[test]
fn more_samples_take_no_less_time() {
    for rate in [0u32, 8000, 16000, 44100] {
        let mut before = (0, 0);
        for n in 0..5000 {
            let now = (signal::duration_ms(n, rate), signal::position_ms(n, rate));
            assert!(before.0 <= now.0 && before.1 <= now.1);
            before = now;
        }
    }
}

#[test]
fn the_time_told_is_off_by_no_more_than_a_millisecond() {
    let mut seed = 21u64;
    for _ in 0..20_000 {
        let rate = 1 + next(&mut seed) % 192_000;
        let samples = (next(&mut seed) % 0x100_0000).min(rate * 4000);
        let exact = samples * 1000 / rate;
        let told = signal::duration_ms(samples as usize, rate as u32) as u64;
        assert!(exact <= told + 1 && told <= exact + 1);
        assert_eq!(signal::position_ms(samples as usize, rate as u32), told);
    }
}

#[test]
fn levels_are_those_of_the_formula() {
    let mut chunks: Vec<Vec<f32>> = vec![
        vec![],
        vec![0.0],
        vec![-0.0, 0.0],
        vec![0.5, -0.75, 0.25],
        vec![f32::NAN, 0.5],
        vec![f32::INFINITY, -1.0],
        vec![1e-30, 1e-38, 1e-45],
        vec![f32::MAX, f32::MIN],
    ];
    for i in 0..20 {
        chunks.push(noise(1 + 37 * i, 100 + i as u64));
    }
    for chunk in &chunks {
        let (want_rms, want_peak) = if chunk.is_empty() {
            (0.0f32, 0.0f32)
        } else {
            let mut squares = 0.0f64;
            let mut peak = 0.0f32;
            for s in chunk {
                squares += (*s as f64) * (*s as f64);
                if s.abs() > peak {
                    peak = s.abs();
                }
            }
            ((squares / chunk.len() as f64).sqrt() as f32, peak)
        };
        let (rms, peak) = signal::level(&patterns(chunk));
        assert!(same(f32::from_bits(rms.to_bits()), want_rms));
        assert!(same(f32::from_bits(peak.to_bits()), want_peak));
    }
}

#[test]
fn level_of_a_square_wave() {
    let (rms, peak) = signal::level(&patterns(&[0.5, -0.5, 0.5, -0.5]));
    assert_eq!(f32::from_bits(rms.to_bits()), 0.5);
    assert_eq!(f32::from_bits(peak.to_bits()), 0.5);
}

#[test]
fn no_sample_exceeds_the_peak() {
    let chunk = noise(500, 3);
    let (_, peak) = signal::level(&patterns(&chunk));
    let peak = f32::from_bits(peak.to_bits());
    assert!(chunk.iter().all(|s| s.abs() <= peak));
    assert!(chunk.iter().any(|s| s.abs() == peak));
}

#[test]
fn resampling_is_that_of_the_formula() {
    let rates = [8000u32, 11025, 16000, 22050, 24000, 44100, 48000, 96000];
    for len in [0usize, 1, 2, 3, 160, 441, 512, 1024] {
        let audio = noise(len, 7 + len as u64);
        for from in rates {
            for to in rates {
                assert!(signal::can_resample(len, from, to));
                let got = node(to).resample_audio(&patterns(&audio), from, to);
                assert!(same_all(&floats(&got), &resampled(&audio, from, to)));
            }
        }
    }
}

#[test]
fn resampling_by_two_takes_every_other_sample() {
    let audio = patterns(&[0.0, 1.0, 2.0, 3.0, 4.0, 5.0]);
    let r = signal::resample(&audio, 32000, 16000);
    assert_eq!(floats(&r), vec![0.0, 2.0, 4.0]);
    let r = signal::resample(&patterns(&[0.0, 1.0, 2.0]), 8000, 16000);
    assert_eq!(floats(&r), vec![0.0, 0.5, 1.0, 1.5, 2.0, 2.0]);
}

#[test]
fn resampling_to_the_same_rate_changes_nothing() {
    let audio = patterns(&[0.25, f32::NAN, -1.0]);
    assert_eq!(signal::resample(&audio, 44100, 44100), audio);
    assert_eq!(signal::resample(&audio, 0, 0), audio);
}

#[test]
fn resampling_at_rate_zero() {
    // From a rate of zero there would be samples without end.
    assert!(!signal::can_resample(3, 0, 16000));
    // To a rate of zero there are none.
    assert!(signal::can_resample(3, 16000, 0));
    assert_eq!(signal::resample(&patterns(&[1.0, 2.0, 3.0]), 16000, 0), vec![]);
    assert!(signal::can_resample(0, 0, 16000));
}

#[test]
fn resampling_stays_within_the_chunk() {
    // Up to 2^21 samples of the other rate, none lies behind the last one.
    let mut seed = 5u64;
    for _ in 0..20_000 {
        let from = 1 + (next(&mut seed) % 200_000) as u32;
        let to = 1 + (next(&mut seed) % 200_000) as u32;
        let limit = (from as u64 * 0x20_0000 / to as u64).min(0xff_ffff);
        let len = next(&mut seed) % (limit + 1);
        assert!(signal::can_resample(len as usize, from, to));
    }
    for (from, to) in [(8000u32, 16000u32), (48000, 16000), (44100, 16000), (11025, 16000)] {
        let limit = (from as u64 * 0x20_0000 / to as u64).min(0xff_ffff);
        for len in limit - 50..=limit {
            assert!(signal::can_resample(len as usize, from, to));
        }
    }
}

#[test]
fn a_very_long_chunk_may_not_resample() {
    let mut refused = 0;
    for len in 16_777_216u64 * 8..16_777_216 * 8 + 64 {
        let (from, to) = (44100u32, 48000u32);
        let ratio = from as f32 / to as f32;
        let n = (len as f32 / ratio) as usize;
        let last = ((n - 1) as f32 * ratio) as usize;
        let fits = (last as u64) < len;
        assert_eq!(signal::can_resample(len as usize, from, to), fits);
        if !fits {
            refused += 1;
        }
    }
    assert!(refused > 0);
}

#[test]
fn channels_are_mixed_as_by_the_formula() {
    for channels in [1u32, 2, 3, 6, 8] {
        for len in [0usize, 1, 2, 5, 6, 7, 96, 480, 481] {
            let audio = noise(len, len as u64 + 1);
            let got = signal::mix_down(&patterns(&audio), channels);
            assert!(same_all(&floats(&got), &mixed(&audio, channels)));
        }
    }
}

#[test]
fn mixing_keeps_the_sign_of_zero() {
    let audio = [-0.0f32, -0.0, 0.0, -0.0, -1.0, 1.0];
    let got = signal::mix_down(&patterns(&audio), 2);
    assert!(same_all(&floats(&got), &mixed(&audio, 2)));
}

#[test]
fn the_last_frame_may_lack_channels() {
    let got = signal::mix_down(&patterns(&[1.0, 3.0, 4.0]), 2);
    assert_eq!(floats(&got), vec![2.0, 2.0]);
}

#[test]
fn mono_is_extracted_from_audio_alone() {
    let n = node(16000);
    assert!(n.extract_mono(&MediaInput::Other).is_none());
    assert!(n
        .extract_mono(&MediaInput::ControlMessage(ControlMessageType::DeadlineWarning {
            deadline_us: 1,
        }))
        .is_none());
    let audio = noise(882, 9);
    let data = MediaInput::Audio(AudioChunk {
        samples: patterns(&audio),
        sample_rate: 44100,
        channels: 2,
    });
    let got = n.extract_mono(&data).unwrap();
    assert!(same_all(&floats(&got), &mixed(&resampled(&audio, 44100, 16000), 2)));
}

#[test]
fn mono_at_the_rate_listened_to_is_heard_as_it_came() {
    let n = node(16000);
    for channels in [0u32, 1] {
        let samples = patterns(&[0.5, -0.0, f32::NAN]);
        let data = MediaInput::Audio(AudioChunk {
            samples: samples.clone(),
            sample_rate: 16000,
            channels,
        });
        assert_eq!(n.extract_mono(&data).unwrap(), samples);
    }
}

#[test]
fn frames_become_one_sample_each() {
    let n = node(16000);
    let data = MediaInput::Audio(AudioChunk {
        samples: patterns(&[0.5, 0.25, -1.0, 1.0, 0.125, 0.125]),
        sample_rate: 16000,
        channels: 2,
    });
    assert_eq!(floats(&n.extract_mono(&data).unwrap()), vec![0.375, 0.0, 0.125]);
}
