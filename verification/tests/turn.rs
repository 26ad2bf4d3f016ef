//! A chunk on its way through the coordinator.

use serde_json::Value;
use silero_vad::coordinator::Output;
use silero_vad::data::{AudioChunk, ControlMessageType, MediaInput};
use silero_vad::error::Error;
use silero_vad::json::Member;
use silero_vad::numbers::Binary32;
use silero_vad::turn::{Arrived, Delivery, Listened};
use silero_vad::vad::{InferenceOutputs, VadEvent, HIDDEN_LEN};
use silero_vad::{SpeculativeVADCoordinator, SpeculativeVADCoordinatorConfig};

fn b(x: f32) -> Binary32 {
    Binary32::from_bits(x.to_bits())
}

fn object(event: &VadEvent) -> Value {
    let mut map = serde_json::Map::new();
    for (name, member) in event.members() {
        let value = match member {
            Member::Flag(x) => Value::from(x),
            Member::Number(x) => Value::from(f32::from_bits(x.to_bits())),
            Member::Count(x) => Value::from(x),
            Member::Text(x) => Value::from(x),
        };
        map.insert(name.to_string(), value);
    }
    Value::Object(map)
}

fn chunk(n: usize, sample_rate: u32, channels: u32) -> MediaInput {
    MediaInput::Audio(AudioChunk { samples: vec![b(0.25); n], sample_rate, channels })
}

fn outcome(probability: f32) -> Result<InferenceOutputs, Error> {
    Ok(InferenceOutputs { output: vec![b(probability)], state: vec![b(0.5); HIDDEN_LEN] })
}

fn go(c: &mut SpeculativeVADCoordinator, data: MediaInput, probability: f32) -> Vec<Output> {
    go_in("s", c, data, probability)
}

/// Takes a chunk of a session all the way; gives what comes out after the audio.
fn go_in(
    session: &str,
    c: &mut SpeculativeVADCoordinator,
    data: MediaInput,
    probability: f32,
) -> Vec<Output> {
    let (arrived, _) = c.process_streaming(data, Some(session.to_string())).ok().unwrap();
    assert!(arrived.is_fit(c));
    let (listening, inputs) = arrived.forwarded(c);
    assert_eq!(inputs.input, listening.mono);
    assert!(listening.is_fit(c));
    assert!(c.detector_has_room(session, listening.mono.len()));
    match listening.ran(c, outcome(probability)) {
        Listened::Reported(settling, event) => {
            assert!(settling.is_fit(c));
            settling.described(c, &object(&event), 77)
        }
        Listened::Unheard => panic!("no report"),
    }
}

#[test]
fn a_chunk_is_forwarded_first() {
    let c = SpeculativeVADCoordinator::new();
    let (arrived, audio) = c.process_streaming(chunk(4, 48000, 2), None).ok().unwrap();
    assert_eq!(arrived.session, "default");
    assert_eq!(audio.samples, vec![b(0.25); 4]);
    assert_eq!((audio.sample_rate, audio.channels), (48000, 2));
    // Nothing was kept of it yet.
    assert!(!c.has_session("default"));
}

#[test]
fn what_is_no_audio_does_not_arrive() {
    let c = SpeculativeVADCoordinator::new();
    assert_eq!(
        c.process_streaming(MediaInput::Other, None).err().unwrap().message(),
        "SpeculativeVADCoordinator requires audio input"
    );
    let hint = MediaInput::ControlMessage(ControlMessageType::BatchHint {
        suggested_batch_size: 1,
    });
    assert!(c.process_streaming(hint, Some("s".to_string())).is_err());
}

#[test]
fn the_model_is_run_on_one_channel() {
    let mut c = SpeculativeVADCoordinator::new();
    let (arrived, _) =
        c.process_streaming(chunk(960, 48000, 2), Some("s".to_string())).ok().unwrap();
    let (listening, inputs) = arrived.forwarded(&mut c);
    assert!(c.has_session("s"));
    assert_eq!(listening.samples, 960);
    assert_eq!(inputs.input_shape, [1, 160]);
    assert_eq!(inputs.input, vec![b(0.25); 160]);
    assert_eq!(inputs.sr, 16_000);
}

#[test]
fn short_speech_comes_back() {
    let mut c = SpeculativeVADCoordinator::new();
    assert!(matches!(go(&mut c, chunk(512, 16000, 1), 0.9)[..], [Output::Report]));
    let out = go(&mut c, chunk(1600, 16000, 1), 0.1);
    assert_eq!(out.len(), 2);
    match &out[0] {
        Output::Cancel(x) => {
            assert_eq!(
                x.message_type,
                ControlMessageType::CancelSpeculation { from_timestamp: 0, to_timestamp: 512 }
            );
            assert_eq!(x.segment_id, "s_0");
            assert_eq!(x.timestamp_ms, 77);
            assert_eq!(x.duration_ms, 32);
            assert_eq!(x.vad_confidence, b(0.1));
        }
        Output::Report => panic!("nothing taken back"),
    }
    assert!(matches!(out[1], Output::Report));
    assert_eq!(c.acceptance_rate("s").map(|r| f64::from_bits(r.to_bits())), Some(0.0));
}

#[test]
fn long_speech_stays() {
    let mut c = SpeculativeVADCoordinator::new();
    assert!(c.acceptance_rate("s").is_none());
    go(&mut c, chunk(4000, 16000, 1), 0.9);
    assert_eq!(c.acceptance_rate("s").map(|r| f64::from_bits(r.to_bits())), Some(1.0));
    assert!(matches!(go(&mut c, chunk(1600, 16000, 1), 0.1)[..], [Output::Report]));
    assert_eq!(c.acceptance_rate("s").map(|r| f64::from_bits(r.to_bits())), Some(1.0));
    go(&mut c, chunk(512, 16000, 1), 0.9);
    assert_eq!(go(&mut c, chunk(1600, 16000, 1), 0.1).len(), 2);
    assert_eq!(c.acceptance_rate("s").map(|r| f64::from_bits(r.to_bits())), Some(0.5));
}

#[test]
fn a_run_that_failed_is_passed_over() {
    let mut c = SpeculativeVADCoordinator::new();
    let (arrived, _) =
        c.process_streaming(chunk(700, 16000, 1), Some("s".to_string())).ok().unwrap();
    let (listening, _) = arrived.forwarded(&mut c);
    let failed = Err(Error::Execution("ort run: no".to_string()));
    assert!(matches!(listening.ran(&mut c, failed), Listened::Unheard));
    go(&mut c, chunk(512, 16000, 1), 0.9);
    match &go(&mut c, chunk(1600, 16000, 1), 0.1)[0] {
        Output::Cancel(x) => assert_eq!(
            x.message_type,
            ControlMessageType::CancelSpeculation { from_timestamp: 700, to_timestamp: 1212 }
        ),
        Output::Report => panic!("nothing taken back"),
    }
}

#[test]
fn not_every_chunk_fits() {
    let c = SpeculativeVADCoordinator::new();
    let of = |sample_rate: u32| Arrived {
        session: "s".to_string(),
        chunk: AudioChunk { samples: vec![b(0.0); 8], sample_rate, channels: 1 },
    };
    assert!(of(8000).is_fit(&c));
    assert!(!of(0).is_fit(&c));
    let far = SpeculativeVADCoordinator::with_config(SpeculativeVADCoordinatorConfig {
        lookback_ms: u32::MAX,
        ..SpeculativeVADCoordinatorConfig::default()
    });
    assert!(!of(16000).is_fit(&far));
}

/// A chunk on which the model fails.
fn fail(c: &mut SpeculativeVADCoordinator, n: usize) {
    let (arrived, _) =
        c.process_streaming(chunk(n, 16000, 1), Some("s".to_string())).ok().unwrap();
    let (listening, _) = arrived.forwarded(c);
    let failed = Err(Error::Execution("ort run: no".to_string()));
    assert!(matches!(listening.ran(c, failed), Listened::Unheard));
}

#[test]
fn what_is_taken_back_over_a_session_with_failed_runs() {
    let mut c = SpeculativeVADCoordinator::new();
    let mut position = 0u64;
    for i in 0..5 {
        fail(&mut c, 100);
        go(&mut c, chunk(300, 16000, 1), 0.1);
        let start = position + 400;
        go(&mut c, chunk(512, 16000, 1), 0.9);
        // Silence is counted on where the model failed between.
        assert_eq!(go(&mut c, chunk(800, 16000, 1), 0.1).len(), 1);
        fail(&mut c, 50);
        let out = go(&mut c, chunk(800, 16000, 1), 0.1);
        assert_eq!(out.len(), 2);
        match &out[0] {
            Output::Cancel(x) => {
                assert_eq!(x.segment_id, format!("s_{i}"));
                assert_eq!(
                    x.message_type,
                    ControlMessageType::CancelSpeculation {
                        from_timestamp: start,
                        to_timestamp: start + 512 + 850,
                    }
                );
            }
            Output::Report => panic!("nothing taken back"),
        }
        position = start + 512 + 850 + 800;
    }
}

fn ids(outputs: &[Output]) -> Vec<Option<(String, ControlMessageType)>> {
    outputs
        .iter()
        .map(|o| match o {
            Output::Cancel(x) => Some((x.segment_id.clone(), x.message_type)),
            Output::Report => None,
        })
        .collect()
}

#[test]
fn sessions_do_not_meet() {
    let mut alone = SpeculativeVADCoordinator::new();
    let mut shared = SpeculativeVADCoordinator::new();
    let mut seed = 9u64;
    for _ in 0..1000 {
        seed = seed.wrapping_mul(6364136223846793005).wrapping_add(1442695040888963407);
        let p = (seed >> 40) as f32 / 16777216.0;
        let q = 1.0 - p * p;
        go_in("b", &mut shared, chunk(333, 16000, 1), q);
        let x = go_in("a", &mut alone, chunk(700, 16000, 1), p);
        let y = go_in("a", &mut shared, chunk(700, 16000, 1), p);
        assert_eq!(ids(&x), ids(&y));
        go_in("a_vad", &mut shared, chunk(500, 16000, 1), q);
    }
}

#[test]
fn how_long_speech_and_silence_last() {
    let mut c = SpeculativeVADCoordinator::new();
    assert!(c.speech_ms("s").is_none());
    go(&mut c, chunk(1600, 16000, 1), 0.9);
    assert_eq!(c.speech_ms("s"), Some(100));
    assert_eq!(c.vad_node().silence_ms(Some("s_vad"), 160), 10);
    go(&mut c, chunk(800, 16000, 1), 0.1);
    assert_eq!(c.speech_ms("s"), Some(150));
    assert_eq!(c.vad_node().silence_ms(Some("s_vad"), 160), 60);
    assert_eq!(c.vad_node().silence_ms(Some("other"), 160), 10);
    go(&mut c, chunk(800, 16000, 1), 0.1);
    assert!(c.speech_ms("s").is_none());
}

#[test]
fn deliveries_are_counted() {
    let mut d = Delivery::new();
    assert_eq!(d.count, 0);
    for i in 1..4 {
        d = d.delivered::<String>(Ok(())).unwrap();
        assert_eq!(d.count, i);
    }
}

#[test]
fn a_delivery_that_fails_ends_the_call() {
    let outcomes = [Ok(()), Err("first"), Ok(()), Err("second")];
    let mut r = Ok(Delivery::new());
    let mut tried = 0;
    for outcome in outcomes {
        r = match r {
            Ok(d) => {
                tried += 1;
                d.delivered(outcome)
            }
            Err(e) => Err(e),
        };
    }
    assert_eq!(r, Err("first"));
    assert_eq!(tried, 2);
}
