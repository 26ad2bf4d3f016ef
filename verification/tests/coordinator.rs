//! The coordinator, chunk by chunk.

use serde_json::Value;
use silero_vad::coordinator::{Cancellation, CoordinatorState, Output};
use silero_vad::data::{AudioChunk, ControlMessageType, MediaInput};
use silero_vad::error::Error;
use silero_vad::json::{Member, VadReading};
use silero_vad::numbers::Binary32;
use silero_vad::vad::{Heard, InferenceOutputs, VadEvent, HIDDEN_LEN};
use silero_vad::{
    SpeculativeVADCoordinator, SpeculativeVADCoordinatorConfig, SpeculativeVADCoordinatorFactory,
};

fn b(x: f32) -> Binary32 {
    Binary32::from_bits(x.to_bits())
}

fn f(x: Binary32) -> f32 {
    f32::from_bits(x.to_bits())
}

fn config() -> SpeculativeVADCoordinatorConfig {
    SpeculativeVADCoordinatorConfig::default()
}

fn report(has_speech: bool, start: bool, end: bool, probability: f32) -> Value {
    let mut map = serde_json::Map::new();
    map.insert("has_speech".to_string(), Value::from(has_speech));
    map.insert("is_speech_start".to_string(), Value::from(start));
    map.insert("is_speech_end".to_string(), Value::from(end));
    map.insert("speech_probability".to_string(), Value::from(probability));
    Value::Object(map)
}

fn object(event: &VadEvent) -> Value {
    let mut map = serde_json::Map::new();
    for (name, member) in event.members() {
        let value = match member {
            Member::Flag(x) => Value::from(x),
            Member::Number(x) => Value::from(f(x)),
            Member::Count(x) => Value::from(x),
            Member::Text(x) => Value::from(x),
        };
        map.insert(name.to_string(), value);
    }
    Value::Object(map)
}

fn audio(n: usize) -> Vec<Binary32> {
    (0..n).map(|i| b(i as f32)).collect()
}

/// A chunk that the detector reports so; gives what is taken back.
fn take(
    c: &mut SpeculativeVADCoordinator,
    session: &str,
    n: usize,
    json: Option<&Value>,
) -> Option<Cancellation> {
    c.keep_chunk(session, &audio(n));
    assert!(c.has_room(session, n));
    let mut out = c.settle_chunk(session, n, json, 1234);
    if json.is_none() {
        assert!(out.is_empty());
        return None;
    }
    assert!(matches!(out.pop(), Some(Output::Report)));
    match out.pop() {
        Some(Output::Cancel(x)) => {
            assert!(out.is_empty());
            Some(x)
        }
        Some(Output::Report) => panic!("two reports"),
        None => None,
    }
}

#[test]
fn default_settings_of_a_coordinator() {
    let c = config();
    assert_eq!(f(c.vad_threshold), 0.5);
    assert_eq!(c.sample_rate, 16_000);
    assert_eq!(c.min_speech_duration_ms, 250);
    assert_eq!(c.min_silence_duration_ms, 100);
    assert_eq!(c.lookback_ms, 150);
    assert_eq!(c.speech_pad_ms, 30);
}

#[test]
fn settings_are_handed_to_the_detector() {
    let c = SpeculativeVADCoordinator::with_config(SpeculativeVADCoordinatorConfig {
        vad_threshold: b(0.7),
        sample_rate: 8000,
        min_speech_duration_ms: 1,
        min_silence_duration_ms: 2,
        lookback_ms: 3,
        speech_pad_ms: 4,
    });
    let d = c.vad_node().config();
    assert!(d.model_path.is_none());
    assert_eq!(f(d.threshold), 0.7);
    assert!(d.neg_threshold.is_none());
    assert_eq!(d.sampling_rate, 8000);
    assert_eq!(d.min_speech_duration_ms, 1);
    assert_eq!(d.min_silence_duration_ms, 2);
    assert_eq!(d.speech_pad_ms, 4);
}

#[test]
fn audio_goes_on_as_it_came() {
    let c = SpeculativeVADCoordinator::new();
    let data = MediaInput::Audio(AudioChunk {
        samples: audio(5),
        sample_rate: 44100,
        channels: 2,
    });
    let out = c.forward(&data).ok().unwrap();
    assert_eq!(out.samples, audio(5));
    assert_eq!((out.sample_rate, out.channels), (44100, 2));
    assert!(out.stream_id.is_none() && out.metadata.is_none());
    assert!(out.timestamp_us.is_none() && out.arrival_ts_us.is_none());
}

#[test]
fn nothing_but_audio_is_taken() {
    let c = SpeculativeVADCoordinator::new();
    assert_eq!(
        c.forward(&MediaInput::Other).err().unwrap().message(),
        "SpeculativeVADCoordinator requires audio input"
    );
    let message = MediaInput::ControlMessage(ControlMessageType::BatchHint {
        suggested_batch_size: 4,
    });
    assert!(c.forward(&message).is_err());
}

#[test]
fn one_output_for_one_input_is_refused() {
    let c = SpeculativeVADCoordinator::default();
    assert_eq!(
        c.process(&MediaInput::Other).err().unwrap().message(),
        "SpeculativeVADCoordinator requires streaming mode - use process_streaming()"
    );
}

#[test]
fn short_speech_is_taken_back() {
    let mut c = SpeculativeVADCoordinator::new();
    assert!(take(&mut c, "s", 512, Some(&report(false, false, false, 0.1))).is_none());
    assert!(take(&mut c, "s", 512, Some(&report(true, true, false, 0.9))).is_none());
    assert!(take(&mut c, "s", 1600, Some(&report(false, false, false, 0.2))).is_none());
    let x = take(&mut c, "s", 512, Some(&report(false, false, true, 0.25))).unwrap();
    assert_eq!(
        x.message_type,
        ControlMessageType::CancelSpeculation { from_timestamp: 512, to_timestamp: 2624 }
    );
    assert_eq!(x.segment_id, "s_0");
    assert_eq!(x.timestamp_ms, 1234);
    assert_eq!(x.reason, "speech_too_short");
    assert_eq!(x.duration_ms, 132);
    assert_eq!(x.min_required_ms, 250);
    assert_eq!(f(x.vad_confidence), 0.25);
}

#[test]
fn long_speech_is_accepted() {
    // 4000 samples are 250 milliseconds.
    for (n, accepted) in [(4000usize, true), (3999, false)] {
        let mut c = SpeculativeVADCoordinator::new();
        take(&mut c, "s", n, Some(&report(true, true, false, 0.9)));
        let x = take(&mut c, "s", 512, Some(&report(false, false, true, 0.1)));
        assert_eq!(x.is_none(), accepted);
    }
}

#[test]
fn segments_are_numbered() {
    let mut c = SpeculativeVADCoordinator::new();
    for i in 0..12 {
        take(&mut c, "a_1", 16, Some(&report(true, true, false, 0.9)));
        let x = take(&mut c, "a_1", 16, Some(&report(false, false, true, 0.1))).unwrap();
        assert_eq!(x.segment_id, format!("a_1_{i}"));
    }
    take(&mut c, "a", 16, Some(&report(true, true, false, 0.9)));
    let x = take(&mut c, "a", 16, Some(&report(false, false, true, 0.1))).unwrap();
    assert_eq!(x.segment_id, "a_0");
}

#[test]
fn an_end_without_a_begin_settles_nothing() {
    let mut c = SpeculativeVADCoordinator::new();
    assert!(take(&mut c, "s", 512, Some(&report(false, false, true, 0.1))).is_none());
    take(&mut c, "s", 512, Some(&report(true, true, false, 0.9)));
    assert!(take(&mut c, "s", 512, Some(&report(false, false, true, 0.1))).is_some());
    assert!(take(&mut c, "s", 512, Some(&report(false, false, true, 0.1))).is_none());
}

#[test]
fn a_begin_and_an_end_in_one_report_last_no_time() {
    let mut c = SpeculativeVADCoordinator::new();
    take(&mut c, "s", 100, Some(&report(false, false, false, 0.1)));
    let x = take(&mut c, "s", 512, Some(&report(true, true, true, 0.9))).unwrap();
    assert_eq!(
        x.message_type,
        ControlMessageType::CancelSpeculation { from_timestamp: 100, to_timestamp: 100 }
    );
    assert_eq!(x.duration_ms, 0);
}

#[test]
fn a_chunk_without_a_report_is_counted() {
    let mut c = SpeculativeVADCoordinator::new();
    assert!(take(&mut c, "s", 700, None).is_none());
    take(&mut c, "s", 512, Some(&report(true, true, false, 0.9)));
    take(&mut c, "s", 300, None);
    let x = take(&mut c, "s", 512, Some(&report(false, false, true, 0.1))).unwrap();
    assert_eq!(
        x.message_type,
        ControlMessageType::CancelSpeculation { from_timestamp: 700, to_timestamp: 1512 }
    );
}

#[test]
fn without_a_session_nothing_is_counted() {
    let mut c = SpeculativeVADCoordinator::new();
    assert!(c.settle_chunk("s", 700, None, 0).is_empty());
    take(&mut c, "s", 512, Some(&report(true, true, false, 0.9)));
    let x = take(&mut c, "s", 512, Some(&report(false, false, true, 0.1))).unwrap();
    assert_eq!(
        x.message_type,
        ControlMessageType::CancelSpeculation { from_timestamp: 0, to_timestamp: 512 }
    );
}

#[test]
fn sessions_of_a_coordinator_are_apart() {
    let mut c = SpeculativeVADCoordinator::new();
    take(&mut c, "a", 512, Some(&report(true, true, false, 0.9)));
    assert!(take(&mut c, "b", 512, Some(&report(false, false, true, 0.1))).is_none());
    assert!(take(&mut c, "a", 512, Some(&report(false, false, true, 0.1))).is_some());
}

#[test]
fn the_metadata_of_what_is_taken_back() {
    let mut c = SpeculativeVADCoordinator::new();
    take(&mut c, "s", 1600, Some(&report(true, true, false, 0.9)));
    let x = take(&mut c, "s", 512, Some(&report(false, false, true, 0.25))).unwrap();
    assert_eq!(
        x.metadata(),
        vec![
            ("reason", Member::Text("speech_too_short")),
            ("duration_ms", Member::Count(100)),
            ("min_required_ms", Member::Count(250)),
            ("vad_confidence", Member::Number(b(0.25))),
        ]
    );
}

fn reading(has_speech: bool, start: bool, end: bool) -> VadReading {
    VadReading {
        has_speech,
        is_speech_start: start,
        is_speech_end: end,
        speech_probability: b(0.5),
    }
}

#[test]
fn the_last_samples_are_kept() {
    for capacity in [0usize, 1, 2, 5, 64] {
        for sizes in [vec![3usize, 1, 4], vec![0, 8], vec![100], vec![1; 9], vec![]] {
            let mut s = CoordinatorState::new(capacity);
            let mut all: Vec<Binary32> = Vec::new();
            for (i, n) in sizes.iter().enumerate() {
                let chunk: Vec<Binary32> = (0..*n).map(|k| b((100 * i + k) as f32)).collect();
                all.extend(&chunk);
                s.keep(&chunk);
            }
            let room = capacity.max(1);
            let kept: Vec<Binary32> = s.audio_buffer.iter().copied().collect();
            assert_eq!(kept, all[all.len().saturating_sub(room)..].to_vec());
        }
    }
}

#[test]
fn accepted_speech_is_no_longer_kept() {
    let mut s = CoordinatorState::new(8);
    s.keep(&audio(5));
    assert!(s.settle(&config(), "s", reading(true, true, false), 4000, 0).is_none());
    assert_eq!(s.audio_buffer.len(), 5);
    assert!(s.settle(&config(), "s", reading(false, false, true), 5, 0).is_none());
    assert_eq!(s.audio_buffer.len(), 0);
    assert_eq!((s.speculations_accepted, s.speculations_cancelled), (1, 0));
    // What is taken back stays kept.
    s.keep(&audio(5));
    s.settle(&config(), "s", reading(true, true, false), 5, 0);
    assert!(s.settle(&config(), "s", reading(false, false, true), 5, 0).is_some());
    assert_eq!(s.audio_buffer.len(), 5);
    assert_eq!((s.speculations_accepted, s.speculations_cancelled, s.segment_counter), (1, 1, 1));
}

#[test]
fn silence_within_speech_is_counted() {
    let mut s = CoordinatorState::new(8);
    s.settle(&config(), "s", reading(false, false, false), 7, 0);
    assert_eq!((s.silence_samples, s.speech_triggered), (0, false));
    s.settle(&config(), "s", reading(true, true, false), 7, 0);
    assert_eq!((s.silence_samples, s.speech_triggered), (0, true));
    s.settle(&config(), "s", reading(false, false, false), 7, 0);
    s.settle(&config(), "s", reading(false, false, false), 8, 0);
    assert_eq!(s.silence_samples, 15);
    s.settle(&config(), "s", reading(true, false, false), 7, 0);
    assert_eq!(s.silence_samples, 0);
    s.settle(&config(), "s", reading(false, true, false), 9, 0);
    assert_eq!((s.silence_samples, s.speech_start_sample), (9, Some(36)));
    s.settle(&config(), "s", reading(false, false, true), 7, 0);
    assert_eq!((s.silence_samples, s.speech_triggered, s.current_sample), (0, false, 52));
    assert!(s.speech_start_sample.is_none());
    s.pass(3);
    assert_eq!(s.current_sample, 55);
}

#[test]
fn the_share_of_accepted_speech() {
    let mut s = CoordinatorState::new(8);
    let rate = |s: &CoordinatorState| f64::from_bits(s.acceptance_rate().to_bits());
    assert_eq!(rate(&s), 1.0);
    for (a, c) in [(1u64, 0u64), (0, 1), (1, 1), (1, 2), (2, 1), (7, 3), (u64::MAX - 1, 1)] {
        s.speculations_accepted = a;
        s.speculations_cancelled = c;
        assert_eq!(rate(&s), a as f64 / (a + c) as f64);
        assert!(0.0 <= rate(&s) && rate(&s) <= 1.0);
    }
}

#[test]
fn counters_have_their_limits() {
    let mut s = CoordinatorState::new(8);
    assert!(s.has_room(usize::MAX));
    s.pass(1);
    assert!(!s.has_room(usize::MAX));
    s.speculations_accepted = u64::MAX - 1;
    assert!(s.has_room(1));
    s.speculations_cancelled = 1;
    assert!(!s.has_room(1));
}

#[test]
fn a_lookback_has_its_limit() {
    let of = |lookback_ms: u32, sample_rate: u32| {
        SpeculativeVADCoordinator::with_config(SpeculativeVADCoordinatorConfig {
            lookback_ms,
            sample_rate,
            ..config()
        })
        .has_lookback()
    };
    assert!(of(150, 16_000));
    assert!(of(u32::MAX, 1999));
    assert!(!of(u32::MAX, 2000));
    assert!(of(u32::MAX, 999));
}

#[test]
fn the_detector_hears_under_a_name_of_its_own() {
    assert_eq!(SpeculativeVADCoordinator::vad_session_id("s"), "s_vad");
    assert_eq!(SpeculativeVADCoordinator::vad_session_id(""), "_vad");
    assert_eq!(SpeculativeVADCoordinator::session_name(None), "default");
    assert_eq!(SpeculativeVADCoordinator::session_name(Some("x".to_string())), "x");
}

fn heard(probability: f32, n: usize) -> Option<Heard> {
    Some(Heard {
        mono: vec![b(0.5); n],
        outcome: Ok(InferenceOutputs {
            output: vec![b(probability)],
            state: vec![b(0.125); HIDDEN_LEN],
        }),
    })
}

#[test]
fn the_detector_of_a_coordinator_is_heard() {
    let mut c = SpeculativeVADCoordinator::new();
    assert!(c.detector_has_room("s", 512));
    let i = c.inference_inputs("s", &vec![b(0.5); 512]);
    assert_eq!(i.state, vec![b(0.0); HIDDEN_LEN]);
    assert_eq!((i.input_shape, i.sr), ([1, 512], 16_000));
    let e = c.vad_result("s", heard(0.9, 512)).unwrap();
    assert!(e.is_speech_start);
    let i = c.inference_inputs("s", &vec![b(0.5); 512]);
    assert_eq!(i.state, vec![b(0.125); HIDDEN_LEN]);
    // Its sessions are those of the coordinator.
    assert!(c.vad_result("t", heard(0.9, 512)).unwrap().is_speech_start);
    assert!(!c.vad_result("s", heard(0.9, 512)).unwrap().is_speech_start);
}

#[test]
fn what_goes_wrong_in_the_detector_is_not_asked() {
    let mut c = SpeculativeVADCoordinator::new();
    assert!(c.vad_result("s", None).is_none());
    let failed = Heard { mono: vec![], outcome: Err(Error::Execution("x".to_string())) };
    assert!(c.vad_result("s", Some(failed)).is_none());
}

#[test]
fn each_speech_is_settled_once() {
    let mut c = SpeculativeVADCoordinator::new();
    let mut seed = 123u64;
    let (mut ends, mut taken_back) = (0, 0);
    let mut state = CoordinatorState::new(16);
    for _ in 0..2000 {
        seed = seed.wrapping_mul(6364136223846793005).wrapping_add(1442695040888963407);
        let p = (seed >> 40) as f32 / 16777216.0;
        let e = c.vad_result("s", heard(p, 700)).unwrap();
        let json = object(&e);
        if e.is_speech_end {
            ends += 1;
        }
        if take(&mut c, "s", 700, Some(&json)).is_some() {
            taken_back += 1;
        }
        state.settle(&config(), "s", VadReading::read(&json), 700, 0);
    }
    assert!(ends > 10);
    assert_eq!(state.speculations_accepted + state.speculations_cancelled, ends);
    assert_eq!(state.speculations_cancelled, taken_back);
}

#[test]
fn messages_that_concern_a_coordinator() {
    let c = SpeculativeVADCoordinator::new();
    let of = |m: ControlMessageType| {
        c.process_control_message(&MediaInput::ControlMessage(m)).ok().unwrap()
    };
    assert!(of(ControlMessageType::CancelSpeculation { from_timestamp: 1, to_timestamp: 2 }));
    assert!(!of(ControlMessageType::BatchHint { suggested_batch_size: 4 }));
    assert!(!of(ControlMessageType::DeadlineWarning { deadline_us: 4 }));
    assert!(!c.process_control_message(&MediaInput::Other).ok().unwrap());
}

#[test]
fn kinds_of_coordinators() {
    assert_eq!(SpeculativeVADCoordinator::new().node_type(), "SpeculativeVADCoordinator");
    assert_eq!(SpeculativeVADCoordinatorFactory.node_type(), "SpeculativeVADCoordinator");
}

#[test]
fn a_coordinator_is_made_from_settings_or_without() {
    let factory = SpeculativeVADCoordinatorFactory::default();
    assert_eq!(factory.create(None).vad_node().config().sampling_rate, 16_000);
    let c = factory.create(Some(SpeculativeVADCoordinatorConfig {
        sample_rate: 8000,
        ..config()
    }));
    assert_eq!(c.vad_node().config().sampling_rate, 8000);
}
