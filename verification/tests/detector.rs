//! The detector, chunk by chunk.

use serde_json::Value;
use silero_vad::error::Error;
use silero_vad::json::{Member, VadReading};
use silero_vad::numbers::Binary32;
use silero_vad::vad::{Emission, Heard, InferenceOutputs, VADState, VadEvent, HIDDEN_LEN};
use silero_vad::{SileroVADConfig, SileroVADNode, SileroVADNodeFactory};

fn b(x: f32) -> Binary32 {
    Binary32::from_bits(x.to_bits())
}

fn f(x: Binary32) -> f32 {
    f32::from_bits(x.to_bits())
}

fn outputs(probability: f32, hidden: f32) -> InferenceOutputs {
    InferenceOutputs { output: vec![b(probability)], state: vec![b(hidden); HIDDEN_LEN] }
}

fn failure() -> Error {
    Error::Execution("ort run: no".to_string())
}

fn hear(node: &mut SileroVADNode, session: Option<&str>, probability: f32, n: usize) -> VadEvent {
    let mono = vec![b(0.25); n];
    node.vad_event_for(&mono, session, Ok(outputs(probability, 0.5))).ok().unwrap()
}

fn config() -> SileroVADConfig {
    SileroVADConfig::default()
}

/// The report as a JSON object.
fn object(event: &VadEvent) -> Value {
    let mut map = serde_json::Map::new();
    for (name, member) in event.members() {
        let value = match member {
            Member::Flag(x) => Value::from(x),
            Member::Number(x) => Value::from(f(x)),
            Member::Count(x) => Value::from(x),
            Member::Text(x) => Value::from(x),
        };
        map.insert(name.to_string(), value);
    }
    Value::Object(map)
}

#[test]
fn default_settings() {
    let c = config();
    assert!(c.model_path.is_none());
    assert_eq!(f(c.threshold), 0.5);
    assert!(c.neg_threshold.is_none());
    assert_eq!(c.sampling_rate, 16_000);
    assert_eq!(c.min_speech_duration_ms, 250);
    assert_eq!(c.min_silence_duration_ms, 100);
    assert_eq!(c.speech_pad_ms, 30);
}

#[test]
fn threshold_of_silence() {
    let of = |threshold: f32, neg: Option<f32>| {
        let c = SileroVADConfig { threshold: b(threshold), neg_threshold: neg.map(b), ..config() };
        f(SileroVADNode::new(c).effective_neg_threshold())
    };
    let by_formula = |threshold: f32, neg: Option<f32>| {
        neg.unwrap_or((threshold - 0.15).max(0.0)).min(threshold)
    };
    assert_eq!(of(0.5, None), 0.35);
    assert_eq!(of(0.1, None), 0.0);
    assert_eq!(of(0.5, Some(0.2)), 0.2);
    // Never above the threshold.
    assert_eq!(of(0.5, Some(0.9)), 0.5);
    assert_eq!(of(-1.0, None), -1.0);
    for t in [0.0, 0.05, 0.15, 0.3, 0.5, 0.75, 0.9, 1.0, f32::INFINITY] {
        for n in [None, Some(0.0), Some(0.35), Some(0.6), Some(2.0), Some(f32::NAN)] {
            assert_eq!(of(t, n), by_formula(t, n));
        }
    }
    assert_eq!(of(f32::NAN, Some(0.3)), 0.3);
    assert!(of(f32::NAN, Some(f32::NAN)).is_nan());
}

#[test]
fn speech_begins_holds_and_ends() {
    let mut node = SileroVADNode::new(config());
    let e = hear(&mut node, None, 0.2, 512);
    assert!(!e.has_speech && !e.is_speech_start && !e.is_speech_end);
    let e = hear(&mut node, None, 0.5, 512);
    assert!(e.has_speech && e.is_speech_start && !e.is_speech_end);
    let e = hear(&mut node, None, 0.9, 512);
    assert!(e.has_speech && !e.is_speech_start && !e.is_speech_end);
    // Between the thresholds speech is held, and silence is counted anew.
    let e = hear(&mut node, None, 0.2, 1500);
    assert!(!e.has_speech && !e.is_speech_end);
    let e = hear(&mut node, None, 0.4, 512);
    assert!(!e.has_speech && !e.is_speech_end);
    let e = hear(&mut node, None, 0.2, 1599);
    assert!(!e.is_speech_end);
    let e = hear(&mut node, None, 0.2, 1);
    assert!(e.is_speech_end && !e.is_speech_start && !e.has_speech);
    let e = hear(&mut node, None, 0.2, 16000);
    assert!(!e.is_speech_end);
    let e = hear(&mut node, None, 0.5, 512);
    assert!(e.is_speech_start);
}

#[test]
fn silence_may_come_in_pieces() {
    for pieces in [1usize, 2, 4, 8, 16, 1600] {
        let mut node = SileroVADNode::new(config());
        hear(&mut node, None, 0.9, 512);
        for i in 0..pieces {
            let e = hear(&mut node, None, 0.0, 1600 / pieces);
            assert_eq!(e.is_speech_end, i + 1 == pieces);
        }
    }
}

#[test]
fn begins_and_ends_take_turns() {
    let mut node = SileroVADNode::new(config());
    let mut seed = 77u64;
    let mut open = false;
    for _ in 0..3000 {
        seed = seed.wrapping_mul(6364136223846793005).wrapping_add(1442695040888963407);
        let p = (seed >> 40) as f32 / 16777216.0;
        let e = hear(&mut node, None, p, 512);
        assert!(!(e.is_speech_start && e.is_speech_end));
        if e.is_speech_start {
            assert!(!open);
            open = true;
        }
        if e.is_speech_end {
            assert!(open);
            open = false;
        }
    }
}

#[test]
fn without_silence_to_wait_for_speech_ends_at_once() {
    let mut node = SileroVADNode::new(SileroVADConfig { min_silence_duration_ms: 0, ..config() });
    hear(&mut node, None, 0.9, 512);
    assert!(hear(&mut node, None, 0.0, 0).is_speech_end);
}

#[test]
fn what_is_not_a_number_is_no_speech() {
    let mut node = SileroVADNode::new(config());
    let e = hear(&mut node, None, f32::NAN, 512);
    assert!(!e.has_speech && !e.is_speech_start);
    hear(&mut node, None, 0.9, 512);
    assert!(hear(&mut node, None, f32::NAN, 1600).is_speech_end);
}

#[test]
fn the_report_of_a_chunk() {
    let mut node = SileroVADNode::new(config());
    hear(&mut node, Some("a"), 0.1, 1000);
    let mono = vec![b(0.5), b(-1.0), b(0.5), b(0.0)];
    let e = node.vad_event_for(&mono, Some("a"), Ok(outputs(0.75, 0.0))).ok().unwrap();
    assert_eq!(
        e,
        VadEvent {
            has_speech: true,
            speech_probability: b(0.75),
            is_speech_start: true,
            is_speech_end: false,
            timestamp_ms: (1004.0f32 / 16000.0 * 1000.0) as u64,
            rms: b((1.5f64 / 4.0).sqrt() as f32),
            peak: b(1.0),
            samples: 4,
            sample_rate: 16_000,
        }
    );
}

#[test]
fn an_empty_chunk_is_reported() {
    let mut node = SileroVADNode::new(config());
    let e = node.vad_event_for(&vec![], None, Ok(outputs(0.0, 0.0))).ok().unwrap();
    assert_eq!((f(e.rms), f(e.peak), e.samples, e.timestamp_ms), (0.0, 0.0, 0, 0));
}

#[test]
fn the_time_of_reports_never_goes_back() {
    let mut node = SileroVADNode::new(config());
    let mut last = 0;
    for n in 0..2000 {
        let e = hear(&mut node, None, 0.0, n % 700);
        assert!(e.timestamp_ms >= last);
        last = e.timestamp_ms;
    }
}

#[test]
fn sessions_are_apart() {
    let mut node = SileroVADNode::new(config());
    assert!(hear(&mut node, Some("a"), 0.9, 512).is_speech_start);
    assert!(hear(&mut node, Some("b"), 0.9, 512).is_speech_start);
    assert!(!hear(&mut node, Some("a"), 0.9, 512).is_speech_start);
    // No name is the name "default".
    assert!(hear(&mut node, None, 0.9, 512).is_speech_start);
    assert!(!hear(&mut node, Some("default"), 0.9, 512).is_speech_start);
    assert_eq!(hear(&mut node, Some("b"), 0.9, 512).timestamp_ms, 64);
}

#[test]
fn a_session_that_was_reset_is_new() {
    let mut node = SileroVADNode::new(config());
    let first = hear(&mut node, Some("a"), 0.9, 512);
    hear(&mut node, Some("b"), 0.9, 512);
    node.reset_buffers("a");
    assert_eq!(hear(&mut node, Some("a"), 0.9, 512), first);
    assert!(!hear(&mut node, Some("b"), 0.9, 512).is_speech_start);
    node.reset_buffers("new");
    assert_eq!(hear(&mut node, Some("new"), 0.9, 512), first);
}

#[test]
fn what_the_model_is_run_on() {
    let mut node = SileroVADNode::new(SileroVADConfig { sampling_rate: 8000, ..config() });
    let mono = vec![b(0.5), b(0.25), b(-1.0)];
    let i = node.inference_inputs(&mono, Some("a"));
    assert_eq!(i.input_shape, [1, 3]);
    assert_eq!(i.input, mono);
    assert_eq!(i.state_shape, [2, 1, 128]);
    assert_eq!(i.state, vec![b(0.0); 256]);
    assert_eq!(i.sr, 8000);
    // The hidden state of one chunk is the input of the next, of this session alone.
    node.vad_event_for(&mono, Some("a"), Ok(outputs(0.1, 0.75))).ok().unwrap();
    assert_eq!(node.inference_inputs(&mono, Some("a")).state, vec![b(0.75); 256]);
    assert_eq!(node.inference_inputs(&mono, Some("b")).state, vec![b(0.0); 256]);
}

#[test]
fn a_run_that_failed_is_reported_and_changes_nothing() {
    let mut node = SileroVADNode::new(config());
    hear(&mut node, Some("a"), 0.9, 512);
    let r = node.vad_event_for(&vec![b(0.0); 512], Some("a"), Err(failure()));
    assert_eq!(r.err().unwrap().message(), "ort run: no");
    let e = hear(&mut node, Some("a"), 0.9, 512);
    assert!(!e.is_speech_start);
    assert_eq!(e.timestamp_ms, 64);
}

#[test]
fn outputs_of_the_model_have_a_form() {
    assert!(outputs(0.5, 0.0).is_wf());
    assert!(!InferenceOutputs { output: vec![], state: vec![b(0.0); 256] }.is_wf());
    assert!(!InferenceOutputs { output: vec![b(0.0)], state: vec![b(0.0); 255] }.is_wf());
    assert!(InferenceOutputs { output: vec![b(0.0); 3], state: vec![b(0.0); 256] }.is_wf());
}

#[test]
fn one_output_is_the_report() {
    let mut node = SileroVADNode::new(config());
    let heard = Heard { mono: vec![b(0.5); 512], outcome: Ok(outputs(0.9, 0.0)) };
    match node.process(Some(heard)) {
        Ok(Emission::Event(e)) => assert!(e.is_speech_start && e.samples == 512),
        _ => panic!("no report"),
    }
    // It was the default session.
    assert!(!hear(&mut node, Some("default"), 0.9, 512).is_speech_start);
    assert!(matches!(node.process(None), Ok(Emission::Input)));
    let heard = Heard { mono: vec![], outcome: Err(failure()) };
    assert_eq!(node.process(Some(heard)).err().unwrap().message(), "ort run: no");
}

#[test]
fn all_outputs_are_the_report_and_then_the_input() {
    let mut node = SileroVADNode::new(config());
    let heard = Heard { mono: vec![b(0.5); 512], outcome: Ok(outputs(0.9, 0.0)) };
    let out = node.process_streaming(Some(heard), Some("s")).ok().unwrap();
    assert_eq!(out.len(), 2);
    assert!(matches!(&out[0], Emission::Event(e) if e.is_speech_start));
    assert!(matches!(&out[1], Emission::Input));
    let out = node.process_streaming(None, Some("s")).ok().unwrap();
    assert_eq!(out.len(), 1);
    assert!(matches!(&out[0], Emission::Input));
    let heard = Heard { mono: vec![], outcome: Err(failure()) };
    let r = node.process_streaming(Some(heard), Some("s"));
    assert_eq!(r.err().unwrap().message(), "ort run: no");
}

#[test]
fn a_veto_is_speech() {
    let mut node = SileroVADNode::new(config());
    let audio = vec![b(0.5); 512];
    assert!(node.evaluate_veto("a", &audio, Ok(outputs(0.5, 0.0))).ok().unwrap());
    assert!(!node.evaluate_veto("a", &audio, Ok(outputs(0.49, 0.0))).ok().unwrap());
    assert!(node.evaluate_veto("a", &audio, Err(failure())).is_err());
    // What is evaluated is heard.
    assert_eq!(hear(&mut node, Some("a"), 0.0, 512).timestamp_ms, 96);
}

#[test]
fn samples_are_counted_as_far_as_they_can_be() {
    let mut node = SileroVADNode::new(config());
    assert!(node.has_room(Some("a"), usize::MAX));
    hear(&mut node, Some("a"), 0.0, 1);
    assert!(!node.has_room(Some("a"), usize::MAX));
    assert!(node.has_room(Some("a"), usize::MAX - 1));
}

#[test]
fn a_new_state_is_empty() {
    let s = VADState::default();
    assert!(!s.triggered);
    assert_eq!((s.temp_end_samples, s.current_sample), (0, 0));
    assert_eq!(s.state, vec![b(0.0); 256]);
}

#[test]
fn the_report_as_an_object() {
    let mut node = SileroVADNode::new(config());
    let e = hear(&mut node, None, 0.75, 512);
    let v = object(&e);
    let members = v.as_object().unwrap();
    assert_eq!(members.len(), 9);
    assert_eq!(v["has_speech"], Value::from(true));
    assert_eq!(v["speech_probability"], Value::from(0.75));
    assert_eq!(v["is_speech_start"], Value::from(true));
    assert_eq!(v["is_speech_end"], Value::from(false));
    assert_eq!(v["timestamp_ms"], Value::from(32));
    assert_eq!(v["rms"], Value::from(0.25));
    assert_eq!(v["peak"], Value::from(0.25));
    assert_eq!(v["samples"], Value::from(512));
    assert_eq!(v["sample_rate"], Value::from(16000));
}

#[test]
fn what_is_read_is_what_was_written() {
    for p in [0.0f32, 0.1, 0.5, 0.75, 0.99999994, 1.0, 1e-45, -0.0] {
        let mut node = SileroVADNode::new(config());
        let e = hear(&mut node, None, p, 512);
        let r = VadReading::read(&object(&e));
        assert_eq!(
            r,
            VadReading {
                has_speech: e.has_speech,
                is_speech_start: e.is_speech_start,
                is_speech_end: e.is_speech_end,
                speech_probability: b(p),
            }
        );
    }
    // A probability that is not finite is written as null, and read as zero.
    for p in [f32::NAN, f32::INFINITY] {
        let mut node = SileroVADNode::new(config());
        let e = hear(&mut node, None, p, 512);
        assert_eq!(object(&e)["speech_probability"], Value::Null);
        assert_eq!(VadReading::read(&object(&e)).speech_probability, b(0.0));
    }
}

#[test]
fn what_a_report_lacks_is_false_or_zero() {
    let nothing = VadReading {
        has_speech: false,
        is_speech_start: false,
        is_speech_end: false,
        speech_probability: b(0.0),
    };
    assert_eq!(VadReading::read(&Value::Null), nothing);
    assert_eq!(VadReading::read(&Value::from(true)), nothing);
    assert_eq!(VadReading::read(&Value::Object(serde_json::Map::new())), nothing);
    // Members of another kind do not count.
    let mut map = serde_json::Map::new();
    map.insert("has_speech".to_string(), Value::from(1));
    map.insert("is_speech_start".to_string(), Value::from("true"));
    map.insert("is_speech_end".to_string(), Value::Null);
    map.insert("speech_probability".to_string(), Value::from("0.5"));
    assert_eq!(VadReading::read(&Value::Object(map)), nothing);
}

#[test]
fn numbers_are_read_with_all_their_digits_and_then_rounded() {
    for (value, want) in [
        (Value::from(1), 1.0f32),
        (Value::from(-3), -3.0),
        (Value::from(16_777_217u64), 16_777_216.0),
        (Value::from(0.1f64), 0.1),
        (Value::from(1e300), f32::INFINITY),
        (Value::from(u64::MAX), 18446744073709551616.0),
    ] {
        let mut map = serde_json::Map::new();
        map.insert("speech_probability".to_string(), value);
        assert_eq!(f(VadReading::read(&Value::Object(map)).speech_probability), want);
    }
}

#[test]
fn kinds_of_nodes() {
    assert_eq!(SileroVADNode::new(config()).node_type(), "SileroVADNode");
    assert_eq!(SileroVADNodeFactory.node_type(), "SileroVADNode");
}

#[test]
fn a_detector_is_made_from_settings_or_without() {
    let factory = SileroVADNodeFactory::default();
    assert_eq!(factory.create(None).config().sampling_rate, 16_000);
    let node = factory.create(Some(SileroVADConfig { sampling_rate: 8000, ..config() }));
    assert_eq!(node.config().sampling_rate, 8000);
}
