//! What a step comes to, told by what goes in and what comes out of it.

use serde_json::Value;
use vstd::prelude::*;

use crate::config::{SileroVADConfig, SpeculativeVADCoordinatorConfig};
use crate::coordinator;
use crate::coordinator::{
    Cancellation, CoordinatorModel, CoordinatorState, ForwardedAudio, SpeculativeVADCoordinator,
};
use crate::data::{AudioChunk, ControlMessageType};
use crate::error::{Error, Stage};
use crate::json;
use crate::json::{Member, VadReading};
use crate::laws;
use crate::laws::Chunk;
use crate::model;
use crate::model::{ModelEvent, Phase};
use crate::numbers::{Binary32, Binary64};
use crate::signal;
use crate::text;
use crate::turn::{Arrived, Known, Listening, Settling};
use crate::vad;
use crate::vad::{Heard, InferenceOutputs, SileroVADNode, VADState, VadEvent, VadModel};

verus! {

// The detector.

/// A probability at the threshold or above it is speech: speech has begun after the chunk,
/// with it unless it had begun before, and no silence is counted.
pub proof fn lemma_speech(
    config: SileroVADConfig,
    s: VadModel,
    probability: Binary32,
    mono: Seq<Binary32>,
    hidden: Seq<Binary32>,
)
    requires
        s.wf(),
        !probability.nan(),
        !config.threshold.nan(),
        probability.level() >= config.threshold.level(),
    ensures
        ({
            let after = s.after(config, probability, mono.len(), hidden);
            let event = s.event(config, mono, probability);
            &&& after.triggered
            &&& after.silence == 0
            &&& event.has_speech
            &&& event.is_speech_start == !s.triggered
            &&& !event.is_speech_end
            &&& s.starts(config, probability) == !s.triggered
            &&& !s.ends(config, probability, mono.len())
        }),
{
}

/// A probability below the threshold is no speech, and neither is what is not a number: it
/// begins nothing, and where no speech has begun nothing ends or is counted.
pub proof fn lemma_no_speech(
    config: SileroVADConfig,
    s: VadModel,
    probability: Binary32,
    mono: Seq<Binary32>,
    hidden: Seq<Binary32>,
)
    requires
        s.wf(),
        probability.nan() || config.threshold.nan() || probability.level()
            < config.threshold.level(),
    ensures
        ({
            let after = s.after(config, probability, mono.len(), hidden);
            let event = s.event(config, mono, probability);
            &&& !event.has_speech
            &&& !event.is_speech_start
            &&& !s.starts(config, probability)
            &&& !s.triggered ==> {
                &&& !after.triggered
                &&& after.silence == 0
                &&& !event.is_speech_end
                &&& !s.ends(config, probability, mono.len())
            }
        }),
{
}

/// In speech that has begun, a probability between the two thresholds counts as no silence:
/// speech goes on, and silence is counted anew.
pub proof fn lemma_between_thresholds(
    config: SileroVADConfig,
    s: VadModel,
    probability: Binary32,
    mono: Seq<Binary32>,
    hidden: Seq<Binary32>,
)
    requires
        s.wf(),
        s.triggered,
        !probability.nan(),
        !config.neg_threshold_in_force().nan(),
        config.neg_threshold_in_force().level() <= probability.level(),
        config.threshold.nan() || probability.level() < config.threshold.level(),
    ensures
        ({
            let after = s.after(config, probability, mono.len(), hidden);
            let event = s.event(config, mono, probability);
            &&& after.triggered
            &&& after.silence == 0
            &&& !event.is_speech_end
            &&& !s.ends(config, probability, mono.len())
        }),
{
}

/// In speech that has begun, a probability below the threshold of silence is silence, and
/// so is what is not a number: its samples are added to the silence, and speech ends once
/// that has lasted for the minimum.
pub proof fn lemma_silence(
    config: SileroVADConfig,
    s: VadModel,
    probability: Binary32,
    mono: Seq<Binary32>,
    hidden: Seq<Binary32>,
)
    requires
        s.wf(),
        s.triggered,
        probability.nan() || config.neg_threshold_in_force().nan() || probability.level()
            < config.neg_threshold_in_force().level(),
    ensures
        ({
            let after = s.after(config, probability, mono.len(), hidden);
            let event = s.event(config, mono, probability);
            let silence = s.silence + mono.len();
            let long = signal::whole_ms(silence, config.sampling_rate as nat)
                >= config.min_silence_duration_ms;
            &&& after.triggered == !long
            &&& after.silence == if long {
                0
            } else {
                silence
            }
            &&& event.is_speech_end == long
            &&& s.ends(config, probability, mono.len()) == long
        }),
{
    if !config.threshold.nan() {
        lemma_silence_threshold_is_a_number(config);
    }
}

proof fn lemma_silence_threshold_is_a_number(config: SileroVADConfig)
    requires
        !config.threshold.nan(),
    ensures
        !config.neg_threshold_in_force().nan(),
        config.neg_threshold_in_force().level() <= config.threshold.level(),
{
}

/// A threshold of silence that is set holds as it is set, unless it lies above the
/// threshold of speech, which then holds in its place. Where one of the two is not a number,
/// the other holds.
pub proof fn lemma_set_silence_threshold(config: SileroVADConfig, t: Binary32)
    requires
        config.neg_threshold == Some(t),
    ensures
        !t.nan() && !config.threshold.nan() && t.level() <= config.threshold.level()
            ==> config.neg_threshold_in_force() == t,
        !t.nan() && !config.threshold.nan() && t.level() > config.threshold.level()
            ==> config.neg_threshold_in_force() == config.threshold,
        t.nan() ==> config.neg_threshold_in_force() == config.threshold,
        config.threshold.nan() && !t.nan() ==> config.neg_threshold_in_force() == t,
{
}

/// Whatever a chunk holds, its samples are counted, and the hidden state that the model
/// left is the one that is kept.
pub proof fn lemma_chunk_is_counted(
    config: SileroVADConfig,
    s: VadModel,
    probability: Binary32,
    n: nat,
    hidden: Seq<Binary32>,
)
    ensures
        s.after(config, probability, n, hidden).position == s.position + n,
        s.after(config, probability, n, hidden).hidden == hidden,
{
}

/// The report tells the probability, the time at the end of the chunk, its level, and how
/// many samples of which rate there were.
pub proof fn lemma_report_tells(
    config: SileroVADConfig,
    s: VadModel,
    mono: Seq<Binary32>,
    probability: Binary32,
)
    requires
        s.position + mono.len() <= usize::MAX,
    ensures
        ({
            let event = s.event(config, mono, probability);
            &&& event.speech_probability == probability
            &&& event.timestamp_ms == signal::timestamp_ms(
                s.position + mono.len(),
                config.sampling_rate as nat,
            )
            &&& event.rms == signal::rms(mono)
            &&& event.peak == signal::peak(mono)
            &&& event.samples == mono.len()
            &&& event.sample_rate == config.sampling_rate
        }),
{
    signal::lemma_timestamp_fits(s.position + mono.len(), config.sampling_rate as nat);
}

/// Of a new session nothing was heard, and its hidden state is zero throughout.
pub proof fn lemma_new_session()
    ensures
        ({
            let s = VadModel::fresh();
            &&& !s.triggered
            &&& s.silence == 0
            &&& s.position == 0
            &&& s.hidden.len() == 256
            &&& forall|i: int| 0 <= i < 256 ==> (#[trigger] s.hidden[i]).bits == 0
        }),
{
}

/// What a state holds is what is known of the session.
pub proof fn lemma_detector_state(s: VADState)
    ensures
        s@.triggered == s.triggered,
        s@.silence == s.temp_end_samples,
        s@.position == s.current_sample,
        s@.hidden == s.state@,
{
}

/// A chunk on which the model was run: its session is there afterwards, with all that was
/// known of it taken on, and the next run of that session is on the hidden state that this
/// one left. The probability is the first number that the model gave.
pub proof fn lemma_heard_chunk(
    config: SileroVADConfig,
    sessions: Map<Seq<char>, VadModel>,
    key: Seq<char>,
    mono: Seq<Binary32>,
    out: InferenceOutputs,
)
    ensures
        ({
            let r = vad::listened(config, sessions, key, mono, Ok(out));
            let before = if sessions.contains_key(key) {
                sessions[key]
            } else {
                VadModel::fresh()
            };
            &&& r.1 matches Ok(event)
            &&& event == before.event(config, mono, out.output@[0])
            &&& event.speech_probability == out.output@[0]
            &&& r.0.dom() == sessions.dom().insert(key)
            &&& r.0[key] == before.after(config, out.output@[0], mono.len(), out.state@)
            &&& r.0[key].position == before.position + mono.len()
            &&& r.0[key].hidden == out.state@
            &&& vad::opened(r.0, key)[key].hidden == out.state@
            &&& vad::opened(r.0, key) == r.0
        }),
{
    assert(vad::listened(config, sessions, key, mono, Ok(out)).0.dom() =~= sessions.dom().insert(
        key,
    ));
}

/// A chunk on which the model failed: the failure is all there is to report, and the
/// session is there with what was known of it.
pub proof fn lemma_unheard_chunk(
    config: SileroVADConfig,
    sessions: Map<Seq<char>, VadModel>,
    key: Seq<char>,
    mono: Seq<Binary32>,
    error: Error,
)
    ensures
        ({
            let r = vad::listened(config, sessions, key, mono, Err(error));
            &&& r.1 == Err::<VadEvent, Error>(error)
            &&& r.0.dom() == sessions.dom().insert(key)
            &&& r.0[key] == if sessions.contains_key(key) {
                sessions[key]
            } else {
                VadModel::fresh()
            }
        }),
{
    assert(vad::listened(config, sessions, key, mono, Err(error)).0.dom()
        =~= sessions.dom().insert(key));
}

/// A session that is not named is the one named "default".
pub proof fn lemma_session_keys(id: &str)
    ensures
        vad::session_key(Some(id)) == id@,
        vad::session_key(None) == "default"@,
{
}

/// What is heard of a chunk is its resampled samples, mixed down where there are many
/// channels.
pub proof fn lemma_heard_channel(config: SileroVADConfig, chunk: AudioChunk)
    ensures
        ({
            let s = signal::resampled(
                chunk.samples@,
                chunk.sample_rate as nat,
                config.sampling_rate as nat,
            );
            vad::mono_of(config, chunk) == if chunk.channels >= 2 {
                signal::downmix(s, chunk.channels as nat)
            } else {
                s
            }
        }),
{
}

/// Over any chunks of a session: after one on which the model was run, the hidden state is
/// the one that this run left.
pub proof fn lemma_hidden_state_is_carried(
    config: SileroVADConfig,
    s: VadModel,
    chunks: Seq<Chunk>,
    failed: Seq<Chunk>,
)
    requires
        chunks.len() > 0,
        chunks.last().run is Some,
        forall|i: int| 0 <= i < failed.len() ==> (#[trigger] failed[i]).run is None,
    ensures
        s.after_all(config, chunks + failed).hidden == chunks.last().run->0.hidden,
    decreases failed.len(),
{
    let all = chunks + failed;
    if failed.len() == 0 {
        assert(all =~= chunks);
    } else {
        let t = failed.drop_last();
        assert(all.drop_last() =~= chunks + t);
        assert(all.last() == failed[failed.len() - 1]);
        assert forall|i: int| 0 <= i < t.len() implies (#[trigger] t[i]).run is None by {
            assert(t[i] == failed[i]);
        }
        lemma_hidden_state_is_carried(config, s, chunks, t);
    }
}

/// Over any chunks of a session that the model was run on last, the report of the last one
/// tells the time of all samples that were heard.
pub proof fn lemma_reported_time(config: SileroVADConfig, chunks: Seq<Chunk>)
    requires
        laws::well_sized(chunks),
        chunks.len() > 0,
        chunks.last().run is Some,
        laws::total(chunks) <= usize::MAX,
    ensures
        ({
            let c = chunks.last();
            let before = VadModel::fresh().after_all(config, chunks.drop_last());
            before.event(config, c.mono, c.run->0.probability).timestamp_ms
                == signal::timestamp_ms(laws::total(chunks), config.sampling_rate as nat)
        }),
{
    let c = chunks.last();
    let t = chunks.drop_last();
    laws::lemma_well_sized_prefix(chunks);
    laws::lemma_starts_and_ends_alternate(config, t);
    lemma_report_tells(
        config,
        VadModel::fresh().after_all(config, t),
        c.mono,
        c.run->0.probability,
    );
}

/// What the model gives is of use if there is a probability in it, and a hidden state of
/// the size that there was.
pub proof fn lemma_useful_outputs(out: InferenceOutputs)
    ensures
        out.wf() == (out.output@.len() >= 1 && out.state@.len() == 256),
{
}

/// There is room for samples as long as all samples of the session can be counted.
pub proof fn lemma_room(node: SileroVADNode, id: Option<&str>, n: nat)
    ensures
        ({
            let key = vad::session_key(id);
            let heard = if node.sessions().contains_key(key) {
                node.sessions()[key].position
            } else {
                0
            };
            node.has_room_for(id, n) == (heard + n <= usize::MAX)
        }),
{
}

/// Audio, or its failure, is taken in wherever there is room for it.
pub proof fn lemma_accepted(node: SileroVADNode, heard: Heard, id: Option<&str>)
    ensures
        node.accepts(None, id),
        heard.outcome is Err ==> node.accepts(Some(heard), id),
        heard.outcome matches Ok(out) ==> node.accepts(Some(heard), id) == (out.wf()
            && node.has_room_for(id, heard.mono@.len())),
{
}

/// A chunk can be brought to another rate if no sample of it would lie behind the last one
/// that there is, and memory for them can be asked for.
pub proof fn lemma_can_be_resampled(len: nat, from: nat, to: nat)
    ensures
        from == to ==> signal::resamples(len, from, to),
        from != to ==> (signal::resamples(len, from, to) <==> {
            let n = signal::resampled_len(len, from, to);
            4 * n <= isize::MAX && forall|i: nat|
                i < n ==> #[trigger] signal::source_index(i, from, to) < len
        }),
{
}

// The coordinator.

/// Speech whose end is heard of, and whose begin was heard of before: if it lasted for less
/// than the minimum it is taken back, and only then; otherwise it is accepted and nothing
/// of it is kept any longer.
pub proof fn lemma_end_of_speech(
    config: SpeculativeVADCoordinatorConfig,
    s: CoordinatorModel,
    reading: VadReading,
    n: nat,
    start: nat,
)
    requires
        s.wf(),
        reading.is_speech_end,
        !reading.is_speech_start,
        s.speech_start == Some(start),
    ensures
        ({
            let after = s.after(config, reading, n);
            let short = signal::whole_ms((s.position - start) as nat, config.sample_rate as nat)
                < config.min_speech_duration_ms;
            &&& s.cancels(config, reading) == short
            &&& s.accepts(config, reading) == !short
            &&& s.ended(reading) == Some(start)
            &&& after.cancelled == s.cancelled + if short {
                1nat
            } else {
                0
            }
            &&& after.segments == s.segments + if short {
                1nat
            } else {
                0
            }
            &&& after.accepted == s.accepted + if short {
                0nat
            } else {
                1
            }
            &&& after.kept == if short {
                s.kept
            } else {
                Seq::empty()
            }
            &&& after.speech_start is None
            &&& !after.triggered
            &&& after.silence == 0
        }),
{
}

/// Speech that a report both begins and ends lasted for no time at all.
pub proof fn lemma_begin_and_end_at_once(
    config: SpeculativeVADCoordinatorConfig,
    s: CoordinatorModel,
    reading: VadReading,
    n: nat,
)
    requires
        s.wf(),
        reading.is_speech_end,
        reading.is_speech_start,
    ensures
        ({
            let after = s.after(config, reading, n);
            let short = signal::whole_ms(0, config.sample_rate as nat)
                < config.min_speech_duration_ms;
            &&& s.cancels(config, reading) == short
            &&& s.ended(reading) == Some(s.position)
            &&& after.cancelled == s.cancelled + if short {
                1nat
            } else {
                0
            }
            &&& after.accepted == s.accepted + if short {
                0nat
            } else {
                1
            }
            &&& after.speech_start is None
            &&& !after.triggered
        }),
{
}

/// An end of speech of which no begin was heard settles nothing.
pub proof fn lemma_end_of_nothing(
    config: SpeculativeVADCoordinatorConfig,
    s: CoordinatorModel,
    reading: VadReading,
    n: nat,
)
    requires
        s.wf(),
        reading.is_speech_end,
        !reading.is_speech_start,
        s.speech_start is None,
    ensures
        !s.cancels(config, reading),
        s.after(config, reading, n) == (CoordinatorModel { position: s.position + n, ..s }),
{
}

/// A begin of speech is remembered as the samples that came before its chunk, and settles
/// nothing.
pub proof fn lemma_begin_of_speech(
    config: SpeculativeVADCoordinatorConfig,
    s: CoordinatorModel,
    reading: VadReading,
    n: nat,
)
    requires
        s.wf(),
        reading.is_speech_start,
        !reading.is_speech_end,
    ensures
        !s.cancels(config, reading),
        s.after(config, reading, n) == (CoordinatorModel {
            speech_start: Some(s.position),
            triggered: true,
            silence: if reading.has_speech {
                0
            } else {
                n
            },
            position: s.position + n,
            ..s
        }),
{
}

/// A report without begin or end settles nothing; where speech has begun, what is no speech
/// counts as silence.
pub proof fn lemma_middle_of_speech(
    config: SpeculativeVADCoordinatorConfig,
    s: CoordinatorModel,
    reading: VadReading,
    n: nat,
)
    requires
        s.wf(),
        !reading.is_speech_start,
        !reading.is_speech_end,
    ensures
        !s.cancels(config, reading),
        s.after(config, reading, n) == (CoordinatorModel {
            silence: if s.triggered && !reading.has_speech {
                s.silence + n
            } else {
                0
            },
            position: s.position + n,
            ..s
        }),
{
}

/// A chunk without a report is counted, and changes nothing else.
pub proof fn lemma_unreported_chunk(s: CoordinatorModel, n: nat)
    ensures
        s.passed(n) == (CoordinatorModel { position: s.position + n, ..s }),
{
}

/// Speech has lasted for the time of the samples since its begin.
pub proof fn lemma_lasting(
    config: SpeculativeVADCoordinatorConfig,
    s: CoordinatorModel,
    start: nat,
)
    requires
        start <= s.position,
    ensures
        s.lasted_ms(config, start) == signal::whole_ms(
            (s.position - start) as nat,
            config.sample_rate as nat,
        ),
{
}

/// A session can count a chunk as long as its samples and what was settled can be counted.
pub proof fn lemma_can_count(s: CoordinatorModel, n: nat)
    ensures
        s.can_count(n) == (s.position + n <= usize::MAX && s.accepted + s.cancelled < u64::MAX),
{
}

/// A chunk that has arrived fits if it can be resampled and has a session or can get one;
/// one that is listened to or settled, if its session can count it.
pub proof fn lemma_fitting(
    c: SpeculativeVADCoordinator,
    arrived: Arrived,
    listening: Listening,
    settling: Settling,
)
    ensures
        arrived.fits(c) == (signal::resamples(
            arrived.chunk.samples@.len(),
            arrived.chunk.sample_rate as nat,
            c.detector().settings().sampling_rate as nat,
        ) && (c.ledger().contains_key(arrived.session@) || c.settings().has_lookback())),
        listening.fits(c) == (c.ledger().contains_key(listening.session@)
            && c.ledger()[listening.session@].can_count(listening.samples as nat)),
        settling.fits(c) == (c.ledger().contains_key(settling.session@)
            && c.ledger()[settling.session@].can_count(settling.samples as nat)),
{
}

/// The detector of a coordinator has room for a chunk as long as it can count its samples.
pub proof fn lemma_detector_room(c: SpeculativeVADCoordinator, session: Seq<char>, n: nat)
    ensures
        ({
            let key = session + seq!['_', 'v', 'a', 'd'];
            let heard = if c.detector().sessions().contains_key(key) {
                c.detector().sessions()[key].position
            } else {
                0
            };
            c.detector_has_room_for(session, n) == (heard + n <= usize::MAX)
        }),
{
    lemma_detector_session_name(session);
}

/// Of a new session nothing is known, and as much of it is kept as it is made for.
pub proof fn lemma_new_ledger(capacity: nat)
    ensures
        ({
            let s = CoordinatorModel::fresh(capacity);
            &&& s.kept.len() == 0
            &&& s.capacity == capacity
            &&& s.speech_start is None
            &&& s.position == 0
            &&& s.segments == 0
            &&& s.accepted == 0
            &&& s.cancelled == 0
            &&& !s.triggered
            &&& s.silence == 0
        }),
{
}

/// What a state holds is what is known of the session.
pub proof fn lemma_coordinator_state(s: CoordinatorState)
    ensures
        s@.kept == s.audio_buffer@,
        s@.capacity == s.buffer_capacity,
        s@.speech_start is Some <==> s.speech_start_sample is Some,
        s.speech_start_sample matches Some(start) ==> s@.speech_start == Some(start as nat),
        s@.position == s.current_sample,
        s@.segments == s.segment_counter,
        s@.accepted == s.speculations_accepted,
        s@.cancelled == s.speculations_cancelled,
        s@.triggered == s.speech_triggered,
        s@.silence == s.silence_samples,
{
}

/// Of what was kept and what came, the newest samples are kept, in their order: as many as
/// there is room for, which is at least one, and all of them where there is room. Nothing
/// else changes.
pub proof fn lemma_newest_are_kept(s: CoordinatorModel, samples: Seq<Binary32>)
    requires
        s.wf(),
    ensures
        ({
            let after = s.keeping(samples);
            let all = s.kept.len() + samples.len();
            let room = if s.capacity == 0 {
                1
            } else {
                s.capacity
            };
            &&& after.kept.len() == if all <= room {
                all
            } else {
                room
            }
            &&& forall|i: int|
                0 <= i < after.kept.len() ==> #[trigger] after.kept[i] == {
                    let at = i + all - after.kept.len();
                    if at < s.kept.len() {
                        s.kept[at]
                    } else {
                        samples[at - s.kept.len()]
                    }
                }
            &&& after == (CoordinatorModel { kept: after.kept, ..s })
        }),
{
}

/// What is taken back names its stretch in samples, its segment, when it was taken back,
/// why, for how long it lasted and had to last, and how likely it was speech.
pub proof fn lemma_cancellation_tells(
    config: SpeculativeVADCoordinatorConfig,
    s: CoordinatorModel,
    session: Seq<char>,
    reading: VadReading,
    now_ms: u64,
    x: Cancellation,
)
    requires
        s.wf(),
        s.position <= u64::MAX,
        s.is_cancellation(config, session, reading, now_ms, x),
    ensures
        ({
            let start = if reading.is_speech_start {
                Some(s.position)
            } else {
                s.speech_start
            };
            &&& reading.is_speech_end
            &&& start matches Some(from)
            &&& x.message_type matches ControlMessageType::CancelSpeculation {
                from_timestamp,
                to_timestamp,
            }
            &&& from_timestamp == from
            &&& to_timestamp == s.position
            &&& x.segment_id@ == session + seq!['_'] + text::decimal(s.segments)
            &&& x.timestamp_ms == now_ms
            &&& x.reason@ == "speech_too_short"@
            &&& x.duration_ms == signal::whole_ms(
                (s.position - from) as nat,
                config.sample_rate as nat,
            )
            &&& x.min_required_ms == config.min_speech_duration_ms
            &&& x.vad_confidence == reading.speech_probability
        }),
{
    reveal_strlit("_");
    assert("_"@ =~= seq!['_']);
}

/// Over any chunks of a session: the last one, if its report ends speech, takes the speech
/// back exactly if there are fewer milliseconds than the minimum between the samples before
/// the latest begin and the samples before this chunk.
pub proof fn lemma_short_speech_is_taken_back(
    settings: SpeculativeVADCoordinatorConfig,
    config: SileroVADConfig,
    capacity: nat,
    chunks: Seq<Chunk>,
)
    requires
        laws::well_sized(chunks),
        chunks.len() > 0,
        chunks.last().ends(
            config,
            VadModel::fresh().after_all(config, chunks.drop_last()),
        ),
    ensures
        ({
            let d = VadModel::fresh();
            let t = chunks.drop_last();
            let fresh = CoordinatorModel::fresh(capacity);
            let before = fresh.after_all(settings, config, d, t).keeping(chunks.last().samples);
            let after = fresh.after_all(settings, config, d, chunks);
            &&& chunks.last().reading(config, d.after_all(config, t)) matches Some(reading)
            &&& d.latest_start(config, t) matches Some(start)
            &&& start <= laws::seen(t)
            &&& {
                let short = signal::whole_ms(
                    (laws::seen(t) - start) as nat,
                    settings.sample_rate as nat,
                ) < settings.min_speech_duration_ms;
                &&& before.cancels(settings, reading) == short
                &&& after.cancelled == before.cancelled + if short {
                    1nat
                } else {
                    0
                }
                &&& after.accepted == before.accepted + if short {
                    0nat
                } else {
                    1
                }
            }
        }),
{
    let d = VadModel::fresh();
    let t = chunks.drop_last();
    let c = chunks.last();
    laws::lemma_well_sized_prefix(chunks);
    laws::lemma_each_speech_is_settled(settings, config, capacity, t);
    laws::lemma_starts_and_ends_alternate(config, t);
    let before = CoordinatorModel::fresh(capacity).after_all(settings, config, d, t).keeping(
        c.samples,
    );
    let reading = c.reading(config, d.after_all(config, t))->0;
    lemma_end_of_speech(
        settings,
        before,
        reading,
        c.samples.len(),
        before.speech_start->0,
    );
}

/// A chunk that is forwarded opens its session where there is none, keeps its samples and
/// counts nothing yet; the detector has the session, and has heard no more of it.
pub proof fn lemma_forwarding(
    settings: SpeculativeVADCoordinatorConfig,
    known: Known,
    session: Seq<char>,
    samples: Seq<Binary32>,
)
    ensures
        ({
            let after = known.forwarded(settings, session, samples);
            let c = if known.ledger.contains_key(session) {
                known.ledger[session]
            } else {
                CoordinatorModel::fresh(settings.lookback_samples())
            };
            let key = session + seq!['_', 'v', 'a', 'd'];
            &&& after.ledger == known.ledger.insert(session, c.keeping(samples))
            &&& after.detector == if known.detector.contains_key(key) {
                known.detector
            } else {
                known.detector.insert(key, VadModel::fresh())
            }
        }),
{
    lemma_detector_session_name(session);
    let ledger = coordinator::opened(settings, known.ledger, session);
    assert(ledger.insert(session, ledger[session].keeping(samples)) =~= known.ledger.insert(
        session,
        ledger[session].keeping(samples),
    ));
}

/// After the model was run, its report is there, the detector has heard the chunk and the
/// ledger waits for the report. After a failure, the chunk is counted and nothing else
/// changes.
pub proof fn lemma_running(
    config: SileroVADConfig,
    known: Known,
    session: Seq<char>,
    n: nat,
    mono: Seq<Binary32>,
    outcome: Result<InferenceOutputs, Error>,
)
    requires
        known.ledger.contains_key(session),
        known.detector.contains_key(session + seq!['_', 'v', 'a', 'd']),
    ensures
        ({
            let after = known.ran(config, session, n, mono, outcome);
            let report = known.report(config, session, mono, outcome);
            let key = session + seq!['_', 'v', 'a', 'd'];
            let d = known.detector[key];
            let c = known.ledger[session];
            match outcome {
                Ok(out) => {
                    &&& report == Ok::<VadEvent, Error>(d.event(config, mono, out.output@[0]))
                    &&& after.ledger == known.ledger
                    &&& after.detector == known.detector.insert(
                        key,
                        d.after(config, out.output@[0], mono.len(), out.state@),
                    )
                    &&& after.detector[key].hidden == out.state@
                },
                Err(e) => {
                    &&& report == Err::<VadEvent, Error>(e)
                    &&& after.ledger == known.ledger.insert(
                        session,
                        CoordinatorModel { position: c.position + n, ..c },
                    )
                    &&& after.detector == known.detector
                },
            }
        }),
{
    lemma_detector_session_name(session);
}

/// After its report was read, the session is settled; the detector stays as it was.
pub proof fn lemma_describing(
    settings: SpeculativeVADCoordinatorConfig,
    known: Known,
    session: Seq<char>,
    reading: VadReading,
    n: nat,
)
    requires
        known.ledger.contains_key(session),
    ensures
        ({
            let after = known.described(settings, session, reading, n);
            let c = known.ledger[session];
            &&& after.ledger == known.ledger.insert(session, c.after(settings, reading, n))
            &&& after.ledger[session].position == c.position + n
            &&& after.detector == known.detector
        }),
{
}

/// What is known of all sessions is what the ledger and the detector hold.
pub proof fn lemma_known(c: SpeculativeVADCoordinator)
    ensures
        c.known().ledger == c.ledger(),
        c.known().detector == c.detector().sessions(),
{
}

/// The detector keeps a session of the coordinator under its name with `_vad` behind it.
pub proof fn lemma_detector_session_name(session: Seq<char>)
    ensures
        coordinator::detector_session(session) == session + seq!['_', 'v', 'a', 'd'],
{
    reveal_strlit("_vad");
    assert("_vad"@ =~= seq!['_', 'v', 'a', 'd']);
}

/// A segment is named after its session and its number.
pub proof fn lemma_segment_name(session: Seq<char>, n: nat)
    ensures
        coordinator::segment_name(session, n) == session + seq!['_'] + text::decimal(n),
{
    reveal_strlit("_");
    assert("_"@ =~= seq!['_']);
}

/// The number that decimal digits stand for.
pub open spec fn read_digits(s: Seq<char>) -> nat
    decreases s.len(),
{
    if s.len() == 0 {
        0
    } else {
        10 * read_digits(s.drop_last()) + (s.last() as nat - '0' as nat) as nat
    }
}

/// A numeral is made of digits, stands for its number, and has no zero in front but that
/// of zero itself.
pub proof fn lemma_numeral(n: nat)
    ensures
        ({
            let s = text::decimal(n);
            &&& s.len() > 0
            &&& forall|i: int| 0 <= i < s.len() ==> '0' <= #[trigger] s[i] <= '9'
            &&& read_digits(s) == n
            &&& s[0] == '0' ==> n == 0 && s.len() == 1
        }),
    decreases n,
{
    let s = text::decimal(n);
    if n < 10 {
        assert(s.drop_last() =~= Seq::empty());
        assert(read_digits(s.drop_last()) == 0);
        assert(s.last() == text::digit(n));
    } else {
        let t = text::decimal(n / 10);
        lemma_numeral(n / 10);
        assert(s.drop_last() =~= t);
        assert(s.last() == text::digit(n % 10));
        assert(s[0] == t[0]);
        assert forall|i: int| 0 <= i < s.len() implies '0' <= #[trigger] s[i] <= '9' by {
            if i < t.len() {
                assert(s[i] == t[i]);
            }
        }
    }
}

/// Audio goes on with the samples, the rate and the channels that it came with, and with
/// nothing else.
pub proof fn lemma_forwarded_audio(out: ForwardedAudio, chunk: AudioChunk)
    requires
        out.is_forwarded(chunk),
    ensures
        out.samples@ == chunk.samples@,
        out.sample_rate == chunk.sample_rate,
        out.channels == chunk.channels,
        out.stream_id is None,
        out.timestamp_us is None,
        out.arrival_ts_us is None,
        out.metadata is None,
{
}

/// The detector of a coordinator has the settings of the coordinator, looks for the model
/// where it is looked for by default, and has no threshold of silence of its own.
pub proof fn lemma_detector_settings(
    config: SpeculativeVADCoordinatorConfig,
    d: SileroVADConfig,
)
    requires
        coordinator::is_detector_config(config, d),
    ensures
        d.model_path is None,
        d.threshold == config.vad_threshold,
        d.neg_threshold is None,
        d.sampling_rate == config.sample_rate,
        d.min_speech_duration_ms == config.min_speech_duration_ms,
        d.min_silence_duration_ms == config.min_silence_duration_ms,
        d.speech_pad_ms == config.speech_pad_ms,
{
}

/// The lookback takes the samples of its time, at as many whole samples a millisecond as
/// the rate has.
pub proof fn lemma_lookback(config: SpeculativeVADCoordinatorConfig, per_ms: nat)
    requires
        per_ms * 1000 <= config.sample_rate < (per_ms + 1) * 1000,
    ensures
        config.lookback_samples() == config.lookback_ms * per_ms,
        config.has_lookback() == (config.lookback_ms * per_ms <= u32::MAX && 4 * (
        config.lookback_ms * per_ms) <= isize::MAX),
{
}

/// The settings that hold where nothing is said.
pub proof fn lemma_default_settings(
    c: SileroVADConfig,
    s: SpeculativeVADCoordinatorConfig,
)
    ensures
        c.is_default() <==> {
            &&& c.model_path is None
            &&& c.threshold.bits == 0x3f00_0000
            &&& c.neg_threshold is None
            &&& c.sampling_rate == 16_000
            &&& c.min_speech_duration_ms == 250
            &&& c.min_silence_duration_ms == 100
            &&& c.speech_pad_ms == 30
        },
        s.is_default() <==> {
            &&& s.vad_threshold.bits == 0x3f00_0000
            &&& s.sample_rate == 16_000
            &&& s.min_speech_duration_ms == 250
            &&& s.min_silence_duration_ms == 100
            &&& s.lookback_ms == 150
            &&& s.speech_pad_ms == 30
        },
{
}

// Reports.

/// The object of a report has nine members, each under its name.
pub proof fn lemma_report_members(e: VadEvent)
    ensures
        ({
            let o = e.object();
            &&& o.len() == 9
            &&& o.contains(("has_speech"@, Member::Flag(e.has_speech)))
            &&& o.contains(("speech_probability"@, Member::Number(e.speech_probability)))
            &&& o.contains(("is_speech_start"@, Member::Flag(e.is_speech_start)))
            &&& o.contains(("is_speech_end"@, Member::Flag(e.is_speech_end)))
            &&& o.contains(("timestamp_ms"@, Member::Count(e.timestamp_ms)))
            &&& o.contains(("rms"@, Member::Number(e.rms)))
            &&& o.contains(("peak"@, Member::Number(e.peak)))
            &&& o.contains(("samples"@, Member::Count(e.samples as u64)))
            &&& o.contains(("sample_rate"@, Member::Count(e.sample_rate as u64)))
        }),
{
    let o = e.object();
    assert(o[0] == ("has_speech"@, Member::Flag(e.has_speech)));
    assert(o[1] == ("speech_probability"@, Member::Number(e.speech_probability)));
    assert(o[2] == ("is_speech_start"@, Member::Flag(e.is_speech_start)));
    assert(o[3] == ("is_speech_end"@, Member::Flag(e.is_speech_end)));
    assert(o[4] == ("timestamp_ms"@, Member::Count(e.timestamp_ms)));
    assert(o[5] == ("rms"@, Member::Number(e.rms)));
    assert(o[6] == ("peak"@, Member::Number(e.peak)));
    assert(o[7] == ("samples"@, Member::Count(e.samples as u64)));
    assert(o[8] == ("sample_rate"@, Member::Count(e.sample_rate as u64)));
}

/// The metadata of what is taken back has four members, each under its name.
pub proof fn lemma_metadata_members(x: Cancellation)
    ensures
        ({
            let o = x.object();
            &&& o.len() == 4
            &&& o.contains(("reason"@, Member::Text(x.reason)))
            &&& o.contains(("duration_ms"@, Member::Count(x.duration_ms as u64)))
            &&& o.contains(("min_required_ms"@, Member::Count(x.min_required_ms as u64)))
            &&& o.contains(("vad_confidence"@, Member::Number(x.vad_confidence)))
        }),
{
    let o = x.object();
    assert(o[0] == ("reason"@, Member::Text(x.reason)));
    assert(o[1] == ("duration_ms"@, Member::Count(x.duration_ms as u64)));
    assert(o[2] == ("min_required_ms"@, Member::Count(x.min_required_ms as u64)));
    assert(o[3] == ("vad_confidence"@, Member::Number(x.vad_confidence)));
}

/// Members that are listed keep their names and values.
pub proof fn lemma_named(members: Seq<(&'static str, Member)>)
    ensures
        json::named(members).len() == members.len(),
        forall|i: int|
            0 <= i < members.len() ==> {
                &&& (#[trigger] json::named(members)[i]).0 == members[i].0@
                &&& json::named(members)[i].1 == members[i].1
            },
{
}

/// A flag is read as it stands in the report, and as false where it does not stand there;
/// the probability is read as the nearest number to the one that stands there, and as zero
/// where none does.
pub proof fn lemma_reading(value: Value)
    ensures
        ({
            let r = VadReading::of(value);
            let b = json::boolean_members(value);
            let n = json::number_members(value);
            &&& r.has_speech == (b.contains_key("has_speech"@) && b["has_speech"@])
            &&& r.is_speech_start == (b.contains_key("is_speech_start"@)
                && b["is_speech_start"@])
            &&& r.is_speech_end == (b.contains_key("is_speech_end"@) && b["is_speech_end"@])
            &&& n.contains_key("speech_probability"@) ==> r.speech_probability == (Binary64 {
                bits: n["speech_probability"@],
            }).narrowed()
            &&& !n.contains_key("speech_probability"@) ==> r.speech_probability.bits == 0
        }),
{
    crate::numbers::lemma_zero_narrows_to_zero();
}

// The model.

/// A file that is there is loaded; one that is not is fetched, read, saved and then loaded.
pub proof fn lemma_way_to_the_model(status: String)
    ensures
        Phase::Probe.next(ModelEvent::Found(true)) == Phase::Load,
        Phase::Probe.next(ModelEvent::Found(false)) == Phase::Fetch,
        Phase::Fetch.next(ModelEvent::Answered { success: true, status }) == Phase::ReadBody,
        Phase::ReadBody.next(ModelEvent::Done) == Phase::Save,
        Phase::Save.next(ModelEvent::Done) == Phase::Load,
        Phase::Load.next(ModelEvent::Done) == Phase::Ready,
{
}

/// What was not asked for changes nothing, and neither does a failure.
pub proof fn lemma_unasked_events(
    phase: Phase,
    found: bool,
    success: bool,
    status: String,
    stage: Stage,
)
    ensures
        phase != Phase::Probe ==> phase.next(ModelEvent::Found(found)) == phase,
        phase != Phase::Fetch ==> phase.next(ModelEvent::Answered { success, status }) == phase,
        phase != Phase::Fetch ==> phase.report(ModelEvent::Answered { success, status }) is None,
        phase == Phase::Probe || phase == Phase::Fetch || phase == Phase::Ready ==> phase.next(
            ModelEvent::Done,
        ) == phase,
        phase.next(ModelEvent::Failed(stage, status)) == phase,
{
}

/// The text of a failure is the one that it was made with.
pub proof fn lemma_failure_text(text: String)
    ensures
        Error::Execution(text).text() == text@,
{
}

/// Every failure is reported, whatever was to be done, and so is an answer without success;
/// of what was done or found nothing is reported.
pub proof fn lemma_failures_are_reported(
    phase: Phase,
    stage: Stage,
    detail: String,
    found: bool,
)
    ensures
        phase.report(ModelEvent::Failed(stage, detail)) == Some(stage.prefix() + detail@),
        Phase::Fetch.report(ModelEvent::Answered { success: false, status: detail }) == Some(
            "download failed: HTTP "@ + detail@,
        ),
        Phase::Fetch.report(ModelEvent::Answered { success: true, status: detail }) is None,
        phase.report(ModelEvent::Done) is None,
        phase.report(ModelEvent::Found(found)) is None,
{
}

/// What stands before the detail of a failure.
pub proof fn lemma_prefixes()
    ensures
        Stage::HttpClient.prefix() == "HTTP client: "@,
        Stage::Download.prefix() == "download: "@,
        Stage::DownloadStatus.prefix() == "download failed: HTTP "@,
        Stage::ReadBody.prefix() == "read body: "@,
        Stage::SaveModel.prefix() == "save model: "@,
        Stage::RuntimeBuilder.prefix() == "ort builder: "@,
        Stage::ExecutionProvider.prefix() == "ort EP: "@,
        Stage::LoadModel.prefix() == "ort load: "@,
        Stage::InputTensor.prefix() == "ort input tensor: "@,
        Stage::StateTensor.prefix() == "ort state tensor: "@,
        Stage::RateTensor.prefix() == "ort sr tensor: "@,
        Stage::Run.prefix() == "ort run: "@,
        Stage::ExtractOutput.prefix() == "ort extract output: "@,
        Stage::ExtractState.prefix() == "ort extract stateN: "@,
        Stage::TokioRuntime.prefix() == "No active tokio runtime thread: "@,
{
}

/// The model is looked for where the settings say, or under its own name.
pub proof fn lemma_model_file(config: SileroVADConfig)
    ensures
        config.model_path matches Some(path) ==> model::model_file(config) == path@,
        config.model_path is None ==> model::model_file(config) == "silero_vad.onnx"@,
{
}

} // verus!
