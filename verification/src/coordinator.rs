//! The coordinator: it forwards audio before it is known to be speech, and takes back what
//! turns out to be too short.

use std::collections::VecDeque;

use serde_json::Value;
use vstd::prelude::*;

use crate::config::{SileroVADConfig, SpeculativeVADCoordinatorConfig};
use crate::data::{AudioChunk, ControlMessageType, MediaInput};
use crate::error::Error;
use crate::json;
use crate::json::{Member, VadReading};
use crate::numbers::{Binary32, Binary64};
use crate::sessions::SessionTable;
use crate::signal;
use crate::text;
use crate::vad;
use crate::vad::{Emission, Heard, InferenceInputs, SileroVADNode, VadEvent, VadModel};

verus! {

/// What is known of a session.
#[verifier::ext_equal]
pub struct CoordinatorModel {
    /// The last samples, for as long as the speech they may belong to is not confirmed.
    pub kept: Seq<Binary32>,
    /// How many samples are kept.
    pub capacity: nat,
    /// Where the speech that has not ended began.
    pub speech_start: Option<nat>,
    /// Samples seen.
    pub position: nat,
    /// Segments named so far.
    pub segments: nat,
    pub accepted: nat,
    pub cancelled: nat,
    pub triggered: bool,
    /// Samples without speech since speech was last heard.
    pub silence: nat,
}

/// The last `n` items.
pub open spec fn last_of<T>(s: Seq<T>, n: nat) -> Seq<T> {
    if s.len() <= n {
        s
    } else {
        s.subrange(s.len() - n, s.len() as int)
    }
}

impl CoordinatorModel {
    pub open spec fn fresh(capacity: nat) -> CoordinatorModel {
        CoordinatorModel {
            kept: Seq::empty(),
            capacity,
            speech_start: None,
            position: 0,
            segments: 0,
            accepted: 0,
            cancelled: 0,
            triggered: false,
            silence: 0,
        }
    }

    /// How many samples there is room for: the newest one is always kept.
    pub open spec fn room(self) -> nat {
        if self.capacity == 0 {
            1
        } else {
            self.capacity
        }
    }

    pub open spec fn wf(self) -> bool {
        &&& self.kept.len() <= self.room()
        &&& self.speech_start matches Some(start) ==> start <= self.position
        &&& self.triggered == (self.speech_start is Some)
        &&& self.silence <= self.position
        &&& !self.triggered ==> self.silence == 0
        &&& self.segments == self.cancelled
    }

    /// With a chunk kept.
    pub open spec fn keeping(self, samples: Seq<Binary32>) -> CoordinatorModel {
        CoordinatorModel { kept: last_of(self.kept + samples, self.room()), ..self }
    }

    /// Where the speech began that ends with a chunk; nothing, if none does.
    pub open spec fn ended(self, reading: VadReading) -> Option<nat> {
        if !reading.is_speech_end {
            None
        } else if reading.is_speech_start {
            Some(self.position)
        } else {
            self.speech_start
        }
    }

    /// How long speech lasted that began at `start` and ends with a chunk.
    pub open spec fn lasted_ms(
        self,
        config: SpeculativeVADCoordinatorConfig,
        start: nat,
    ) -> nat {
        signal::whole_ms((self.position - start) as nat, config.sample_rate as nat)
    }

    /// Speech ends with a chunk that was too short to be speech.
    pub open spec fn cancels(
        self,
        config: SpeculativeVADCoordinatorConfig,
        reading: VadReading,
    ) -> bool {
        self.ended(reading) matches Some(start) && self.lasted_ms(config, start)
            < config.min_speech_duration_ms
    }

    /// Speech ends with a chunk that was long enough.
    pub open spec fn accepts(
        self,
        config: SpeculativeVADCoordinatorConfig,
        reading: VadReading,
    ) -> bool {
        self.ended(reading) is Some && !self.cancels(config, reading)
    }

    /// What is known after a chunk of `n` samples.
    pub open spec fn after(
        self,
        config: SpeculativeVADCoordinatorConfig,
        reading: VadReading,
        n: nat,
    ) -> CoordinatorModel {
        let began = self.triggered || reading.is_speech_start;
        CoordinatorModel {
            kept: if self.accepts(config, reading) {
                Seq::empty()
            } else {
                self.kept
            },
            capacity: self.capacity,
            speech_start: if reading.is_speech_end {
                None
            } else if reading.is_speech_start {
                Some(self.position)
            } else {
                self.speech_start
            },
            position: self.position + n,
            segments: self.segments + if self.cancels(config, reading) {
                1nat
            } else {
                0
            },
            accepted: self.accepted + if self.accepts(config, reading) {
                1nat
            } else {
                0
            },
            cancelled: self.cancelled + if self.cancels(config, reading) {
                1nat
            } else {
                0
            },
            triggered: began && !reading.is_speech_end,
            silence: if reading.is_speech_end || reading.has_speech || !began {
                0
            } else if reading.is_speech_start {
                n
            } else {
                self.silence + n
            },
        }
    }

    /// What is known after a chunk that the detector said nothing of.
    pub open spec fn passed(self, n: nat) -> CoordinatorModel {
        CoordinatorModel { position: self.position + n, ..self }
    }

    /// The share of the ended speech that was accepted; all of it, before any has ended.
    pub open spec fn acceptance_rate(self) -> Binary64 {
        if self.accepted + self.cancelled == 0 {
            Binary64::of_integer(1)
        } else {
            Binary64::of_integer(self.accepted).over(
                Binary64::of_integer(self.accepted + self.cancelled),
            )
        }
    }
}

/// What is taken back.
pub struct Cancellation {
    /// The stretch, in samples.
    pub message_type: ControlMessageType,
    pub segment_id: String,
    pub timestamp_ms: u64,
    pub reason: &'static str,
    pub duration_ms: u32,
    pub min_required_ms: u32,
    pub vad_confidence: Binary32,
}

impl Cancellation {
    /// The members of the metadata as a JSON object.
    pub open spec fn object(self) -> Seq<(Seq<char>, Member)> {
        seq![
            ("reason"@, Member::Text(self.reason)),
            ("duration_ms"@, Member::Count(self.duration_ms as u64)),
            ("min_required_ms"@, Member::Count(self.min_required_ms as u64)),
            ("vad_confidence"@, Member::Number(self.vad_confidence)),
        ]
    }

    pub fn metadata(&self) -> (r: Vec<(&'static str, Member)>)
        ensures
            json::named(r@) == self.object(),
    {
        let mut r: Vec<(&'static str, Member)> = Vec::new();
        r.push(("reason", Member::Text(self.reason)));
        r.push(("duration_ms", Member::Count(self.duration_ms as u64)));
        r.push(("min_required_ms", Member::Count(self.min_required_ms as u64)));
        r.push(("vad_confidence", Member::Number(self.vad_confidence)));
        assert(json::named(r@) =~= self.object());
        r
    }
}

/// The name of a segment of a session.
pub open spec fn segment_name(session: Seq<char>, n: nat) -> Seq<char> {
    session + "_"@ + text::decimal(n)
}

impl CoordinatorModel {
    /// `c` takes back what ends with a chunk.
    pub open spec fn is_cancellation(
        self,
        config: SpeculativeVADCoordinatorConfig,
        session: Seq<char>,
        reading: VadReading,
        now_ms: u64,
        c: Cancellation,
    ) -> bool {
        &&& self.ended(reading) matches Some(start)
        &&& c.message_type == ControlMessageType::CancelSpeculation {
            from_timestamp: start as u64,
            to_timestamp: self.position as u64,
        }
        &&& c.segment_id@ == segment_name(session, self.segments)
        &&& c.timestamp_ms == now_ms
        &&& c.reason@ == "speech_too_short"@
        &&& c.duration_ms == self.lasted_ms(config, start)
        &&& c.min_required_ms == config.min_speech_duration_ms
        &&& c.vad_confidence == reading.speech_probability
    }
}

/// The state of a session.
pub struct CoordinatorState {
    pub audio_buffer: VecDeque<Binary32>,
    pub buffer_capacity: usize,
    pub speech_start_sample: Option<usize>,
    pub current_sample: usize,
    pub segment_counter: u64,
    pub speculations_accepted: u64,
    pub speculations_cancelled: u64,
    pub speech_triggered: bool,
    pub silence_samples: usize,
}

impl View for CoordinatorState {
    type V = CoordinatorModel;

    open spec fn view(&self) -> CoordinatorModel {
        CoordinatorModel {
            kept: self.audio_buffer@,
            capacity: self.buffer_capacity as nat,
            speech_start: match self.speech_start_sample {
                Some(s) => Some(s as nat),
                None => None,
            },
            position: self.current_sample as nat,
            segments: self.segment_counter as nat,
            accepted: self.speculations_accepted as nat,
            cancelled: self.speculations_cancelled as nat,
            triggered: self.speech_triggered,
            silence: self.silence_samples as nat,
        }
    }
}

impl CoordinatorModel {
    /// The counters can take one more chunk of `n` samples.
    pub open spec fn can_count(self, n: nat) -> bool {
        &&& self.position + n <= usize::MAX
        &&& self.accepted + self.cancelled < u64::MAX
    }
}

impl CoordinatorState {
    pub fn new(buffer_capacity: usize) -> (s: CoordinatorState)
        requires
            4 * buffer_capacity <= isize::MAX,
        ensures
            s@ == CoordinatorModel::fresh(buffer_capacity as nat),
            s@.wf(),
    {
        let s: CoordinatorState = CoordinatorState {
            audio_buffer: VecDeque::with_capacity(buffer_capacity),
            buffer_capacity,
            speech_start_sample: None,
            current_sample: 0,
            segment_counter: 0,
            speculations_accepted: 0,
            speculations_cancelled: 0,
            speech_triggered: false,
            silence_samples: 0,
        };
        assert(s@ =~= CoordinatorModel::fresh(buffer_capacity as nat));
        s
    }

    pub fn acceptance_rate(&self) -> (r: Binary64)
        requires
            self@.accepted + self@.cancelled <= u64::MAX,
        ensures
            r == self@.acceptance_rate(),
    {
        let total: u64 = self.speculations_accepted + self.speculations_cancelled;
        if total == 0 {
            return Binary64::from_integer(1);
        }
        Binary64::from_integer(self.speculations_accepted).divide(Binary64::from_integer(total))
    }

    /// Whether the counters can take one more chunk of `n` samples.
    pub fn has_room(&self, n: usize) -> (r: bool)
        ensures
            r == self@.can_count(n as nat),
    {
        self.current_sample <= usize::MAX - n && self.speculations_accepted < u64::MAX
            - self.speculations_cancelled
    }

    /// Keeps a chunk, and lets go of the oldest samples in its place.
    pub fn keep(&mut self, samples: &Vec<Binary32>)
        requires
            old(self)@.wf(),
        ensures
            final(self)@ == old(self)@.keeping(samples@),
            final(self)@.wf(),
    {
        let ghost before = self@;
        let ghost room = before.room();
        let mut i: usize = 0;
        assert(before.kept + samples@.take(0) =~= before.kept);
        while i < samples.len()
            invariant
                i <= samples.len(),
                room == before.room(),
                before.wf(),
                self@.kept == last_of(before.kept + samples@.take(i as int), room),
                self@ == (CoordinatorModel { kept: self@.kept, ..before }),
            decreases samples.len() - i,
        {
            let ghost all = before.kept + samples@.take(i as int);
            if self.audio_buffer.len() >= self.buffer_capacity {
                let _ = self.audio_buffer.pop_front();
            }
            self.audio_buffer.push_back(samples[i]);
            proof {
                let next = before.kept + samples@.take(i + 1);
                assert(next =~= all.push(samples@[i as int]));
                assert(self@.kept =~= last_of(next, room));
            }
            i = i + 1;
        }
        assert(samples@.take(samples.len() as int) =~= samples@);
        assert(self@ =~= before.keeping(samples@));
    }

    /// Takes in what the detector says of a chunk of `n` samples; gives what is to be
    /// taken back.
    pub fn settle(
        &mut self,
        config: &SpeculativeVADCoordinatorConfig,
        session_id: &str,
        reading: VadReading,
        n: usize,
        now_ms: u64,
    ) -> (r: Option<Cancellation>)
        requires
            old(self)@.wf(),
            old(self)@.can_count(n as nat),
        ensures
            final(self)@ == old(self)@.after(*config, reading, n as nat),
            final(self)@.wf(),
            r is Some <==> old(self)@.cancels(*config, reading),
            r is Some <==> reading.is_speech_end && ({
                let start = if reading.is_speech_start {
                    Some(old(self).current_sample)
                } else {
                    old(self).speech_start_sample
                };
                start matches Some(from) && signal::whole_ms(
                    (old(self).current_sample - from) as nat,
                    config.sample_rate as nat,
                ) < config.min_speech_duration_ms
            }),
            final(self).current_sample == old(self).current_sample + n,
            r matches Some(c) ==> old(self)@.is_cancellation(
                *config,
                session_id@,
                reading,
                now_ms,
                c,
            ),
    {
        let ghost before = self@;
        let mut cancellation: Option<Cancellation> = None;
        if reading.is_speech_start {
            self.speech_start_sample = Some(self.current_sample);
            self.speech_triggered = true;
            self.silence_samples = 0;
        }
        if !reading.has_speech && self.speech_triggered {
            self.silence_samples = self.silence_samples + n;
        } else if reading.has_speech {
            self.silence_samples = 0;
        }
        if reading.is_speech_end {
            if let Some(start) = self.speech_start_sample.take() {
                let duration_ms: u32 = signal::duration_ms(
                    self.current_sample - start,
                    config.sample_rate,
                );
                if duration_ms < config.min_speech_duration_ms {
                    let segment_id: String = text::join(
                        text::join(session_id, "_").as_str(),
                        text::write_decimal(self.segment_counter).as_str(),
                    );
                    self.segment_counter = self.segment_counter + 1;
                    cancellation = Some(
                        Cancellation {
                            message_type: ControlMessageType::CancelSpeculation {
                                from_timestamp: start as u64,
                                to_timestamp: self.current_sample as u64,
                            },
                            segment_id,
                            timestamp_ms: now_ms,
                            reason: "speech_too_short",
                            duration_ms,
                            min_required_ms: config.min_speech_duration_ms,
                            vad_confidence: reading.speech_probability,
                        },
                    );
                    self.speculations_cancelled = self.speculations_cancelled + 1;
                } else {
                    self.speculations_accepted = self.speculations_accepted + 1;
                    self.audio_buffer.clear();
                }
            }
            self.speech_triggered = false;
            self.silence_samples = 0;
        }
        self.current_sample = self.current_sample + n;
        assert(self@ =~= before.after(*config, reading, n as nat));
        cancellation
    }

    /// Takes in a chunk of `n` samples that the detector said nothing of.
    pub fn pass(&mut self, n: usize)
        requires
            old(self)@.wf(),
            old(self)@.can_count(n as nat),
        ensures
            final(self)@ == old(self)@.passed(n as nat),
            final(self)@.wf(),
    {
        self.current_sample = self.current_sample + n;
    }
}

/// Audio as it is forwarded: the samples as they came, without what else was said of them.
pub struct ForwardedAudio {
    pub samples: Vec<Binary32>,
    pub sample_rate: u32,
    pub channels: u32,
    pub stream_id: Option<String>,
    pub timestamp_us: Option<u64>,
    pub arrival_ts_us: Option<u64>,
    pub metadata: Option<Value>,
}

impl ForwardedAudio {
    /// What a chunk is forwarded as.
    pub open spec fn is_forwarded(self, chunk: AudioChunk) -> bool {
        &&& self.samples@ == chunk.samples@
        &&& self.sample_rate == chunk.sample_rate
        &&& self.channels == chunk.channels
        &&& self.stream_id is None
        &&& self.timestamp_us is None
        &&& self.arrival_ts_us is None
        &&& self.metadata is None
    }
}

/// What the coordinator gives out once the detector has spoken.
pub enum Output {
    Cancel(Cancellation),
    /// The report of the detector, as it came.
    Report,
}

/// The name under which the detector keeps a session of the coordinator.
pub open spec fn detector_session(session: Seq<char>) -> Seq<char> {
    session + "_vad"@
}

/// The settings of the detector that belongs to a coordinator.
pub open spec fn is_detector_config(
    config: SpeculativeVADCoordinatorConfig,
    d: SileroVADConfig,
) -> bool {
    &&& d.model_path is None
    &&& d.threshold == config.vad_threshold
    &&& d.neg_threshold is None
    &&& d.sampling_rate == config.sample_rate
    &&& d.min_speech_duration_ms == config.min_speech_duration_ms
    &&& d.min_silence_duration_ms == config.min_silence_duration_ms
    &&& d.speech_pad_ms == config.speech_pad_ms
}

/// The sessions, where `session` is one of them.
pub open spec fn opened(
    config: SpeculativeVADCoordinatorConfig,
    sessions: Map<Seq<char>, CoordinatorModel>,
    session: Seq<char>,
) -> Map<Seq<char>, CoordinatorModel> {
    if sessions.contains_key(session) {
        sessions
    } else {
        sessions.insert(session, CoordinatorModel::fresh(config.lookback_samples()))
    }
}

/// What holds of a coordinator in order: so are all its sessions, whose counters can be
/// told, and so is its detector, which has the settings that belong to it.
pub proof fn lemma_coordinator_wf(c: SpeculativeVADCoordinator)
    requires
        c.wf(),
    ensures
        is_detector_config(c.settings(), c.detector().settings()),
        c.detector().wf(),
        forall|k: Seq<char>| #[trigger]
            c.ledger().contains_key(k) ==> {
                &&& c.ledger()[k].wf()
                &&& c.ledger()[k].accepted + c.ledger()[k].cancelled <= u64::MAX
            },
        forall|k: Seq<char>| #[trigger]
            c.detector().sessions().contains_key(k) ==> c.detector().sessions()[k].wf(),
{
    vad::lemma_sessions_wf(c.detector());
}

/// The coordinator, with its detector and all its sessions.
pub struct SpeculativeVADCoordinator {
    config: SpeculativeVADCoordinatorConfig,
    vad_node: SileroVADNode,
    sessions: SessionTable<CoordinatorState>,
}

impl SpeculativeVADCoordinator {
    pub closed spec fn settings(self) -> SpeculativeVADCoordinatorConfig {
        self.config
    }

    pub closed spec fn detector(self) -> SileroVADNode {
        self.vad_node
    }

    /// What is known of each session.
    pub closed spec fn ledger(self) -> Map<Seq<char>, CoordinatorModel> {
        self.sessions@.map_values(|s: CoordinatorState| s@)
    }

    pub closed spec fn wf(self) -> bool {
        &&& self.sessions.wf()
        &&& self.vad_node.wf()
        &&& is_detector_config(self.config, self.vad_node.settings())
        &&& forall|k: Seq<char>| #[trigger]
            self.sessions@.contains_key(k) ==> {
                &&& self.sessions@[k]@.wf()
                &&& self.sessions@[k]@.accepted + self.sessions@[k]@.cancelled <= u64::MAX
            }
    }

    pub fn with_config(config: SpeculativeVADCoordinatorConfig) -> (c: SpeculativeVADCoordinator)
        ensures
            c.wf(),
            c.settings() == config,
            is_detector_config(config, c.detector().settings()),
            c.detector().sessions() == Map::<Seq<char>, VadModel>::empty(),
            c.ledger() == Map::<Seq<char>, CoordinatorModel>::empty(),
    {
        let vad_node: SileroVADNode = SileroVADNode::new(
            SileroVADConfig {
                model_path: None,
                threshold: config.vad_threshold,
                neg_threshold: None,
                sampling_rate: config.sample_rate,
                min_speech_duration_ms: config.min_speech_duration_ms,
                min_silence_duration_ms: config.min_silence_duration_ms,
                speech_pad_ms: config.speech_pad_ms,
            },
        );
        let c: SpeculativeVADCoordinator = SpeculativeVADCoordinator {
            config,
            vad_node,
            sessions: SessionTable::new(),
        };
        assert(c.ledger() =~= Map::<Seq<char>, CoordinatorModel>::empty());
        c
    }

    pub fn new() -> (c: SpeculativeVADCoordinator)
        ensures
            c.wf(),
            c.settings().is_default(),
            is_detector_config(c.settings(), c.detector().settings()),
            c.detector().sessions() == Map::<Seq<char>, VadModel>::empty(),
            c.ledger() == Map::<Seq<char>, CoordinatorModel>::empty(),
    {
        Self::with_config(SpeculativeVADCoordinatorConfig::default())
    }

    pub fn node_type(&self) -> (s: &'static str)
        ensures
            s@ == "SpeculativeVADCoordinator"@,
    {
        "SpeculativeVADCoordinator"
    }

    /// One input for one output is not what a coordinator does.
    pub fn process(&self, _data: &MediaInput) -> (r: Result<Output, Error>)
        ensures
            r is Err,
            r->Err_0.text()
                == "SpeculativeVADCoordinator requires streaming mode - use process_streaming()"@,
    {
        Err(
            Error::Execution(
                "SpeculativeVADCoordinator requires streaming mode - use process_streaming()".to_owned(),
            ),
        )
    }

    /// The name of the session of an input: the one that is said, or the default one.
    pub fn session_name(session_id: Option<String>) -> (s: String)
        ensures
            s@ == match session_id {
                Some(id) => id@,
                None => "default"@,
            },
    {
        match session_id {
            Some(id) => id,
            None => "default".to_owned(),
        }
    }

    /// Audio goes on at once, before anything is known of it. Nothing else is taken.
    pub fn forward(&self, data: &MediaInput) -> (r: Result<ForwardedAudio, Error>)
        ensures
            match *data {
                MediaInput::Audio(chunk) => r is Ok && r->Ok_0.is_forwarded(chunk),
                _ => r is Err && r->Err_0.text()
                    == "SpeculativeVADCoordinator requires audio input"@,
            },
    {
        match data {
            MediaInput::Audio(chunk) => Ok(
                ForwardedAudio {
                    samples: signal::copy(&chunk.samples),
                    sample_rate: chunk.sample_rate,
                    channels: chunk.channels,
                    stream_id: None,
                    timestamp_us: None,
                    arrival_ts_us: None,
                    metadata: None,
                },
            ),
            _ => Err(
                Error::Execution("SpeculativeVADCoordinator requires audio input".to_owned()),
            ),
        }
    }

    /// Whether the samples of the lookback can be kept.
    pub fn has_lookback(&self) -> (r: bool)
        ensures
            r == self.settings().has_lookback(),
    {
        proof {
            assert(self.config.lookback_ms * (self.config.sample_rate / 1000) <= 0xffff_ffff
                * 0xffff_ffff) by (nonlinear_arith)
                requires
                    self.config.lookback_ms <= 0xffff_ffff,
                    self.config.sample_rate / 1000 <= 0xffff_ffff,
            ;
        }
        let samples: u64 = self.config.lookback_ms as u64 * (self.config.sample_rate / 1000) as u64;
        samples <= u32::MAX as u64 && samples <= isize::MAX as u64 / 4
    }

    pub fn has_session(&self, session_id: &str) -> (r: bool)
        requires
            self.wf(),
        ensures
            r == self.ledger().contains_key(session_id@),
    {
        self.sessions.contains(session_id)
    }

    pub fn ensure_session_exists(&mut self, session_id: &str)
        requires
            old(self).wf(),
            old(self).ledger().contains_key(session_id@) || old(self).settings().has_lookback(),
        ensures
            final(self).wf(),
            final(self).settings() == old(self).settings(),
            final(self).detector() == old(self).detector(),
            final(self).ledger() == opened(
                old(self).settings(),
                old(self).ledger(),
                session_id@,
            ),
    {
        let ghost before = *self;
        if !self.sessions.contains(session_id) {
            let samples_per_ms: u32 = self.config.sample_rate / 1000;
            let buffer_capacity: usize = (self.config.lookback_ms * samples_per_ms) as usize;
            self.sessions.insert(session_id, CoordinatorState::new(buffer_capacity));
        }
        assert(self.ledger() =~= opened(before.settings(), before.ledger(), session_id@));
    }

    /// Keeps a chunk of a session.
    pub fn keep_chunk(&mut self, session_id: &str, samples: &Vec<Binary32>)
        requires
            old(self).wf(),
            old(self).ledger().contains_key(session_id@) || old(self).settings().has_lookback(),
        ensures
            final(self).wf(),
            final(self).settings() == old(self).settings(),
            final(self).detector() == old(self).detector(),
            ({
                let ledger = opened(old(self).settings(), old(self).ledger(), session_id@);
                final(self).ledger() == ledger.insert(
                    session_id@,
                    ledger[session_id@].keeping(samples@),
                )
            }),
    {
        let ghost start = *self;
        self.ensure_session_exists(session_id);
        let ghost ledger = opened(start.settings(), start.ledger(), session_id@);
        let ghost before = *self;
        assert(before.sessions@.contains_key(session_id@)) by {
            assert(before.ledger().contains_key(session_id@));
        }
        let state: &mut CoordinatorState = self.sessions.get_mut(session_id).unwrap();
        assert(state@ == ledger[session_id@]);
        state.keep(samples);
        assert(self.ledger() =~= ledger.insert(
            session_id@,
            ledger[session_id@].keeping(samples@),
        ));
    }

    pub fn vad_node(&self) -> (node: &SileroVADNode)
        ensures
            *node == self.detector(),
            self.wf() ==> node.wf(),
    {
        &self.vad_node
    }

    /// The name under which the detector keeps a session.
    pub fn vad_session_id(session_id: &str) -> (s: String)
        ensures
            s@ == detector_session(session_id@),
    {
        text::join(session_id, "_vad")
    }

    /// What the model is to be run on for a chunk of a session.
    pub fn inference_inputs(&mut self, session_id: &str, mono: &Vec<Binary32>) -> (r:
        InferenceInputs)
        requires
            old(self).wf(),
        ensures
            final(self).wf(),
            final(self).settings() == old(self).settings(),
            final(self).ledger() == old(self).ledger(),
            final(self).detector().settings() == old(self).detector().settings(),
            final(self).detector().sessions() == vad::opened(
                old(self).detector().sessions(),
                detector_session(session_id@),
            ),
            r.input_shape@ == seq![1usize, mono.len()],
            r.input@ == mono@,
            r.state_shape@ == seq![2usize, 1usize, 128usize],
            r.state@ == final(self).detector().sessions()[detector_session(session_id@)].hidden,
            r.sr == old(self).settings().sample_rate,
    {
        let key: String = Self::vad_session_id(session_id);
        self.vad_node.inference_inputs(mono, Some(key.as_str()))
    }

    /// The detector can count `n` more samples of a session.
    pub open spec fn detector_has_room_for(self, session: Seq<char>, n: nat) -> bool {
        let key = detector_session(session);
        vad::opened(self.detector().sessions(), key)[key].position + n <= usize::MAX
    }

    pub fn detector_has_room(&self, session_id: &str, n: usize) -> (r: bool)
        requires
            self.wf(),
        ensures
            r == self.detector_has_room_for(session_id@, n as nat),
    {
        let key: String = Self::vad_session_id(session_id);
        self.vad_node.has_room(Some(key.as_str()), n)
    }

    /// Lets the detector take in a chunk. There is a report if there is audio and the
    /// model could be run on it; what went wrong is not asked.
    pub fn vad_result(&mut self, session_id: &str, heard: Option<Heard>) -> (r: Option<VadEvent>)
        requires
            old(self).wf(),
            heard matches Some(h) ==> (h.outcome matches Ok(out) ==> out.wf()
                && old(self).detector_has_room_for(session_id@, h.mono@.len())),
        ensures
            final(self).wf(),
            final(self).settings() == old(self).settings(),
            final(self).ledger() == old(self).ledger(),
            final(self).detector().settings() == old(self).detector().settings(),
            match heard {
                None => r is None && final(self).detector().sessions()
                    == old(self).detector().sessions(),
                Some(h) => {
                    let (sessions, event) = vad::listened(
                        old(self).detector().settings(),
                        old(self).detector().sessions(),
                        detector_session(session_id@),
                        h.mono@,
                        h.outcome,
                    );
                    &&& final(self).detector().sessions() == sessions
                    &&& r == event.ok()
                },
            },
    {
        let key: String = Self::vad_session_id(session_id);
        match self.vad_node.process_streaming(heard, Some(key.as_str())) {
            Ok(out) => match &out[0] {
                Emission::Event(event) => Some(*event),
                Emission::Input => None,
            },
            Err(_) => None,
        }
    }

    /// Whether a session can count a chunk of `n` samples; one that is not there can.
    pub fn has_room(&self, session_id: &str, n: usize) -> (r: bool)
        requires
            self.wf(),
        ensures
            r == (self.ledger().contains_key(session_id@) ==> self.ledger()[session_id@].can_count(
                n as nat,
            )),
    {
        match self.sessions.get(session_id) {
            Some(state) => state.has_room(n),
            None => true,
        }
    }

    /// Takes in the report of the detector on a chunk of `n` samples, and says what to
    /// give out: what is taken back, if something is, and then the report. Without a
    /// report there is nothing to give out.
    pub fn settle_chunk(
        &mut self,
        session_id: &str,
        n: usize,
        vad_json: Option<&Value>,
        now_ms: u64,
    ) -> (r: Vec<Output>)
        requires
            old(self).wf(),
            vad_json is Some ==> old(self).ledger().contains_key(session_id@),
            old(self).ledger().contains_key(session_id@) ==> old(
                self,
            ).ledger()[session_id@].can_count(n as nat),
        ensures
            final(self).wf(),
            final(self).settings() == old(self).settings(),
            final(self).detector() == old(self).detector(),
            ({
                let before = old(self).ledger()[session_id@];
                match vad_json {
                    Some(json) => {
                        let reading = VadReading::of(*json);
                        &&& final(self).ledger() == old(self).ledger().insert(
                            session_id@,
                            before.after(old(self).settings(), reading, n as nat),
                        )
                        &&& if before.cancels(old(self).settings(), reading) {
                            &&& r@.len() == 2
                            &&& r@[0] matches Output::Cancel(c)
                            &&& before.is_cancellation(
                                old(self).settings(),
                                session_id@,
                                reading,
                                now_ms,
                                c,
                            )
                            &&& r@[1] == Output::Report
                        } else {
                            r@ == seq![Output::Report]
                        }
                    },
                    None => {
                        &&& r@.len() == 0
                        &&& final(self).ledger() == if old(self).ledger().contains_key(
                            session_id@,
                        ) {
                            old(self).ledger().insert(session_id@, before.passed(n as nat))
                        } else {
                            old(self).ledger()
                        }
                    },
                }
            }),
    {
        let ghost start = *self;
        let ghost before = start.ledger()[session_id@];
        let mut out: Vec<Output> = Vec::new();
        match vad_json {
            Some(json) => {
                let reading: VadReading = VadReading::read(json);
                assert(start.sessions@.contains_key(session_id@)) by {
                    assert(start.ledger().contains_key(session_id@));
                }
                let state: &mut CoordinatorState = self.sessions.get_mut(session_id).unwrap();
                assert(state@ == before);
                match state.settle(&self.config, session_id, reading, n, now_ms) {
                    Some(c) => {
                        out.push(Output::Cancel(c));
                    },
                    None => {},
                }
                assert(self.ledger() =~= start.ledger().insert(
                    session_id@,
                    before.after(start.settings(), reading, n as nat),
                ));
                out.push(Output::Report);
            },
            None => {
                match self.sessions.get_mut(session_id) {
                    Some(state) => {
                        assert(start.ledger().contains_key(session_id@));
                        assert(state@ == before);
                        state.pass(n);
                        assert(self.ledger() =~= start.ledger().insert(
                            session_id@,
                            before.passed(n as nat),
                        ));
                    },
                    None => {},
                }
            },
        }
        out
    }

    /// How long the speech of a session has lasted so far; nothing, where none has begun.
    pub fn speech_ms(&self, session_id: &str) -> (r: Option<u32>)
        requires
            self.wf(),
        ensures
            match r {
                Some(ms) => {
                    &&& self.ledger().contains_key(session_id@)
                    &&& self.ledger()[session_id@].speech_start matches Some(start)
                    &&& ms == self.ledger()[session_id@].lasted_ms(self.settings(), start)
                },
                None => self.ledger().contains_key(session_id@)
                    ==> self.ledger()[session_id@].speech_start is None,
            },
    {
        match self.sessions.get(session_id) {
            Some(state) => match state.speech_start_sample {
                Some(start) => Some(
                    signal::duration_ms(state.current_sample - start, self.config.sample_rate),
                ),
                None => None,
            },
            None => None,
        }
    }

    /// The share of the ended speech of a session that was accepted; nothing, where there
    /// is no such session.
    pub fn acceptance_rate(&self, session_id: &str) -> (r: Option<Binary64>)
        requires
            self.wf(),
        ensures
            r == if self.ledger().contains_key(session_id@) {
                Some(self.ledger()[session_id@].acceptance_rate())
            } else {
                None
            },
    {
        match self.sessions.get(session_id) {
            Some(state) => Some(state.acceptance_rate()),
            None => None,
        }
    }

    /// Whether a message concerns the coordinator: only what is taken back does.
    pub fn process_control_message(&self, message: &MediaInput) -> (r: Result<bool, Error>)
        ensures
            r == Ok::<bool, Error>(
                *message matches MediaInput::ControlMessage(m) && m is CancelSpeculation,
            ),
    {
        match message {
            MediaInput::ControlMessage(message_type) => match message_type {
                ControlMessageType::CancelSpeculation { .. } => Ok(true),
                ControlMessageType::BatchHint { .. } => Ok(false),
                ControlMessageType::DeadlineWarning { .. } => Ok(false),
            },
            _ => Ok(false),
        }
    }
}

impl Default for SpeculativeVADCoordinator {
    fn default() -> (c: SpeculativeVADCoordinator)
        ensures
            c.wf(),
            c.settings().is_default(),
            is_detector_config(c.settings(), c.detector().settings()),
            c.detector().sessions() == Map::<Seq<char>, VadModel>::empty(),
            c.ledger() == Map::<Seq<char>, CoordinatorModel>::empty(),
    {
        Self::new()
    }
}

} // verus!
