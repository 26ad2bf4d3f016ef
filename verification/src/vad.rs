//! The detector: which chunks are speech, and where speech begins and ends.

use serde_json::Value;
use vstd::prelude::*;

use crate::config::SileroVADConfig;
use crate::data::{AudioChunk, MediaInput};
use crate::error::Error;
use crate::json;
use crate::json::{Member, VadReading};
use crate::numbers;
use crate::numbers::Binary32;
use crate::sessions::SessionTable;
use crate::signal;

verus! {

/// Numbers in the hidden state of the model: two layers, one batch, 128 wide.
pub const HIDDEN_LEN: usize = 256;

/// What is known of a session.
#[verifier::ext_equal]
pub struct VadModel {
    /// Speech has begun and not ended.
    pub triggered: bool,
    /// Samples of silence since the last sound of the speech that has begun.
    pub silence: nat,
    /// Samples heard.
    pub position: nat,
    /// The hidden state of the model.
    pub hidden: Seq<Binary32>,
}

impl SileroVADConfig {
    /// A chunk of this probability is speech.
    pub open spec fn is_speech(self, probability: Binary32) -> bool {
        probability.at_least(self.threshold)
    }

    /// A chunk of this probability is silence. What is neither speech nor silence holds
    /// the speech that has begun.
    pub open spec fn is_silence(self, probability: Binary32) -> bool {
        !self.is_speech(probability) && !probability.at_least(self.neg_threshold_in_force())
    }

    pub fn effective_neg_threshold(&self) -> (r: Binary32)
        ensures
            r == self.neg_threshold_in_force(),
    {
        let chosen: Binary32 = match self.neg_threshold {
            Some(t) => t,
            None => self.threshold.subtract(Binary32::from_ratio(15, 100)).max(
                Binary32 { bits: 0 },
            ),
        };
        chosen.min(self.threshold)
    }
}

impl VadModel {
    /// A session of which nothing was heard.
    pub open spec fn fresh() -> VadModel {
        VadModel {
            triggered: false,
            silence: 0,
            position: 0,
            hidden: Seq::new(HIDDEN_LEN as nat, |i: int| Binary32 { bits: 0 }),
        }
    }

    pub open spec fn wf(self) -> bool {
        &&& self.hidden.len() == HIDDEN_LEN
        &&& self.silence <= self.position
        &&& !self.triggered ==> self.silence == 0
    }

    /// Speech begins with a chunk of this probability.
    pub open spec fn starts(self, config: SileroVADConfig, probability: Binary32) -> bool {
        !self.triggered && config.is_speech(probability)
    }

    /// Speech ends with a chunk of this probability: with it, silence has lasted long enough.
    pub open spec fn ends(self, config: SileroVADConfig, probability: Binary32, n: nat) -> bool {
        &&& self.triggered
        &&& config.is_silence(probability)
        &&& signal::whole_ms(self.silence + n, config.sampling_rate as nat)
            >= config.min_silence_duration_ms
    }

    /// What is known after a chunk of `n` samples.
    pub open spec fn after(
        self,
        config: SileroVADConfig,
        probability: Binary32,
        n: nat,
        hidden: Seq<Binary32>,
    ) -> VadModel {
        let ends = self.ends(config, probability, n);
        VadModel {
            triggered: config.is_speech(probability) || (self.triggered && !ends),
            silence: if self.triggered && config.is_silence(probability) && !ends {
                self.silence + n
            } else {
                0
            },
            position: self.position + n,
            hidden,
        }
    }
}

/// The state of a session.
pub struct VADState {
    pub triggered: bool,
    pub temp_end_samples: usize,
    pub current_sample: usize,
    /// The hidden state of the model.
    pub state: Vec<Binary32>,
}

impl View for VADState {
    type V = VadModel;

    open spec fn view(&self) -> VadModel {
        VadModel {
            triggered: self.triggered,
            silence: self.temp_end_samples as nat,
            position: self.current_sample as nat,
            hidden: self.state@,
        }
    }
}

impl Default for VADState {
    fn default() -> (s: VADState)
        ensures
            s@ == VadModel::fresh(),
            s@.wf(),
    {
        let mut state: Vec<Binary32> = Vec::new();
        let mut i: usize = 0;
        while i < HIDDEN_LEN
            invariant
                i <= HIDDEN_LEN,
                i == state@.len(),
                forall|k: int| 0 <= k < i ==> #[trigger] state@[k] == (Binary32 { bits: 0 }),
            decreases HIDDEN_LEN - i,
        {
            state.push(Binary32 { bits: 0 });
            i = i + 1;
        }
        let s: VADState = VADState {
            triggered: false,
            temp_end_samples: 0,
            current_sample: 0,
            state,
        };
        assert(s@ =~= VadModel::fresh());
        s
    }
}

impl VADState {
    /// Takes in a chunk of `n` samples, of which the model says `probability`. Tells
    /// whether speech begins and whether it ends with it.
    pub fn observe(
        &mut self,
        config: &SileroVADConfig,
        probability: Binary32,
        n: usize,
        hidden: Vec<Binary32>,
    ) -> (r: (bool, bool))
        requires
            old(self)@.wf(),
            old(self).current_sample + n <= usize::MAX,
            hidden@.len() == HIDDEN_LEN,
        ensures
            final(self)@ == old(self)@.after(*config, probability, n as nat, hidden@),
            final(self)@.wf(),
            r.0 == old(self)@.starts(*config, probability),
            r.1 == old(self)@.ends(*config, probability, n as nat),
            final(self).state@ == hidden@,
            final(self).current_sample == old(self).current_sample + n,
            r.0 == (!old(self).triggered && final(self).triggered),
            r.1 == (old(self).triggered && !final(self).triggered),
    {
        let ghost before = self@;
        self.state = hidden;
        let neg_threshold: Binary32 = config.effective_neg_threshold();
        let mut start: bool = false;
        let mut end: bool = false;
        if probability.ge(config.threshold) {
            if !self.triggered {
                start = true;
                self.triggered = true;
            }
            self.temp_end_samples = 0;
        } else if self.triggered {
            if probability.ge(neg_threshold) {
                self.temp_end_samples = 0;
            } else {
                self.temp_end_samples = self.temp_end_samples + n;
                let silence_ms: u32 = signal::duration_ms(
                    self.temp_end_samples,
                    config.sampling_rate,
                );
                if silence_ms >= config.min_silence_duration_ms {
                    end = true;
                    self.triggered = false;
                    self.temp_end_samples = 0;
                }
            }
        }
        self.current_sample = self.current_sample + n;
        assert(self@ =~= before.after(*config, probability, n as nat, hidden@));
        (start, end)
    }
}

/// What the detector reports of a chunk.
#[derive(Clone, Copy, PartialEq, Eq, Structural, Debug)]
pub struct VadEvent {
    pub has_speech: bool,
    pub speech_probability: Binary32,
    pub is_speech_start: bool,
    pub is_speech_end: bool,
    /// The end of the chunk, from the start of the session.
    pub timestamp_ms: u64,
    pub rms: Binary32,
    pub peak: Binary32,
    pub samples: usize,
    pub sample_rate: u32,
}

impl VadModel {
    /// The report of a chunk.
    pub open spec fn event(
        self,
        config: SileroVADConfig,
        mono: Seq<Binary32>,
        probability: Binary32,
    ) -> VadEvent {
        VadEvent {
            has_speech: config.is_speech(probability),
            speech_probability: probability,
            is_speech_start: self.starts(config, probability),
            is_speech_end: self.ends(config, probability, mono.len()),
            timestamp_ms: signal::timestamp_ms(
                self.position + mono.len(),
                config.sampling_rate as nat,
            ) as u64,
            rms: signal::rms(mono),
            peak: signal::peak(mono),
            samples: mono.len() as usize,
            sample_rate: config.sampling_rate,
        }
    }
}

impl VadEvent {
    /// The members of the report as a JSON object.
    pub open spec fn object(self) -> Seq<(Seq<char>, Member)> {
        seq![
            ("has_speech"@, Member::Flag(self.has_speech)),
            ("speech_probability"@, Member::Number(self.speech_probability)),
            ("is_speech_start"@, Member::Flag(self.is_speech_start)),
            ("is_speech_end"@, Member::Flag(self.is_speech_end)),
            ("timestamp_ms"@, Member::Count(self.timestamp_ms)),
            ("rms"@, Member::Number(self.rms)),
            ("peak"@, Member::Number(self.peak)),
            ("samples"@, Member::Count(self.samples as u64)),
            ("sample_rate"@, Member::Count(self.sample_rate as u64)),
        ]
    }

    pub fn members(&self) -> (r: Vec<(&'static str, Member)>)
        ensures
            json::named(r@) == self.object(),
    {
        let mut r: Vec<(&'static str, Member)> = Vec::new();
        r.push(("has_speech", Member::Flag(self.has_speech)));
        r.push(("speech_probability", Member::Number(self.speech_probability)));
        r.push(("is_speech_start", Member::Flag(self.is_speech_start)));
        r.push(("is_speech_end", Member::Flag(self.is_speech_end)));
        r.push(("timestamp_ms", Member::Count(self.timestamp_ms)));
        r.push(("rms", Member::Number(self.rms)));
        r.push(("peak", Member::Number(self.peak)));
        r.push(("samples", Member::Count(self.samples as u64)));
        r.push(("sample_rate", Member::Count(self.sample_rate as u64)));
        assert(json::named(r@) =~= self.object());
        r
    }

    /// What is read from the report once it was written: all of it that is read, but a
    /// probability that is not finite, which reads as zero.
    pub open spec fn reading(self) -> VadReading {
        VadReading {
            has_speech: self.has_speech,
            is_speech_start: self.is_speech_start,
            is_speech_end: self.is_speech_end,
            speech_probability: if self.speech_probability.finite() {
                self.speech_probability
            } else {
                Binary32 { bits: 0 }
            },
        }
    }
}

/// What is read from a report is what was written into it.
pub proof fn lemma_report_reads_back(event: VadEvent, value: Value)
    requires
        json::written(value, event.object()),
    ensures
        VadReading::of(value) == event.reading(),
{
    let o = event.object();
    assert(json::holds(value, o[0].0, o[0].1));
    assert(json::holds(value, o[1].0, o[1].1));
    assert(json::holds(value, o[2].0, o[2].1));
    assert(json::holds(value, o[3].0, o[3].1));
    if event.speech_probability.finite() {
        numbers::lemma_widening_is_undone(event.speech_probability);
    } else {
        numbers::lemma_zero_narrows_to_zero();
    }
}

/// The tensors that the model is run on.
pub struct InferenceInputs {
    /// The chunk, as one batch.
    pub input_shape: [usize; 2],
    pub input: Vec<Binary32>,
    /// The hidden state.
    pub state_shape: [usize; 3],
    pub state: Vec<Binary32>,
    /// The sampling rate, a scalar.
    pub sr: i64,
}

/// The tensors that the model gives back.
pub struct InferenceOutputs {
    /// Its first number is the probability of speech.
    pub output: Vec<Binary32>,
    /// The hidden state for the next chunk.
    pub state: Vec<Binary32>,
}

impl InferenceOutputs {
    /// There is a probability, and the hidden state has the size that it had.
    pub open spec fn wf(self) -> bool {
        self.output@.len() > 0 && self.state@.len() == HIDDEN_LEN
    }

    pub fn is_wf(&self) -> (r: bool)
        ensures
            r == self.wf(),
    {
        self.output.len() > 0 && self.state.len() == HIDDEN_LEN
    }
}

/// What a node gives out: a report, or its input as it came.
pub enum Emission {
    Event(VadEvent),
    Input,
}

/// A chunk of audio that was heard: its one channel, and what came of running the model
/// on it.
pub struct Heard {
    pub mono: Vec<Binary32>,
    pub outcome: Result<InferenceOutputs, Error>,
}

/// The name under which a session is kept.
pub open spec fn session_key(session_id: Option<&str>) -> Seq<char> {
    match session_id {
        Some(s) => s@,
        None => "default"@,
    }
}

/// The sessions, where `key` is one of them.
pub open spec fn opened(sessions: Map<Seq<char>, VadModel>, key: Seq<char>) -> Map<
    Seq<char>,
    VadModel,
> {
    if sessions.contains_key(key) {
        sessions
    } else {
        sessions.insert(key, VadModel::fresh())
    }
}

/// What comes of a chunk on which the model was run: the sessions after it, and the
/// report. Where running the model failed, that is all there is to report.
pub open spec fn listened(
    config: SileroVADConfig,
    sessions: Map<Seq<char>, VadModel>,
    key: Seq<char>,
    mono: Seq<Binary32>,
    outcome: Result<InferenceOutputs, Error>,
) -> (Map<Seq<char>, VadModel>, Result<VadEvent, Error>) {
    let before = opened(sessions, key);
    match outcome {
        Ok(out) => {
            let probability = out.output@[0];
            let after = before[key].after(config, probability, mono.len(), out.state@);
            (before.insert(key, after), Ok(before[key].event(config, mono, probability)))
        },
        Err(e) => (before, Err(e)),
    }
}

/// The one channel, at the rate that is listened to, of a chunk.
pub open spec fn mono_of(config: SileroVADConfig, chunk: AudioChunk) -> Seq<Binary32> {
    let s = signal::resampled(
        chunk.samples@,
        chunk.sample_rate as nat,
        config.sampling_rate as nat,
    );
    if chunk.channels > 1 {
        signal::downmix(s, chunk.channels as nat)
    } else {
        s
    }
}

/// What holds of a detector in order: so are all its sessions.
pub proof fn lemma_sessions_wf(node: SileroVADNode)
    requires
        node.wf(),
    ensures
        forall|k: Seq<char>| #[trigger]
            node.sessions().contains_key(k) ==> node.sessions()[k].wf(),
{
}

/// The detector, with all its sessions.
pub struct SileroVADNode {
    config: SileroVADConfig,
    states: SessionTable<VADState>,
}

impl SileroVADNode {
    pub closed spec fn settings(self) -> SileroVADConfig {
        self.config
    }

    /// What is known of each session.
    pub closed spec fn sessions(self) -> Map<Seq<char>, VadModel> {
        self.states@.map_values(|s: VADState| s@)
    }

    pub closed spec fn wf(self) -> bool {
        &&& self.states.wf()
        &&& forall|k: Seq<char>| #[trigger]
            self.states@.contains_key(k) ==> self.states@[k]@.wf()
    }

    /// The samples of the session can be counted with `n` more.
    pub open spec fn has_room_for(self, session_id: Option<&str>, n: nat) -> bool {
        let key = session_key(session_id);
        opened(self.sessions(), key)[key].position + n <= usize::MAX
    }

    pub fn new(config: SileroVADConfig) -> (node: SileroVADNode)
        ensures
            node.wf(),
            node.settings() == config,
            node.sessions() == Map::<Seq<char>, VadModel>::empty(),
    {
        let node: SileroVADNode = SileroVADNode { config, states: SessionTable::new() };
        assert(node.sessions() =~= Map::<Seq<char>, VadModel>::empty());
        node
    }

    pub fn config(&self) -> (c: &SileroVADConfig)
        ensures
            *c == self.settings(),
    {
        &self.config
    }

    pub fn effective_neg_threshold(&self) -> (r: Binary32)
        ensures
            r == self.settings().neg_threshold_in_force(),
    {
        self.config.effective_neg_threshold()
    }

    fn key<'a>(session_id: Option<&'a str>) -> (key: &'a str)
        ensures
            key@ == session_key(session_id),
    {
        match session_id {
            Some(s) => s,
            None => "default",
        }
    }

    /// Brings samples from one rate to another.
    pub fn resample_audio(&self, audio: &Vec<Binary32>, from_sr: u32, to_sr: u32) -> (r: Vec<
        Binary32,
    >)
        requires
            signal::resamples(audio@.len(), from_sr as nat, to_sr as nat),
        ensures
            r@ == signal::resampled(audio@, from_sr as nat, to_sr as nat),
    {
        signal::resample(audio, from_sr, to_sr)
    }

    /// The one channel of a chunk.
    pub fn mono_of_chunk(&self, chunk: &AudioChunk) -> (r: Vec<Binary32>)
        requires
            signal::resamples(
                chunk.samples@.len(),
                chunk.sample_rate as nat,
                self.settings().sampling_rate as nat,
            ),
        ensures
            r@ == mono_of(self.settings(), *chunk),
    {
        let resampled: Vec<Binary32> = if chunk.sample_rate != self.config.sampling_rate {
            self.resample_audio(&chunk.samples, chunk.sample_rate, self.config.sampling_rate)
        } else {
            signal::copy(&chunk.samples)
        };
        if chunk.channels > 1 {
            signal::mix_down(&resampled, chunk.channels)
        } else {
            resampled
        }
    }

    /// The one channel of audio; nothing, where the input is no audio.
    pub fn extract_mono(&self, data: &MediaInput) -> (r: Option<Vec<Binary32>>)
        requires
            match *data {
                MediaInput::Audio(chunk) => signal::resamples(
                    chunk.samples@.len(),
                    chunk.sample_rate as nat,
                    self.settings().sampling_rate as nat,
                ),
                _ => true,
            },
        ensures
            match *data {
                MediaInput::Audio(chunk) => r is Some && r->0@ == mono_of(self.settings(), chunk),
                _ => r is None,
            },
    {
        match data {
            MediaInput::Audio(chunk) => Some(self.mono_of_chunk(chunk)),
            _ => None,
        }
    }

    /// Makes sure that a session is there.
    fn open(&mut self, key: &str)
        requires
            old(self).wf(),
        ensures
            final(self).wf(),
            final(self).settings() == old(self).settings(),
            final(self).sessions() == opened(old(self).sessions(), key@),
            final(self).states@.contains_key(key@),
    {
        let ghost before = *self;
        if !self.states.contains(key) {
            self.states.insert(key, VADState::default());
        }
        assert(self.sessions() =~= opened(before.sessions(), key@));
    }

    /// Whether the samples of a session can be counted with `n` more.
    pub fn has_room(&self, session_id: Option<&str>, n: usize) -> (r: bool)
        requires
            self.wf(),
        ensures
            r == self.has_room_for(session_id, n as nat),
    {
        match self.states.get(Self::key(session_id)) {
            Some(s) => s.current_sample <= usize::MAX - n,
            None => true,
        }
    }

    /// How long silence has lasted in the speech of a session, with `n` more samples of it.
    pub fn silence_ms(&self, session_id: Option<&str>, n: usize) -> (ms: u32)
        requires
            self.wf(),
            self.has_room_for(session_id, n as nat),
        ensures
            ({
                let key = session_key(session_id);
                ms == signal::whole_ms(
                    opened(self.sessions(), key)[key].silence + n as nat,
                    self.settings().sampling_rate as nat,
                )
            }),
    {
        let silence: usize = match self.states.get(Self::key(session_id)) {
            Some(s) => s.temp_end_samples,
            None => 0,
        };
        signal::duration_ms(silence + n, self.config.sampling_rate)
    }

    /// Opens the session of a chunk, and says what the model is to be run on.
    pub fn inference_inputs(&mut self, mono: &Vec<Binary32>, session_id: Option<&str>) -> (r:
        InferenceInputs)
        requires
            old(self).wf(),
        ensures
            final(self).wf(),
            final(self).settings() == old(self).settings(),
            final(self).sessions() == opened(old(self).sessions(), session_key(session_id)),
            r.input_shape@ == seq![1usize, mono.len()],
            r.input@ == mono@,
            r.state_shape@ == seq![2usize, 1usize, 128usize],
            r.state@ == final(self).sessions()[session_key(session_id)].hidden,
            r.sr == old(self).settings().sampling_rate,
    {
        let key: &str = Self::key(session_id);
        self.open(key);
        let state: Vec<Binary32> = match self.states.get(key) {
            Some(s) => signal::copy(&s.state),
            None => Vec::new(),
        };
        InferenceInputs {
            input_shape: [1, mono.len()],
            input: signal::copy(mono),
            state_shape: [2, 1, 128],
            state,
            sr: self.config.sampling_rate as i64,
        }
    }

    /// Takes in a chunk that the model was run on, and reports it. Where running it
    /// failed, only the session is opened.
    pub fn vad_event_for(
        &mut self,
        mono: &Vec<Binary32>,
        session_id: Option<&str>,
        outcome: Result<InferenceOutputs, Error>,
    ) -> (r: Result<VadEvent, Error>)
        requires
            old(self).wf(),
            outcome matches Ok(out) ==> out.wf() && old(self).has_room_for(
                session_id,
                mono@.len(),
            ),
        ensures
            final(self).wf(),
            final(self).settings() == old(self).settings(),
            (final(self).sessions(), r) == listened(
                old(self).settings(),
                old(self).sessions(),
                session_key(session_id),
                mono@,
                outcome,
            ),
    {
        let key: &str = Self::key(session_id);
        let ghost start = *self;
        self.open(key);
        let ghost sessions = opened(start.sessions(), key@);
        let out: InferenceOutputs = match outcome {
            Ok(out) => out,
            Err(e) => {
                return Err(e);
            },
        };
        let (rms, peak) = signal::level(mono);
        let speech_probability: Binary32 = out.output[0];
        let n: usize = mono.len();
        let ghost hidden = out.state@;
        let ghost before = *self;
        let state: &mut VADState = self.states.get_mut(key).unwrap();
        proof {
            assert(before.states@.contains_key(key@));
            assert(state@ == sessions[key@]);
        }
        let (is_speech_start, is_speech_end) = state.observe(
            &self.config,
            speech_probability,
            n,
            out.state,
        );
        let event: VadEvent = VadEvent {
            has_speech: speech_probability.ge(self.config.threshold),
            speech_probability,
            is_speech_start,
            is_speech_end,
            timestamp_ms: signal::position_ms(
                state.current_sample,
                self.config.sampling_rate,
            ),
            rms,
            peak,
            samples: n,
            sample_rate: self.config.sampling_rate,
        };
        proof {
            assert(self.sessions() =~= sessions.insert(
                key@,
                sessions[key@].after(
                    start.config,
                    speech_probability,
                    mono@.len(),
                    hidden,
                ),
            ));
        }
        Ok(event)
    }

    pub open spec fn accepts(self, heard: Option<Heard>, session_id: Option<&str>) -> bool {
        heard matches Some(h) ==> (h.outcome matches Ok(out) ==> out.wf() && self.has_room_for(
            session_id,
            h.mono@.len(),
        ))
    }

    /// One input, one output: the report of a chunk; what is no audio, as it came.
    pub fn process(&mut self, heard: Option<Heard>) -> (r: Result<Emission, Error>)
        requires
            old(self).wf(),
            old(self).accepts(heard, None),
        ensures
            final(self).wf(),
            final(self).settings() == old(self).settings(),
            match heard {
                None => r == Ok::<Emission, Error>(Emission::Input) && final(self).sessions()
                    == old(self).sessions(),
                Some(h) => {
                    let (sessions, event) = listened(
                        old(self).settings(),
                        old(self).sessions(),
                        "default"@,
                        h.mono@,
                        h.outcome,
                    );
                    &&& final(self).sessions() == sessions
                    &&& match event {
                        Ok(e) => r == Ok::<Emission, Error>(Emission::Event(e)),
                        Err(e) => r == Err::<Emission, Error>(e),
                    }
                },
            },
    {
        match heard {
            None => Ok(Emission::Input),
            Some(h) => match self.vad_event_for(&h.mono, None, h.outcome) {
                Ok(event) => Ok(Emission::Event(event)),
                Err(e) => Err(e),
            },
        }
    }

    /// One input, all its outputs: the report of a chunk and then the chunk; what is no
    /// audio, as it came.
    pub fn process_streaming(&mut self, heard: Option<Heard>, session_id: Option<&str>) -> (r:
        Result<Vec<Emission>, Error>)
        requires
            old(self).wf(),
            old(self).accepts(heard, session_id),
        ensures
            final(self).wf(),
            final(self).settings() == old(self).settings(),
            match heard {
                None => {
                    &&& r is Ok
                    &&& r->Ok_0@ == seq![Emission::Input]
                    &&& final(self).sessions() == old(self).sessions()
                },
                Some(h) => {
                    let (sessions, event) = listened(
                        old(self).settings(),
                        old(self).sessions(),
                        session_key(session_id),
                        h.mono@,
                        h.outcome,
                    );
                    &&& final(self).sessions() == sessions
                    &&& match event {
                        Ok(e) => r is Ok && r->Ok_0@ == seq![Emission::Event(e), Emission::Input],
                        Err(e) => r == Err::<Vec<Emission>, Error>(e),
                    }
                },
            },
    {
        let mut out: Vec<Emission> = Vec::new();
        match heard {
            None => {},
            Some(h) => match self.vad_event_for(&h.mono, session_id, h.outcome) {
                Ok(event) => {
                    out.push(Emission::Event(event));
                },
                Err(e) => {
                    return Err(e);
                },
            },
        }
        out.push(Emission::Input);
        Ok(out)
    }

    /// Forgets what was heard of a session.
    pub fn reset_buffers(&mut self, session_id: &str)
        requires
            old(self).wf(),
        ensures
            final(self).wf(),
            final(self).settings() == old(self).settings(),
            final(self).sessions() == old(self).sessions().insert(
                session_id@,
                VadModel::fresh(),
            ),
    {
        let ghost before = *self;
        self.states.insert(session_id, VADState::default());
        assert(self.sessions() =~= before.sessions().insert(session_id@, VadModel::fresh()));
    }

    /// Whether there is speech in samples that another detector heard an end in.
    pub fn evaluate_veto(
        &mut self,
        session_id: &str,
        audio_samples: &Vec<Binary32>,
        outcome: Result<InferenceOutputs, Error>,
    ) -> (r: Result<bool, Error>)
        requires
            old(self).wf(),
            outcome matches Ok(out) ==> out.wf() && old(self).has_room_for(
                Some(session_id),
                audio_samples@.len(),
            ),
        ensures
            final(self).wf(),
            final(self).settings() == old(self).settings(),
            ({
                let (sessions, event) = listened(
                    old(self).settings(),
                    old(self).sessions(),
                    session_id@,
                    audio_samples@,
                    outcome,
                );
                &&& final(self).sessions() == sessions
                &&& match event {
                    Ok(e) => r == Ok::<bool, Error>(e.has_speech),
                    Err(e) => r == Err::<bool, Error>(e),
                }
            }),
    {
        match self.vad_event_for(audio_samples, Some(session_id), outcome) {
            Ok(event) => Ok(event.has_speech),
            Err(e) => Err(e),
        }
    }

    pub fn node_type(&self) -> (s: &'static str)
        ensures
            s@ == "SileroVADNode"@,
    {
        "SileroVADNode"
    }
}

} // verus!
