//! The way of a chunk through the coordinator. Each step hands out what is to be done
//! outside before the next one can be taken: audio is forwarded before anything is kept
//! of it, and the model is run on it before it is settled.

use serde_json::Value;
use vstd::prelude::*;

use crate::config::{SileroVADConfig, SpeculativeVADCoordinatorConfig};
use crate::coordinator;
use crate::coordinator::{CoordinatorModel, ForwardedAudio, Output, SpeculativeVADCoordinator};
use crate::data::{AudioChunk, MediaInput};
use crate::error::Error;
use crate::json::VadReading;
use crate::numbers::Binary32;
use crate::signal;
use crate::vad;
use crate::vad::{Heard, InferenceInputs, InferenceOutputs, VadEvent, VadModel};

verus! {

/// What a coordinator and its detector know of all sessions.
#[verifier::ext_equal]
pub struct Known {
    pub ledger: Map<Seq<char>, CoordinatorModel>,
    pub detector: Map<Seq<char>, VadModel>,
}

impl Known {
    /// What is known of one session, by the coordinator and by its detector.
    pub open spec fn about(self, session: Seq<char>) -> (Option<CoordinatorModel>, Option<VadModel>) {
        let key = coordinator::detector_session(session);
        (
            if self.ledger.contains_key(session) {
                Some(self.ledger[session])
            } else {
                None
            },
            if self.detector.contains_key(key) {
                Some(self.detector[key])
            } else {
                None
            },
        )
    }

    /// After a chunk of a session was forwarded: it is kept, and the detector has the session.
    pub open spec fn forwarded(
        self,
        settings: SpeculativeVADCoordinatorConfig,
        session: Seq<char>,
        samples: Seq<Binary32>,
    ) -> Known {
        let ledger = coordinator::opened(settings, self.ledger, session);
        Known {
            ledger: ledger.insert(session, ledger[session].keeping(samples)),
            detector: vad::opened(self.detector, coordinator::detector_session(session)),
        }
    }

    /// What the detector reports of a chunk of a session on which the model was run.
    pub open spec fn report(
        self,
        config: SileroVADConfig,
        session: Seq<char>,
        mono: Seq<Binary32>,
        outcome: Result<InferenceOutputs, Error>,
    ) -> Result<VadEvent, Error> {
        let key = coordinator::detector_session(session);
        vad::listened(config, self.detector, key, mono, outcome).1
    }

    /// After the model was run on a chunk of `n` samples: the detector has heard it. Where
    /// running it failed, the chunk is counted.
    pub open spec fn ran(
        self,
        config: SileroVADConfig,
        session: Seq<char>,
        n: nat,
        mono: Seq<Binary32>,
        outcome: Result<InferenceOutputs, Error>,
    ) -> Known {
        let key = coordinator::detector_session(session);
        Known {
            ledger: if outcome is Err && self.ledger.contains_key(session) {
                self.ledger.insert(session, self.ledger[session].passed(n))
            } else {
                self.ledger
            },
            detector: vad::listened(config, self.detector, key, mono, outcome).0,
        }
    }

    /// After the report on a chunk of `n` samples was read.
    pub open spec fn described(
        self,
        settings: SpeculativeVADCoordinatorConfig,
        session: Seq<char>,
        reading: VadReading,
        n: nat,
    ) -> Known {
        Known {
            ledger: if self.ledger.contains_key(session) {
                self.ledger.insert(session, self.ledger[session].after(settings, reading, n))
            } else {
                self.ledger
            },
            detector: self.detector,
        }
    }
}

impl SpeculativeVADCoordinator {
    pub open spec fn known(self) -> Known {
        Known { ledger: self.ledger(), detector: self.detector().sessions() }
    }
}

/// A chunk that is being forwarded.
pub struct Arrived {
    pub session: String,
    pub chunk: AudioChunk,
}

/// A chunk that was forwarded and kept, on which the model is being run.
pub struct Listening {
    pub session: String,
    /// How many samples the chunk had when it came.
    pub samples: usize,
    pub mono: Vec<Binary32>,
}

/// A chunk of which there is a report.
pub struct Settling {
    pub session: String,
    pub samples: usize,
}

/// What came of listening.
pub enum Listened {
    /// There is a report.
    Reported(Settling, VadEvent),
    /// There is none, and nothing more to be done.
    Unheard,
}

impl SpeculativeVADCoordinator {
    /// Takes in an input. Audio is to be forwarded at once; nothing else is taken.
    pub fn process_streaming(&self, data: MediaInput, session_id: Option<String>) -> (r: Result<
        (Arrived, ForwardedAudio),
        Error,
    >)
        ensures
            match data {
                MediaInput::Audio(chunk) => {
                    &&& r matches Ok((arrived, out))
                    &&& arrived.session@ == match session_id {
                        Some(id) => id@,
                        None => "default"@,
                    }
                    &&& arrived.chunk == chunk
                    &&& out.is_forwarded(chunk)
                },
                _ => r is Err && r->Err_0.text()
                    == "SpeculativeVADCoordinator requires audio input"@,
            },
    {
        let session: String = Self::session_name(session_id);
        let out: ForwardedAudio = match self.forward(&data) {
            Ok(out) => out,
            Err(e) => {
                return Err(e);
            },
        };
        match data {
            MediaInput::Audio(chunk) => Ok((Arrived { session, chunk }, out)),
            _ => Err(Error::Execution("SpeculativeVADCoordinator requires audio input".to_owned())),
        }
    }
}

impl Arrived {
    /// The chunk can be brought to the rate that is listened to, and there is a session for
    /// it or there can be one.
    pub open spec fn fits(self, c: SpeculativeVADCoordinator) -> bool {
        &&& signal::resamples(
            self.chunk.samples@.len(),
            self.chunk.sample_rate as nat,
            c.detector().settings().sampling_rate as nat,
        )
        &&& c.ledger().contains_key(self.session@) || c.settings().has_lookback()
    }

    pub fn is_fit(&self, c: &SpeculativeVADCoordinator) -> (r: bool)
        requires
            c.wf(),
        ensures
            r == self.fits(*c),
    {
        signal::can_resample(
            self.chunk.samples.len(),
            self.chunk.sample_rate,
            c.vad_node().config().sampling_rate,
        ) && (c.has_session(self.session.as_str()) || c.has_lookback())
    }

    /// Once the chunk was forwarded, it is kept, and the model is to be run on it.
    pub fn forwarded(self, c: &mut SpeculativeVADCoordinator) -> (r: (Listening, InferenceInputs))
        requires
            old(c).wf(),
            self.fits(*old(c)),
        ensures
            final(c).wf(),
            final(c).settings() == old(c).settings(),
            final(c).detector().settings() == old(c).detector().settings(),
            final(c).known() == old(c).known().forwarded(
                old(c).settings(),
                self.session@,
                self.chunk.samples@,
            ),
            ({
                let key = coordinator::detector_session(self.session@);
                let mono = vad::mono_of(old(c).detector().settings(), self.chunk);
                &&& r.0.session@ == self.session@
                &&& r.0.samples == self.chunk.samples@.len()
                &&& r.0.mono@ == mono
                &&& r.1.input_shape@ == seq![1usize, r.0.mono.len()]
                &&& r.1.input@ == mono
                &&& r.1.state_shape@ == seq![2usize, 1usize, 128usize]
                &&& r.1.state@ == final(c).detector().sessions()[key].hidden
                &&& r.1.sr == old(c).settings().sample_rate
            }),
    {
        c.keep_chunk(self.session.as_str(), &self.chunk.samples);
        let samples: usize = self.chunk.samples.len();
        let mono: Vec<Binary32> = c.vad_node().mono_of_chunk(&self.chunk);
        let inputs: InferenceInputs = c.inference_inputs(self.session.as_str(), &mono);
        (Listening { session: self.session, samples, mono }, inputs)
    }
}

impl Listening {
    /// The session can count the chunk.
    pub open spec fn fits(self, c: SpeculativeVADCoordinator) -> bool {
        &&& c.ledger().contains_key(self.session@)
        &&& c.ledger()[self.session@].can_count(self.samples as nat)
    }

    pub fn is_fit(&self, c: &SpeculativeVADCoordinator) -> (r: bool)
        requires
            c.wf(),
        ensures
            r == self.fits(*c),
    {
        c.has_session(self.session.as_str()) && c.has_room(self.session.as_str(), self.samples)
    }

    /// Once the model was run, there is a report. Where running it failed, the chunk is
    /// counted and nothing is said of it.
    pub fn ran(
        self,
        c: &mut SpeculativeVADCoordinator,
        outcome: Result<InferenceOutputs, Error>,
    ) -> (r: Listened)
        requires
            old(c).wf(),
            self.fits(*old(c)),
            outcome matches Ok(out) ==> out.wf() && old(c).detector_has_room_for(
                self.session@,
                self.mono@.len(),
            ),
        ensures
            final(c).wf(),
            final(c).settings() == old(c).settings(),
            final(c).detector().settings() == old(c).detector().settings(),
            final(c).known() == old(c).known().ran(
                old(c).detector().settings(),
                self.session@,
                self.samples as nat,
                self.mono@,
                outcome,
            ),
            match old(c).known().report(
                old(c).detector().settings(),
                self.session@,
                self.mono@,
                outcome,
            ) {
                Ok(event) => {
                    &&& r matches Listened::Reported(settling, reported)
                    &&& settling.session@ == self.session@
                    &&& settling.samples == self.samples
                    &&& reported == event
                },
                Err(_) => r is Unheard,
            },
    {
        let event: Option<VadEvent> = c.vad_result(
            self.session.as_str(),
            Some(Heard { mono: self.mono, outcome }),
        );
        match event {
            Some(event) => Listened::Reported(
                Settling { session: self.session, samples: self.samples },
                event,
            ),
            None => {
                let _ = c.settle_chunk(self.session.as_str(), self.samples, None, 0);
                Listened::Unheard
            },
        }
    }
}

impl Settling {
    /// The session can count the chunk.
    pub open spec fn fits(self, c: SpeculativeVADCoordinator) -> bool {
        &&& c.ledger().contains_key(self.session@)
        &&& c.ledger()[self.session@].can_count(self.samples as nat)
    }

    pub fn is_fit(&self, c: &SpeculativeVADCoordinator) -> (r: bool)
        requires
            c.wf(),
        ensures
            r == self.fits(*c),
    {
        c.has_session(self.session.as_str()) && c.has_room(self.session.as_str(), self.samples)
    }

    /// Once the report was written, it is read, and what is to be given out is known: what
    /// is taken back, if something is, and then the report.
    pub fn described(self, c: &mut SpeculativeVADCoordinator, report: &Value, now_ms: u64) -> (r:
        Vec<Output>)
        requires
            old(c).wf(),
            self.fits(*old(c)),
        ensures
            final(c).wf(),
            final(c).settings() == old(c).settings(),
            final(c).detector() == old(c).detector(),
            final(c).known() == old(c).known().described(
                old(c).settings(),
                self.session@,
                VadReading::of(*report),
                self.samples as nat,
            ),
            ({
                let before = old(c).ledger()[self.session@];
                let reading = VadReading::of(*report);
                if before.cancels(old(c).settings(), reading) {
                    &&& r@.len() == 2
                    &&& r@[0] matches Output::Cancel(x)
                    &&& before.is_cancellation(
                        old(c).settings(),
                        self.session@,
                        reading,
                        now_ms,
                        x,
                    )
                    &&& r@[1] == Output::Report
                } else {
                    r@ == seq![Output::Report]
                }
            }),
    {
        c.settle_chunk(self.session.as_str(), self.samples, Some(report), now_ms)
    }
}

/// How many outputs of an input were delivered.
#[derive(Clone, Copy, PartialEq, Eq, Structural, Debug)]
pub struct Delivery {
    pub count: usize,
}

impl Delivery {
    /// The delivery after the one more output of which `outcome` tells: the first that fails
    /// ends it.
    pub open spec fn after<E>(self, outcome: Result<(), E>) -> Result<Delivery, E> {
        match outcome {
            Ok(_) => Ok(Delivery { count: (self.count + 1) as usize }),
            Err(e) => Err(e),
        }
    }

    /// The delivery after many outputs. None is delivered after one that failed.
    pub open spec fn after_all<E>(self, outcomes: Seq<Result<(), E>>) -> Result<Delivery, E>
        decreases outcomes.len(),
    {
        if outcomes.len() == 0 {
            Ok(self)
        } else {
            match self.after_all(outcomes.drop_last()) {
                Ok(d) => d.after(outcomes.last()),
                Err(e) => Err(e),
            }
        }
    }

    /// Nothing was delivered yet.
    pub fn new() -> (d: Delivery)
        ensures
            d.count == 0,
    {
        Delivery { count: 0 }
    }

    /// Takes in what came of delivering one more output.
    pub fn delivered<E>(self, outcome: Result<(), E>) -> (r: Result<Delivery, E>)
        requires
            self.count < usize::MAX,
        ensures
            r == self.after(outcome),
            match outcome {
                Ok(_) => r is Ok && r->Ok_0.count == self.count + 1,
                Err(e) => r == Err::<Delivery, E>(e),
            },
    {
        match outcome {
            Ok(_) => Ok(Delivery { count: self.count + 1 }),
            Err(e) => Err(e),
        }
    }
}

} // verus!
