//! What holds of the two nodes over any stretch of audio.

use vstd::prelude::*;

use crate::arith;
use crate::arith::Format;
use crate::config::{SileroVADConfig, SpeculativeVADCoordinatorConfig};
use crate::coordinator;
use crate::coordinator::{Cancellation, CoordinatorModel};
use crate::data::{AudioChunk, ControlMessageType};
use crate::error::Error;
use crate::json::VadReading;
use crate::numbers;
use crate::numbers::{Binary32, Binary64};
use crate::signal;
use crate::text;
use crate::turn::{Delivery, Known};
use crate::vad;
use crate::vad::{InferenceOutputs, VadModel};

verus! {

/// What the model gave for a chunk.
pub struct Run {
    /// What it says of the chunk.
    pub probability: Binary32,
    /// The hidden state that it leaves.
    pub hidden: Seq<Binary32>,
}

/// A chunk of a session.
pub struct Chunk {
    /// The samples as they came.
    pub samples: Seq<Binary32>,
    /// Their one channel, at the rate that is listened to.
    pub mono: Seq<Binary32>,
    /// What the model gave; nothing, where running it failed.
    pub run: Option<Run>,
}

impl Chunk {
    /// Speech begins with the chunk, where `d` is known before it.
    pub open spec fn starts(self, config: SileroVADConfig, d: VadModel) -> bool {
        self.run matches Some(r) && d.starts(config, r.probability)
    }

    /// Speech ends with the chunk.
    pub open spec fn ends(self, config: SileroVADConfig, d: VadModel) -> bool {
        self.run matches Some(r) && d.ends(config, r.probability, self.mono.len())
    }

    /// What is read from the report of the chunk; nothing, where there is none.
    pub open spec fn reading(self, config: SileroVADConfig, d: VadModel) -> Option<VadReading> {
        match self.run {
            Some(r) => Some(d.event(config, self.mono, r.probability).reading()),
            None => None,
        }
    }
}

/// How many samples were heard: those of the chunks on which the model was run.
pub open spec fn total(chunks: Seq<Chunk>) -> nat
    decreases chunks.len(),
{
    if chunks.len() == 0 {
        0
    } else {
        total(chunks.drop_last()) + if chunks.last().run is Some {
            chunks.last().mono.len()
        } else {
            0
        }
    }
}

/// How many chunks the model was run on.
pub open spec fn runs_among(chunks: Seq<Chunk>) -> nat
    decreases chunks.len(),
{
    if chunks.len() == 0 {
        0
    } else {
        runs_among(chunks.drop_last()) + if chunks.last().run is Some {
            1nat
        } else {
            0
        }
    }
}

/// How many samples came, heard or not.
pub open spec fn seen(chunks: Seq<Chunk>) -> nat
    decreases chunks.len(),
{
    if chunks.len() == 0 {
        0
    } else {
        seen(chunks.drop_last()) + chunks.last().samples.len()
    }
}

impl VadModel {
    /// What is known after a chunk. One on which the model could not be run changes nothing.
    pub open spec fn after_chunk(self, config: SileroVADConfig, c: Chunk) -> VadModel {
        match c.run {
            Some(r) => self.after(config, r.probability, c.mono.len(), r.hidden),
            None => self,
        }
    }

    /// What is known after many chunks.
    pub open spec fn after_all(self, config: SileroVADConfig, chunks: Seq<Chunk>) -> VadModel
        decreases chunks.len(),
    {
        if chunks.len() == 0 {
            self
        } else {
            self.after_all(config, chunks.drop_last()).after_chunk(config, chunks.last())
        }
    }

    /// How many of the chunks begin speech.
    pub open spec fn starts_among(self, config: SileroVADConfig, chunks: Seq<Chunk>) -> nat
        decreases chunks.len(),
    {
        if chunks.len() == 0 {
            0
        } else {
            let t = chunks.drop_last();
            self.starts_among(config, t) + if chunks.last().starts(
                config,
                self.after_all(config, t),
            ) {
                1nat
            } else {
                0
            }
        }
    }

    /// How many of the chunks end speech.
    pub open spec fn ends_among(self, config: SileroVADConfig, chunks: Seq<Chunk>) -> nat
        decreases chunks.len(),
    {
        if chunks.len() == 0 {
            0
        } else {
            let t = chunks.drop_last();
            self.ends_among(config, t) + if chunks.last().ends(config, self.after_all(config, t)) {
                1nat
            } else {
                0
            }
        }
    }

    /// How many samples came before the latest of the chunks that begin speech; nothing, if
    /// none does.
    pub open spec fn latest_start(self, config: SileroVADConfig, chunks: Seq<Chunk>) -> Option<nat>
        decreases chunks.len(),
    {
        if chunks.len() == 0 {
            None
        } else {
            let t = chunks.drop_last();
            if chunks.last().starts(config, self.after_all(config, t)) {
                Some(seen(t))
            } else {
                self.latest_start(config, t)
            }
        }
    }
}

/// The hidden states that the model leaves have the size that they are to have.
pub open spec fn well_sized(chunks: Seq<Chunk>) -> bool {
    forall|i: int|
        0 <= i < chunks.len() ==> ((#[trigger] chunks[i]).run matches Some(r) ==> r.hidden.len()
            == vad::HIDDEN_LEN)
}

/// What holds of all chunks holds of all but the last.
pub proof fn lemma_well_sized_prefix(chunks: Seq<Chunk>)
    requires
        chunks.len() > 0,
        well_sized(chunks),
    ensures
        well_sized(chunks.drop_last()),
        chunks.last().run matches Some(r) ==> r.hidden.len() == vad::HIDDEN_LEN,
{
    let t = chunks.drop_last();
    assert(chunks.last() == chunks[chunks.len() - 1]);
    assert forall|i: int| 0 <= i < t.len() implies ((#[trigger] t[i]).run matches Some(r)
        ==> r.hidden.len() == vad::HIDDEN_LEN) by {
        assert(t[i] == chunks[i]);
    }
}

/// Below the threshold or at it: the probability under which speech falls silent is never
/// above the one from which there is speech, so no chunk is both speech and silence.
pub proof fn lemma_silence_lies_below_speech(config: SileroVADConfig, probability: Binary32)
    requires
        !config.threshold.nan(),
    ensures
        config.threshold.at_least(config.neg_threshold_in_force()),
        config.is_speech(probability) ==> probability.at_least(config.neg_threshold_in_force()),
{
}

/// No chunk both begins and ends speech; only silence begins it, and only speech ends.
pub proof fn lemma_start_or_end(
    config: SileroVADConfig,
    s: VadModel,
    probability: Binary32,
    n: nat,
    hidden: Seq<Binary32>,
)
    requires
        s.wf(),
        hidden.len() == vad::HIDDEN_LEN,
    ensures
        ({
            let after = s.after(config, probability, n, hidden);
            &&& after.wf()
            &&& !(s.starts(config, probability) && s.ends(config, probability, n))
            &&& s.starts(config, probability) <==> !s.triggered && after.triggered
            &&& s.ends(config, probability, n) <==> s.triggered && !after.triggered
        }),
{
}

/// Begins and ends of speech take turns: over any chunks, those on which the model failed
/// among them, there are as many ends as begins, and one begin more while there is speech.
pub proof fn lemma_starts_and_ends_alternate(config: SileroVADConfig, chunks: Seq<Chunk>)
    requires
        well_sized(chunks),
    ensures
        ({
            let s = VadModel::fresh();
            &&& s.after_all(config, chunks).wf()
            &&& s.after_all(config, chunks).position == total(chunks)
            &&& s.starts_among(config, chunks) == s.ends_among(config, chunks) + if s.after_all(
                config,
                chunks,
            ).triggered {
                1nat
            } else {
                0
            }
        }),
    decreases chunks.len(),
{
    let s = VadModel::fresh();
    if chunks.len() > 0 {
        let t = chunks.drop_last();
        let c = chunks.last();
        lemma_well_sized_prefix(chunks);
        lemma_starts_and_ends_alternate(config, t);
        if let Some(r) = c.run {
            lemma_start_or_end(
                config,
                s.after_all(config, t),
                r.probability,
                c.mono.len(),
                r.hidden,
            );
        }
    }
}

/// A chunk that is neither speech nor silence holds the speech that has begun: nothing
/// ends with it, and silence is counted anew.
pub proof fn lemma_speech_is_held(
    config: SileroVADConfig,
    s: VadModel,
    probability: Binary32,
    n: nat,
    hidden: Seq<Binary32>,
)
    requires
        s.wf(),
        !config.is_speech(probability),
        probability.at_least(config.neg_threshold_in_force()),
    ensures
        ({
            let after = s.after(config, probability, n, hidden);
            &&& after.triggered == s.triggered
            &&& after.silence == 0
            &&& !s.ends(config, probability, n)
        }),
{
}

/// Every chunk that the model was run on is silence.
pub open spec fn all_silent(config: SileroVADConfig, chunks: Seq<Chunk>) -> bool {
    forall|i: int|
        0 <= i < chunks.len() ==> ((#[trigger] chunks[i]).run matches Some(r)
            ==> config.is_silence(r.probability))
}

proof fn lemma_nothing_heard(config: SileroVADConfig, s: VadModel, chunks: Seq<Chunk>)
    requires
        runs_among(chunks) == 0,
    ensures
        s.after_all(config, chunks) == s,
        total(chunks) == 0,
    decreases chunks.len(),
{
    if chunks.len() > 0 {
        lemma_nothing_heard(config, s, chunks.drop_last());
    }
}

/// Speech ends with silence that lasts long enough, and with no other, however the silence
/// is cut into chunks. Chunks on which the model failed do not count.
pub proof fn lemma_silence_ends_speech(
    config: SileroVADConfig,
    s: VadModel,
    chunks: Seq<Chunk>,
)
    requires
        s.wf(),
        s.triggered,
        runs_among(chunks) > 0,
        all_silent(config, chunks),
        s.silence + total(chunks) <= u64::MAX,
    ensures
        s.after_all(config, chunks).triggered <==> signal::whole_ms(
            s.silence + total(chunks),
            config.sampling_rate as nat,
        ) < config.min_silence_duration_ms,
        s.after_all(config, chunks).triggered ==> s.after_all(config, chunks).silence
            == s.silence + total(chunks),
    decreases chunks.len(),
{
    let t = chunks.drop_last();
    let c = chunks.last();
    assert(c == chunks[chunks.len() - 1]);
    assert(all_silent(config, t)) by {
        assert forall|i: int| 0 <= i < t.len() implies ((#[trigger] t[i]).run matches Some(r)
            ==> config.is_silence(r.probability)) by {
            assert(t[i] == chunks[i]);
        }
    }
    signal::lemma_time_monotone(
        s.silence + total(t),
        s.silence + total(chunks),
        config.sampling_rate as nat,
    );
    if runs_among(t) > 0 {
        lemma_silence_ends_speech(config, s, t);
    } else {
        lemma_nothing_heard(config, s, t);
    }
    assert(s.after_all(config, chunks) == s.after_all(config, t).after_chunk(config, c));
}

/// The time that reports tell never goes back.
pub proof fn lemma_reports_move_on(
    config: SileroVADConfig,
    s: VadModel,
    mono: Seq<Binary32>,
    probability: Binary32,
    hidden: Seq<Binary32>,
    next: Seq<Binary32>,
    next_probability: Binary32,
)
    requires
        s.position + mono.len() + next.len() <= usize::MAX,
    ensures
        s.event(config, mono, probability).timestamp_ms <= s.after(
            config,
            probability,
            mono.len(),
            hidden,
        ).event(config, next, next_probability).timestamp_ms,
{
    let a = s.position + mono.len();
    let b = a + next.len();
    signal::lemma_time_monotone(a, b, config.sampling_rate as nat);
}

/// What is heard of one session changes nothing of another.
pub proof fn lemma_sessions_are_apart(
    config: SileroVADConfig,
    sessions: Map<Seq<char>, VadModel>,
    key: Seq<char>,
    other: Seq<char>,
    mono: Seq<Binary32>,
    outcome: Result<InferenceOutputs, Error>,
)
    requires
        key != other,
    ensures
        ({
            let after = vad::listened(config, sessions, key, mono, outcome).0;
            &&& after.contains_key(other) == sessions.contains_key(other)
            &&& sessions.contains_key(other) ==> after[other] == sessions[other]
        }),
{
}

/// A session that was forgotten reports what a new one does.
pub proof fn lemma_reset_session_is_new(
    config: SileroVADConfig,
    sessions: Map<Seq<char>, VadModel>,
    key: Seq<char>,
    mono: Seq<Binary32>,
    outcome: Result<InferenceOutputs, Error>,
)
    ensures
        ({
            let forgotten = sessions.insert(key, VadModel::fresh());
            let none = Map::<Seq<char>, VadModel>::empty();
            let a = vad::listened(config, forgotten, key, mono, outcome);
            let b = vad::listened(config, none, key, mono, outcome);
            a.1 == b.1 && a.0[key] == b.0[key]
        }),
{
}

/// Where the model could not be run, a session stays as it was.
pub proof fn lemma_failure_leaves_session(
    config: SileroVADConfig,
    sessions: Map<Seq<char>, VadModel>,
    key: Seq<char>,
    mono: Seq<Binary32>,
    error: Error,
)
    ensures
        ({
            let r = vad::listened(config, sessions, key, mono, Err(error));
            &&& r.1 == Err::<vad::VadEvent, Error>(error)
            &&& sessions.contains_key(key) ==> r.0 == sessions
        }),
{
}

/// One channel at the rate that is listened to is heard as it came.
pub proof fn lemma_mono_is_heard_as_is(config: SileroVADConfig, chunk: AudioChunk)
    requires
        chunk.sample_rate == config.sampling_rate,
        chunk.channels <= 1,
    ensures
        vad::mono_of(config, chunk) == chunk.samples@,
{
}

/// Many channels at that rate are heard as one sample a frame.
pub proof fn lemma_frames_are_heard(config: SileroVADConfig, chunk: AudioChunk, n: nat)
    requires
        chunk.sample_rate == config.sampling_rate,
        chunk.channels > 1,
        chunk.samples@.len() == n * chunk.channels,
    ensures
        vad::mono_of(config, chunk).len() == n,
{
    let c = chunk.channels as int;
    vstd::arithmetic::div_mod::lemma_fundamental_div_mod_converse(
        chunk.samples@.len() + c - 1,
        c,
        n as int,
        c - 1,
    );
}

/// All samples of many chunks.
pub open spec fn joined(chunks: Seq<Seq<Binary32>>) -> Seq<Binary32>
    decreases chunks.len(),
{
    if chunks.len() == 0 {
        Seq::empty()
    } else {
        joined(chunks.drop_last()) + chunks.last()
    }
}

impl CoordinatorModel {
    /// With many chunks kept, one after the other.
    pub open spec fn keeping_all(self, chunks: Seq<Seq<Binary32>>) -> CoordinatorModel
        decreases chunks.len(),
    {
        if chunks.len() == 0 {
            self
        } else {
            self.keeping_all(chunks.drop_last()).keeping(chunks.last())
        }
    }
}

/// What is kept are the last samples, however they are cut into chunks.
pub proof fn lemma_last_samples_are_kept(s: CoordinatorModel, chunks: Seq<Seq<Binary32>>)
    requires
        s.wf(),
    ensures
        s.keeping_all(chunks) == s.keeping(joined(chunks)),
        s.keeping_all(chunks).kept == coordinator::last_of(
            s.kept + joined(chunks),
            s.room(),
        ),
    decreases chunks.len(),
{
    if chunks.len() == 0 {
        assert(s.kept + joined(chunks) =~= s.kept);
        assert(s.keeping(joined(chunks)) =~= s);
    } else {
        let t = chunks.drop_last();
        let c = chunks.last();
        lemma_last_samples_are_kept(s, t);
        let k = s.keeping(joined(t)).kept;
        assert(coordinator::last_of(k + c, s.room()) =~= coordinator::last_of(
            s.kept + joined(chunks),
            s.room(),
        ));
        assert(s.keeping_all(chunks) =~= s.keeping(joined(chunks)));
    }
}

/// Every operation keeps a session in order.
pub proof fn lemma_session_stays_wf(
    config: SpeculativeVADCoordinatorConfig,
    s: CoordinatorModel,
    samples: Seq<Binary32>,
    reading: VadReading,
    n: nat,
)
    requires
        s.wf(),
    ensures
        s.keeping(samples).wf(),
        s.after(config, reading, n).wf(),
        s.passed(n).wf(),
{
}

/// Speech that has ended is settled once: it is taken back if it was too short, and it is
/// accepted otherwise. Nothing else is counted.
pub proof fn lemma_ended_speech_is_settled(
    config: SpeculativeVADCoordinatorConfig,
    s: CoordinatorModel,
    reading: VadReading,
    n: nat,
)
    requires
        s.wf(),
    ensures
        ({
            let after = s.after(config, reading, n);
            &&& after.accepted + after.cancelled == s.accepted + s.cancelled + if s.ended(
                reading,
            ) is Some {
                1nat
            } else {
                0
            }
            &&& !(s.accepts(config, reading) && s.cancels(config, reading))
            &&& s.accepts(config, reading) ==> after.kept.len() == 0
            &&& !s.accepts(config, reading) ==> after.kept == s.kept
            &&& reading.is_speech_end ==> after.speech_start is None && !after.triggered
        }),
{
}

/// What is taken back is a stretch that has been seen: it does not end before it begins.
pub proof fn lemma_cancelled_stretch(s: CoordinatorModel, reading: VadReading)
    requires
        s.wf(),
    ensures
        s.ended(reading) matches Some(start) ==> start <= s.position,
{
}

/// What the coordinator knows of speech is what the detector knows, as long as it reads
/// the reports as they were made: every end that it hears of ends speech whose begin it
/// has heard of.
pub proof fn lemma_coordinator_in_step(
    config: SileroVADConfig,
    settings: SpeculativeVADCoordinatorConfig,
    d: VadModel,
    c: CoordinatorModel,
    mono: Seq<Binary32>,
    probability: Binary32,
    hidden: Seq<Binary32>,
    n: nat,
)
    requires
        d.wf(),
        c.wf(),
        d.triggered == c.triggered,
    ensures
        ({
            let reading = d.event(config, mono, probability).reading();
            let d_after = d.after(config, probability, mono.len(), hidden);
            let c_after = c.after(settings, reading, n);
            &&& d_after.triggered == c_after.triggered
            &&& reading.is_speech_end ==> c.ended(reading) is Some
            &&& reading.is_speech_start ==> c_after.speech_start == Some(c.position)
        }),
{
}

impl CoordinatorModel {
    /// What the coordinator knows after a chunk, where the detector knows `d` before it: the
    /// chunk is kept, and its report is read. One without a report is only counted.
    pub open spec fn after_chunk(
        self,
        settings: SpeculativeVADCoordinatorConfig,
        config: SileroVADConfig,
        d: VadModel,
        c: Chunk,
    ) -> CoordinatorModel {
        let kept = self.keeping(c.samples);
        match c.reading(config, d) {
            Some(reading) => kept.after(settings, reading, c.samples.len()),
            None => kept.passed(c.samples.len()),
        }
    }

    /// What the coordinator knows after many chunks, where the detector knows `d` before
    /// them.
    pub open spec fn after_all(
        self,
        settings: SpeculativeVADCoordinatorConfig,
        config: SileroVADConfig,
        d: VadModel,
        chunks: Seq<Chunk>,
    ) -> CoordinatorModel
        decreases chunks.len(),
    {
        if chunks.len() == 0 {
            self
        } else {
            let t = chunks.drop_last();
            self.after_all(settings, config, d, t).after_chunk(
                settings,
                config,
                d.after_all(config, t),
                chunks.last(),
            )
        }
    }

    /// How many of the chunks end speech that is taken back.
    pub open spec fn cancels_among(
        self,
        settings: SpeculativeVADCoordinatorConfig,
        config: SileroVADConfig,
        d: VadModel,
        chunks: Seq<Chunk>,
    ) -> nat
        decreases chunks.len(),
    {
        if chunks.len() == 0 {
            0
        } else {
            let t = chunks.drop_last();
            let before = self.after_all(settings, config, d, t);
            let reading = chunks.last().reading(config, d.after_all(config, t));
            self.cancels_among(settings, config, d, t) + if reading matches Some(r)
                && before.cancels(settings, r) {
                1nat
            } else {
                0
            }
        }
    }
}

/// Over any chunks of a session, those on which the model failed among them, the
/// coordinator accepts or takes back each speech that its detector ends, and nothing else.
/// It counts every sample, every cancellation, and knows where the speech that has not
/// ended began.
pub proof fn lemma_each_speech_is_settled(
    settings: SpeculativeVADCoordinatorConfig,
    config: SileroVADConfig,
    capacity: nat,
    chunks: Seq<Chunk>,
)
    requires
        well_sized(chunks),
    ensures
        ({
            let d = VadModel::fresh();
            let fresh = CoordinatorModel::fresh(capacity);
            let c = fresh.after_all(settings, config, d, chunks);
            &&& c.wf()
            &&& c.triggered == d.after_all(config, chunks).triggered
            &&& c.accepted + c.cancelled == d.ends_among(config, chunks)
            &&& c.cancelled == fresh.cancels_among(settings, config, d, chunks)
            &&& c.position == seen(chunks)
            &&& c.triggered ==> c.speech_start is Some && c.speech_start == d.latest_start(
                config,
                chunks,
            )
        }),
    decreases chunks.len(),
{
    let d = VadModel::fresh();
    let c = CoordinatorModel::fresh(capacity);
    if chunks.len() > 0 {
        let t = chunks.drop_last();
        let last = chunks.last();
        lemma_well_sized_prefix(chunks);
        lemma_each_speech_is_settled(settings, config, capacity, t);
        lemma_starts_and_ends_alternate(config, t);
        let db = d.after_all(config, t);
        let ck = c.after_all(settings, config, d, t).keeping(last.samples);
        let n = last.samples.len();
        if let Some(r) = last.run {
            let reading = db.event(config, last.mono, r.probability).reading();
            lemma_session_stays_wf(settings, ck, last.samples, reading, n);
            lemma_coordinator_in_step(
                config,
                settings,
                db,
                ck,
                last.mono,
                r.probability,
                r.hidden,
                n,
            );
            lemma_ended_speech_is_settled(settings, ck, reading, n);
        }
    }
}

/// Over any chunks of a session, those on which the model failed among them: what the last
/// chunk takes back bears the number of the cancellations before it, and is the stretch
/// from the samples before the latest begin of speech to the samples before this chunk. It
/// lasted for less than it had to.
pub proof fn lemma_cancellations(
    settings: SpeculativeVADCoordinatorConfig,
    config: SileroVADConfig,
    capacity: nat,
    session: Seq<char>,
    chunks: Seq<Chunk>,
    reading: VadReading,
    now_ms: u64,
    x: Cancellation,
)
    requires
        well_sized(chunks),
        chunks.len() > 0,
        seen(chunks) <= u64::MAX,
        ({
            let d = VadModel::fresh();
            let t = chunks.drop_last();
            let before = CoordinatorModel::fresh(capacity).after_all(settings, config, d, t);
            let kept = before.keeping(chunks.last().samples);
            &&& chunks.last().reading(config, d.after_all(config, t)) == Some(reading)
            &&& kept.cancels(settings, reading)
            &&& kept.is_cancellation(settings, session, reading, now_ms, x)
        }),
    ensures
        ({
            let d = VadModel::fresh();
            let fresh = CoordinatorModel::fresh(capacity);
            let t = chunks.drop_last();
            &&& x.segment_id@ == coordinator::segment_name(
                session,
                fresh.cancels_among(settings, config, d, t),
            )
            &&& d.latest_start(config, t) matches Some(start)
            &&& start <= seen(t)
            &&& x.message_type matches ControlMessageType::CancelSpeculation {
                from_timestamp,
                to_timestamp,
            }
            &&& from_timestamp == start
            &&& to_timestamp == seen(t)
            &&& x.duration_ms == signal::whole_ms(
                (seen(t) - start) as nat,
                settings.sample_rate as nat,
            )
            &&& x.duration_ms < settings.min_speech_duration_ms
        }),
{
    let d = VadModel::fresh();
    let t = chunks.drop_last();
    lemma_well_sized_prefix(chunks);
    lemma_each_speech_is_settled(settings, config, capacity, t);
    lemma_starts_and_ends_alternate(config, t);
}

/// Segments of different sessions, and different segments of one session, have different
/// names.
pub proof fn lemma_segment_names_differ(a: Seq<char>, m: nat, b: Seq<char>, n: nat)
    requires
        coordinator::segment_name(a, m) == coordinator::segment_name(b, n),
    ensures
        a == b,
        m == n,
{
    reveal_strlit("_");
    text::lemma_decimal_digits(m);
    text::lemma_decimal_digits(n);
    let x = text::decimal(m);
    let y = text::decimal(n);
    let s = coordinator::segment_name(a, m);
    let t = coordinator::segment_name(b, n);
    assert(s.len() == a.len() + 1 + x.len());
    assert(t.len() == b.len() + 1 + y.len());
    // The last underscore of a name stands before its number.
    assert(s[a.len() as int] == '_');
    assert(t[b.len() as int] == '_');
    assert forall|i: int| 0 <= i < x.len() implies s[a.len() + 1 + i] == #[trigger] x[i] by {}
    assert forall|i: int| 0 <= i < y.len() implies t[b.len() + 1 + i] == #[trigger] y[i] by {}
    if a.len() < b.len() {
        let i = b.len() - a.len() - 1;
        assert(s[a.len() + 1 + i] == x[i]);
        assert(false);
    }
    if b.len() < a.len() {
        let i = a.len() - b.len() - 1;
        assert(t[b.len() + 1 + i] == y[i]);
        assert(false);
    }
    assert(a =~= s.take(a.len() as int));
    assert(b =~= t.take(b.len() as int));
    assert(x =~= s.skip(a.len() as int + 1));
    assert(y =~= t.skip(b.len() as int + 1));
    text::lemma_decimal_injective(m, n);
}

/// Different sessions of the coordinator are different sessions of its detector.
pub proof fn lemma_detector_sessions_differ(a: Seq<char>, b: Seq<char>)
    requires
        coordinator::detector_session(a) == coordinator::detector_session(b),
    ensures
        a == b,
{
    reveal_strlit("_vad");
    let s = coordinator::detector_session(a);
    assert(a =~= s.take(s.len() - 4));
    assert(b =~= s.take(s.len() - 4));
}

/// A step of a turn of the coordinator.
pub enum Step {
    /// A chunk was forwarded.
    Forwarded { samples: Seq<Binary32> },
    /// The model was run on a chunk of `n` samples.
    Ran { n: nat, mono: Seq<Binary32>, outcome: Result<InferenceOutputs, Error> },
    /// The report on a chunk of `n` samples was read.
    Described { reading: VadReading, n: nat },
}

impl Known {
    /// After a step of a session.
    pub open spec fn after_step(
        self,
        settings: SpeculativeVADCoordinatorConfig,
        config: SileroVADConfig,
        session: Seq<char>,
        step: Step,
    ) -> Known {
        match step {
            Step::Forwarded { samples } => self.forwarded(settings, session, samples),
            Step::Ran { n, mono, outcome } => self.ran(config, session, n, mono, outcome),
            Step::Described { reading, n } => self.described(settings, session, reading, n),
        }
    }

    /// After many steps, each of some session.
    pub open spec fn after_steps(
        self,
        settings: SpeculativeVADCoordinatorConfig,
        config: SileroVADConfig,
        steps: Seq<(Seq<char>, Step)>,
    ) -> Known
        decreases steps.len(),
    {
        if steps.len() == 0 {
            self
        } else {
            let (session, step) = steps.last();
            self.after_steps(settings, config, steps.drop_last()).after_step(
                settings,
                config,
                session,
                step,
            )
        }
    }
}

/// The steps of one session, in their order.
pub open spec fn steps_of(session: Seq<char>, steps: Seq<(Seq<char>, Step)>) -> Seq<
    (Seq<char>, Step),
>
    decreases steps.len(),
{
    if steps.len() == 0 {
        steps
    } else if steps.last().0 == session {
        steps_of(session, steps.drop_last()).push(steps.last())
    } else {
        steps_of(session, steps.drop_last())
    }
}

/// A step of one session leaves what the coordinator and its detector know of another as
/// it was.
pub proof fn lemma_step_leaves_other_sessions(
    settings: SpeculativeVADCoordinatorConfig,
    config: SileroVADConfig,
    known: Known,
    a: Seq<char>,
    b: Seq<char>,
    step: Step,
)
    requires
        a != b,
    ensures
        known.after_step(settings, config, b, step).about(a) == known.about(a),
{
    if coordinator::detector_session(a) == coordinator::detector_session(b) {
        lemma_detector_sessions_differ(a, b);
    }
}

/// What a step of a session comes to depends on what is known of that session alone: the
/// tensors that the model is run on, the report, what is given out and what is known
/// after it.
pub proof fn lemma_step_depends_on_its_session(
    settings: SpeculativeVADCoordinatorConfig,
    config: SileroVADConfig,
    k: Known,
    m: Known,
    session: Seq<char>,
    step: Step,
)
    requires
        k.about(session) == m.about(session),
    ensures
        k.after_step(settings, config, session, step).about(session) == m.after_step(
            settings,
            config,
            session,
            step,
        ).about(session),
        match step {
            Step::Forwarded { samples } => {
                let key = coordinator::detector_session(session);
                k.forwarded(settings, session, samples).detector[key].hidden == m.forwarded(
                    settings,
                    session,
                    samples,
                ).detector[key].hidden
            },
            Step::Ran { mono, outcome, .. } => k.report(config, session, mono, outcome)
                == m.report(config, session, mono, outcome),
            Step::Described { reading, .. } => k.ledger.contains_key(session) ==> {
                &&& k.ledger[session].cancels(settings, reading) == m.ledger[session].cancels(
                    settings,
                    reading,
                )
                &&& forall|now_ms: u64, x: Cancellation|
                    #![auto]
                    k.ledger[session].is_cancellation(settings, session, reading, now_ms, x)
                        == m.ledger[session].is_cancellation(settings, session, reading, now_ms, x)
            },
        },
{
}

/// However the steps of other sessions come between, what is known of a session is what
/// its own steps alone come to.
pub proof fn lemma_sessions_do_not_meet(
    settings: SpeculativeVADCoordinatorConfig,
    config: SileroVADConfig,
    known: Known,
    session: Seq<char>,
    steps: Seq<(Seq<char>, Step)>,
)
    ensures
        known.after_steps(settings, config, steps).about(session) == known.after_steps(
            settings,
            config,
            steps_of(session, steps),
        ).about(session),
    decreases steps.len(),
{
    if steps.len() > 0 {
        let t = steps.drop_last();
        let (other, step) = steps.last();
        let k = known.after_steps(settings, config, t);
        let own = steps_of(session, t);
        let m = known.after_steps(settings, config, own);
        lemma_sessions_do_not_meet(settings, config, known, session, t);
        if other == session {
            assert(own.push(steps.last()).drop_last() =~= own);
            lemma_step_depends_on_its_session(settings, config, k, m, session, step);
        } else {
            lemma_step_leaves_other_sessions(settings, config, k, session, other, step);
        }
    }
}

/// A turn of the coordinator: the samples of a chunk, their one channel, and what came of
/// running the model on it.
pub struct Turn {
    pub samples: Seq<Binary32>,
    pub mono: Seq<Binary32>,
    pub outcome: Result<InferenceOutputs, Error>,
}

impl Turn {
    pub open spec fn chunk(self) -> Chunk {
        Chunk {
            samples: self.samples,
            mono: self.mono,
            run: match self.outcome {
                Ok(out) => Some(Run { probability: out.output@[0], hidden: out.state@ }),
                Err(_) => None,
            },
        }
    }
}

/// The chunks of many turns.
pub open spec fn chunks_of(turns: Seq<Turn>) -> Seq<Chunk> {
    turns.map_values(|t: Turn| t.chunk())
}

impl Known {
    /// After a whole turn of a session, in which the report is read as it was made.
    pub open spec fn after_turn(
        self,
        settings: SpeculativeVADCoordinatorConfig,
        config: SileroVADConfig,
        session: Seq<char>,
        t: Turn,
    ) -> Known {
        let n = t.samples.len();
        let forwarded = self.forwarded(settings, session, t.samples);
        let ran = forwarded.ran(config, session, n, t.mono, t.outcome);
        match forwarded.report(config, session, t.mono, t.outcome) {
            Ok(event) => ran.described(settings, session, event.reading(), n),
            Err(_) => ran,
        }
    }

    /// After many turns of a session.
    pub open spec fn after_turns(
        self,
        settings: SpeculativeVADCoordinatorConfig,
        config: SileroVADConfig,
        session: Seq<char>,
        turns: Seq<Turn>,
    ) -> Known
        decreases turns.len(),
    {
        if turns.len() == 0 {
            self
        } else {
            self.after_turns(settings, config, session, turns.drop_last()).after_turn(
                settings,
                config,
                session,
                turns.last(),
            )
        }
    }
}

/// A whole turn takes a session from what is known before its chunk to what is known after
/// it, in the coordinator and in its detector.
pub proof fn lemma_turn_takes_chunk(
    settings: SpeculativeVADCoordinatorConfig,
    config: SileroVADConfig,
    known: Known,
    session: Seq<char>,
    t: Turn,
)
    ensures
        ({
            let key = coordinator::detector_session(session);
            let d = vad::opened(known.detector, key)[key];
            let c = coordinator::opened(settings, known.ledger, session)[session];
            known.after_turn(settings, config, session, t).about(session) == (
                Some(c.after_chunk(settings, config, d, t.chunk())),
                Some(d.after_chunk(config, t.chunk())),
            )
        }),
{
}

/// The turns of a session that nothing was known of take it through its chunks from the
/// first on.
pub proof fn lemma_turns_take_chunks(
    settings: SpeculativeVADCoordinatorConfig,
    config: SileroVADConfig,
    known: Known,
    session: Seq<char>,
    turns: Seq<Turn>,
)
    requires
        known.about(session) == (None::<CoordinatorModel>, None::<VadModel>),
        turns.len() > 0,
    ensures
        ({
            let d = VadModel::fresh();
            let c = CoordinatorModel::fresh(settings.lookback_samples());
            known.after_turns(settings, config, session, turns).about(session) == (
                Some(c.after_all(settings, config, d, chunks_of(turns))),
                Some(d.after_all(config, chunks_of(turns))),
            )
        }),
    decreases turns.len(),
{
    let t = turns.drop_last();
    let before = known.after_turns(settings, config, session, t);
    let d = VadModel::fresh();
    let c = CoordinatorModel::fresh(settings.lookback_samples());
    assert(chunks_of(turns).drop_last() =~= chunks_of(t));
    assert(chunks_of(turns).last() == turns.last().chunk());
    lemma_turn_takes_chunk(settings, config, before, session, turns.last());
    if t.len() > 0 {
        lemma_turns_take_chunks(settings, config, known, session, t);
    } else {
        assert(before == known);
        assert(d.after_all(config, chunks_of(t)) == d);
        assert(c.after_all(settings, config, d, chunks_of(t)) == c);
    }
}

/// The outputs of an input are delivered until one fails: its error is what comes of the
/// input. Where none fails, it is how many there were.
pub proof fn lemma_delivery<E>(outcomes: Seq<Result<(), E>>)
    requires
        outcomes.len() <= usize::MAX,
    ensures
        ({
            let r = (Delivery { count: 0 }).after_all(outcomes);
            &&& r is Ok <==> forall|i: int| 0 <= i < outcomes.len() ==> (#[trigger] outcomes[i]) is Ok
            &&& r matches Ok(d) ==> d.count == outcomes.len()
            &&& r matches Err(e) ==> exists|i: int|
                0 <= i < outcomes.len() && #[trigger] outcomes[i] == Err::<(), E>(e) && (forall|
                    j: int,
                |
                    0 <= j < i ==> (#[trigger] outcomes[j]) is Ok)
        }),
    decreases outcomes.len(),
{
    if outcomes.len() > 0 {
        let t = outcomes.drop_last();
        let n = t.len() as int;
        lemma_delivery(t);
        let r = (Delivery { count: 0 }).after_all(t);
        assert(outcomes.last() == outcomes[n]);
        assert forall|i: int| 0 <= i < n implies t[i] == #[trigger] outcomes[i] by {}
        match r {
            Ok(_) => {
                assert forall|i: int| 0 <= i < n implies (#[trigger] outcomes[i]) is Ok by {
                    assert(t[i] is Ok);
                }
            },
            Err(e) => {
                let i = choose|i: int|
                    0 <= i < n && #[trigger] t[i] == Err::<(), E>(e) && (forall|j: int|
                        0 <= j < i ==> (#[trigger] t[j]) is Ok);
                assert(outcomes[i] == Err::<(), E>(e));
                assert forall|j: int| 0 <= j < i implies (#[trigger] outcomes[j]) is Ok by {
                    assert(t[j] is Ok);
                }
            },
        }
    }
}

/// The share of speech that was accepted lies between zero and one; it is one where
/// nothing was taken back.
pub proof fn lemma_acceptance_rate(s: CoordinatorModel)
    requires
        s.accepted + s.cancelled <= u64::MAX,
    ensures
        ({
            let f = Format::double();
            let rate = s.acceptance_rate().datum();
            let one = Binary64::of_integer(1).datum();
            &&& f.at_least(rate, f.zero(false))
            &&& f.at_least(one, rate)
            &&& s.cancelled == 0 ==> s.acceptance_rate() == Binary64::of_integer(1)
        }),
{
    let f = Format::double();
    numbers::lemma_double_patterns();
    let t = s.accepted + s.cancelled;
    arith::lemma_of_integer(f, 1, 1);
    if t > 0 {
        arith::lemma_of_integer(f, s.accepted, t);
        arith::lemma_of_integer(f, t, t);
        let a = f.of_integer(s.accepted);
        let b = f.of_integer(t);
        arith::lemma_quotient_monotone(f, a, b, b);
        arith::lemma_quotient_by_itself(f, b);
    }
}

} // verus!
