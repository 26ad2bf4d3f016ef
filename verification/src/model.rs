//! How the model comes to be loaded: what is to be done next, and what went wrong.

use vstd::prelude::*;

use crate::config::SileroVADConfig;
use crate::error::{Error, Stage};

verus! {

/// What is to be done next.
#[derive(Clone, Copy, PartialEq, Eq, Structural, Debug)]
pub enum Phase {
    /// Look whether the file is there.
    Probe,
    /// Ask for the model.
    Fetch,
    /// Read what was answered.
    ReadBody,
    /// Write it to the file.
    Save,
    /// Load the file.
    Load,
    /// Nothing: the model is loaded.
    Ready,
}

/// What came of it.
pub enum ModelEvent {
    /// The file is there, or is not.
    Found(bool),
    /// The request was answered, with success or without.
    Answered { success: bool, status: String },
    /// It was done.
    Done,
    /// It failed.
    Failed(Stage, String),
}

impl Phase {
    /// How far the model has come.
    pub open spec fn rank(self) -> nat {
        match self {
            Phase::Probe => 0,
            Phase::Fetch => 1,
            Phase::ReadBody => 2,
            Phase::Save => 3,
            Phase::Load => 4,
            Phase::Ready => 5,
        }
    }

    /// What is to be done after what came of this. What was not asked for changes nothing.
    pub open spec fn next(self, event: ModelEvent) -> Phase {
        match (self, event) {
            (Phase::Probe, ModelEvent::Found(there)) => if there {
                Phase::Load
            } else {
                Phase::Fetch
            },
            (Phase::Fetch, ModelEvent::Answered { success, .. }) => if success {
                Phase::ReadBody
            } else {
                Phase::Fetch
            },
            (Phase::ReadBody, ModelEvent::Done) => Phase::Save,
            (Phase::Save, ModelEvent::Done) => Phase::Load,
            (Phase::Load, ModelEvent::Done) => Phase::Ready,
            _ => self,
        }
    }

    /// What is reported of an event: a failure, or an answer without success.
    pub open spec fn report(self, event: ModelEvent) -> Option<Seq<char>> {
        match event {
            ModelEvent::Failed(stage, detail) => Some(stage.prefix() + detail@),
            ModelEvent::Answered { success: false, status } => if self == Phase::Fetch {
                Some(Stage::DownloadStatus.prefix() + status@)
            } else {
                None
            },
            _ => None,
        }
    }

    /// Says what is to be done next, or what to report.
    pub fn advance(self, event: ModelEvent) -> (r: Result<Phase, Error>)
        ensures
            match self.report(event) {
                Some(text) => r is Err && r->Err_0.text() == text,
                None => r == Ok::<Phase, Error>(self.next(event)),
            },
    {
        match event {
            ModelEvent::Failed(stage, detail) => Err(stage.failed(detail.as_str())),
            ModelEvent::Found(there) => match self {
                Phase::Probe => if there {
                    Ok(Phase::Load)
                } else {
                    Ok(Phase::Fetch)
                },
                _ => Ok(self),
            },
            ModelEvent::Answered { success, status } => match self {
                Phase::Fetch => if success {
                    Ok(Phase::ReadBody)
                } else {
                    Err(Stage::DownloadStatus.failed(status.as_str()))
                },
                _ => Ok(self),
            },
            ModelEvent::Done => match self {
                Phase::ReadBody => Ok(Phase::Save),
                Phase::Save => Ok(Phase::Load),
                Phase::Load => Ok(Phase::Ready),
                _ => Ok(self),
            },
        }
    }
}

/// Loading only goes forward, and what it ends with is a file that was loaded: the last
/// thing to be done before the model is ready is to load it.
pub proof fn lemma_loading_goes_forward(phase: Phase, event: ModelEvent)
    ensures
        phase.next(event).rank() >= phase.rank(),
        phase.next(event) != phase ==> phase.next(event).rank() > phase.rank(),
        phase.next(event) == Phase::Ready && phase != Phase::Ready ==> phase == Phase::Load,
        phase.next(event) == Phase::Load && phase != Phase::Load ==> phase == Phase::Save || (phase
            == Phase::Probe && event == ModelEvent::Found(true)),
{
}

/// Where the model is looked for.
pub open spec fn model_file(config: SileroVADConfig) -> Seq<char> {
    match config.model_path {
        Some(path) => path@,
        None => "silero_vad.onnx"@,
    }
}

pub fn model_path(config: &SileroVADConfig) -> (path: String)
    ensures
        path@ == model_file(*config),
{
    match &config.model_path {
        Some(path) => path.clone(),
        None => "silero_vad.onnx".to_owned(),
    }
}

/// Where the model is asked for.
pub fn model_url() -> (url: &'static str)
    ensures
        url@
            == "https://huggingface.co/onnx-community/silero-vad/resolve/main/onnx/model.onnx"@,
{
    "https://huggingface.co/onnx-community/silero-vad/resolve/main/onnx/model.onnx"
}

/// Who asks for it.
pub fn user_agent() -> (name: &'static str)
    ensures
        name@ == "remotemedia-silero-vad-plugin/0.3"@,
{
    "remotemedia-silero-vad-plugin/0.3"
}

} // verus!
