//! What goes wrong outside, and how it is reported.

use vstd::prelude::*;

use crate::text;

verus! {

/// A failure that a node reports.
pub enum Error {
    Execution(String),
}

impl Error {
    /// The text of the report.
    pub open spec fn text(self) -> Seq<char> {
        match self {
            Error::Execution(s) => s@,
        }
    }

    /// The text of the report.
    pub fn message(&self) -> (s: &str)
        ensures
            s@ == self.text(),
    {
        match self {
            Error::Execution(s) => s.as_str(),
        }
    }
}

/// The step at which something outside failed.
#[derive(Clone, Copy, PartialEq, Eq, Structural, Debug)]
pub enum Stage {
    HttpClient,
    Download,
    DownloadStatus,
    ReadBody,
    SaveModel,
    RuntimeBuilder,
    ExecutionProvider,
    LoadModel,
    InputTensor,
    StateTensor,
    RateTensor,
    Run,
    ExtractOutput,
    ExtractState,
    TokioRuntime,
}

impl Stage {
    /// What stands before the detail in the report.
    pub open spec fn prefix(self) -> Seq<char> {
        match self {
            Stage::HttpClient => "HTTP client: "@,
            Stage::Download => "download: "@,
            Stage::DownloadStatus => "download failed: HTTP "@,
            Stage::ReadBody => "read body: "@,
            Stage::SaveModel => "save model: "@,
            Stage::RuntimeBuilder => "ort builder: "@,
            Stage::ExecutionProvider => "ort EP: "@,
            Stage::LoadModel => "ort load: "@,
            Stage::InputTensor => "ort input tensor: "@,
            Stage::StateTensor => "ort state tensor: "@,
            Stage::RateTensor => "ort sr tensor: "@,
            Stage::Run => "ort run: "@,
            Stage::ExtractOutput => "ort extract output: "@,
            Stage::ExtractState => "ort extract stateN: "@,
            Stage::TokioRuntime => "No active tokio runtime thread: "@,
        }
    }

    /// The report of a failure at this step, of which `detail` is told.
    pub fn failed(self, detail: &str) -> (e: Error)
        ensures
            e.text() == self.prefix() + detail@,
    {
        let prefix: &str = match self {
            Stage::HttpClient => "HTTP client: ",
            Stage::Download => "download: ",
            Stage::DownloadStatus => "download failed: HTTP ",
            Stage::ReadBody => "read body: ",
            Stage::SaveModel => "save model: ",
            Stage::RuntimeBuilder => "ort builder: ",
            Stage::ExecutionProvider => "ort EP: ",
            Stage::LoadModel => "ort load: ",
            Stage::InputTensor => "ort input tensor: ",
            Stage::StateTensor => "ort state tensor: ",
            Stage::RateTensor => "ort sr tensor: ",
            Stage::Run => "ort run: ",
            Stage::ExtractOutput => "ort extract output: ",
            Stage::ExtractState => "ort extract stateN: ",
            Stage::TokioRuntime => "No active tokio runtime thread: ",
        };
        Error::Execution(text::join(prefix, detail))
    }
}

} // verus!
