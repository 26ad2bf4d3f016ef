//! Loading the model, and the reports of what fails.

use silero_vad::error::{Error, Stage};
use silero_vad::model::{model_path, model_url, user_agent, ModelEvent, Phase};
use silero_vad::SileroVADConfig;

fn text(r: Result<Phase, Error>) -> String {
    match r {
        Ok(_) => String::new(),
        Err(e) => e.message().to_string(),
    }
}

fn answered(success: bool, status: &str) -> ModelEvent {
    ModelEvent::Answered { success, status: status.to_string() }
}

#[test]
fn a_file_that_is_there_is_loaded() {
    let p = Phase::Probe.advance(ModelEvent::Found(true)).ok().unwrap();
    assert_eq!(p, Phase::Load);
    let p = p.advance(ModelEvent::Done).ok().unwrap();
    assert_eq!(p, Phase::Ready);
}

#[test]
fn a_file_that_is_not_there_is_fetched_first() {
    let p = Phase::Probe.advance(ModelEvent::Found(false)).ok().unwrap();
    assert_eq!(p, Phase::Fetch);
    let p = p.advance(answered(true, "200 OK")).ok().unwrap();
    assert_eq!(p, Phase::ReadBody);
    let p = p.advance(ModelEvent::Done).ok().unwrap();
    assert_eq!(p, Phase::Save);
    let p = p.advance(ModelEvent::Done).ok().unwrap();
    assert_eq!(p, Phase::Load);
}

#[test]
fn an_answer_without_success_is_reported() {
    assert_eq!(
        text(Phase::Fetch.advance(answered(false, "404 Not Found"))),
        "download failed: HTTP 404 Not Found"
    );
}

#[test]
fn what_was_not_asked_for_changes_nothing() {
    assert_eq!(Phase::Load.advance(ModelEvent::Found(false)).ok().unwrap(), Phase::Load);
    assert_eq!(Phase::Probe.advance(ModelEvent::Done).ok().unwrap(), Phase::Probe);
    assert_eq!(Phase::Ready.advance(ModelEvent::Done).ok().unwrap(), Phase::Ready);
    assert_eq!(Phase::Save.advance(answered(false, "500")).ok().unwrap(), Phase::Save);
}

#[test]
fn every_failure_has_its_report() {
    let reports = [
        (Stage::HttpClient, "HTTP client: x"),
        (Stage::Download, "download: x"),
        (Stage::DownloadStatus, "download failed: HTTP x"),
        (Stage::ReadBody, "read body: x"),
        (Stage::SaveModel, "save model: x"),
        (Stage::RuntimeBuilder, "ort builder: x"),
        (Stage::ExecutionProvider, "ort EP: x"),
        (Stage::LoadModel, "ort load: x"),
        (Stage::InputTensor, "ort input tensor: x"),
        (Stage::StateTensor, "ort state tensor: x"),
        (Stage::RateTensor, "ort sr tensor: x"),
        (Stage::Run, "ort run: x"),
        (Stage::ExtractOutput, "ort extract output: x"),
        (Stage::ExtractState, "ort extract stateN: x"),
        (Stage::TokioRuntime, "No active tokio runtime thread: x"),
    ];
    for (stage, report) in reports {
        assert_eq!(stage.failed("x").message(), report);
        assert_eq!(
            text(Phase::Load.advance(ModelEvent::Failed(stage, "x".to_string()))),
            report
        );
    }
}

#[test]
fn where_the_model_is_looked_for() {
    let c = SileroVADConfig::default();
    assert_eq!(model_path(&c), "silero_vad.onnx");
    let c = SileroVADConfig { model_path: Some("/m/x.onnx".to_string()), ..c };
    assert_eq!(model_path(&c), "/m/x.onnx");
}

#[test]
fn where_the_model_is_asked_for() {
    assert_eq!(
        model_url(),
        "https://huggingface.co/onnx-community/silero-vad/resolve/main/onnx/model.onnx"
    );
    assert_eq!(user_agent(), "remotemedia-silero-vad-plugin/0.3");
}
