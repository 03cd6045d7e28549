use transcriber::pipeline::{
    evaluate_pipeline, extractor_args, extractor_program, recognizer_args, recognizer_program,
    transcript_path, PipelineError, PipelineRun,
};

fn good_run() -> PipelineRun {
    PipelineRun {
        extractor_spawned: true,
        recognizer_spawned: true,
        copy_completed: true,
        extractor_exit: Some(0),
        recognizer_exit: Some(0),
    }
}

#[test]
fn extractor_command_line_is_exact() {
    assert_eq!(extractor_program(), "ffmpeg");
    let args = extractor_args("/src/a.m4a");
    let expected = vec!["-i", "/src/a.m4a", "-f", "wav", "-ar", "16000", "-loglevel", "fatal", "-"];
    assert_eq!(args, expected);
}

#[test]
fn recognizer_command_line_is_exact() {
    assert_eq!(recognizer_program("/home/u"), "/home/u/eunoia/whisper.cpp/main");
    let args = recognizer_args("/home/u", "/out/a");
    let expected = vec![
        "-m",
        "/home/u/eunoia/whisper.cpp/models/ggml-base.en.bin",
        "-p",
        "1",
        "-otxt",
        "-of",
        "/out/a",
        "-",
    ];
    assert_eq!(args, expected);
}

#[test]
fn transcript_path_appends_txt() {
    assert_eq!(transcript_path("/out/a"), "/out/a.txt");
}

#[test]
fn both_stages_clean_is_success() {
    assert_eq!(evaluate_pipeline(&good_run()), Ok(()));
}

#[test]
fn extractor_spawn_failure() {
    let run = PipelineRun { extractor_spawned: false, ..good_run() };
    assert_eq!(evaluate_pipeline(&run), Err(PipelineError::ExtractorSpawnFailed));
}

#[test]
fn recognizer_spawn_failure() {
    let run = PipelineRun { recognizer_spawned: false, ..good_run() };
    assert_eq!(evaluate_pipeline(&run), Err(PipelineError::RecognizerSpawnFailed));
}

#[test]
fn broken_copy_fails() {
    let run = PipelineRun { copy_completed: false, ..good_run() };
    assert_eq!(evaluate_pipeline(&run), Err(PipelineError::CopyFailed));
}

#[test]
fn extractor_nonzero_exit_fails() {
    let run = PipelineRun { extractor_exit: Some(1), ..good_run() };
    assert_eq!(evaluate_pipeline(&run), Err(PipelineError::ExtractorFailed));
}

#[test]
fn extractor_killed_fails() {
    let run = PipelineRun { extractor_exit: None, ..good_run() };
    assert_eq!(evaluate_pipeline(&run), Err(PipelineError::ExtractorFailed));
}

#[test]
fn recognizer_nonzero_exit_fails() {
    let run = PipelineRun { recognizer_exit: Some(2), ..good_run() };
    assert_eq!(evaluate_pipeline(&run), Err(PipelineError::RecognizerFailed));
}

#[test]
fn recognizer_killed_fails() {
    let run = PipelineRun { recognizer_exit: None, ..good_run() };
    assert_eq!(evaluate_pipeline(&run), Err(PipelineError::RecognizerFailed));
}
