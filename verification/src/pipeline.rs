//! Decision logic of the two-stage transcription pipeline: the exact command
//! lines of the extractor and recognizer stages, the path the transcript is
//! written to, and the judgement of a finished run. Spawning the processes
//! and streaming bytes between them is I/O and happens outside the library.

use vstd::prelude::*;
use vstd::string::StringExecFns;

verus! {

/// Command line of the extractor stage: decode `media_file_path` and write
/// 16 kHz mono WAV audio to standard output, logging fatal errors only.
pub open spec fn extractor_args_spec(media_file_path: Seq<char>) -> Seq<Seq<char>> {
    seq![
        "-i"@,
        media_file_path,
        "-f"@,
        "wav"@,
        "-ar"@,
        "16000"@,
        "-loglevel"@,
        "fatal"@,
        "-"@,
    ]
}

/// The speech model asset used by the recognizer, under `home`.
pub open spec fn model_path_spec(home: Seq<char>) -> Seq<char> {
    home + "/eunoia/whisper.cpp/models/ggml-base.en.bin"@
}

/// Command line of the recognizer stage: read raw audio from standard input
/// and write a plain-text transcript beside `output_path_stem`.
pub open spec fn recognizer_args_spec(home: Seq<char>, output_path_stem: Seq<char>) -> Seq<
    Seq<char>,
> {
    seq![
        "-m"@,
        model_path_spec(home),
        "-p"@,
        "1"@,
        "-otxt"@,
        "-of"@,
        output_path_stem,
        "-"@,
    ]
}

/// Name of the extractor executable, looked up on the search path.
pub fn extractor_program() -> (r: String)
    ensures
        r@ == "ffmpeg"@,
{
    "ffmpeg".to_owned()
}

/// Absolute path of the recognizer executable under `home`.
pub fn recognizer_program(home: &str) -> (r: String)
    ensures
        r@ == home@ + "/eunoia/whisper.cpp/main"@,
{
    home.to_owned().concat("/eunoia/whisper.cpp/main")
}

/// Arguments handed to the extractor for one source file.
pub fn extractor_args(media_file_path: &str) -> (r: Vec<String>)
    ensures
        r.deep_view() == extractor_args_spec(media_file_path@),
{
    let mut r: Vec<String> = Vec::new();
    r.push("-i".to_owned());
    r.push(media_file_path.to_owned());
    r.push("-f".to_owned());
    r.push("wav".to_owned());
    r.push("-ar".to_owned());
    r.push("16000".to_owned());
    r.push("-loglevel".to_owned());
    r.push("fatal".to_owned());
    r.push("-".to_owned());
    proof {
        assert(r.deep_view() =~= extractor_args_spec(media_file_path@));
    }
    r
}

/// Arguments handed to the recognizer for one output path stem.
pub fn recognizer_args(home: &str, output_path_stem: &str) -> (r: Vec<String>)
    ensures
        r.deep_view() == recognizer_args_spec(home@, output_path_stem@),
{
    let mut r: Vec<String> = Vec::new();
    r.push("-m".to_owned());
    r.push(home.to_owned().concat("/eunoia/whisper.cpp/models/ggml-base.en.bin"));
    r.push("-p".to_owned());
    r.push("1".to_owned());
    r.push("-otxt".to_owned());
    r.push("-of".to_owned());
    r.push(output_path_stem.to_owned());
    r.push("-".to_owned());
    proof {
        assert(r.deep_view() =~= recognizer_args_spec(home@, output_path_stem@));
    }
    r
}

/// The path the recognizer writes the transcript to, for one output path
/// stem.
pub fn transcript_path(output_path_stem: &str) -> (r: String)
    ensures
        r@ == output_path_stem@ + ".txt"@,
{
    output_path_stem.to_owned().concat(".txt")
}

/// Observations from one execution of the two-stage pipeline: whether each
/// stage could be spawned, whether the byte copy between them ran to the end,
/// and each stage's exit code (`None` when it terminated without one).
pub struct PipelineRun {
    pub extractor_spawned: bool,
    pub recognizer_spawned: bool,
    pub copy_completed: bool,
    pub extractor_exit: Option<i32>,
    pub recognizer_exit: Option<i32>,
}

/// The fault a pipeline run is abandoned with.
#[derive(Clone, Copy, PartialEq, Eq, Structural, Debug)]
pub enum PipelineError {
    /// The extractor process could not be started.
    ExtractorSpawnFailed,
    /// The recognizer process could not be started.
    RecognizerSpawnFailed,
    /// The byte copy from extractor to recognizer broke off.
    CopyFailed,
    /// The extractor terminated without exit status 0.
    ExtractorFailed,
    /// The recognizer terminated without exit status 0.
    RecognizerFailed,
}

/// A run succeeded exactly when both stages were spawned, the copy between
/// them ran to the end, and both stages exited with status 0; only then is
/// the transcript at the derived path considered complete.
pub open spec fn run_succeeded(run: PipelineRun) -> bool {
    run.extractor_spawned && run.recognizer_spawned && run.copy_completed && run.extractor_exit
        == Some(0i32) && run.recognizer_exit == Some(0i32)
}

/// Judge one finished pipeline run: `Ok` exactly on success, otherwise the
/// first fault in stage order.
pub fn evaluate_pipeline(run: &PipelineRun) -> (r: Result<(), PipelineError>)
    ensures
        r is Ok <==> run_succeeded(*run),
        !run.extractor_spawned ==> r == Result::<(), PipelineError>::Err(
            PipelineError::ExtractorSpawnFailed,
        ),
        run.extractor_spawned && !run.recognizer_spawned ==> r == Result::<(),
            PipelineError,
        >::Err(PipelineError::RecognizerSpawnFailed),
        run.extractor_spawned && run.recognizer_spawned && !run.copy_completed ==> r == Result::<
            (),
            PipelineError,
        >::Err(PipelineError::CopyFailed),
        run.extractor_spawned && run.recognizer_spawned && run.copy_completed
            && run.extractor_exit != Some(0i32) ==> r == Result::<(), PipelineError>::Err(
            PipelineError::ExtractorFailed,
        ),
        run.extractor_spawned && run.recognizer_spawned && run.copy_completed
            && run.extractor_exit == Some(0i32) && run.recognizer_exit != Some(0i32) ==> r
            == Result::<(), PipelineError>::Err(PipelineError::RecognizerFailed),
{
    if !run.extractor_spawned {
        return Result::Err(PipelineError::ExtractorSpawnFailed);
    }
    if !run.recognizer_spawned {
        return Result::Err(PipelineError::RecognizerSpawnFailed);
    }
    if !run.copy_completed {
        return Result::Err(PipelineError::CopyFailed);
    }
    match run.extractor_exit {
        Option::Some(code) => {
            if code != 0 {
                return Result::Err(PipelineError::ExtractorFailed);
            }
        },
        Option::None => {
            return Result::Err(PipelineError::ExtractorFailed);
        },
    }
    match run.recognizer_exit {
        Option::Some(code) => {
            if code != 0 {
                return Result::Err(PipelineError::RecognizerFailed);
            }
        },
        Option::None => {
            return Result::Err(PipelineError::RecognizerFailed);
        },
    }
    Result::Ok(())
}

/// A run whose extractor did not exit with status 0 never succeeds: no
/// transcript from such a run is ever considered complete.
pub proof fn lemma_extractor_failure_no_success(run: PipelineRun)
    requires
        run.extractor_exit != Some(0i32),
    ensures
        !run_succeeded(run),
{
}

} // verus!
