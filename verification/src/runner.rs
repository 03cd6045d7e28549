//! Folder job planning: one monitored source is described by a
//! `MediaSourceConfig`; a pass over it resolves the scanned trees into
//! candidates and turns the selected ones into transcription jobs, in scan
//! order. The surrounding application performs the scans and runs each job.

use vstd::prelude::*;
use crate::records::{FileRecord, FileRecordV};
use crate::resolve::{
    decision_of, has_output, lemma_resolve_characterization, lemma_second_pass_selects_nothing,
    output_modified, resolve, resolve_spec, CandidateV, Decision, TranscriptionCandidate,
};
use crate::naming::{ext_of, output_name_of, stem_of, strip_extension};
use vstd::string::StringExecFns;

verus! {

/// Static configuration of one monitored media source.
pub struct MediaSourceConfig {
    /// Root of the tree holding the source media files.
    pub source_root: String,
    /// Root of the flat tree holding the transcripts.
    pub output_root: String,
    /// Expected file extension of the source files (final dot-segment).
    pub extension: String,
    /// Maximum scan depth under either root (0 = the root alone).
    pub max_depth: usize,
    /// Sources below this size in bytes are treated as placeholders.
    pub min_size: u64,
}

impl MediaSourceConfig {
    /// The Apple Voice Memos source under the user's home directory:
    /// `m4a` recordings scanned one level deep, no minimum size.
    pub fn voice_memos(home: &str) -> (c: MediaSourceConfig)
        ensures
            c.source_root@ == home@
                + "/Library/Group Containers/group.com.apple.VoiceMemos.shared/Recordings"@,
            c.output_root@ == home@ + "/eunoia/*local.data/AppleVoiceMemos/"@,
            c.extension@ == "m4a"@,
            c.max_depth == 1,
            c.min_size == 0,
    {
        MediaSourceConfig {
            source_root: home.to_owned().concat(
                "/Library/Group Containers/group.com.apple.VoiceMemos.shared/Recordings",
            ),
            output_root: home.to_owned().concat("/eunoia/*local.data/AppleVoiceMemos/"),
            extension: "m4a".to_owned(),
            max_depth: 1,
            min_size: 0,
        }
    }

    /// The Apple Photos library source under the user's home directory:
    /// `mov` originals scanned two levels deep, placeholders below 9999999
    /// bytes skipped.
    pub fn photos_library(home: &str) -> (c: MediaSourceConfig)
        ensures
            c.source_root@ == home@ + "/Pictures/Photos Library.photoslibrary/originals"@,
            c.output_root@ == home@ + "/eunoia/*local.data/ApplePhotosLibrary/"@,
            c.extension@ == "mov"@,
            c.max_depth == 2,
            c.min_size == 9999999,
    {
        MediaSourceConfig {
            source_root: home.to_owned().concat(
                "/Pictures/Photos Library.photoslibrary/originals",
            ),
            output_root: home.to_owned().concat("/eunoia/*local.data/ApplePhotosLibrary/"),
            extension: "mov".to_owned(),
            max_depth: 2,
            min_size: 9999999,
        }
    }
}

/// Mathematical model of one transcription job.
#[verifier::ext_equal]
pub ghost struct JobV {
    pub media_file_path: Seq<char>,
    pub output_path_stem: Seq<char>,
}

/// One unit of work for the transcription pipeline: the source media path
/// and the output path stem the transcript name is derived from.
pub struct TranscriptionJob {
    pub media_file_path: String,
    pub output_path_stem: String,
}

impl View for TranscriptionJob {
    type V = JobV;

    open spec fn view(&self) -> JobV {
        JobV {
            media_file_path: self.media_file_path@,
            output_path_stem: self.output_path_stem@,
        }
    }
}

impl DeepView for TranscriptionJob {
    type V = JobV;

    open spec fn deep_view(&self) -> JobV {
        self@
    }
}

/// The job built for one selected candidate under `output_root`.
pub open spec fn job_of(cand: CandidateV, output_root: Seq<char>) -> JobV {
    JobV {
        media_file_path: cand.record.path,
        output_path_stem: output_root + stem_of(cand.record.name),
    }
}

/// The jobs of one pass: one per candidate that needs processing, in order.
pub open spec fn jobs_spec(cands: Seq<CandidateV>, output_root: Seq<char>) -> Seq<JobV>
    decreases cands.len(),
{
    if cands.len() == 0 {
        Seq::empty()
    } else {
        let rest = jobs_spec(cands.drop_last(), output_root);
        if cands.last().decision is NeedsProcessing {
            rest.push(job_of(cands.last(), output_root))
        } else {
            rest
        }
    }
}

/// Plan one folder pass: resolve the two scans under `config` and return one
/// job per candidate that needs processing, in scan order.
pub fn plan_folder(
    config: &MediaSourceConfig,
    source_files: &Vec<FileRecord>,
    output_files: &Vec<FileRecord>,
) -> (jobs: Vec<TranscriptionJob>)
    ensures
        jobs.deep_view() == jobs_spec(
            resolve_spec(
                source_files.deep_view(),
                output_files.deep_view(),
                config.extension@,
                config.min_size,
            ),
            config.output_root@,
        ),
{
    let candidates: Vec<TranscriptionCandidate> = resolve(
        source_files,
        output_files,
        config.extension.as_str(),
        config.min_size,
    );
    let ghost cv = candidates.deep_view();
    let mut jobs: Vec<TranscriptionJob> = Vec::new();
    let n = candidates.len();
    let mut i: usize = 0;
    while i < n
        invariant
            i <= n,
            n == candidates.len(),
            cv == candidates.deep_view(),
            cv.len() == n,
            jobs.deep_view() == jobs_spec(cv.take(i as int), config.output_root@),
        decreases n - i,
    {
        let cand = &candidates[i];
        proof {
            assert(cv[i as int] == cand@);
            assert(cv.take(i as int + 1).drop_last() =~= cv.take(i as int));
            assert(cv.take(i as int + 1).last() == cv[i as int]);
        }
        if matches!(cand.decision, Decision::NeedsProcessing) {
            let stem = strip_extension(cand.record.name.as_str());
            let output_path_stem = config.output_root.clone().concat(stem.as_str());
            let ghost old_jobs = jobs.deep_view();
            jobs.push(
                TranscriptionJob {
                    media_file_path: cand.record.path.clone(),
                    output_path_stem,
                },
            );
            proof {
                assert(jobs.deep_view() =~= old_jobs.push(job_of(cv[i as int], config.output_root@)));
            }
        }
        i = i + 1;
    }
    proof {
        assert(cv.take(n as int) =~= cv);
    }
    jobs
}

/// When no candidate needs processing, a pass plans no work at all.
pub proof fn lemma_no_selected_no_jobs(cands: Seq<CandidateV>, output_root: Seq<char>)
    requires
        forall|k: int| 0 <= k < cands.len() ==> !(#[trigger] cands[k].decision is NeedsProcessing),
    ensures
        jobs_spec(cands, output_root).len() == 0,
    decreases cands.len(),
{
    if cands.len() > 0 {
        lemma_no_selected_no_jobs(cands.drop_last(), output_root);
    }
}

/// Idempotence of the Folder Job Runner: after one completed pass — every
/// selected source now has an output record under its derived name at least
/// as new as the source, and no output record was removed or made older — a
/// second pass over the unchanged source tree plans zero jobs.
pub proof fn lemma_runner_idempotent(
    srcs: Seq<FileRecordV>,
    outs: Seq<FileRecordV>,
    outs2: Seq<FileRecordV>,
    ext: Seq<char>,
    min_size: u64,
    output_root: Seq<char>,
)
    requires
        forall|i: int|
            0 <= i < srcs.len() && ext_of(#[trigger] srcs[i].name) == ext && decision_of(
                srcs[i],
                outs,
                min_size,
            ) is NeedsProcessing ==> has_output(outs2, output_name_of(srcs[i].name))
                && output_modified(outs2, output_name_of(srcs[i].name)) >= srcs[i].modified,
        forall|name: Seq<char>|
            #[trigger] has_output(outs, name) ==> has_output(outs2, name) && output_modified(
                outs2,
                name,
            ) >= output_modified(outs, name),
    ensures
        jobs_spec(resolve_spec(srcs, outs2, ext, min_size), output_root).len() == 0,
{
    lemma_second_pass_selects_nothing(srcs, outs, outs2, ext, min_size);
    lemma_resolve_characterization(srcs, outs2, ext, min_size);
    let cands = resolve_spec(srcs, outs2, ext, min_size);
    assert forall|k: int|
        0 <= k < cands.len() implies !(#[trigger] cands[k].decision is NeedsProcessing) by {
        let rec = cands[k].record;
        assert(srcs.contains(rec));
        let i = choose|i: int| 0 <= i < srcs.len() && srcs[i] == rec;
        assert(ext_of(srcs[i].name) == ext);
        assert(!(decision_of(srcs[i], outs2, min_size) is NeedsProcessing));
    }
    lemma_no_selected_no_jobs(cands, output_root);
}

} // verus!
