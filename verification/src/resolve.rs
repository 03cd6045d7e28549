//! Staleness resolution: given a scan of a source tree and a scan of the
//! corresponding output tree, decide for each source file whether it needs
//! (re)transcription, is up to date, or is below the size threshold.

use vstd::prelude::*;
use crate::records::{FileRecord, FileRecordV};
use crate::naming::{ext_of, output_name_of, derive_output_name, get_ext, str_eq};

verus! {

/// Outcome of the staleness decision for one candidate.
#[derive(Clone, Copy, PartialEq, Eq, Structural, Debug)]
pub enum Decision {
    /// Missing or older output: the file must be transcribed.
    NeedsProcessing,
    /// An output with the derived name exists and is at least as new.
    SkipStale,
    /// The source is below the configured minimum size.
    SkipTooSmall,
}

/// Mathematical model of one candidate.
#[verifier::ext_equal]
pub ghost struct CandidateV {
    pub record: FileRecordV,
    pub output_name: Seq<char>,
    pub decision: Decision,
}

/// A source file considered in one pass: the scanned record, the transcript
/// name derived from it, and the processing decision.
pub struct TranscriptionCandidate {
    pub record: FileRecord,
    pub output_name: String,
    pub decision: Decision,
}

impl View for TranscriptionCandidate {
    type V = CandidateV;

    open spec fn view(&self) -> CandidateV {
        CandidateV { record: self.record@, output_name: self.output_name@, decision: self.decision }
    }
}

impl DeepView for TranscriptionCandidate {
    type V = CandidateV;

    open spec fn deep_view(&self) -> CandidateV {
        self@
    }
}

/// Whether the output scan holds a record named `name`.
pub open spec fn has_output(outs: Seq<FileRecordV>, name: Seq<char>) -> bool {
    exists|i: int| 0 <= i < outs.len() && outs[i].name == name
}

/// Modified time of the first output record named `name` (0 when none is;
/// meaningful only under `has_output`).
pub open spec fn output_modified(outs: Seq<FileRecordV>, name: Seq<char>) -> u64
    decreases outs.len(),
{
    if outs.len() == 0 {
        0
    } else if outs[0].name == name {
        outs[0].modified
    } else {
        output_modified(outs.drop_first(), name)
    }
}

/// The decision for one source file whose extension already matches: too
/// small files are skipped outright; otherwise the file is stale-skipped
/// exactly when an output with its derived name exists and was modified no
/// earlier than the source.
pub open spec fn decision_of(src: FileRecordV, outs: Seq<FileRecordV>, min_size: u64) -> Decision {
    if src.size < min_size {
        Decision::SkipTooSmall
    } else if has_output(outs, output_name_of(src.name)) && src.modified <= output_modified(
        outs,
        output_name_of(src.name),
    ) {
        Decision::SkipStale
    } else {
        Decision::NeedsProcessing
    }
}

/// The candidate built for one matching source file.
pub open spec fn candidate_of(src: FileRecordV, outs: Seq<FileRecordV>, min_size: u64) -> CandidateV {
    CandidateV {
        record: src,
        output_name: output_name_of(src.name),
        decision: decision_of(src, outs, min_size),
    }
}

/// The whole resolution: one candidate per source file whose extension
/// matches, in scan order.
pub open spec fn resolve_spec(
    srcs: Seq<FileRecordV>,
    outs: Seq<FileRecordV>,
    ext: Seq<char>,
    min_size: u64,
) -> Seq<CandidateV>
    decreases srcs.len(),
{
    if srcs.len() == 0 {
        Seq::empty()
    } else {
        let rest = resolve_spec(srcs.drop_last(), outs, ext, min_size);
        if ext_of(srcs.last().name) == ext {
            rest.push(candidate_of(srcs.last(), outs, min_size))
        } else {
            rest
        }
    }
}

proof fn lemma_output_lookup_skip(outs: Seq<FileRecordV>, name: Seq<char>, i: int)
    requires
        0 <= i <= outs.len(),
        forall|j: int| 0 <= j < i ==> outs[j].name != name,
    ensures
        output_modified(outs, name) == output_modified(outs.skip(i), name),
        has_output(outs, name) == has_output(outs.skip(i), name),
    decreases i,
{
    if i == 0 {
        assert(outs.skip(0) =~= outs);
    } else {
        assert(outs.drop_first().skip(i - 1) =~= outs.skip(i));
        lemma_output_lookup_skip(outs.drop_first(), name, i - 1);
        assert(has_output(outs, name) == has_output(outs.drop_first(), name)) by {
            if has_output(outs, name) {
                let k = choose|k: int| 0 <= k < outs.len() && outs[k].name == name;
                assert(outs.drop_first()[k - 1].name == name);
            }
            if has_output(outs.drop_first(), name) {
                let k = choose|k: int|
                    0 <= k < outs.drop_first().len() && outs.drop_first()[k].name == name;
                assert(outs[k + 1].name == name);
            }
        }
    }
}

/// Modified time of the first output record named `name`, or `None` when the
/// output scan holds no record of that name.
fn lookup_output_modified(output_files: &Vec<FileRecord>, name: &str) -> (r: Option<u64>)
    ensures
        match r {
            Option::Some(m) => has_output(output_files.deep_view(), name@) && m
                == output_modified(output_files.deep_view(), name@),
            Option::None => !has_output(output_files.deep_view(), name@),
        },
{
    let ghost ov = output_files.deep_view();
    let n = output_files.len();
    let mut i: usize = 0;
    while i < n
        invariant
            i <= n,
            n == output_files.len(),
            ov == output_files.deep_view(),
            ov.len() == n,
            forall|j: int| 0 <= j < i ==> ov[j].name != name@,
        decreases n - i,
    {
        if str_eq(output_files[i].name.as_str(), name) {
            proof {
                lemma_output_lookup_skip(ov, name@, i as int);
                assert(ov.skip(i as int)[0] == ov[i as int]);
            }
            return Option::Some(output_files[i].modified);
        }
        i = i + 1;
    }
    proof {
        if has_output(ov, name@) {
            let k = choose|k: int| 0 <= k < ov.len() && ov[k].name == name@;
            assert(ov[k].name != name@);
        }
    }
    Option::None
}

/// The decision for one source file (whose extension is assumed already
/// matched against the configuration).
pub fn classify(source: &FileRecord, output_files: &Vec<FileRecord>, min_size: u64) -> (d: Decision)
    ensures
        d == decision_of(source@, output_files.deep_view(), min_size),
{
    if source.size < min_size {
        return Decision::SkipTooSmall;
    }
    let output_name = derive_output_name(source.name.as_str());
    match lookup_output_modified(output_files, output_name.as_str()) {
        Option::Some(out_modified) => {
            if source.modified <= out_modified {
                Decision::SkipStale
            } else {
                Decision::NeedsProcessing
            }
        },
        Option::None => Decision::NeedsProcessing,
    }
}

/// Resolve one pass: one candidate, with its decision, per source file whose
/// final dot-segment equals `extension`, in scan order.
pub fn resolve(
    source_files: &Vec<FileRecord>,
    output_files: &Vec<FileRecord>,
    extension: &str,
    min_size: u64,
) -> (r: Vec<TranscriptionCandidate>)
    ensures
        r.deep_view() == resolve_spec(
            source_files.deep_view(),
            output_files.deep_view(),
            extension@,
            min_size,
        ),
{
    let ghost sv = source_files.deep_view();
    let ghost ov = output_files.deep_view();
    let mut r: Vec<TranscriptionCandidate> = Vec::new();
    let n = source_files.len();
    let mut i: usize = 0;
    while i < n
        invariant
            i <= n,
            n == source_files.len(),
            sv == source_files.deep_view(),
            ov == output_files.deep_view(),
            sv.len() == n,
            r.deep_view() == resolve_spec(sv.take(i as int), ov, extension@, min_size),
        decreases n - i,
    {
        let source = &source_files[i];
        proof {
            assert(sv[i as int] == source@);
            assert(sv.take(i as int + 1).drop_last() =~= sv.take(i as int));
            assert(sv.take(i as int + 1).last() == sv[i as int]);
        }
        let ext = get_ext(source.name.as_str());
        if str_eq(ext.as_str(), extension) {
            let output_name = derive_output_name(source.name.as_str());
            let decision = classify(source, output_files, min_size);
            let ghost old_r = r.deep_view();
            r.push(TranscriptionCandidate { record: source.duplicate(), output_name, decision });
            proof {
                assert(r.deep_view() =~= old_r.push(candidate_of(sv[i as int], ov, min_size)));
            }
        }
        i = i + 1;
    }
    proof {
        assert(sv.take(n as int) =~= sv);
    }
    r
}

/// A matching source file is selected for processing iff it is at least
/// `min_size` bytes and either no output with its derived name exists or the
/// source was modified strictly later than that output.
pub proof fn lemma_selected_iff(src: FileRecordV, outs: Seq<FileRecordV>, min_size: u64)
    ensures
        decision_of(src, outs, min_size) is NeedsProcessing <==> (src.size >= min_size && (
        !has_output(outs, output_name_of(src.name)) || src.modified > output_modified(
            outs,
            output_name_of(src.name),
        ))),
{
}

/// Every resolved candidate is exactly the candidate built from its own
/// record, that record's extension matches, and every matching source file
/// yields its candidate.
pub proof fn lemma_resolve_characterization(
    srcs: Seq<FileRecordV>,
    outs: Seq<FileRecordV>,
    ext: Seq<char>,
    min_size: u64,
)
    ensures
        forall|k: int|
            0 <= k < resolve_spec(srcs, outs, ext, min_size).len() ==> #[trigger] resolve_spec(
                srcs,
                outs,
                ext,
                min_size,
            )[k] == candidate_of(resolve_spec(srcs, outs, ext, min_size)[k].record, outs, min_size)
                && ext_of(resolve_spec(srcs, outs, ext, min_size)[k].record.name) == ext
                && srcs.contains(resolve_spec(srcs, outs, ext, min_size)[k].record),
        forall|i: int|
            0 <= i < srcs.len() && ext_of(#[trigger] srcs[i].name) == ext ==> resolve_spec(
                srcs,
                outs,
                ext,
                min_size,
            ).contains(candidate_of(srcs[i], outs, min_size)),
    decreases srcs.len(),
{
    if srcs.len() > 0 {
        lemma_resolve_characterization(srcs.drop_last(), outs, ext, min_size);
        let prev = resolve_spec(srcs.drop_last(), outs, ext, min_size);
        let cur = resolve_spec(srcs, outs, ext, min_size);
        assert(forall|i: int| 0 <= i < srcs.len() - 1 ==> srcs.drop_last()[i] == srcs[i]);
        assert forall|k: int| #![trigger cur[k]] 0 <= k < cur.len() implies cur[k] == candidate_of(
            cur[k].record,
            outs,
            min_size,
        ) && ext_of(cur[k].record.name) == ext && srcs.contains(cur[k].record) by {
            if k < prev.len() {
                assert(cur[k] == prev[k]);
                assert(srcs.drop_last().contains(prev[k].record));
                let i = choose|i: int|
                    0 <= i < srcs.drop_last().len() && srcs.drop_last()[i] == prev[k].record;
                assert(srcs[i] == cur[k].record);
            } else {
                assert(srcs[srcs.len() - 1] == cur[k].record);
            }
        }
        assert forall|i: int|
            0 <= i < srcs.len() && ext_of(#[trigger] srcs[i].name) == ext implies cur.contains(
            candidate_of(srcs[i], outs, min_size),
        ) by {
            if i < srcs.len() - 1 {
                assert(prev.contains(candidate_of(srcs[i], outs, min_size)));
                let k = choose|k: int|
                    0 <= k < prev.len() && prev[k] == candidate_of(srcs[i], outs, min_size);
                assert(cur[k] == candidate_of(srcs[i], outs, min_size));
            } else {
                assert(cur.last() == candidate_of(srcs[i], outs, min_size));
            }
        }
    }
}

/// Idempotence of a runner pass. Model of one completed pass: every selected
/// source afterwards has an output record under its derived name at least as
/// new as the source, and the pass never removes an output record nor makes
/// one older. A second pass over the unchanged source tree then selects
/// nothing.
pub proof fn lemma_second_pass_selects_nothing(
    srcs: Seq<FileRecordV>,
    outs: Seq<FileRecordV>,
    outs2: Seq<FileRecordV>,
    ext: Seq<char>,
    min_size: u64,
)
    requires
        forall|i: int|
            0 <= i < srcs.len() && ext_of(#[trigger] srcs[i].name) == ext && decision_of(
                srcs[i],
                outs,
                min_size,
            ) is NeedsProcessing ==> has_output(outs2, output_name_of(srcs[i].name))
                && output_modified(outs2, output_name_of(srcs[i].name)) >= srcs[i].modified,
        forall|name: Seq<char>|
            #[trigger] has_output(outs, name) ==> has_output(outs2, name) && output_modified(
                outs2,
                name,
            ) >= output_modified(outs, name),
    ensures
        forall|i: int|
            0 <= i < srcs.len() && ext_of(#[trigger] srcs[i].name) == ext ==> !(decision_of(
                srcs[i],
                outs2,
                min_size,
            ) is NeedsProcessing),
{
    assert forall|i: int|
        0 <= i < srcs.len() && ext_of(#[trigger] srcs[i].name) == ext implies !(decision_of(
        srcs[i],
        outs2,
        min_size,
    ) is NeedsProcessing) by {
        let src = srcs[i];
        let oname = output_name_of(src.name);
        match decision_of(src, outs, min_size) {
            Decision::SkipTooSmall => {
                assert(src.size < min_size);
            },
            Decision::SkipStale => {
                assert(has_output(outs, oname));
                assert(src.modified <= output_modified(outs, oname));
                assert(has_output(outs2, oname));
                assert(src.modified <= output_modified(outs2, oname));
            },
            Decision::NeedsProcessing => {
                assert(src.size >= min_size);
                assert(has_output(outs2, oname));
                assert(src.modified <= output_modified(outs2, oname));
            },
        }
    }
}

} // verus!
