//! Deterministic file naming: the extension of a file name is its final
//! dot-segment, the stem is everything before the final dot, and the derived
//! transcript name is the stem with `.txt` appended.

use vstd::prelude::*;
use vstd::string::StrSliceExecFns;
use vstd::string::StringExecFns;

verus! {

/// Character-wise string equality.
pub fn str_eq(a: &str, b: &str) -> (r: bool)
    ensures
        r == (a@ == b@),
{
    let la = a.unicode_len();
    let lb = b.unicode_len();
    if la != lb {
        return false;
    }
    let mut i: usize = 0;
    while i < la
        invariant
            la == a@.len(),
            lb == b@.len(),
            la == lb,
            i <= la,
            forall|j: int| 0 <= j < i ==> a@[j] == b@[j],
        decreases la - i,
    {
        if a.get_char(i) != b.get_char(i) {
            return false;
        }
        i = i + 1;
    }
    proof {
        assert(a@ =~= b@);
    }
    true
}

/// Index of the last `'.'` in `s`, or `-1` when `s` has none.
pub open spec fn last_dot(s: Seq<char>) -> int
    decreases s.len(),
{
    if s.len() == 0 {
        -1
    } else if s.last() == '.' {
        s.len() - 1
    } else {
        last_dot(s.drop_last())
    }
}

/// The final dot-segment of a name: everything after the last `'.'`, or the
/// whole name when it has no dot.
pub open spec fn ext_of(s: Seq<char>) -> Seq<char> {
    if last_dot(s) < 0 {
        s
    } else {
        s.subrange(last_dot(s) + 1, s.len() as int)
    }
}

/// The stem of a name: everything before the last `'.'`, or empty when the
/// name has no dot.
pub open spec fn stem_of(s: Seq<char>) -> Seq<char> {
    if last_dot(s) < 0 {
        Seq::empty()
    } else {
        s.subrange(0, last_dot(s))
    }
}

/// The transcript name derived from a source name: its stem with `.txt`
/// appended.
pub open spec fn output_name_of(s: Seq<char>) -> Seq<char> {
    stem_of(s) + ".txt"@
}

proof fn lemma_last_dot_at(s: Seq<char>, k: int)
    requires
        0 <= k < s.len(),
        s[k] == '.',
        forall|j: int| k < j < s.len() ==> s[j] != '.',
    ensures
        last_dot(s) == k,
    decreases s.len(),
{
    if k < s.len() - 1 {
        lemma_last_dot_at(s.drop_last(), k);
    }
}

proof fn lemma_no_dot(s: Seq<char>)
    requires
        forall|j: int| 0 <= j < s.len() ==> s[j] != '.',
    ensures
        last_dot(s) == -1,
    decreases s.len(),
{
    if s.len() > 0 {
        lemma_no_dot(s.drop_last());
    }
}

/// Position of the last `'.'` in `file_name`, or `None` when it has none.
fn find_last_dot(file_name: &str) -> (r: Option<usize>)
    ensures
        match r {
            Option::Some(k) => last_dot(file_name@) == k as int && (k as int) < file_name@.len(),
            Option::None => last_dot(file_name@) == -1,
        },
{
    let len = file_name.unicode_len();
    let mut i: usize = 0;
    let mut has_dot: bool = false;
    let mut last: usize = 0;
    while i < len
        invariant
            len == file_name@.len(),
            i <= len,
            has_dot ==> last < i && file_name@[last as int] == '.' && (forall|j: int|
                last < j < i ==> file_name@[j] != '.'),
            !has_dot ==> forall|j: int| 0 <= j < i ==> file_name@[j] != '.',
        decreases len - i,
    {
        let c = file_name.get_char(i);
        if c == '.' {
            has_dot = true;
            last = i;
        }
        i = i + 1;
    }
    if has_dot {
        proof {
            lemma_last_dot_at(file_name@, last as int);
        }
        Option::Some(last)
    } else {
        proof {
            lemma_no_dot(file_name@);
        }
        Option::None
    }
}

/// The extension (final dot-segment) of `file_name`; the whole name when it
/// has no dot.
pub fn get_ext(file_name: &str) -> (r: String)
    ensures
        r@ == ext_of(file_name@),
{
    let len = file_name.unicode_len();
    match find_last_dot(file_name) {
        Option::Some(k) => {
            let sub = file_name.substring_char(k + 1, len);
            sub.to_owned()
        },
        Option::None => file_name.to_owned(),
    }
}

/// The stem of `file_name`: everything before its last dot, empty when it
/// has none.
pub fn strip_extension(file_name: &str) -> (r: String)
    ensures
        r@ == stem_of(file_name@),
{
    match find_last_dot(file_name) {
        Option::Some(k) => {
            let sub = file_name.substring_char(0, k);
            sub.to_owned()
        },
        Option::None => String::new(),
    }
}

/// The transcript file name for a source file: its stem with `.txt` appended.
pub fn derive_output_name(file_name: &str) -> (r: String)
    ensures
        r@ == output_name_of(file_name@),
{
    let stem = strip_extension(file_name);
    stem.concat(".txt")
}

/// Appending `.txt` to any stem yields a name whose own stem is that stem
/// again: the derivation loses nothing before the final dot.
pub proof fn lemma_stem_of_derived(stem: Seq<char>)
    ensures
        stem_of(stem + ".txt"@) == stem,
        output_name_of(stem + ".txt"@) == stem + ".txt"@,
{
    reveal_strlit(".txt");
    let on = stem + ".txt"@;
    assert(on[stem.len() as int] == '.');
    assert(forall|j: int| stem.len() < j < on.len() ==> on[j] != '.');
    lemma_last_dot_at(on, stem.len() as int);
    assert(stem_of(on) =~= stem);
}

/// Round trip: deriving the output name of an already-derived output name
/// returns it unchanged.
pub proof fn lemma_output_name_round_trip(s: Seq<char>)
    ensures
        output_name_of(output_name_of(s)) == output_name_of(s),
{
    lemma_stem_of_derived(stem_of(s));
}

/// Collision freedom: two source names with distinct stems derive distinct
/// output names.
pub proof fn lemma_output_name_injective(a: Seq<char>, b: Seq<char>)
    requires
        stem_of(a) != stem_of(b),
    ensures
        output_name_of(a) != output_name_of(b),
{
    reveal_strlit(".txt");
    if output_name_of(a) == output_name_of(b) {
        assert(output_name_of(a).len() == stem_of(a).len() + 4);
        assert(output_name_of(b).len() == stem_of(b).len() + 4);
        assert(stem_of(a).len() == stem_of(b).len());
        assert(forall|i: int|
            0 <= i < stem_of(a).len() ==> stem_of(a)[i] == output_name_of(a)[i]);
        assert(stem_of(a) =~= stem_of(b));
    }
}

} // verus!
