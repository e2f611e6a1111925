//! `sentinel check`: whether the signatures on disk match what the sources
//! generate, file by file, and the verdict over all files.
use vstd::prelude::*;
use crate::transpiler::{SentinelTranspiler, spec_has_content};

verus! {

broadcast use vstd::string::group_string_axioms;

/// What is on disk where a file's signature belongs.
pub enum ExistingSignature {
    /// No file there.
    Absent,
    /// A file there that could not be read.
    Unreadable,
    /// A file with this text.
    Present(String),
}

/// The verdict on one Ruby file.
#[derive(PartialEq, Eq, Structural, Debug, Clone, Copy)]
pub enum CheckOutcome {
    /// It declares nothing, so it needs no signature file.
    Skipped,
    /// Its signature file does not exist.
    Missing,
    /// Its signature file holds exactly the generated text.
    UpToDate,
    /// Its signature file holds other text.
    Stale,
    /// It could not be transpiled, or its signature file could not be read.
    Failed,
}

/// The verdict on a file whose generated text is `generated` (`None` when
/// it could not be transpiled), given what is on disk.
pub open spec fn outcome(generated: Option<Seq<char>>, existing: ExistingSignature) -> CheckOutcome {
    match generated {
        None => CheckOutcome::Failed,
        Some(rbs) => if !spec_has_content(rbs) {
            CheckOutcome::Skipped
        } else {
            match existing {
                ExistingSignature::Absent => CheckOutcome::Missing,
                ExistingSignature::Unreadable => CheckOutcome::Failed,
                ExistingSignature::Present(text) => if text@ == rbs {
                    CheckOutcome::UpToDate
                } else {
                    CheckOutcome::Stale
                },
            }
        },
    }
}

/// Whether the signature file needs to be looked at: only for generated
/// text that declares something.
pub fn needs_signature(generated: &str) -> (r: bool)
    ensures
        r == spec_has_content(generated@),
{
    SentinelTranspiler::has_content(generated)
}

/// The verdict on one file; see [`outcome`].
pub fn check_signature(generated: Option<&str>, existing: &ExistingSignature) -> (r: CheckOutcome)
    ensures
        r == outcome(
            match generated {
                Some(g) => Some(g@),
                None => None,
            },
            *existing,
        ),
{
    match generated {
        None => CheckOutcome::Failed,
        Some(rbs) => {
            if !SentinelTranspiler::has_content(rbs) {
                CheckOutcome::Skipped
            } else {
                match existing {
                    ExistingSignature::Absent => CheckOutcome::Missing,
                    ExistingSignature::Unreadable => CheckOutcome::Failed,
                    ExistingSignature::Present(text) => {
                        if crate::text::same_text(
                            &crate::text::chars_of(text.as_str()),
                            &crate::text::chars_of(rbs),
                        ) {
                            CheckOutcome::UpToDate
                        } else {
                            CheckOutcome::Stale
                        }
                    },
                }
            }
        },
    }
}

/// A signature file that holds what `sentinel init` writes, the generated
/// text, is reported up to date (or, for a file that declares nothing and
/// so gets no signature, skipped).
pub proof fn law_written_signature_is_current(written: String)
    ensures
        outcome(Some(written@), ExistingSignature::Present(written)) == (if spec_has_content(written@) {
            CheckOutcome::UpToDate
        } else {
            CheckOutcome::Skipped
        }),
{
}

/// A file that could not be transpiled fails whatever is on disk; generated
/// text that declares nothing is skipped whatever is on disk; generated text
/// that declares something fails when its signature file cannot be read and
/// is missing when there is none.
pub proof fn law_verdicts_without_comparison(generated: Seq<char>, existing: ExistingSignature)
    ensures
        outcome(None, existing) == CheckOutcome::Failed,
        !spec_has_content(generated) ==> outcome(Some(generated), existing) == CheckOutcome::Skipped,
        spec_has_content(generated) ==> outcome(Some(generated), ExistingSignature::Unreadable)
            == CheckOutcome::Failed,
        spec_has_content(generated) ==> outcome(Some(generated), ExistingSignature::Absent)
            == CheckOutcome::Missing,
{
}

/// For generated text that declares something and a signature file that
/// is there, the verdict is up to date exactly when the file holds that very
/// text, and stale whenever it holds anything else.
pub proof fn law_present_file_compared_exactly(generated: Seq<char>, file: String)
    requires
        spec_has_content(generated),
    ensures
        (outcome(Some(generated), ExistingSignature::Present(file)) == CheckOutcome::UpToDate) <==> file@ == generated,
        (outcome(Some(generated), ExistingSignature::Present(file)) == CheckOutcome::Stale) <==> file@ != generated,
{
}

/// `sentinel check` asks for a signature file exactly where `sentinel init`
/// writes one: a missing file is reported only for generated text that
/// declares something.
pub proof fn law_missing_exactly_where_init_writes(generated: Seq<char>)
    ensures
        (outcome(Some(generated), ExistingSignature::Absent) == CheckOutcome::Missing) <==> spec_has_content(
            generated,
        ),
{
}

/// How many of the verdicts are `k`.
pub open spec fn count_of(outs: Seq<CheckOutcome>, k: CheckOutcome) -> nat
    decreases outs.len(),
{
    if outs.len() == 0 {
        0
    } else {
        count_of(outs.drop_last(), k) + if outs.last() == k {
            1nat
        } else {
            0nat
        }
    }
}

/// The positions of the verdicts that are `k`, in order.
pub open spec fn positions_of(outs: Seq<CheckOutcome>, k: CheckOutcome) -> Seq<int>
    decreases outs.len(),
{
    if outs.len() == 0 {
        seq![]
    } else {
        positions_of(outs.drop_last(), k) + if outs.last() == k {
            seq![outs.len() - 1]
        } else {
            seq![]
        }
    }
}

/// The verdicts over all the files of a folder, by file position.
pub struct CheckReport {
    /// Files compared with their signature file (missing, stale or current).
    pub checked: usize,
    /// Files that declare nothing.
    pub skipped: usize,
    /// Files that failed.
    pub failed: usize,
    /// Positions of the files whose signature file is missing.
    pub missing: Vec<usize>,
    /// Positions of the files whose signature file is stale.
    pub stale: Vec<usize>,
}

/// Whether a report passes: nothing missing, nothing stale, nothing failed.
pub open spec fn report_ok(failed: nat, missing: Seq<usize>, stale: Seq<usize>) -> bool {
    missing.len() == 0 && stale.len() == 0 && failed == 0
}

pub open spec fn as_ints(v: Seq<usize>) -> Seq<int> {
    v.map_values(|x: usize| x as int)
}

/// The report on the verdicts `outs`.
pub fn summarize(outs: &Vec<CheckOutcome>) -> (r: CheckReport)
    ensures
        r.checked == count_of(outs@, CheckOutcome::Missing) + count_of(outs@, CheckOutcome::UpToDate)
            + count_of(outs@, CheckOutcome::Stale),
        r.skipped == count_of(outs@, CheckOutcome::Skipped),
        r.failed == count_of(outs@, CheckOutcome::Failed),
        as_ints(r.missing@) == positions_of(outs@, CheckOutcome::Missing),
        as_ints(r.stale@) == positions_of(outs@, CheckOutcome::Stale),
{
    let mut r = CheckReport { checked: 0, skipped: 0, failed: 0, missing: Vec::new(), stale: Vec::new() };
    assert(as_ints(r.missing@) =~= Seq::<int>::empty());
    assert(as_ints(r.stale@) =~= Seq::<int>::empty());
    assert(outs@.subrange(0, 0) =~= Seq::<CheckOutcome>::empty());
    for i in 0..outs.len()
        invariant
            ({
                let p = outs@.subrange(0, i as int);
                &&& r.checked == count_of(p, CheckOutcome::Missing) + count_of(p, CheckOutcome::UpToDate)
                    + count_of(p, CheckOutcome::Stale)
                &&& r.skipped == count_of(p, CheckOutcome::Skipped)
                &&& r.failed == count_of(p, CheckOutcome::Failed)
                &&& as_ints(r.missing@) == positions_of(p, CheckOutcome::Missing)
                &&& as_ints(r.stale@) == positions_of(p, CheckOutcome::Stale)
            }),
            r.checked + r.skipped + r.failed == i,
    {
        let ghost p = outs@.subrange(0, i as int);
        let ghost q = outs@.subrange(0, i + 1);
        assert(q.drop_last() =~= p);
        assert(q.last() == outs@[i as int]);
        let ghost pm = as_ints(r.missing@);
        let ghost ps = as_ints(r.stale@);
        match outs[i] {
            CheckOutcome::Skipped => {
                r.skipped = r.skipped + 1;
            },
            CheckOutcome::Failed => {
                r.failed = r.failed + 1;
            },
            CheckOutcome::UpToDate => {
                r.checked = r.checked + 1;
            },
            CheckOutcome::Missing => {
                r.checked = r.checked + 1;
                r.missing.push(i);
                assert(as_ints(r.missing@) =~= pm + seq![i as int]);
            },
            CheckOutcome::Stale => {
                r.checked = r.checked + 1;
                r.stale.push(i);
                assert(as_ints(r.stale@) =~= ps + seq![i as int]);
            },
        }
        assert(as_ints(r.missing@) == positions_of(q, CheckOutcome::Missing));
        assert(as_ints(r.stale@) == positions_of(q, CheckOutcome::Stale));
    }
    assert(outs@.subrange(0, outs@.len() as int) =~= outs@);
    r
}

impl CheckReport {
    /// Whether the check passes; `sentinel check` exits with status 1 when
    /// it does not.
    pub fn all_ok(&self) -> (r: bool)
        ensures
            r == report_ok(self.failed as nat, self.missing@, self.stale@),
    {
        self.missing.len() == 0 && self.stale.len() == 0 && self.failed == 0
    }
}

proof fn lemma_counts(outs: Seq<CheckOutcome>)
    ensures
        count_of(outs, CheckOutcome::Missing) == positions_of(outs, CheckOutcome::Missing).len(),
        count_of(outs, CheckOutcome::Stale) == positions_of(outs, CheckOutcome::Stale).len(),
        (count_of(outs, CheckOutcome::Missing) == 0 && count_of(outs, CheckOutcome::Stale) == 0 && count_of(
            outs,
            CheckOutcome::Failed,
        ) == 0) <==> (forall|i: int|
            0 <= i < outs.len() ==> (#[trigger] outs[i] == CheckOutcome::UpToDate || outs[i]
                == CheckOutcome::Skipped)),
    decreases outs.len(),
{
    if outs.len() > 0 {
        let p = outs.drop_last();
        lemma_counts(p);
        assert forall|i: int| 0 <= i < p.len() implies p[i] == outs[i] by {}
    }
}

/// A check passes exactly when every file is up to date or declares
/// nothing: one missing, stale or failed file fails it.
pub proof fn law_check_passes_iff_all_current(outs: Seq<CheckOutcome>, r: CheckReport)
    requires
        r.checked == count_of(outs, CheckOutcome::Missing) + count_of(outs, CheckOutcome::UpToDate)
            + count_of(outs, CheckOutcome::Stale),
        r.skipped == count_of(outs, CheckOutcome::Skipped),
        r.failed == count_of(outs, CheckOutcome::Failed),
        as_ints(r.missing@) == positions_of(outs, CheckOutcome::Missing),
        as_ints(r.stale@) == positions_of(outs, CheckOutcome::Stale),
    ensures
        report_ok(r.failed as nat, r.missing@, r.stale@) <==> (forall|i: int|
            0 <= i < outs.len() ==> (#[trigger] outs[i] == CheckOutcome::UpToDate || outs[i]
                == CheckOutcome::Skipped)),
{
    lemma_counts(outs);
    assert(r.missing@.len() == as_ints(r.missing@).len());
    assert(r.stale@.len() == as_ints(r.stale@).len());
}

} // verus!
