//! Carrying out the steps of an extraction or of a new snapshot.
//!
//! The steps are carried out one after the other. What each of them gave
//! decides whether the next one follows or the operation has failed, and when
//! the extracted snapshot changes.

use vstd::prelude::*;

use crate::error::{Error, IoError, IoErrorKind, PackError};
use crate::extract::{checksums, is_plan, steps, ExtractPlan, ExtractStep, Step};
use crate::extract_laws::law_head_is_written_last;
use crate::options::Switches;
use crate::pack::{SnapshotId, SnapshotName};
use crate::packidx::{files, FileInfo, ObjectChecksum, SnapshotInfo};
use crate::path::byte_strings;
use crate::repository::{Repository, RepositoryState};
use crate::snapshot::{is_snapshot_plan, law_snapshot_head_is_written_last, SnapshotStep};

verus! {

/// What carrying out a step of an extraction gave.
pub enum Outcome {
    /// Whether a file is read-only, or `None` if it is missing.
    Checked(Option<bool>),
    /// Whether a file was deleted.
    Deleted(Result<(), IoError>),
    /// The checksums of files, in order.
    Checksums(Result<Vec<ObjectChecksum>, Error>),
    /// Whether the head file was written.
    HeadWritten(Result<(), IoError>),
    /// Whether files were put in place, or made read-only.
    Transferred(Result<(), Error>),
}

/// The outcome is one of such a step.
pub open spec fn fits(step: Step, outcome: Outcome) -> bool {
    match step {
        Step::Check(_) => outcome is Checked,
        Step::Delete(_) => outcome is Deleted,
        Step::Verify { .. } => outcome is Checksums,
        Step::WriteHead { .. } => outcome is HeadWritten,
        Step::Copy { .. } | Step::Protect(_) | Step::Unpack { .. } => outcome is Transferred,
    }
}

/// The checksums agree, as far as there are any.
pub open spec fn agree(expected: Seq<Seq<u8>>, actual: Seq<Seq<u8>>) -> bool {
    forall|i: int| 0 <= i < expected.len() && i < actual.len() ==> #[trigger] expected[i] == actual[i]
}

/// Whether the step succeeded, and why not.
pub open spec fn step_result(step: Step, outcome: Outcome) -> Result<(), Error> {
    match outcome {
        Outcome::Checked(readonly) => if readonly == Some(true) {
            Ok(())
        } else {
            Err(Error::DirtyWorkDir)
        },
        Outcome::Deleted(Err(e)) => if e.kind == IoErrorKind::NotFound {
            Ok(())
        } else {
            Err(Error::IoError(e))
        },
        Outcome::Deleted(Ok(_)) => Ok(()),
        Outcome::Checksums(Err(e)) => Err(e),
        Outcome::Checksums(Ok(actual)) => if agree(step->expected, checksums(actual@)) {
            Ok(())
        } else {
            Err(Error::PackError(PackError::ChecksumMismatch))
        },
        Outcome::HeadWritten(Err(e)) => Err(Error::IoError(e)),
        Outcome::HeadWritten(Ok(_)) => Ok(()),
        Outcome::Transferred(r) => r,
    }
}

/// The repository after `id` became the extracted snapshot.
pub open spec fn with_head(repo: RepositoryState, id: SnapshotName) -> RepositoryState {
    RepositoryState { head: Some(id), ..repo }
}

/// The repository after a step of the extraction of a snapshot.
pub open spec fn after_outcome(
    repo: RepositoryState,
    id: SnapshotName,
    step: Step,
    outcome: Outcome,
) -> RepositoryState {
    if step is WriteHead && step_result(step, outcome) is Ok {
        with_head(repo, id)
    } else {
        repo
    }
}

impl Repository {
    /// Takes note of what a step of the extraction of a snapshot gave. The
    /// extraction goes on with the next step if this succeeds.
    pub fn finish_extract_step(
        &mut self,
        snapshot_id: &SnapshotId,
        step: &ExtractStep,
        outcome: Outcome,
    ) -> (r: Result<(), Error>)
        requires
            old(self).wf(),
            fits(step@, outcome),
        ensures
            final(self).wf(),
            match step_result(step@, outcome) {
                Ok(_) => r is Ok,
                Err(e) => r == Err::<(), Error>(e),
            },
            final(self)@ == after_outcome(old(self)@, snapshot_id@, step@, outcome),
    {
        match outcome {
            Outcome::Checked(readonly) => Self::ensure_safe_to_delete(readonly),
            Outcome::Deleted(deleted) => Self::file_deleted(deleted),
            Outcome::Checksums(Err(e)) => Err(e),
            Outcome::Checksums(Ok(actual)) => match step {
                ExtractStep::VerifyFiles { expected, .. } => {
                    let r = Self::verify_checksums(expected.as_slice(), actual.as_slice());
                    proof {
                        let a = checksums(expected@);
                        let b = checksums(actual@);
                        if r is Ok {
                            assert forall|i: int|
                                0 <= i < a.len() && i < b.len() implies #[trigger] a[i]
                                == b[i] by {
                                assert(expected@[i]@ == actual@[i]@);
                            }
                        } else {
                            let i = choose|i: int|
                                0 <= i < expected@.len() && i < actual@.len() && (
                                #[trigger] expected@[i])@ != actual@[i]@;
                            assert(a[i] != b[i]);
                        }
                    }
                    r
                },
                _ => Ok(()),
            },
            Outcome::HeadWritten(written) => self.update_head(snapshot_id, written),
            Outcome::Transferred(r) => r,
        }
    }

    /// Takes note of what a step of making a snapshot gave. The next step
    /// follows if this succeeds.
    pub fn finish_snapshot_step(
        &mut self,
        snapshot: &SnapshotId,
        step: &SnapshotStep,
        outcome: Result<(), IoError>,
    ) -> (r: Result<(), Error>)
        requires
            old(self).wf(),
        ensures
            final(self).wf(),
            match outcome {
                Ok(_) => r is Ok,
                Err(e) => r == Err::<(), Error>(Error::IoError(e)),
            },
            final(self)@ == after_snapshot_step(old(self)@, snapshot@, *step, outcome),
    {
        match step {
            SnapshotStep::WriteHead(_) => self.update_head(snapshot, outcome),
            _ => match outcome {
                Ok(_) => Ok(()),
                Err(e) => Err(Error::IoError(e)),
            },
        }
    }
}

/// The repository after a step of making a snapshot.
pub open spec fn after_snapshot_step(
    repo: RepositoryState,
    id: SnapshotName,
    step: SnapshotStep,
    outcome: Result<(), IoError>,
) -> RepositoryState {
    if step is WriteHead && outcome is Ok {
        with_head(repo, id)
    } else {
        repo
    }
}

/// The outcomes are those of the first steps, of which all but the last one
/// succeeded.
pub open spec fn is_extract_run(list: Seq<Step>, outcomes: Seq<Outcome>) -> bool {
    &&& outcomes.len() <= list.len()
    &&& forall|i: int|
        0 <= i < outcomes.len() - 1 ==> step_result(list[i], #[trigger] outcomes[i]) is Ok
}

/// The repository after the first steps of the extraction of a snapshot.
pub open spec fn after_outcomes(
    repo: RepositoryState,
    id: SnapshotName,
    list: Seq<Step>,
    outcomes: Seq<Outcome>,
) -> RepositoryState
    decreases outcomes.len(),
{
    if outcomes.len() == 0 {
        repo
    } else {
        after_outcome(
            after_outcomes(repo, id, list, outcomes.drop_last()),
            id,
            list[outcomes.len() - 1],
            outcomes.last(),
        )
    }
}

/// The steps before the last one leave the repository as it is.
proof fn lemma_head_waits(
    repo: RepositoryState,
    id: SnapshotName,
    list: Seq<Step>,
    outcomes: Seq<Outcome>,
)
    requires
        outcomes.len() <= list.len(),
        forall|k: int| 0 <= k < outcomes.len() ==> !((#[trigger] list[k]) is WriteHead),
    ensures
        after_outcomes(repo, id, list, outcomes) == repo,
    decreases outcomes.len(),
{
    if outcomes.len() > 0 {
        lemma_head_waits(repo, id, list, outcomes.drop_last());
        assert(!(list[outcomes.len() - 1] is WriteHead));
    }
}

/// The extracted snapshot changes exactly if all steps of the extraction
/// succeeded. An extraction that fails leaves it as it was.
pub proof fn law_head_changes_with_the_last_step(
    plan: ExtractPlan,
    repo: RepositoryState,
    id: SnapshotName,
    opts: Switches,
    wanted: Seq<FileInfo>,
    current: Option<Seq<FileInfo>>,
    outcomes: Seq<Outcome>,
)
    requires
        is_plan(plan, repo.path, id, opts, wanted, current),
        is_extract_run(steps(plan.steps@), outcomes),
    ensures
        after_outcomes(repo, id, steps(plan.steps@), outcomes) == (if outcomes.len()
            == plan.steps@.len() && step_result(
            steps(plan.steps@).last(),
            outcomes.last(),
        ) is Ok {
            with_head(repo, id)
        } else {
            repo
        }),
{
    let list = steps(plan.steps@);
    let added = files(plan.added@);
    let updated = byte_strings(plan.updated_paths@);
    let removed = byte_strings(plan.removed_paths@);
    assert forall|k: int| 0 <= k < list.len() implies ((#[trigger] list[k]) is WriteHead <==> k
        == list.len() - 1) by {
        law_head_is_written_last(repo.path, id, opts, added, updated, removed, k);
    }
    assert(list.len() > 0);
    if outcomes.len() == list.len() {
        lemma_head_waits(repo, id, list, outcomes.drop_last());
        assert(list[list.len() - 1] is WriteHead);
    } else {
        lemma_head_waits(repo, id, list, outcomes);
    }
}

/// The outcomes are those of the first steps, of which all but the last one
/// succeeded.
pub open spec fn is_snapshot_run(
    list: Seq<SnapshotStep>,
    outcomes: Seq<Result<(), IoError>>,
) -> bool {
    &&& outcomes.len() <= list.len()
    &&& forall|k: int| 0 <= k < outcomes.len() - 1 ==> (#[trigger] outcomes[k]) is Ok
}

/// The repository after the first steps of making a snapshot.
pub open spec fn after_snapshot_steps(
    repo: RepositoryState,
    id: SnapshotName,
    list: Seq<SnapshotStep>,
    outcomes: Seq<Result<(), IoError>>,
) -> RepositoryState
    decreases outcomes.len(),
{
    if outcomes.len() == 0 {
        repo
    } else {
        after_snapshot_step(
            after_snapshot_steps(repo, id, list, outcomes.drop_last()),
            id,
            list[outcomes.len() - 1],
            outcomes.last(),
        )
    }
}

proof fn lemma_snapshot_head_waits(
    repo: RepositoryState,
    id: SnapshotName,
    list: Seq<SnapshotStep>,
    outcomes: Seq<Result<(), IoError>>,
)
    requires
        outcomes.len() <= list.len(),
        forall|k: int| 0 <= k < outcomes.len() ==> !((#[trigger] list[k]) is WriteHead),
    ensures
        after_snapshot_steps(repo, id, list, outcomes) == repo,
    decreases outcomes.len(),
{
    if outcomes.len() > 0 {
        lemma_snapshot_head_waits(repo, id, list, outcomes.drop_last());
        assert(!(list[outcomes.len() - 1] is WriteHead));
    }
}

/// A new snapshot becomes the extracted one exactly if all steps of making it
/// succeeded.
pub proof fn law_new_snapshot_becomes_head(
    list: Seq<SnapshotStep>,
    repo: RepositoryState,
    id: SnapshotName,
    paths: Seq<Seq<u8>>,
    sums: Seq<Seq<u8>>,
    sizes: Seq<Result<u64, IoError>>,
    index: Seq<SnapshotInfo>,
    outcomes: Seq<Result<(), IoError>>,
)
    requires
        is_snapshot_plan(list, repo.path, id, paths, sums, sizes, index),
        is_snapshot_run(list, outcomes),
    ensures
        after_snapshot_steps(repo, id, list, outcomes) == (if outcomes.len() == list.len()
            && outcomes.last() is Ok {
            with_head(repo, id)
        } else {
            repo
        }),
{
    assert forall|k: int| 0 <= k < list.len() implies ((#[trigger] list[k]) is WriteHead <==> k
        == list.len() - 1) by {
        law_snapshot_head_is_written_last(list, repo.path, id, paths, sums, sizes, index, k);
    }
    assert(list.len() > 0);
    if outcomes.len() == list.len() {
        lemma_snapshot_head_waits(repo, id, list, outcomes.drop_last());
        assert(list[list.len() - 1] is WriteHead);
    } else {
        lemma_snapshot_head_waits(repo, id, list, outcomes);
    }
}

/// What each outcome means. A checked file has to be there and read-only. A
/// deleted file may have been missing. Checksums have to be those expected, as
/// far as there are both. Everything else has to succeed, and fails for the
/// reason that it gives.
pub proof fn law_results_of_steps(
    step: Step,
    readonly: Option<bool>,
    e: IoError,
    other: Error,
    actual: Vec<ObjectChecksum>,
)
    ensures
        step_result(step, Outcome::Checked(readonly)) == (match readonly {
            Some(true) => Ok::<(), Error>(()),
            _ => Err(Error::DirtyWorkDir),
        }),
        step_result(step, Outcome::Deleted(Ok(()))) is Ok,
        step_result(step, Outcome::Deleted(Err(e))) == (match e.kind {
            IoErrorKind::NotFound => Ok::<(), Error>(()),
            IoErrorKind::Other => Err(Error::IoError(e)),
        }),
        step_result(step, Outcome::Checksums(Err(other))) == Err::<(), Error>(other),
        step matches Step::Verify { expected, .. } ==> {
            let r = step_result(step, Outcome::Checksums(Ok(actual)));
            &&& r is Ok <==> forall|i: int|
                0 <= i < expected.len() && i < actual@.len() ==> #[trigger] expected[i]
                    == actual@[i]@
            &&& r is Err ==> r == Err::<(), Error>(Error::PackError(PackError::ChecksumMismatch))
        },
        step_result(step, Outcome::HeadWritten(Ok(()))) is Ok,
        step_result(step, Outcome::HeadWritten(Err(e))) == Err::<(), Error>(Error::IoError(e)),
        step_result(step, Outcome::Transferred(Ok(()))) is Ok,
        step_result(step, Outcome::Transferred(Err(other))) == Err::<(), Error>(other),
{
    if let Step::Verify { expected, .. } = step {
        let b = checksums(actual@);
        let r = step_result(step, Outcome::Checksums(Ok(actual)));
        if r is Ok {
            assert forall|i: int| 0 <= i < expected.len() && i < actual@.len() implies
                #[trigger] expected[i] == actual@[i]@ by {
                assert(expected[i] == b[i]);
            }
        } else {
            let i = choose|i: int|
                0 <= i < expected.len() && i < b.len() && #[trigger] expected[i] != b[i];
            assert(expected[i] != actual@[i]@);
        }
    }
}

/// The extracted snapshot changes when the head file was written, and only
/// then; the path of the repository and its index never do.
pub proof fn law_what_a_step_changes(
    repo: RepositoryState,
    id: SnapshotName,
    step: Step,
    outcome: Outcome,
    made: SnapshotStep,
    written: Result<(), IoError>,
)
    requires
        fits(step, outcome),
    ensures
        ({
            let after = after_outcome(repo, id, step, outcome);
            &&& after.path == repo.path
            &&& after.packs == repo.packs
            &&& after.head == (match outcome {
                Outcome::HeadWritten(Ok(_)) => Some(id),
                _ => repo.head,
            })
        }),
        ({
            let after = after_snapshot_step(repo, id, made, written);
            &&& after.path == repo.path
            &&& after.packs == repo.packs
            &&& after.head == (match (made, written) {
                (SnapshotStep::WriteHead(_), Ok(_)) => Some(id),
                _ => repo.head,
            })
        }),
{
}

/// Which outcomes a step can have.
pub proof fn law_outcomes_of_steps(step: ExtractStep, outcome: Outcome)
    ensures
        fits(step@, outcome) <==> match step {
            ExtractStep::CheckFile(_) => outcome is Checked,
            ExtractStep::DeleteFile(_) => outcome is Deleted,
            ExtractStep::VerifyFiles { .. } => outcome is Checksums,
            ExtractStep::WriteHead(_) => outcome is HeadWritten,
            _ => outcome is Transferred,
        },
{
}

} // verus!
