//! The decisions of a decode run: what to do after each image, and the
//! exit code.

use vstd::prelude::*;

verus! {

/// At least one image produced at least one result.
pub const EXIT_FOUND: u8 = 0;

/// Every image was scanned and no QR code was found.
pub const EXIT_NOT_FOUND: u8 = 1;

/// An image could not be read or decoded, or the detector could not start.
pub const EXIT_FAILURE: u8 = 2;

/// The command line was refused.
pub const EXIT_USAGE: u8 = 64;

/// What decoding one image gave.
#[derive(Debug, Clone, Copy, PartialEq, Eq, Structural)]
pub enum ImageOutcome {
    /// The image was decoded; the number of QR codes found.
    Decoded(usize),
    /// The image could not be read or decoded.
    Failed,
}

/// What to do after an image.
#[derive(Debug, Clone, Copy, PartialEq, Eq, Structural)]
pub enum Step {
    /// Nothing was found: go on with the next image.
    Skip,
    /// Write the results of this image, then go on.
    Emit,
    /// Report the failure and end the run with this exit code.
    Stop(u8),
}

/// The state of a decode run over its images.
#[derive(Debug, Clone, Copy)]
pub struct DecRun {
    /// Whether some image so far produced at least one result.
    pub had_any: bool,
}

/// The exit code of a run that has seen `outcomes` after a state in
/// which `had_any` holds or not.
pub open spec fn run_exit_from(had_any: bool, outcomes: Seq<ImageOutcome>) -> u8
    decreases outcomes.len(),
{
    if outcomes.len() == 0 {
        if had_any {
            EXIT_FOUND
        } else {
            EXIT_NOT_FOUND
        }
    } else {
        match outcomes[0] {
            ImageOutcome::Failed => EXIT_FAILURE,
            ImageOutcome::Decoded(n) => run_exit_from(had_any || n > 0, outcomes.drop_first()),
        }
    }
}

/// The exit code of a whole run over `outcomes`.
pub open spec fn run_exit(outcomes: Seq<ImageOutcome>) -> u8 {
    run_exit_from(false, outcomes)
}

/// The exit code of a run over `outcomes` whose detector started
/// (`ready`) or not.
pub open spec fn run_exit_started(ready: bool, outcomes: Seq<ImageOutcome>) -> u8 {
    if ready {
        run_exit(outcomes)
    } else {
        EXIT_FAILURE
    }
}

impl DecRun {
    /// Starts a run once the detector is set up: a detector that could
    /// not start ends the run with `EXIT_FAILURE` before any image.
    pub fn start(detector_ready: bool) -> (r: Result<DecRun, u8>)
        ensures
            match r {
                Ok(run) => detector_ready && !run.had_any,
                Err(code) => !detector_ready && code == EXIT_FAILURE,
            },
    {
        if detector_ready {
            Ok(DecRun { had_any: false })
        } else {
            Err(EXIT_FAILURE)
        }
    }

    /// A run before its first image.
    pub fn new() -> (r: DecRun)
        ensures
            !r.had_any,
    {
        DecRun { had_any: false }
    }

    /// Decides what follows an image: a failure ends the run with
    /// `EXIT_FAILURE`, an image without results is skipped, one with
    /// results is written.
    pub fn on_image(&mut self, outcome: ImageOutcome) -> (s: Step)
        ensures
            match outcome {
                ImageOutcome::Failed => s == Step::Stop(EXIT_FAILURE) && final(self).had_any
                    == old(self).had_any,
                ImageOutcome::Decoded(n) => if n == 0 {
                    s == Step::Skip && final(self).had_any == old(self).had_any
                } else {
                    s == Step::Emit && final(self).had_any
                },
            },
    {
        match outcome {
            ImageOutcome::Failed => Step::Stop(EXIT_FAILURE),
            ImageOutcome::Decoded(n) => {
                if n == 0 {
                    Step::Skip
                } else {
                    self.had_any = true;
                    Step::Emit
                }
            },
        }
    }

    /// The exit code once every image was handled.
    pub fn finish(&self) -> (code: u8)
        ensures
            code == (if self.had_any {
                EXIT_FOUND
            } else {
                EXIT_NOT_FOUND
            }),
    {
        if self.had_any {
            EXIT_FOUND
        } else {
            EXIT_NOT_FOUND
        }
    }
}

/// Whether some image of `outcomes` could not be read or decoded.
pub open spec fn some_failed(outcomes: Seq<ImageOutcome>) -> bool {
    exists|i: int| 0 <= i < outcomes.len() && outcomes[i] == ImageOutcome::Failed
}

/// Whether some image of `outcomes` produced at least one result.
pub open spec fn some_found(outcomes: Seq<ImageOutcome>) -> bool {
    exists|i: int|
        0 <= i < outcomes.len() && (#[trigger] outcomes[i] matches ImageOutcome::Decoded(n) && n > 0)
}

proof fn lemma_run_exit_from(had_any: bool, outcomes: Seq<ImageOutcome>)
    ensures
        run_exit_from(had_any, outcomes) == (if some_failed(outcomes) {
            EXIT_FAILURE
        } else if had_any || some_found(outcomes) {
            EXIT_FOUND
        } else {
            EXIT_NOT_FOUND
        }),
    decreases outcomes.len(),
{
    if outcomes.len() > 0 {
        let rest = outcomes.drop_first();
        match outcomes[0] {
            ImageOutcome::Failed => {
                assert(some_failed(outcomes));
            },
            ImageOutcome::Decoded(n) => {
                lemma_run_exit_from(had_any || n > 0, rest);
                assert(some_failed(outcomes) == some_failed(rest)) by {
                    if some_failed(rest) {
                        let j = choose|j: int| 0 <= j < rest.len() && rest[j] == ImageOutcome::Failed;
                        assert(outcomes[j + 1] == ImageOutcome::Failed);
                    }
                    if some_failed(outcomes) {
                        let j = choose|j: int|
                            0 <= j < outcomes.len() && outcomes[j] == ImageOutcome::Failed;
                        assert(j != 0);
                        assert(rest[j - 1] == ImageOutcome::Failed);
                    }
                }
                assert(some_found(outcomes) == (n > 0 || some_found(rest))) by {
                    if some_found(rest) {
                        let j = choose|j: int|
                            0 <= j < rest.len() && (#[trigger] rest[j] matches ImageOutcome::Decoded(
                                m,
                            ) && m > 0);
                        assert(outcomes[j + 1] == rest[j]);
                    }
                    if some_found(outcomes) {
                        let j = choose|j: int|
                            0 <= j < outcomes.len() && (#[trigger] outcomes[j] matches ImageOutcome::Decoded(
                                m,
                            ) && m > 0);
                        if j > 0 {
                            assert(rest[j - 1] == outcomes[j]);
                        }
                    }
                    if n > 0 {
                        assert(outcomes[0] matches ImageOutcome::Decoded(m) && m > 0);
                    }
                }
            },
        }
    }
}

/// The exit codes as documented: `EXIT_FAILURE` when the detector could
/// not start or an image could not be read or decoded, else `EXIT_FOUND`
/// when at least one image produced at least one result, else
/// `EXIT_NOT_FOUND`.
pub proof fn lemma_run_exit_documented(ready: bool, outcomes: Seq<ImageOutcome>)
    ensures
        run_exit_started(ready, outcomes) == (if !ready || some_failed(outcomes) {
            EXIT_FAILURE
        } else if some_found(outcomes) {
            EXIT_FOUND
        } else {
            EXIT_NOT_FOUND
        }),
{
    lemma_run_exit_from(false, outcomes);
}

/// Handling images one at a time with `on_image`, and ending with
/// `finish` when no step stops the run, gives the exit code `run_exit`:
/// after a step from `had_any` to `had_after` on `outcome`, the exit
/// code of the rest of the run follows from the step.
pub proof fn lemma_step_follows_run_exit(
    had_any: bool,
    outcome: ImageOutcome,
    step: Step,
    had_after: bool,
    rest: Seq<ImageOutcome>,
)
    requires
        match outcome {
            ImageOutcome::Failed => step == Step::Stop(EXIT_FAILURE) && had_after == had_any,
            ImageOutcome::Decoded(n) => if n == 0 {
                step == Step::Skip && had_after == had_any
            } else {
                step == Step::Emit && had_after
            },
        },
    ensures
        run_exit_from(had_any, seq![outcome] + rest) == (match step {
            Step::Stop(code) => code,
            _ => run_exit_from(had_after, rest),
        }),
        run_exit_from(had_any, Seq::empty()) == (if had_any {
            EXIT_FOUND
        } else {
            EXIT_NOT_FOUND
        }),
{
    assert((seq![outcome] + rest).drop_first() =~= rest);
    assert((seq![outcome] + rest)[0] == outcome);
}

} // verus!
