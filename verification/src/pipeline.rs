//! The stages of sealing a source into a capsule project, as reported to an
//! interface while the work happens, and the decisions that order them. The
//! work of each stage runs in the program, on the project's cryptography and
//! package crates; `seal_step` says what comes next after each event, so the
//! order of the stages, the cancellation checkpoints and the clean-up of a
//! half-built project are decided here.
use vstd::prelude::*;

verus! {

/// A stage of real work, reported as it happens.
#[derive(Clone, Copy, Debug, PartialEq, Eq, Structural)]
pub enum Stage {
    CapturingFingerprint,
    LoadingTrustedMachines,
    AcquiringLocation,
    DerivingKeys,
    CollectingFiles,
    SealingPayload,
    GeneratingProject,
    Done,
}

pub open spec fn stage_message(s: Stage) -> Seq<char> {
    match s {
        Stage::CapturingFingerprint => "Reading this machine's identity, so the capsule can recognise it later."@,
        Stage::LoadingTrustedMachines => "Checking the trusted machine records. An edited record is refused."@,
        Stage::AcquiringLocation => "Requesting location from the operating system."@,
        Stage::DerivingKeys => "Deriving the payload key. Argon2id is deliberately slow - this is the step that makes guessing expensive."@,
        Stage::CollectingFiles => "Recording what is being protected: paths, permissions and symlinks."@,
        Stage::SealingPayload => "Compressing and sealing chunks."@,
        Stage::GeneratingProject => "Generating capsule source and vendoring runtime crates."@,
        Stage::Done => "Capsule project ready."@,
    }
}

impl Stage {
    /// What the operator is told while this stage runs.
    pub fn message(&self) -> (r: &'static str)
        ensures
            r@ == stage_message(*self),
    {
        match self {
            Stage::CapturingFingerprint => "Reading this machine's identity, so the capsule can recognise it later.",
            Stage::LoadingTrustedMachines => "Checking the trusted machine records. An edited record is refused.",
            Stage::AcquiringLocation => "Requesting location from the operating system.",
            Stage::DerivingKeys => "Deriving the payload key. Argon2id is deliberately slow - this is the step that makes guessing expensive.",
            Stage::CollectingFiles => "Recording what is being protected: paths, permissions and symlinks.",
            Stage::SealingPayload => "Compressing and sealing chunks.",
            Stage::GeneratingProject => "Generating capsule source and vendoring runtime crates.",
            Stage::Done => "Capsule project ready.",
        }
    }
}

/// Where a seal is.
#[derive(Clone, Copy, Debug, PartialEq, Eq, Structural)]
pub enum SealPhase {
    /// Nothing has happened yet.
    NotStarted,
    /// The staging directory left by an earlier attempt is being removed.
    ClearingStaging,
    /// This stage's work is under way.
    Running(Stage),
    /// The finished project is being moved from staging into place.
    Finalising,
    /// An outcome has been reached; nothing more happens.
    Finished,
}

/// Why a seal ended without a project.
#[derive(Clone, Copy, Debug, PartialEq, Eq, Structural)]
pub enum SealError {
    /// The operator cancelled; nothing is left behind.
    Cancelled,
    /// The work of the current step failed; the program holds the details.
    StepFailed,
}

/// How a seal ended.
#[derive(Clone, Copy, Debug, PartialEq, Eq, Structural)]
pub enum SealResult {
    /// The project is in place.
    Sealed,
    Failed(SealError),
}

/// The state of one seal.
#[derive(Clone, Copy, Debug, PartialEq, Eq, Structural)]
pub struct SealState {
    pub phase: SealPhase,
    /// A location tolerance was configured, so the location stage runs.
    pub wants_location: bool,
    pub outcome: Option<SealResult>,
}

/// What the program reports back.
#[derive(Clone, Copy, Debug, PartialEq, Eq, Structural)]
pub enum SealEvent {
    /// The pre-checks passed; begin.
    Start,
    /// The step the last action asked for is done.
    StepDone,
    /// The step the last action asked for failed.
    StepFailed,
    /// The operator asked to cancel.
    CancelRequested,
}

/// What the program must do next.
#[derive(Clone, Copy, Debug, PartialEq, Eq, Structural)]
pub enum SealAction {
    /// Remove what an earlier attempt left in the staging directory.
    ClearStaging,
    /// Announce this stage and do its work.
    Run(Stage),
    /// Move the finished project from staging into place.
    Finalise,
    /// Remove the staging directory and stop with the state's outcome.
    RemoveStaging,
    /// Stop with this outcome (after a success, announce `Stage::Done`).
    Finish(SealResult),
    /// Nothing: the seal is over, or the event does not apply.
    Nothing,
}

/// The stage after `s`: the location stage runs only when wanted.
pub open spec fn next_stage(s: Stage, wants_location: bool) -> SealPhase {
    match s {
        Stage::CapturingFingerprint => SealPhase::Running(Stage::LoadingTrustedMachines),
        Stage::LoadingTrustedMachines => if wants_location {
            SealPhase::Running(Stage::AcquiringLocation)
        } else {
            SealPhase::Running(Stage::DerivingKeys)
        },
        Stage::AcquiringLocation => SealPhase::Running(Stage::DerivingKeys),
        Stage::DerivingKeys => SealPhase::Running(Stage::CollectingFiles),
        Stage::CollectingFiles => SealPhase::Running(Stage::SealingPayload),
        Stage::SealingPayload => SealPhase::Running(Stage::GeneratingProject),
        Stage::GeneratingProject => SealPhase::Finalising,
        Stage::Done => SealPhase::Finalising,
    }
}

/// The action that starts phase `p`.
pub open spec fn action_for(p: SealPhase) -> SealAction {
    match p {
        SealPhase::ClearingStaging => SealAction::ClearStaging,
        SealPhase::Running(s) => SealAction::Run(s),
        SealPhase::Finalising => SealAction::Finalise,
        _ => SealAction::Nothing,
    }
}

/// One step of the seal: the next state and what to do.
///
/// Once an outcome is reached nothing more happens. A cancellation ends the
/// seal as cancelled and removes the staging directory, so a cancelled seal
/// leaves nothing partial behind. A failed step ends it as failed; when the
/// failure was in moving the project into place, the staging directory is
/// removed too. Otherwise a finished step starts the next one, in the order
/// of `next_stage`, and the seal succeeds only once the project is in place.
pub open spec fn spec_seal_step(st: SealState, ev: SealEvent) -> (SealState, SealAction) {
    let finished = SealState { phase: SealPhase::Finished, ..st };
    if st.outcome is Some || st.phase is Finished {
        (st, SealAction::Nothing)
    } else {
        match ev {
            SealEvent::CancelRequested => (
                SealState { outcome: Some(SealResult::Failed(SealError::Cancelled)), ..finished },
                SealAction::RemoveStaging,
            ),
            SealEvent::StepFailed => if st.phase is NotStarted {
                (st, SealAction::Nothing)
            } else if st.phase is Finalising {
                (SealState { outcome: Some(SealResult::Failed(SealError::StepFailed)), ..finished }, SealAction::RemoveStaging)
            } else {
                (
                    SealState { outcome: Some(SealResult::Failed(SealError::StepFailed)), ..finished },
                    SealAction::Finish(SealResult::Failed(SealError::StepFailed)),
                )
            },
            SealEvent::Start => if st.phase is NotStarted {
                (SealState { phase: SealPhase::ClearingStaging, ..st }, SealAction::ClearStaging)
            } else {
                (st, SealAction::Nothing)
            },
            SealEvent::StepDone => match st.phase {
                SealPhase::ClearingStaging => (
                    SealState { phase: SealPhase::Running(Stage::CapturingFingerprint), ..st },
                    SealAction::Run(Stage::CapturingFingerprint),
                ),
                SealPhase::Running(s) => {
                    let p = next_stage(s, st.wants_location);
                    (SealState { phase: p, ..st }, action_for(p))
                },
                SealPhase::Finalising => (
                    SealState { outcome: Some(SealResult::Sealed), ..finished },
                    SealAction::Finish(SealResult::Sealed),
                ),
                _ => (st, SealAction::Nothing),
            },
        }
    }
}

/// The actions a sequence of events leads to, from `st` on.
pub open spec fn drive(st: SealState, events: Seq<SealEvent>) -> Seq<SealAction>
    decreases events.len(),
{
    if events.len() == 0 {
        Seq::empty()
    } else {
        let (next, a) = spec_seal_step(st, events[0]);
        seq![a] + drive(next, events.drop_first())
    }
}

/// The stages of a seal, in order; the location stage only when wanted.
pub open spec fn stage_plan(wants_location: bool) -> Seq<Stage> {
    if wants_location {
        seq![
            Stage::CapturingFingerprint,
            Stage::LoadingTrustedMachines,
            Stage::AcquiringLocation,
            Stage::DerivingKeys,
            Stage::CollectingFiles,
            Stage::SealingPayload,
            Stage::GeneratingProject,
        ]
    } else {
        seq![
            Stage::CapturingFingerprint,
            Stage::LoadingTrustedMachines,
            Stage::DerivingKeys,
            Stage::CollectingFiles,
            Stage::SealingPayload,
            Stage::GeneratingProject,
        ]
    }
}

/// A seal in which every step succeeds: started, then each step reported done.
pub open spec fn clean_run(wants_location: bool) -> Seq<SealEvent> {
    seq![SealEvent::Start] + Seq::new(stage_plan(wants_location).len() + 2, |i: int| SealEvent::StepDone)
}

/// The phase of the `i`-th step of a seal in which every step succeeds:
/// clearing the staging directory, then each stage of the plan, then moving
/// the project into place.
pub open spec fn clean_phase(wants_location: bool, i: int) -> SealPhase {
    if i == 0 {
        SealPhase::ClearingStaging
    } else if i <= stage_plan(wants_location).len() {
        SealPhase::Running(stage_plan(wants_location)[i - 1])
    } else {
        SealPhase::Finalising
    }
}

/// A seal that has not finished, in phase `p`.
pub open spec fn running_in(wants_location: bool, p: SealPhase) -> SealState {
    SealState { phase: p, wants_location, outcome: None }
}

/// What the rest of a clean seal does from its `i`-th step on.
pub open spec fn clean_rest(wants_location: bool, i: int) -> Seq<SealAction> {
    Seq::new(
        (stage_plan(wants_location).len() + 1 - i) as nat,
        |j: int| action_for(clean_phase(wants_location, i + 1 + j)),
    ) + seq![SealAction::Finish(SealResult::Sealed)]
}

/// Each finished step of a clean seal starts the next one of the plan.
proof fn lemma_clean_step(wants_location: bool, i: int)
    requires
        0 <= i <= stage_plan(wants_location).len(),
    ensures
        spec_seal_step(running_in(wants_location, clean_phase(wants_location, i)), SealEvent::StepDone) == (
            running_in(wants_location, clean_phase(wants_location, i + 1)),
            action_for(clean_phase(wants_location, i + 1)),
        ),
{
}

/// The rest of a clean seal from step `i`, by induction on what is left.
proof fn lemma_clean_rest(wants_location: bool, i: int)
    requires
        0 <= i <= stage_plan(wants_location).len() + 1,
    ensures
        drive(
            running_in(wants_location, clean_phase(wants_location, i)),
            Seq::new((stage_plan(wants_location).len() + 2 - i) as nat, |k: int| SealEvent::StepDone),
        ) == clean_rest(wants_location, i),
    decreases stage_plan(wants_location).len() + 2 - i,
{
    let n = stage_plan(wants_location).len();
    let evs = Seq::new((n + 2 - i) as nat, |k: int| SealEvent::StepDone);
    let st = running_in(wants_location, clean_phase(wants_location, i));
    assert(evs[0] == SealEvent::StepDone);
    if i <= n {
        lemma_clean_step(wants_location, i);
        lemma_clean_rest(wants_location, i + 1);
        assert(evs.drop_first() =~= Seq::new((n + 2 - (i + 1)) as nat, |k: int| SealEvent::StepDone));
        assert(drive(st, evs) == seq![action_for(clean_phase(wants_location, i + 1))] + drive(
            running_in(wants_location, clean_phase(wants_location, i + 1)),
            evs.drop_first(),
        ));
        assert(seq![action_for(clean_phase(wants_location, i + 1))] + clean_rest(wants_location, i + 1) =~= clean_rest(
            wants_location,
            i,
        ));
    } else {
        let done = SealState { phase: SealPhase::Finished, wants_location, outcome: Some(SealResult::Sealed) };
        assert(spec_seal_step(st, SealEvent::StepDone) == (done, SealAction::Finish(SealResult::Sealed)));
        assert(evs.drop_first().len() == 0);
        assert(drive(done, evs.drop_first()) == Seq::<SealAction>::empty());
        assert(drive(st, evs) == seq![SealAction::Finish(SealResult::Sealed)] + drive(done, evs.drop_first()));
        assert(clean_rest(wants_location, i) =~= seq![SealAction::Finish(SealResult::Sealed)]);
        assert(seq![SealAction::Finish(SealResult::Sealed)] + Seq::<SealAction>::empty() =~= seq![
            SealAction::Finish(SealResult::Sealed),
        ]);
    }
}

/// Every stage is run once, in the order of the plan, with the location stage
/// exactly when a location is wanted; the project is moved into place only
/// after the last stage, and only then does the seal succeed.
pub proof fn lemma_clean_seal_runs_the_plan(wants_location: bool)
    ensures
        drive(SealState { phase: SealPhase::NotStarted, wants_location, outcome: None }, clean_run(wants_location))
            == seq![SealAction::ClearStaging] + stage_plan(wants_location).map_values(|s: Stage| SealAction::Run(s))
            + seq![SealAction::Finalise, SealAction::Finish(SealResult::Sealed)],
{
    let n = stage_plan(wants_location).len();
    let evs = clean_run(wants_location);
    assert(evs[0] == SealEvent::Start);
    assert(evs.drop_first() =~= Seq::new((n + 2) as nat, |k: int| SealEvent::StepDone));
    lemma_clean_rest(wants_location, 0);
    assert(seq![SealAction::ClearStaging] + clean_rest(wants_location, 0) =~= seq![SealAction::ClearStaging]
        + stage_plan(wants_location).map_values(|s: Stage| SealAction::Run(s)) + seq![
        SealAction::Finalise,
        SealAction::Finish(SealResult::Sealed),
    ]);
}

/// Once a seal has an outcome, no event leads to any further work.
pub proof fn lemma_nothing_after_the_outcome(st: SealState, events: Seq<SealEvent>)
    requires
        st.outcome is Some,
    ensures
        drive(st, events) == Seq::new(events.len(), |i: int| SealAction::Nothing),
    decreases events.len(),
{
    if events.len() > 0 {
        lemma_nothing_after_the_outcome(st, events.drop_first());
        assert(drive(st, events) =~= Seq::new(events.len(), |i: int| SealAction::Nothing));
    } else {
        assert(drive(st, events) =~= Seq::new(events.len(), |i: int| SealAction::Nothing));
    }
}

/// A cancellation before the outcome ends the seal as cancelled with the
/// staging directory removed, and nothing happens after it.
pub proof fn lemma_cancel_leaves_nothing(st: SealState, rest: Seq<SealEvent>)
    requires
        st.outcome is None,
        !(st.phase is Finished),
    ensures
        drive(st, seq![SealEvent::CancelRequested] + rest) == seq![SealAction::RemoveStaging] + Seq::new(
            rest.len(),
            |i: int| SealAction::Nothing,
        ),
        spec_seal_step(st, SealEvent::CancelRequested).0.outcome == Some(SealResult::Failed(SealError::Cancelled)),
{
    let evs = seq![SealEvent::CancelRequested] + rest;
    let (next, a) = spec_seal_step(st, SealEvent::CancelRequested);
    assert(evs[0] == SealEvent::CancelRequested);
    assert(evs.drop_first() =~= rest);
    lemma_nothing_after_the_outcome(next, rest);
}

/// One machine that a capsule's policy trusts: its fingerprint id, the
/// secret its factor contributes, and the operator's labels for it.
pub struct TrustEntry {
    pub fingerprint_id: [u8; 32],
    pub factor_secret: [u8; 32],
    pub labels: Vec<String>,
}

fn same_id(a: &[u8; 32], b: &[u8; 32]) -> (r: bool)
    ensures
        r == (a@ == b@),
{
    let mut i: usize = 0;
    while i < 32
        invariant
            i <= 32,
            forall|j: int| 0 <= j < i ==> a@[j] == b@[j],
        decreases 32 - i,
    {
        if a[i] != b[i] {
            return false;
        }
        i = i + 1;
    }
    assert(a@ =~= b@);
    true
}

/// The creator's machine is the first entry and no later entry repeats it.
pub open spec fn creator_once(records: Seq<TrustEntry>) -> bool {
    records.len() > 0 && forall|i: int|
        1 <= i < records.len() ==> (#[trigger] records[i]).fingerprint_id@ != records[0].fingerprint_id@
}

/// Add an authenticated trust record to a policy whose first entry is the
/// creator's machine. A record of the creator's own machine is passed over:
/// the creator is always trusted already, under its own secret.
pub fn merge_trust_record(records: &mut Vec<TrustEntry>, new: TrustEntry)
    requires
        old(records).len() > 0,
    ensures
        new.fingerprint_id@ == old(records)@[0].fingerprint_id@ ==> final(records)@ == old(records)@,
        new.fingerprint_id@ != old(records)@[0].fingerprint_id@ ==> final(records)@ == old(records)@.push(new),
        creator_once(old(records)@) ==> creator_once(final(records)@),
{
    if same_id(&new.fingerprint_id, &records[0].fingerprint_id) {
        return;
    }
    records.push(new);
    proof {
        let o = old(records)@;
        let f = records@;
        assert(f[0] == o[0]);
        if creator_once(o) {
            assert forall|i: int| 1 <= i < f.len() implies (#[trigger] f[i]).fingerprint_id@ != f[0].fingerprint_id@ by {
                if i < o.len() {
                    assert(f[i] == o[i]);
                }
            }
        }
    }
}

impl SealState {
    /// A seal that has not started; the location stage runs when `wants_location`.
    pub fn new(wants_location: bool) -> (r: SealState)
        ensures
            r == (SealState { phase: SealPhase::NotStarted, wants_location, outcome: None }),
    {
        SealState { phase: SealPhase::NotStarted, wants_location, outcome: None }
    }
}

fn following(s: Stage, wants_location: bool) -> (p: SealPhase)
    ensures
        p == next_stage(s, wants_location),
{
    match s {
        Stage::CapturingFingerprint => SealPhase::Running(Stage::LoadingTrustedMachines),
        Stage::LoadingTrustedMachines => if wants_location {
            SealPhase::Running(Stage::AcquiringLocation)
        } else {
            SealPhase::Running(Stage::DerivingKeys)
        },
        Stage::AcquiringLocation => SealPhase::Running(Stage::DerivingKeys),
        Stage::DerivingKeys => SealPhase::Running(Stage::CollectingFiles),
        Stage::CollectingFiles => SealPhase::Running(Stage::SealingPayload),
        Stage::SealingPayload => SealPhase::Running(Stage::GeneratingProject),
        Stage::GeneratingProject => SealPhase::Finalising,
        Stage::Done => SealPhase::Finalising,
    }
}

/// Decide what follows `event` in the seal `state`.
pub fn seal_step(state: &SealState, event: SealEvent) -> (r: (SealState, SealAction))
    ensures
        r == spec_seal_step(*state, event),
        state.outcome is None && !(state.phase is Finished) && event is CancelRequested ==> r.1
            == SealAction::RemoveStaging && r.0.outcome == Some(SealResult::Failed(SealError::Cancelled)),
        r.1 == SealAction::Finish(SealResult::Sealed) ==> state.phase == SealPhase::Finalising && event is StepDone,
        r.1 matches SealAction::Run(s) ==> event is StepDone && (state.phase matches SealPhase::Running(p) && r.0.phase
            == next_stage(p, state.wants_location) || state.phase is ClearingStaging && s
            == Stage::CapturingFingerprint),
        r.1 == SealAction::Run(Stage::AcquiringLocation) ==> state.wants_location,
        state.outcome is Some ==> r == (*state, SealAction::Nothing),
{
    let st = *state;
    if st.outcome.is_some() {
        return (st, SealAction::Nothing);
    }
    if let SealPhase::Finished = st.phase {
        return (st, SealAction::Nothing);
    }
    match event {
        SealEvent::CancelRequested => (
            SealState { phase: SealPhase::Finished, outcome: Some(SealResult::Failed(SealError::Cancelled)), ..st },
            SealAction::RemoveStaging,
        ),
        SealEvent::StepFailed => match st.phase {
            SealPhase::NotStarted => (st, SealAction::Nothing),
            SealPhase::Finalising => (
                SealState { phase: SealPhase::Finished, outcome: Some(SealResult::Failed(SealError::StepFailed)), ..st },
                SealAction::RemoveStaging,
            ),
            _ => (
                SealState { phase: SealPhase::Finished, outcome: Some(SealResult::Failed(SealError::StepFailed)), ..st },
                SealAction::Finish(SealResult::Failed(SealError::StepFailed)),
            ),
        },
        SealEvent::Start => match st.phase {
            SealPhase::NotStarted => (SealState { phase: SealPhase::ClearingStaging, ..st }, SealAction::ClearStaging),
            _ => (st, SealAction::Nothing),
        },
        SealEvent::StepDone => match st.phase {
            SealPhase::ClearingStaging => (
                SealState { phase: SealPhase::Running(Stage::CapturingFingerprint), ..st },
                SealAction::Run(Stage::CapturingFingerprint),
            ),
            SealPhase::Running(s) => {
                let p = following(s, st.wants_location);
                let a = match p {
                    SealPhase::Running(n) => SealAction::Run(n),
                    SealPhase::Finalising => SealAction::Finalise,
                    _ => SealAction::Nothing,
                };
                (SealState { phase: p, ..st }, a)
            },
            SealPhase::Finalising => (
                SealState { phase: SealPhase::Finished, outcome: Some(SealResult::Sealed), ..st },
                SealAction::Finish(SealResult::Sealed),
            ),
            _ => (st, SealAction::Nothing),
        },
    }
}

} // verus!
