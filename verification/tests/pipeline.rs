use nyedarch::pipeline::{
    merge_trust_record, seal_step, SealAction, SealError, SealEvent, SealPhase, SealResult, SealState, Stage,
    TrustEntry,
};

/// Run a seal in which every step succeeds, collecting the actions.
fn clean(wants_location: bool) -> Vec<SealAction> {
    let mut st = SealState::new(wants_location);
    let mut ev = SealEvent::Start;
    let mut out = vec![];
    for _ in 0..20 {
        let (next, a) = seal_step(&st, ev);
        st = next;
        out.push(a);
        if matches!(a, SealAction::Finish(_) | SealAction::Nothing | SealAction::RemoveStaging) {
            break;
        }
        ev = SealEvent::StepDone;
    }
    out
}

#[test]
fn stages_run_in_order_with_location_only_when_wanted() {
    let with = clean(true);
    assert_eq!(
        with,
        vec![
            SealAction::ClearStaging,
            SealAction::Run(Stage::CapturingFingerprint),
            SealAction::Run(Stage::LoadingTrustedMachines),
            SealAction::Run(Stage::AcquiringLocation),
            SealAction::Run(Stage::DerivingKeys),
            SealAction::Run(Stage::CollectingFiles),
            SealAction::Run(Stage::SealingPayload),
            SealAction::Run(Stage::GeneratingProject),
            SealAction::Finalise,
            SealAction::Finish(SealResult::Sealed),
        ]
    );
    let without = clean(false);
    assert_eq!(without.len(), with.len() - 1);
    assert!(!without.contains(&SealAction::Run(Stage::AcquiringLocation)));
}

#[test]
fn cancelling_removes_the_staging_directory_and_ends_the_seal() {
    let st = SealState { phase: SealPhase::Running(Stage::SealingPayload), wants_location: false, outcome: None };
    let (next, a) = seal_step(&st, SealEvent::CancelRequested);
    assert_eq!(a, SealAction::RemoveStaging);
    assert_eq!(next.outcome, Some(SealResult::Failed(SealError::Cancelled)));
    let (after, b) = seal_step(&next, SealEvent::StepDone);
    assert_eq!(b, SealAction::Nothing);
    assert_eq!(after, next);
}

#[test]
fn a_failed_step_ends_the_seal_and_a_failed_move_cleans_up() {
    let st = SealState { phase: SealPhase::Running(Stage::DerivingKeys), wants_location: true, outcome: None };
    let (next, a) = seal_step(&st, SealEvent::StepFailed);
    assert_eq!(a, SealAction::Finish(SealResult::Failed(SealError::StepFailed)));
    assert_eq!(next.phase, SealPhase::Finished);
    let fin = SealState { phase: SealPhase::Finalising, wants_location: true, outcome: None };
    let (_, b) = seal_step(&fin, SealEvent::StepFailed);
    assert_eq!(b, SealAction::RemoveStaging);
}

#[test]
fn a_trust_record_of_the_creator_is_passed_over() {
    let creator = TrustEntry { fingerprint_id: [1u8; 32], factor_secret: [9u8; 32], labels: vec!["creator".into()] };
    let mut records = vec![creator];
    merge_trust_record(&mut records, TrustEntry { fingerprint_id: [1u8; 32], factor_secret: [5u8; 32], labels: vec![] });
    assert_eq!(records.len(), 1);
    assert_eq!(records[0].factor_secret, [9u8; 32]);
    merge_trust_record(&mut records, TrustEntry { fingerprint_id: [2u8; 32], factor_secret: [5u8; 32], labels: vec!["lab".into()] });
    assert_eq!(records.len(), 2);
    assert_eq!(records[1].fingerprint_id, [2u8; 32]);
    assert_eq!(records[1].labels, vec!["lab".to_string()]);
}
