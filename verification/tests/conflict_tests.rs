use noter::conflict::{
    classify_external_change, ConflictCommand, ConflictDecision, ConflictEffect, ConflictState,
    ExternalChangeKind,
};
use noter::observation::{
    ContentFingerprint, FileChangeToken, FileIdentity, FileObservation, SpecialFileKind,
    TargetExpectation, TargetState,
};
use noter::revision::Revision;

fn observation(marker: u64) -> FileObservation {
    FileObservation::new(
        FileIdentity::new(u128::from(marker), u128::from(marker.wrapping_add(1))),
        ContentFingerprint::from_bytes(&[marker as u8]),
        marker,
        1,
        FileChangeToken::new(i64::try_from(marker).unwrap_or(i64::MAX), 0),
    )
}

#[test]
fn descriptions_are_exact_and_nontrivial() {
    assert_eq!(
        ExternalChangeKind::Unchanged.description(),
        "The file on disk still matches Noter's last trusted version."
    );
    assert_eq!(
        ExternalChangeKind::ContentOrIdentityChanged.description(),
        "The file on disk changed since Noter last loaded or saved it."
    );
    assert_eq!(
        ExternalChangeKind::Deleted.description(),
        "The file on disk is missing."
    );
    assert_eq!(
        ExternalChangeKind::ReplacedBySpecial(SpecialFileKind::SymbolicLink).description(),
        "The path is now a symbolic link or reparse point."
    );
    assert_eq!(
        ExternalChangeKind::ReplacedBySpecial(SpecialFileKind::Directory).description(),
        "The path is now a directory."
    );
    assert_eq!(
        ExternalChangeKind::ReplacedBySpecial(SpecialFileKind::Other).description(),
        "The path is no longer an ordinary file."
    );
    assert_eq!(
        ExternalChangeKind::Unreadable.description(),
        "Noter could not safely inspect the file on disk."
    );
    for kind in [
        ExternalChangeKind::Unchanged,
        ExternalChangeKind::ContentOrIdentityChanged,
        ExternalChangeKind::Deleted,
        ExternalChangeKind::ReplacedBySpecial(SpecialFileKind::SymbolicLink),
        ExternalChangeKind::ReplacedBySpecial(SpecialFileKind::Directory),
        ExternalChangeKind::ReplacedBySpecial(SpecialFileKind::Other),
        ExternalChangeKind::Unreadable,
    ] {
        let text = kind.description();
        assert!(!text.is_empty());
        assert_ne!(text, "xyzzy");
    }
}

#[test]
fn classify_reports_exact_boundaries() {
    let first = observation(1);
    let second = observation(2);
    assert_eq!(
        classify_external_change(None, Some(Ok(TargetState::Regular(first)))),
        ExternalChangeKind::Unchanged
    );
    assert_eq!(
        classify_external_change(
            Some(TargetExpectation::Existing(first)),
            Some(Ok(TargetState::Regular(first)))
        ),
        ExternalChangeKind::Unchanged
    );
    assert_eq!(
        classify_external_change(
            Some(TargetExpectation::Existing(first)),
            Some(Ok(TargetState::Regular(second)))
        ),
        ExternalChangeKind::ContentOrIdentityChanged
    );
    assert_eq!(
        classify_external_change(
            Some(TargetExpectation::Existing(first)),
            Some(Ok(TargetState::Missing))
        ),
        ExternalChangeKind::Deleted
    );
    assert_eq!(
        classify_external_change(
            Some(TargetExpectation::Existing(first)),
            Some(Ok(TargetState::Special(SpecialFileKind::Directory)))
        ),
        ExternalChangeKind::ReplacedBySpecial(SpecialFileKind::Directory)
    );
    assert_eq!(
        classify_external_change(Some(TargetExpectation::Existing(first)), Some(Err(()))),
        ExternalChangeKind::Unreadable
    );
    assert_eq!(
        classify_external_change(
            Some(TargetExpectation::Missing),
            Some(Ok(TargetState::Missing))
        ),
        ExternalChangeKind::Unchanged
    );
    assert_eq!(
        classify_external_change(
            Some(TargetExpectation::Missing),
            Some(Ok(TargetState::Regular(first)))
        ),
        ExternalChangeKind::ContentOrIdentityChanged
    );
}

#[test]
fn conflict_state_prompts_once_and_keep_editing_does_not_authorize_reload() {
    let mut state = ConflictState::default();
    let revision = Revision::new(3);
    assert_eq!(
        state.reduce(ConflictCommand::Observed {
            kind: ExternalChangeKind::ContentOrIdentityChanged,
            revision,
        }),
        ConflictEffect::Prompt(ExternalChangeKind::ContentOrIdentityChanged)
    );
    assert!(state.is_prompting());
    assert!(state.blocks_ordinary_save());
    assert_eq!(
        state.reduce(ConflictCommand::Observed {
            kind: ExternalChangeKind::ContentOrIdentityChanged,
            revision,
        }),
        ConflictEffect::NoAction
    );
    assert_eq!(
        state.reduce(ConflictCommand::Decide(ConflictDecision::KeepEditing)),
        ConflictEffect::NoAction
    );
    assert!(!state.is_prompting());
    assert!(!state.blocks_ordinary_save());
    assert_eq!(
        state.reduce(ConflictCommand::Observed {
            kind: ExternalChangeKind::ContentOrIdentityChanged,
            revision,
        }),
        ConflictEffect::NoAction
    );
    assert_eq!(
        state.reduce(ConflictCommand::Observed {
            kind: ExternalChangeKind::Deleted,
            revision,
        }),
        ConflictEffect::Prompt(ExternalChangeKind::Deleted)
    );
}

#[test]
fn keep_editing_does_not_reprompt_when_only_the_local_revision_moves() {
    let mut state = ConflictState::default();
    assert_eq!(
        state.reduce(ConflictCommand::Observed {
            kind: ExternalChangeKind::ContentOrIdentityChanged,
            revision: Revision::new(3),
        }),
        ConflictEffect::Prompt(ExternalChangeKind::ContentOrIdentityChanged)
    );
    assert_eq!(
        state.reduce(ConflictCommand::Decide(ConflictDecision::KeepEditing)),
        ConflictEffect::NoAction
    );

    assert_eq!(
        state.reduce(ConflictCommand::Observed {
            kind: ExternalChangeKind::ContentOrIdentityChanged,
            revision: Revision::new(4),
        }),
        ConflictEffect::NoAction
    );
    assert!(!state.is_prompting());
    assert_eq!(
        state.reduce(ConflictCommand::Observed {
            kind: ExternalChangeKind::Deleted,
            revision: Revision::new(5),
        }),
        ConflictEffect::Prompt(ExternalChangeKind::Deleted)
    );
}

#[test]
fn prompting_updates_when_kind_or_revision_changes() {
    let mut state = ConflictState::default();
    let first = Revision::new(1);
    let second = Revision::new(2);
    assert_eq!(
        state.reduce(ConflictCommand::Observed {
            kind: ExternalChangeKind::ContentOrIdentityChanged,
            revision: first,
        }),
        ConflictEffect::Prompt(ExternalChangeKind::ContentOrIdentityChanged)
    );
    assert_eq!(
        state.reduce(ConflictCommand::Observed {
            kind: ExternalChangeKind::Deleted,
            revision: first,
        }),
        ConflictEffect::Prompt(ExternalChangeKind::Deleted)
    );
    assert_eq!(state.prompt_kind(), Some(ExternalChangeKind::Deleted));
    assert_eq!(
        state.reduce(ConflictCommand::Observed {
            kind: ExternalChangeKind::Deleted,
            revision: second,
        }),
        ConflictEffect::Prompt(ExternalChangeKind::Deleted)
    );
    assert_eq!(
        state.reduce(ConflictCommand::Observed {
            kind: ExternalChangeKind::Deleted,
            revision: second,
        }),
        ConflictEffect::NoAction
    );
}

#[test]
fn reload_and_save_as_effects_are_exact() {
    let mut state = ConflictState::default();
    let revision = Revision::initial();
    assert_eq!(
        state.reduce(ConflictCommand::Observed {
            kind: ExternalChangeKind::Deleted,
            revision,
        }),
        ConflictEffect::Prompt(ExternalChangeKind::Deleted)
    );
    assert_eq!(
        state.reduce(ConflictCommand::Decide(ConflictDecision::SaveAs)),
        ConflictEffect::RequestSaveAs
    );
    assert!(state.is_prompting());
    assert_eq!(
        state.reduce(ConflictCommand::Decide(ConflictDecision::ReloadDisk)),
        ConflictEffect::RequestReload
    );
    assert!(state.is_prompting());
    assert_eq!(
        state.reduce(ConflictCommand::Decide(ConflictDecision::ReloadDisk)),
        ConflictEffect::RequestReload
    );
}

#[test]
fn overwrite_requires_a_second_confirmation() {
    let mut state = ConflictState::default();
    let revision = Revision::new(9);
    let reviewed = observation(9);
    assert_eq!(
        state.reduce(ConflictCommand::ObservedExact {
            kind: ExternalChangeKind::ContentOrIdentityChanged,
            evidence: Ok(TargetState::Regular(reviewed)),
            revision,
        }),
        ConflictEffect::Prompt(ExternalChangeKind::ContentOrIdentityChanged)
    );
    // First click only enters the second-confirm phase.
    assert_eq!(
        state.reduce(ConflictCommand::Decide(ConflictDecision::RequestOverwrite)),
        ConflictEffect::PromptOverwriteConfirm(ExternalChangeKind::ContentOrIdentityChanged)
    );
    assert!(state.is_confirming_overwrite());
    assert!(state.blocks_ordinary_save());
    // A first-phase decision is inert while confirming overwrite.
    assert_eq!(
        state.reduce(ConflictCommand::Decide(ConflictDecision::KeepEditing)),
        ConflictEffect::NoAction
    );
    assert!(state.is_confirming_overwrite());
    // Cancel returns to the ordinary prompt without authorizing overwrite.
    assert_eq!(
        state.reduce(ConflictCommand::Decide(ConflictDecision::CancelOverwrite)),
        ConflictEffect::Prompt(ExternalChangeKind::ContentOrIdentityChanged)
    );
    assert!(!state.is_confirming_overwrite());
    assert!(state.is_prompting());
    let _ = state.reduce(ConflictCommand::Decide(ConflictDecision::RequestOverwrite));
    assert_eq!(
        state.reduce(ConflictCommand::Decide(ConflictDecision::ConfirmOverwrite)),
        ConflictEffect::AuthorizeOverwrite(reviewed)
    );
    assert!(!state.is_prompting());
    // Stale second-confirm after idle is inert.
    assert_eq!(
        state.reduce(ConflictCommand::Decide(ConflictDecision::ConfirmOverwrite)),
        ConflictEffect::NoAction
    );
}

#[test]
fn overwrite_confirmation_is_bound_to_the_exact_reviewed_observation() {
    let first = observation(10);
    let second = observation(11);
    let revision = Revision::new(9);
    let mut state = ConflictState::default();

    let _ = state.reduce(ConflictCommand::ObservedExact {
        kind: ExternalChangeKind::ContentOrIdentityChanged,
        evidence: Ok(TargetState::Regular(first)),
        revision,
    });
    let _ = state.reduce(ConflictCommand::Decide(ConflictDecision::RequestOverwrite));
    assert!(state.is_confirming_overwrite());

    assert_eq!(
        state.reduce(ConflictCommand::ObservedExact {
            kind: ExternalChangeKind::ContentOrIdentityChanged,
            evidence: Ok(TargetState::Regular(second)),
            revision,
        }),
        ConflictEffect::Prompt(ExternalChangeKind::ContentOrIdentityChanged)
    );
    assert!(state.is_prompting());
    assert!(!state.is_confirming_overwrite());
    assert_eq!(
        state.reduce(ConflictCommand::Decide(ConflictDecision::ConfirmOverwrite)),
        ConflictEffect::NoAction
    );

    let _ = state.reduce(ConflictCommand::Decide(ConflictDecision::RequestOverwrite));
    assert_eq!(
        state.reduce(ConflictCommand::Decide(ConflictDecision::ConfirmOverwrite)),
        ConflictEffect::AuthorizeOverwrite(second)
    );
}

#[test]
fn overwrite_requires_exact_regular_file_evidence() {
    let mut state = ConflictState::default();
    let kind = ExternalChangeKind::ContentOrIdentityChanged;
    let _ = state.reduce(ConflictCommand::Observed {
        kind,
        revision: Revision::new(4),
    });
    let _ = state.reduce(ConflictCommand::Decide(ConflictDecision::RequestOverwrite));

    assert_eq!(
        state.reduce(ConflictCommand::Decide(ConflictDecision::ConfirmOverwrite)),
        ConflictEffect::Prompt(kind)
    );
    assert!(state.is_prompting());
    assert!(!state.is_confirming_overwrite());
}

#[test]
fn unchanged_observation_clears_a_stale_prompt() {
    let mut state = ConflictState::default();
    let revision = Revision::new(1);
    assert_eq!(
        state.reduce(ConflictCommand::Observed {
            kind: ExternalChangeKind::ContentOrIdentityChanged,
            revision,
        }),
        ConflictEffect::Prompt(ExternalChangeKind::ContentOrIdentityChanged)
    );
    assert_eq!(
        state.reduce(ConflictCommand::Observed {
            kind: ExternalChangeKind::Unchanged,
            revision,
        }),
        ConflictEffect::NoAction
    );
    assert!(!state.is_prompting());
}

#[test]
fn reset_clears_kept_editing() {
    let mut state = ConflictState::default();
    let revision = Revision::new(2);
    let _ = state.reduce(ConflictCommand::Observed {
        kind: ExternalChangeKind::Deleted,
        revision,
    });
    let _ = state.reduce(ConflictCommand::Decide(ConflictDecision::KeepEditing));
    assert_eq!(state.reduce(ConflictCommand::Reset), ConflictEffect::NoAction);
    assert_eq!(
        state.reduce(ConflictCommand::Observed {
            kind: ExternalChangeKind::Deleted,
            revision,
        }),
        ConflictEffect::Prompt(ExternalChangeKind::Deleted)
    );
}

#[test]
fn keep_editing_is_bound_to_the_exact_regular_file_observation() {
    let first = TargetState::Regular(observation(31));
    let second = TargetState::Regular(observation(32));
    let mut state = ConflictState::default();

    assert_eq!(
        state.reduce(ConflictCommand::ObservedExact {
            kind: ExternalChangeKind::ContentOrIdentityChanged,
            evidence: Ok(first),
            revision: Revision::new(7),
        }),
        ConflictEffect::Prompt(ExternalChangeKind::ContentOrIdentityChanged)
    );
    let _ = state.reduce(ConflictCommand::Decide(ConflictDecision::KeepEditing));
    assert_eq!(
        state.reduce(ConflictCommand::ObservedExact {
            kind: ExternalChangeKind::ContentOrIdentityChanged,
            evidence: Ok(first),
            revision: Revision::new(8),
        }),
        ConflictEffect::NoAction
    );
    assert_eq!(
        state.reduce(ConflictCommand::ObservedExact {
            kind: ExternalChangeKind::ContentOrIdentityChanged,
            evidence: Ok(second),
            revision: Revision::new(8),
        }),
        ConflictEffect::Prompt(ExternalChangeKind::ContentOrIdentityChanged)
    );
}

#[test]
fn keep_editing_never_suppresses_a_later_uninspectable_state() {
    let mut state = ConflictState::default();
    let observe_error = || ConflictCommand::ObservedExact {
        kind: ExternalChangeKind::Unreadable,
        evidence: Err(()),
        revision: Revision::new(7),
    };

    assert_eq!(
        state.reduce(observe_error()),
        ConflictEffect::Prompt(ExternalChangeKind::Unreadable)
    );
    let _ = state.reduce(ConflictCommand::Decide(ConflictDecision::KeepEditing));
    assert_eq!(
        state.reduce(observe_error()),
        ConflictEffect::Prompt(ExternalChangeKind::Unreadable)
    );
}


#[test]
fn every_decision_is_inert_without_a_pending_change() {
    for decision in [
        ConflictDecision::ReloadDisk,
        ConflictDecision::KeepEditing,
        ConflictDecision::SaveAs,
        ConflictDecision::RequestOverwrite,
        ConflictDecision::ConfirmOverwrite,
        ConflictDecision::CancelOverwrite,
    ] {
        let mut state = ConflictState::default();
        assert_eq!(
            state.reduce(ConflictCommand::Decide(decision)),
            ConflictEffect::NoAction
        );
        assert!(!state.is_prompting());
        assert_eq!(state.prompt_kind(), None);
    }
}

#[test]
fn a_repeated_exact_observation_prompts_once() {
    let mut state = ConflictState::default();
    let command = ConflictCommand::ObservedExact {
        kind: ExternalChangeKind::ReplacedBySpecial(SpecialFileKind::Directory),
        evidence: Ok(TargetState::Special(SpecialFileKind::Directory)),
        revision: Revision::new(2),
    };
    assert_eq!(
        state.reduce(command),
        ConflictEffect::Prompt(ExternalChangeKind::ReplacedBySpecial(
            SpecialFileKind::Directory
        ))
    );
    assert_eq!(state.reduce(command), ConflictEffect::NoAction);
    assert_eq!(
        state.prompt_kind(),
        Some(ExternalChangeKind::ReplacedBySpecial(SpecialFileKind::Directory))
    );
    assert!(state.blocks_ordinary_save());
}

#[test]
fn expectations_match_only_the_same_absence_or_observation() {
    let first = observation(41);
    assert!(TargetExpectation::Missing.matches_state(TargetState::Missing));
    assert!(!TargetExpectation::Missing.matches_state(TargetState::Regular(first)));
    assert!(TargetExpectation::Existing(first).matches_state(TargetState::Regular(first)));
    assert!(!TargetExpectation::Existing(first).matches_state(TargetState::Regular(observation(42))));
    assert!(!TargetExpectation::Existing(first).matches_state(TargetState::Special(
        SpecialFileKind::Other
    )));
    assert!(ExternalChangeKind::Deleted.requires_prompt());
    assert!(!ExternalChangeKind::Unchanged.requires_prompt());
}

#[test]
fn the_shown_kind_is_the_last_kind_prompted() {
    let mut state = ConflictState::default();
    assert_eq!(
        state.reduce(ConflictCommand::Observed {
            kind: ExternalChangeKind::Deleted,
            revision: Revision::initial(),
        }),
        ConflictEffect::Prompt(ExternalChangeKind::Deleted)
    );
    assert_eq!(state.prompt_kind(), Some(ExternalChangeKind::Deleted));
    assert_eq!(
        state.reduce(ConflictCommand::Decide(ConflictDecision::RequestOverwrite)),
        ConflictEffect::PromptOverwriteConfirm(ExternalChangeKind::Deleted)
    );
    assert_eq!(state.prompt_kind(), Some(ExternalChangeKind::Deleted));
    assert_eq!(
        state.reduce(ConflictCommand::Observed {
            kind: ExternalChangeKind::Unreadable,
            revision: Revision::initial(),
        }),
        ConflictEffect::Prompt(ExternalChangeKind::Unreadable)
    );
    assert_eq!(state.prompt_kind(), Some(ExternalChangeKind::Unreadable));
    assert_eq!(
        state.reduce(ConflictCommand::Decide(ConflictDecision::KeepEditing)),
        ConflictEffect::NoAction
    );
    assert_eq!(state.prompt_kind(), None);
    assert_eq!(
        state.reduce(ConflictCommand::Observed {
            kind: ExternalChangeKind::Unchanged,
            revision: Revision::initial(),
        }),
        ConflictEffect::NoAction
    );
    assert_eq!(state.prompt_kind(), None);
}
