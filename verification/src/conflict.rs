//! Pure external-change classification and conflict decisions.
//!
//! Inspection happens elsewhere. This module only compares a trusted baseline
//! with one already-captured observation and retains the user's explicit
//! choice.

use vstd::prelude::*;

use crate::observation::{
    expectation_matches, FileObservation, SpecialFileKind, TargetExpectation, TargetState,
};
use crate::revision::Revision;

verus! {

/// How the current path differs from the trusted save baseline.
#[derive(Clone, Copy, PartialEq, Eq, Structural, Debug)]
pub enum ExternalChangeKind {
    /// The path still matches the trusted baseline, or no baseline exists.
    Unchanged,
    /// A regular file is present but identity, length, fingerprint, or change
    /// evidence no longer matches the baseline.
    ContentOrIdentityChanged,
    /// The baseline expected an existing file and the path is now absent.
    Deleted,
    /// The path is now a link, directory, or other non-regular entry.
    ReplacedBySpecial(SpecialFileKind),
    /// Inspection failed and the adapter refused to invent a state.
    Unreadable,
}

/// The user-facing description of each kind of change.
pub open spec fn description_of(kind: ExternalChangeKind) -> Seq<char> {
    match kind {
        ExternalChangeKind::Unchanged => "The file on disk still matches Noter's last trusted version."@,
        ExternalChangeKind::ContentOrIdentityChanged => "The file on disk changed since Noter last loaded or saved it."@,
        ExternalChangeKind::Deleted => "The file on disk is missing."@,
        ExternalChangeKind::ReplacedBySpecial(SpecialFileKind::SymbolicLink) => "The path is now a symbolic link or reparse point."@,
        ExternalChangeKind::ReplacedBySpecial(SpecialFileKind::Directory) => "The path is now a directory."@,
        ExternalChangeKind::ReplacedBySpecial(SpecialFileKind::Other) => "The path is no longer an ordinary file."@,
        ExternalChangeKind::Unreadable => "Noter could not safely inspect the file on disk."@,
    }
}

impl ExternalChangeKind {
    /// Returns whether this observation should interrupt the user.
    pub fn requires_prompt(self) -> (prompt: bool)
        ensures
            prompt == !(self is Unchanged),
    {
        !matches!(self, ExternalChangeKind::Unchanged)
    }

    /// Returns a short, user-facing description without paths or content.
    pub fn description(self) -> (text: &'static str)
        ensures
            text@ == description_of(self),
    {
        match self {
            ExternalChangeKind::Unchanged => "The file on disk still matches Noter's last trusted version.",
            ExternalChangeKind::ContentOrIdentityChanged => "The file on disk changed since Noter last loaded or saved it.",
            ExternalChangeKind::Deleted => "The file on disk is missing.",
            ExternalChangeKind::ReplacedBySpecial(SpecialFileKind::SymbolicLink) => "The path is now a symbolic link or reparse point.",
            ExternalChangeKind::ReplacedBySpecial(SpecialFileKind::Directory) => "The path is now a directory.",
            ExternalChangeKind::ReplacedBySpecial(SpecialFileKind::Other) => "The path is no longer an ordinary file.",
            ExternalChangeKind::Unreadable => "Noter could not safely inspect the file on disk.",
        }
    }
}

/// The change an observation shows against the baseline: none without a
/// baseline or an observation, `Unreadable` for a failed inspection, none for
/// a state the baseline allows, and otherwise what the path has become.
pub open spec fn classify(
    expected: Option<TargetExpectation>,
    observed: Option<Result<TargetState, ()>>,
) -> ExternalChangeKind {
    match (expected, observed) {
        (Some(expected), Some(Ok(state))) => if expectation_matches(expected, state) {
            ExternalChangeKind::Unchanged
        } else {
            match state {
                TargetState::Missing => ExternalChangeKind::Deleted,
                TargetState::Special(kind) => ExternalChangeKind::ReplacedBySpecial(kind),
                TargetState::Regular(_) => ExternalChangeKind::ContentOrIdentityChanged,
            }
        },
        (Some(_), Some(Err(()))) => ExternalChangeKind::Unreadable,
        _ => ExternalChangeKind::Unchanged,
    }
}

/// Classifies one captured destination observation against the trusted
/// baseline.
///
/// `None` for the baseline means the document has no save expectation
/// (untitled or never baselined), so external inspection cannot produce a
/// conflict. `None` for the observation means no inspection ran.
pub fn classify_external_change(
    expected: Option<TargetExpectation>,
    observed: Option<Result<TargetState, ()>>,
) -> (kind: ExternalChangeKind)
    ensures
        kind == classify(expected, observed),
{
    let expected = match expected {
        Some(expected) => expected,
        None => return ExternalChangeKind::Unchanged,
    };
    let observed = match observed {
        Some(observed) => observed,
        None => return ExternalChangeKind::Unchanged,
    };
    match observed {
        Err(()) => ExternalChangeKind::Unreadable,
        Ok(state) => {
            if expected.matches_state(state) {
                ExternalChangeKind::Unchanged
            } else {
                match state {
                    TargetState::Missing => ExternalChangeKind::Deleted,
                    TargetState::Special(kind) => ExternalChangeKind::ReplacedBySpecial(kind),
                    TargetState::Regular(_) => ExternalChangeKind::ContentOrIdentityChanged,
                }
            }
        },
    }
}

/// An explicit user response to an external-change prompt.
#[derive(Clone, Copy, PartialEq, Eq, Structural, Hash, Debug)]
pub enum ConflictDecision {
    /// Request a reload while retaining the prompt until the adapter succeeds.
    ReloadDisk,
    /// Keep the in-memory document without authorizing overwrite of the disk
    /// version.
    KeepEditing,
    /// Save the in-memory document to a different path.
    SaveAs,
    /// Request the second confirmation step before replacing the disk version.
    RequestOverwrite,
    /// Confirm replacement of the disk version after the second confirmation.
    ConfirmOverwrite,
    /// Cancel the overwrite second-confirm and return to the ordinary prompt.
    CancelOverwrite,
}

/// One input to the conflict reducer.
#[derive(Clone, Copy, PartialEq, Eq, Debug)]
pub enum ConflictCommand {
    /// Report one classified observation for the current document revision.
    Observed {
        /// Pure classification of the captured destination state.
        kind: ExternalChangeKind,
        /// Exact content revision against which the observation was made.
        revision: Revision,
    },
    /// Report a classified observation together with the exact captured
    /// state. Keep Editing is then bound to that evidence rather than a
    /// coarse class.
    ObservedExact {
        /// Pure classification of the captured destination state.
        kind: ExternalChangeKind,
        /// Exact state or inspection failure behind the classification.
        evidence: Result<TargetState, ()>,
        /// Exact content revision against which the observation was made.
        revision: Revision,
    },
    /// Resolve the currently visible external-change decision.
    Decide(ConflictDecision),
    /// Clear retained conflict state after path replacement, reload, or a new
    /// document.
    Reset,
}

/// The single effect emitted by a conflict transition.
#[derive(Clone, Copy, PartialEq, Eq, Debug)]
pub enum ConflictEffect {
    /// No adapter action is required.
    NoAction,
    /// Show the external-change decision for the retained observation.
    Prompt(ExternalChangeKind),
    /// Show the second confirmation before replacing the disk version.
    PromptOverwriteConfirm(ExternalChangeKind),
    /// Request Reload without clearing the retained conflict observation.
    RequestReload,
    /// Request Save As without authorizing overwrite of the conflicting path.
    RequestSaveAs,
    /// Authorize overwrite of the exact regular-file observation reviewed.
    AuthorizeOverwrite(FileObservation),
}

/// Where the conflict dialogue stands, with the observation it is about.
#[derive(Clone, Copy, PartialEq, Eq, Debug)]
pub enum ConflictPhase {
    /// No external change is pending.
    Idle,
    /// The external-change decision is visible.
    Prompting {
        /// The observed change.
        kind: ExternalChangeKind,
        /// The exact state behind it, when one was reported.
        evidence: Option<Result<TargetState, ()>>,
        /// The content revision it was observed against.
        revision: Revision,
    },
    /// The second overwrite confirmation is visible.
    ConfirmOverwrite {
        /// The observed change.
        kind: ExternalChangeKind,
        /// The exact state behind it, when one was reported.
        evidence: Option<Result<TargetState, ()>>,
        /// The content revision it was observed against.
        revision: Revision,
    },
    /// The user chose to keep editing despite the change.
    KeptEditing {
        /// The observed change.
        kind: ExternalChangeKind,
        /// The exact state behind it, when one was reported.
        evidence: Option<Result<TargetState, ()>>,
        /// The content revision it was observed against.
        revision: Revision,
    },
}

/// Whether an external-change decision is visible.
pub open spec fn decision_visible(phase: ConflictPhase) -> bool {
    phase is Prompting || phase is ConfirmOverwrite
}

/// Whether `phase` already shows exactly this observation.
pub open spec fn shows_observation(
    phase: ConflictPhase,
    kind: ExternalChangeKind,
    evidence: Option<Result<TargetState, ()>>,
    revision: Revision,
) -> bool {
    match phase {
        ConflictPhase::Prompting { kind: shown, evidence: shown_evidence, revision: shown_revision } => shown
            == kind && shown_evidence == evidence && shown_revision == revision,
        ConflictPhase::ConfirmOverwrite {
            kind: shown,
            evidence: shown_evidence,
            revision: shown_revision,
        } => shown == kind && shown_evidence == evidence && shown_revision == revision,
        _ => false,
    }
}

/// Whether a Keep Editing choice already covers this observation: the same
/// kind, with either no exact evidence or the same successfully inspected
/// state. The content revision does not matter: local typing must not reopen
/// the prompt.
pub open spec fn kept_covers(
    phase: ConflictPhase,
    kind: ExternalChangeKind,
    evidence: Option<Result<TargetState, ()>>,
) -> bool {
    match phase {
        ConflictPhase::KeptEditing { kind: kept, evidence: kept_evidence, .. } => kept == kind && (
        evidence is None || (evidence->0 is Ok && kept_evidence == evidence)),
        _ => false,
    }
}

/// The transition for one observation.
pub open spec fn observed_step(
    phase: ConflictPhase,
    kind: ExternalChangeKind,
    evidence: Option<Result<TargetState, ()>>,
    revision: Revision,
) -> (ConflictPhase, ConflictEffect) {
    if kind is Unchanged {
        (ConflictPhase::Idle, ConflictEffect::NoAction)
    } else if shows_observation(phase, kind, evidence, revision) || kept_covers(
        phase,
        kind,
        evidence,
    ) {
        (phase, ConflictEffect::NoAction)
    } else {
        (ConflictPhase::Prompting { kind, evidence, revision }, ConflictEffect::Prompt(kind))
    }
}

/// The transition for one decision. Out-of-phase decisions change nothing.
pub open spec fn decide_step(phase: ConflictPhase, decision: ConflictDecision) -> (
    ConflictPhase,
    ConflictEffect,
) {
    match phase {
        ConflictPhase::Prompting { kind, evidence, revision } => match decision {
            ConflictDecision::ReloadDisk => (phase, ConflictEffect::RequestReload),
            ConflictDecision::KeepEditing => (
                ConflictPhase::KeptEditing { kind, evidence, revision },
                ConflictEffect::NoAction,
            ),
            ConflictDecision::SaveAs => (phase, ConflictEffect::RequestSaveAs),
            ConflictDecision::RequestOverwrite => (
                ConflictPhase::ConfirmOverwrite { kind, evidence, revision },
                ConflictEffect::PromptOverwriteConfirm(kind),
            ),
            _ => (phase, ConflictEffect::NoAction),
        },
        ConflictPhase::ConfirmOverwrite { kind, evidence, revision } => match decision {
            ConflictDecision::ConfirmOverwrite => match evidence {
                Some(Ok(TargetState::Regular(observation))) => (
                    ConflictPhase::Idle,
                    ConflictEffect::AuthorizeOverwrite(observation),
                ),
                _ => (
                    ConflictPhase::Prompting { kind, evidence, revision },
                    ConflictEffect::Prompt(kind),
                ),
            },
            ConflictDecision::CancelOverwrite => (
                ConflictPhase::Prompting { kind, evidence, revision },
                ConflictEffect::Prompt(kind),
            ),
            _ => (phase, ConflictEffect::NoAction),
        },
        _ => (phase, ConflictEffect::NoAction),
    }
}

/// The transition for one command.
pub open spec fn conflict_step(phase: ConflictPhase, command: ConflictCommand) -> (
    ConflictPhase,
    ConflictEffect,
) {
    match command {
        ConflictCommand::Observed { kind, revision } => observed_step(phase, kind, None, revision),
        ConflictCommand::ObservedExact { kind, evidence, revision } => observed_step(
            phase,
            kind,
            Some(evidence),
            revision,
        ),
        ConflictCommand::Decide(decision) => decide_step(phase, decision),
        ConflictCommand::Reset => (ConflictPhase::Idle, ConflictEffect::NoAction),
    }
}

/// Returns whether two optional evidences are exactly the same.
fn same_evidence(
    first: &Option<Result<TargetState, ()>>,
    second: &Option<Result<TargetState, ()>>,
) -> (same: bool)
    ensures
        same == (*first == *second),
{
    match first {
        None => second.is_none(),
        Some(Ok(left)) => match second {
            Some(Ok(right)) => left.same_as(right),
            _ => false,
        },
        Some(Err(left)) => match second {
            Some(Err(right)) => {
                assert(*left == *right);
                true
            },
            _ => false,
        },
    }
}

/// Pure state for proactive external-change decisions.
///
/// Keep Editing never rebaselines the trusted save expectation. Ordinary Save
/// therefore continues to use the save protocol's conflict detection instead
/// of silently overwriting the external revision.
#[derive(Clone, Copy, PartialEq, Eq, Debug)]
pub struct ConflictState {
    phase: ConflictPhase,
}

impl Default for ConflictState {
    fn default() -> (state: Self)
        ensures
            state.spec_phase() == ConflictPhase::Idle,
    {
        ConflictState { phase: ConflictPhase::Idle }
    }
}

impl ConflictState {
    /// The current phase.
    pub closed spec fn spec_phase(self) -> ConflictPhase {
        self.phase
    }

    /// Returns whether an external-change decision is currently visible.
    pub fn is_prompting(self) -> (prompting: bool)
        ensures
            prompting == decision_visible(self.spec_phase()),
    {
        matches!(self.phase, ConflictPhase::Prompting { .. } | ConflictPhase::ConfirmOverwrite { .. })
    }

    /// Returns whether the second overwrite confirmation is visible.
    pub fn is_confirming_overwrite(self) -> (confirming: bool)
        ensures
            confirming == self.spec_phase() is ConfirmOverwrite,
    {
        matches!(self.phase, ConflictPhase::ConfirmOverwrite { .. })
    }

    /// Returns the observation currently shown to the user, if any.
    pub fn prompt_kind(self) -> (shown: Option<ExternalChangeKind>)
        ensures
            shown == match self.spec_phase() {
                ConflictPhase::Prompting { kind, .. } => Some(kind),
                ConflictPhase::ConfirmOverwrite { kind, .. } => Some(kind),
                _ => None,
            },
    {
        match self.phase {
            ConflictPhase::Prompting { kind, .. } => Some(kind),
            ConflictPhase::ConfirmOverwrite { kind, .. } => Some(kind),
            ConflictPhase::Idle | ConflictPhase::KeptEditing { .. } => None,
        }
    }

    /// Returns whether ordinary Save should wait for the visible conflict
    /// choice.
    ///
    /// After Keep Editing, Save remains available and still fails closed
    /// through the durable save protocol if the disk version differs.
    pub fn blocks_ordinary_save(self) -> (blocks: bool)
        ensures
            blocks == decision_visible(self.spec_phase()),
    {
        matches!(self.phase, ConflictPhase::Prompting { .. } | ConflictPhase::ConfirmOverwrite { .. })
    }

    /// Applies one command and returns its adapter effect.
    pub fn reduce(&mut self, command: ConflictCommand) -> (effect: ConflictEffect)
        ensures
            (final(self).spec_phase(), effect) == conflict_step(old(self).spec_phase(), command),
    {
        match command {
            ConflictCommand::Observed { kind, revision } => self.observed(kind, None, revision),
            ConflictCommand::ObservedExact { kind, evidence, revision } => self.observed(
                kind,
                Some(evidence),
                revision,
            ),
            ConflictCommand::Decide(decision) => self.decide(decision),
            ConflictCommand::Reset => {
                self.phase = ConflictPhase::Idle;
                ConflictEffect::NoAction
            },
        }
    }

    fn observed(
        &mut self,
        kind: ExternalChangeKind,
        evidence: Option<Result<TargetState, ()>>,
        revision: Revision,
    ) -> (effect: ConflictEffect)
        ensures
            (final(self).spec_phase(), effect) == observed_step(
                old(self).spec_phase(),
                kind,
                evidence,
                revision,
            ),
    {
        if !kind.requires_prompt() {
            self.phase = ConflictPhase::Idle;
            return ConflictEffect::NoAction;
        }
        let unchanged = match &self.phase {
            ConflictPhase::Prompting {
                kind: current,
                evidence: current_evidence,
                revision: current_revision,
            } => *current == kind && same_evidence(current_evidence, &evidence) && *current_revision
                == revision,
            ConflictPhase::ConfirmOverwrite {
                kind: current,
                evidence: current_evidence,
                revision: current_revision,
            } => *current == kind && same_evidence(current_evidence, &evidence) && *current_revision
                == revision,
            ConflictPhase::KeptEditing { kind: current, evidence: current_evidence, .. } => {
                *current == kind && match &evidence {
                    None => true,
                    Some(Ok(_)) => same_evidence(current_evidence, &evidence),
                    Some(Err(())) => false,
                }
            },
            ConflictPhase::Idle => false,
        };
        if unchanged {
            return ConflictEffect::NoAction;
        }
        self.phase = ConflictPhase::Prompting { kind, evidence, revision };
        ConflictEffect::Prompt(kind)
    }

    fn decide(&mut self, decision: ConflictDecision) -> (effect: ConflictEffect)
        ensures
            (final(self).spec_phase(), effect) == decide_step(old(self).spec_phase(), decision),
    {
        match (self.phase, decision) {
            (ConflictPhase::Prompting { .. }, ConflictDecision::ReloadDisk) => {
                ConflictEffect::RequestReload
            },
            (ConflictPhase::Prompting { kind, evidence, revision }, ConflictDecision::KeepEditing) => {
                self.phase = ConflictPhase::KeptEditing { kind, evidence, revision };
                ConflictEffect::NoAction
            },
            (ConflictPhase::Prompting { .. }, ConflictDecision::SaveAs) => {
                ConflictEffect::RequestSaveAs
            },
            (
                ConflictPhase::Prompting { kind, evidence, revision },
                ConflictDecision::RequestOverwrite,
            ) => {
                self.phase = ConflictPhase::ConfirmOverwrite { kind, evidence, revision };
                ConflictEffect::PromptOverwriteConfirm(kind)
            },
            (
                ConflictPhase::ConfirmOverwrite {
                    evidence: Some(Ok(TargetState::Regular(observation))),
                    ..
                },
                ConflictDecision::ConfirmOverwrite,
            ) => {
                self.phase = ConflictPhase::Idle;
                ConflictEffect::AuthorizeOverwrite(observation)
            },
            (ConflictPhase::ConfirmOverwrite { kind, evidence, revision }, ConflictDecision::ConfirmOverwrite)
            | (
                ConflictPhase::ConfirmOverwrite { kind, evidence, revision },
                ConflictDecision::CancelOverwrite,
            ) => {
                self.phase = ConflictPhase::Prompting { kind, evidence, revision };
                ConflictEffect::Prompt(kind)
            },
            _ => ConflictEffect::NoAction,
        }
    }
}

/// The kind of change a phase is about, if any.
pub open spec fn phase_kind(phase: ConflictPhase) -> Option<ExternalChangeKind> {
    match phase {
        ConflictPhase::Idle => None,
        ConflictPhase::Prompting { kind, .. } => Some(kind),
        ConflictPhase::ConfirmOverwrite { kind, .. } => Some(kind),
        ConflictPhase::KeptEditing { kind, .. } => Some(kind),
    }
}

/// Overwrite is authorized only by the second confirmation of a reviewed
/// regular file: the authorizing step confirms from the confirmation phase,
/// hands out exactly the reviewed observation, and returns to idle.
pub proof fn lemma_overwrite_needs_confirmation(phase: ConflictPhase, command: ConflictCommand)
    ensures
        conflict_step(phase, command).1 matches ConflictEffect::AuthorizeOverwrite(observation)
            ==> {
            &&& command == ConflictCommand::Decide(ConflictDecision::ConfirmOverwrite)
            &&& phase matches ConflictPhase::ConfirmOverwrite { evidence, .. } && evidence == Some(
                Ok::<TargetState, ()>(TargetState::Regular(observation)),
            )
            &&& conflict_step(phase, command).0 == ConflictPhase::Idle
        },
{
}

/// The second confirmation is reached only by an explicit overwrite request
/// from the visible prompt; any other step that shows it left it unchanged.
pub proof fn lemma_confirmation_needs_request(phase: ConflictPhase, command: ConflictCommand)
    ensures
        conflict_step(phase, command).0 is ConfirmOverwrite ==> (phase is Prompting && command
            == ConflictCommand::Decide(ConflictDecision::RequestOverwrite)) || conflict_step(
            phase,
            command,
        ).0 == phase,
{
}

/// Keep Editing has no effect to perform: it never authorizes, reloads or
/// saves, and it either records the choice for the visible prompt or changes
/// nothing.
pub proof fn lemma_keep_editing_is_passive(phase: ConflictPhase)
    ensures
        conflict_step(phase, ConflictCommand::Decide(ConflictDecision::KeepEditing)).1
            == ConflictEffect::NoAction,
        conflict_step(phase, ConflictCommand::Decide(ConflictDecision::KeepEditing)).0 == phase
            || (phase is Prompting && conflict_step(
            phase,
            ConflictCommand::Decide(ConflictDecision::KeepEditing),
        ).0 is KeptEditing),
{
}

/// Reset always returns to idle without an effect.
pub proof fn lemma_reset_is_idle(phase: ConflictPhase)
    ensures
        conflict_step(phase, ConflictCommand::Reset) == (ConflictPhase::Idle, ConflictEffect::NoAction),
{
}

/// An unchanged observation clears any pending conflict without an effect.
pub proof fn lemma_unchanged_clears(
    phase: ConflictPhase,
    evidence: Result<TargetState, ()>,
    revision: Revision,
)
    ensures
        conflict_step(
            phase,
            ConflictCommand::Observed { kind: ExternalChangeKind::Unchanged, revision },
        ) == (ConflictPhase::Idle, ConflictEffect::NoAction),
        conflict_step(
            phase,
            ConflictCommand::ObservedExact { kind: ExternalChangeKind::Unchanged, evidence, revision },
        ) == (ConflictPhase::Idle, ConflictEffect::NoAction),
{
}

/// Reporting the same observation again right away is inert: the prompt is
/// shown once.
pub proof fn lemma_repeated_observation_is_inert(phase: ConflictPhase, command: ConflictCommand)
    requires
        command is Observed || command is ObservedExact,
    ensures
        conflict_step(conflict_step(phase, command).0, command) == (
            conflict_step(phase, command).0,
            ConflictEffect::NoAction,
        ),
{
}

/// With nothing pending, every decision is inert.
pub proof fn lemma_idle_decisions_are_inert(decision: ConflictDecision)
    ensures
        conflict_step(ConflictPhase::Idle, ConflictCommand::Decide(decision)) == (
            ConflictPhase::Idle,
            ConflictEffect::NoAction,
        ),
{
}

/// A change of a different kind than the one pending or kept always prompts
/// again, and so does a failed inspection reported with its evidence, even
/// after Keep Editing.
pub proof fn lemma_new_change_prompts(
    phase: ConflictPhase,
    kind: ExternalChangeKind,
    evidence: Result<TargetState, ()>,
    revision: Revision,
)
    requires
        !(kind is Unchanged),
    ensures
        phase_kind(phase) != Some(kind) ==> conflict_step(
            phase,
            ConflictCommand::Observed { kind, revision },
        ) == (ConflictPhase::Prompting { kind, evidence: None, revision }, ConflictEffect::Prompt(
            kind,
        )),
        phase_kind(phase) != Some(kind) ==> conflict_step(
            phase,
            ConflictCommand::ObservedExact { kind, evidence, revision },
        ) == (
            ConflictPhase::Prompting { kind, evidence: Some(evidence), revision },
            ConflictEffect::Prompt(kind),
        ),
        phase is KeptEditing && evidence is Err ==> conflict_step(
            phase,
            ConflictCommand::ObservedExact { kind, evidence, revision },
        ) == (
            ConflictPhase::Prompting { kind, evidence: Some(evidence), revision },
            ConflictEffect::Prompt(kind),
        ),
{
}

} // verus!

verus! {

/// The change kind an effect shows the user, if it shows one.
pub open spec fn prompted_kind(effect: ConflictEffect) -> Option<ExternalChangeKind> {
    match effect {
        ConflictEffect::Prompt(kind) => Some(kind),
        ConflictEffect::PromptOverwriteConfirm(kind) => Some(kind),
        _ => None,
    }
}

/// The kind a phase shows the user, as `ConflictState::prompt_kind` reports.
pub open spec fn shown_kind(phase: ConflictPhase) -> Option<ExternalChangeKind> {
    match phase {
        ConflictPhase::Prompting { kind, .. } => Some(kind),
        ConflictPhase::ConfirmOverwrite { kind, .. } => Some(kind),
        _ => None,
    }
}

/// The phase after applying `commands` in order from `phase`.
pub open spec fn run(phase: ConflictPhase, commands: Seq<ConflictCommand>) -> ConflictPhase
    decreases commands.len(),
{
    if commands.len() == 0 {
        phase
    } else {
        conflict_step(run(phase, commands.drop_last()), commands.last()).0
    }
}

/// The kind of the last prompt any of `commands` showed, when applied in
/// order from `phase`.
pub open spec fn last_prompted(phase: ConflictPhase, commands: Seq<ConflictCommand>) -> Option<
    ExternalChangeKind,
>
    decreases commands.len(),
{
    if commands.len() == 0 {
        None
    } else {
        match prompted_kind(conflict_step(run(phase, commands.drop_last()), commands.last()).1) {
            Some(kind) => Some(kind),
            None => last_prompted(phase, commands.drop_last()),
        }
    }
}

/// A phase is about a change that needs the user.
pub open spec fn phase_needs_prompt(phase: ConflictPhase) -> bool {
    match phase_kind(phase) {
        Some(kind) => !(kind is Unchanged),
        None => true,
    }
}

/// One step keeps a phase about a change that needs the user; a prompt it
/// shows is of such a change and is what the new phase shows; and a kind the
/// new phase shows without a prompt was already shown.
pub proof fn lemma_step_prompts(phase: ConflictPhase, command: ConflictCommand)
    requires
        phase_needs_prompt(phase),
    ensures
        phase_needs_prompt(conflict_step(phase, command).0),
        prompted_kind(conflict_step(phase, command).1) matches Some(kind) ==> !(kind is Unchanged)
            && shown_kind(conflict_step(phase, command).0) == Some(kind),
        prompted_kind(conflict_step(phase, command).1) is None && shown_kind(
            conflict_step(phase, command).0,
        ) is Some ==> shown_kind(conflict_step(phase, command).0) == shown_kind(phase),
{
}

/// On every state that commands reach from idle, the kind shown to the user
/// is a change that needs a prompt, and it is the kind of the last prompt
/// shown.
pub proof fn lemma_shown_kind_was_last_prompted(commands: Seq<ConflictCommand>)
    ensures
        phase_needs_prompt(run(ConflictPhase::Idle, commands)),
        shown_kind(run(ConflictPhase::Idle, commands)) matches Some(kind) ==> !(kind is Unchanged)
            && last_prompted(ConflictPhase::Idle, commands) == Some(kind),
    decreases commands.len(),
{
    if commands.len() > 0 {
        let before = commands.drop_last();
        lemma_shown_kind_was_last_prompted(before);
        lemma_step_prompts(run(ConflictPhase::Idle, before), commands.last());
    }
}

/// What an observation does: it either changes nothing visible or prompts
/// for its own kind. An unchanged file clears everything; from idle, a
/// change always prompts; a prompt leaves the ordinary decision visible for
/// that kind; and a failed inspection reported after Keep Editing prompts
/// again.
pub proof fn lemma_observation_outcomes(
    phase: ConflictPhase,
    kind: ExternalChangeKind,
    evidence: Option<Result<TargetState, ()>>,
    revision: Revision,
)
    ensures
        observed_step(phase, kind, evidence, revision).1 == ConflictEffect::NoAction
            || observed_step(phase, kind, evidence, revision).1 == ConflictEffect::Prompt(kind),
        kind is Unchanged ==> observed_step(phase, kind, evidence, revision) == (
            ConflictPhase::Idle,
            ConflictEffect::NoAction,
        ),
        phase is Idle && !(kind is Unchanged) ==> observed_step(phase, kind, evidence, revision).1
            == ConflictEffect::Prompt(kind),
        observed_step(phase, kind, evidence, revision).1 == ConflictEffect::Prompt(kind) ==> {
            let next = observed_step(phase, kind, evidence, revision).0;
            &&& decision_visible(next)
            &&& !(next is ConfirmOverwrite)
            &&& shown_kind(next) == Some(kind)
        },
        phase is KeptEditing && !(kind is Unchanged) && (evidence matches Some(Err(_)))
            ==> observed_step(phase, kind, evidence, revision).1 == ConflictEffect::Prompt(kind),
{
}

/// What a decision does: it authorizes an overwrite exactly when the second
/// confirmation of a reviewed regular file is confirmed, and then returns to
/// idle; with no decision visible it changes nothing; and confirming without
/// regular-file evidence returns to the ordinary prompt.
pub proof fn lemma_decision_outcomes(
    phase: ConflictPhase,
    decision: ConflictDecision,
    observation: FileObservation,
)
    ensures
        (decide_step(phase, decision).1 == ConflictEffect::AuthorizeOverwrite(observation)) <==> (
            decision == ConflictDecision::ConfirmOverwrite && (phase matches ConflictPhase::ConfirmOverwrite {
                evidence,
                ..
            } && evidence == Some(Ok::<TargetState, ()>(TargetState::Regular(observation))))),
        decide_step(phase, decision).1 is AuthorizeOverwrite ==> decide_step(phase, decision).0
            == ConflictPhase::Idle,
        !decision_visible(phase) ==> decide_step(phase, decision) == (
            phase,
            ConflictEffect::NoAction,
        ),
        decision == ConflictDecision::ConfirmOverwrite ==> match phase {
            ConflictPhase::ConfirmOverwrite { kind, evidence, revision } => match evidence {
                Some(Ok(TargetState::Regular(_))) => true,
                _ => decide_step(phase, decision) == (
                    ConflictPhase::Prompting { kind, evidence, revision },
                    ConflictEffect::Prompt(kind),
                ),
            },
            _ => true,
        },
{
}

} // verus!
