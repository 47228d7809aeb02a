use noter::ime::{
    deduplicate_adjacent_newline_commits, focused_ime_frame_state, isolate_active_ime_commit,
    retain_active_ime_commit_focus, take_events_after_ime_terminal, ImeFrameState,
};
use noter::input_events::{
    canonicalize_projected_payload, clamp_text_events,
    document_input_event_survives_modal_transition, event_may_change_selection_or_text,
    project_payload_character_range, sanitize_bounded_text_events, text_budget, EditorKey,
    KeyModifiers, PayloadKind, TextEvent,
};

fn payload(kind: PayloadKind, text: &str) -> TextEvent {
    TextEvent::Payload {
        kind,
        text: text.to_owned(),
    }
}

fn commit(text: &str) -> TextEvent {
    payload(PayloadKind::ImeCommit, text)
}

fn preedit(text: &str, range: Option<(usize, usize)>) -> TextEvent {
    TextEvent::ImePreedit {
        text: text.to_owned(),
        active_range_chars: range,
    }
}

fn key(key: EditorKey) -> TextEvent {
    key_with_modifiers(key, KeyModifiers::none())
}

fn key_with_modifiers(key: EditorKey, modifiers: KeyModifiers) -> TextEvent {
    TextEvent::Key {
        key,
        pressed: true,
        modifiers,
    }
}

/// Runs the bounded sanitizer for a focused, empty editor with no pointer
/// button held.
fn sanitize_focused(events: &mut Vec<TextEvent>, current: &str, maximum: usize) -> bool {
    sanitize_bounded_text_events(true, events, current, None, maximum, false)
}

fn sanitized_preedit_range(mut events: Vec<TextEvent>) -> Option<(usize, usize)> {
    assert!(!sanitize_focused(&mut events, "", 4));
    match events.last() {
        Some(TextEvent::ImePreedit {
            active_range_chars, ..
        }) => *active_range_chars,
        _ => panic!("the final event should be an IME preedit"),
    }
}

#[test]
fn text_and_ime_payloads_are_bounded_on_utf8_boundaries() {
    for kind in [PayloadKind::Text, PayloadKind::ImeCommit] {
        let mut events = vec![payload(kind, "éé")];
        assert!(sanitize_focused(&mut events, "", 3));
        assert_eq!(events, vec![payload(kind, "é")]);
    }
}

#[test]
fn truncated_ime_preedit_drops_its_stale_active_range() {
    let mut events = vec![preedit("éé", Some((0, 2)))];
    assert!(sanitize_focused(&mut events, "", 3));
    assert_eq!(events, vec![preedit("é", None)]);
}

#[test]
fn unfocused_editor_leaves_another_controls_input_untouched() {
    let mut events = vec![payload(PayloadKind::Paste, "oversized")];
    assert!(!sanitize_bounded_text_events(
        false,
        &mut events,
        "full",
        None,
        4,
        false
    ));
    assert_eq!(events, vec![payload(PayloadKind::Paste, "oversized")]);
}

#[test]
fn navigation_only_input_needs_no_document_or_cursor_scan() {
    let mut events = vec![key(EditorKey::ArrowRight)];
    assert!(!sanitize_focused(&mut events, "", 64 << 20));
    assert_eq!(events, vec![key(EditorKey::ArrowRight)]);
}

#[test]
fn ordinary_ime_preedit_preserves_its_active_subrange() {
    let mut events = vec![preedit("é", Some((0, 1)))];
    assert!(!sanitize_focused(&mut events, "", 4));
    assert_eq!(events, vec![preedit("é", Some((0, 1)))]);
}

#[test]
fn pointer_motion_without_a_drag_preserves_ime_subrange() {
    assert_eq!(
        sanitized_preedit_range(vec![TextEvent::PointerMoved, preedit("é", Some((0, 1)))]),
        Some((0, 1))
    );
}

#[test]
fn pointer_button_activity_invalidates_precomputed_ime_subrange() {
    assert_eq!(
        sanitized_preedit_range(vec![TextEvent::PointerButton, preedit("é", Some((0, 1)))]),
        None
    );
}

#[test]
fn pointer_drag_invalidates_precomputed_ime_subrange() {
    let mut events = vec![TextEvent::PointerMoved, preedit("é", Some((0, 1)))];
    assert!(!sanitize_bounded_text_events(
        true,
        &mut events,
        "",
        None,
        4,
        true
    ));
    assert_eq!(events[1], preedit("é", None));
}

#[test]
fn selection_changing_event_classification_is_precise() {
    let command = KeyModifiers {
        command: true,
        ..KeyModifiers::none()
    };
    let control = KeyModifiers {
        ctrl: true,
        ..KeyModifiers::none()
    };

    assert!(event_may_change_selection_or_text(&TextEvent::Cut));
    assert!(event_may_change_selection_or_text(&key(EditorKey::ArrowLeft)));
    assert!(!event_may_change_selection_or_text(&key(EditorKey::A)));
    assert!(event_may_change_selection_or_text(&key_with_modifiers(
        EditorKey::A,
        command
    )));
    assert!(!event_may_change_selection_or_text(&key_with_modifiers(
        EditorKey::Other,
        command
    )));
    assert!(event_may_change_selection_or_text(&key_with_modifiers(
        EditorKey::H,
        control
    )));
    assert!(!event_may_change_selection_or_text(&key_with_modifiers(
        EditorKey::Other,
        control
    )));
}

#[test]
fn released_keys_and_pointer_events_do_not_move_the_selection() {
    let released = TextEvent::Key {
        key: EditorKey::ArrowLeft,
        pressed: false,
        modifiers: KeyModifiers::none(),
    };
    assert!(!event_may_change_selection_or_text(&released));
    assert!(event_may_change_selection_or_text(&TextEvent::AccessibilityAction));
    assert!(!event_may_change_selection_or_text(&TextEvent::PointerButton));
    assert!(!event_may_change_selection_or_text(&TextEvent::Other));
}

#[test]
fn navigation_before_ime_preedit_drops_an_unprovable_active_subrange() {
    let mut events = vec![key(EditorKey::ArrowRight), preedit("é", Some((0, 1)))];
    assert!(!sanitize_bounded_text_events(
        true,
        &mut events,
        "aé",
        Some((0, 1)),
        4,
        false
    ));
    assert_eq!(events[1], preedit("é", None));
}

#[test]
fn later_payloads_receive_only_the_remaining_budget() {
    let mut events = vec![
        payload(PayloadKind::Text, "ab"),
        TextEvent::Other,
        payload(PayloadKind::Paste, "cdef"),
    ];
    assert!(clamp_text_events(&mut events, 4, false));
    assert_eq!(
        events,
        vec![
            payload(PayloadKind::Text, "ab"),
            TextEvent::Other,
            payload(PayloadKind::Paste, "cd"),
        ]
    );
    let mut fits = vec![payload(PayloadKind::Text, "abc")];
    assert!(!clamp_text_events(&mut fits, 3, false));
    assert_eq!(fits, vec![payload(PayloadKind::Text, "abc")]);
}

#[test]
fn a_selected_range_frees_its_bytes_for_the_replacement() {
    // "aéx" holds 4 bytes; replacing "é" (characters 1..2) leaves 2 bytes,
    // so a 4-byte ceiling admits 2 more bytes.
    let mut events = vec![payload(PayloadKind::Paste, "wxyz")];
    assert!(sanitize_bounded_text_events(
        true,
        &mut events,
        "aéx",
        Some((2, 1)),
        4,
        false
    ));
    assert_eq!(events, vec![payload(PayloadKind::Paste, "wx")]);
}

#[test]
fn selection_budget_subtracts_only_the_retained_bytes() {
    assert_eq!(text_budget(10, 4, 12), 6);
    assert_eq!(text_budget(10, 0, 10), 0);
    assert_eq!(text_budget(10, 0, 5), 0);
    assert_eq!(text_budget(3, 5, 7), 7);
}

#[test]
fn ime_terminal_defers_the_next_composition_without_reordering() {
    let mut events = vec![commit("漢"), preedit("次", Some((0, 1))), payload(PayloadKind::Text, "tail")];
    let deferred = take_events_after_ime_terminal(&mut events, true, false);
    assert_eq!(events, vec![commit("漢")]);
    assert_eq!(
        deferred,
        vec![preedit("次", Some((0, 1))), payload(PayloadKind::Text, "tail")]
    );
}

#[test]
fn events_stay_together_when_the_editor_does_not_own_them() {
    let mut events = vec![commit("漢"), payload(PayloadKind::Text, "tail")];
    let deferred = take_events_after_ime_terminal(&mut events, false, false);
    assert!(deferred.is_empty());
    assert_eq!(events, vec![commit("漢"), payload(PayloadKind::Text, "tail")]);
}

#[test]
fn an_empty_commit_ends_only_a_running_composition() {
    let mut idle = vec![commit(""), payload(PayloadKind::Text, "x")];
    assert!(take_events_after_ime_terminal(&mut idle, true, false).is_empty());
    assert_eq!(idle.len(), 2);

    let mut active = vec![commit(""), payload(PayloadKind::Text, "x")];
    let deferred = take_events_after_ime_terminal(&mut active, true, true);
    assert_eq!(active, vec![commit("")]);
    assert_eq!(deferred, vec![payload(PayloadKind::Text, "x")]);
}

#[test]
fn isolated_ime_commit_keeps_prefix_and_defers_only_suffix() {
    let mut events = vec![
        payload(PayloadKind::Text, "before"),
        commit("committed"),
        payload(PayloadKind::Text, "after"),
    ];
    let isolated = isolate_active_ime_commit(&mut events, true);
    assert_eq!(events, vec![payload(PayloadKind::Text, "before")]);
    assert_eq!(
        isolated,
        Some((commit("committed"), vec![payload(PayloadKind::Text, "after")]))
    );
}

#[test]
fn no_commit_is_isolated_without_an_active_composition() {
    let mut events = vec![commit("committed")];
    assert_eq!(isolate_active_ime_commit(&mut events, false), None);
    assert_eq!(events, vec![commit("committed")]);
    let mut empty_only = vec![commit(""), payload(PayloadKind::Text, "x")];
    assert_eq!(isolate_active_ime_commit(&mut empty_only, true), None);
    assert_eq!(empty_only.len(), 2);
}

#[test]
fn enter_consumes_one_adjacent_newline_commit() {
    let mut events = vec![commit("\n"), key(EditorKey::Enter), commit("\r\n")];
    deduplicate_adjacent_newline_commits(&mut events);
    assert_eq!(events, vec![commit(""), key(EditorKey::Enter), commit("\r\n")]);

    let mut after = vec![key(EditorKey::Enter), commit("\r")];
    deduplicate_adjacent_newline_commits(&mut after);
    assert_eq!(after, vec![key(EditorKey::Enter), commit("")]);

    let shifted = KeyModifiers {
        shift: true,
        ..KeyModifiers::none()
    };
    let mut modified = vec![key_with_modifiers(EditorKey::Enter, shifted), commit("\n")];
    deduplicate_adjacent_newline_commits(&mut modified);
    assert_eq!(modified[1], commit("\n"));
}

#[test]
fn frame_state_follows_the_composition_lifecycle() {
    assert_eq!(
        focused_ime_frame_state(false, true, &vec![]),
        ImeFrameState::Cancelled
    );
    assert_eq!(
        focused_ime_frame_state(false, false, &vec![commit("x")]),
        ImeFrameState::Inactive
    );
    assert_eq!(
        focused_ime_frame_state(true, false, &vec![preedit("か", None)]),
        ImeFrameState::Composing
    );
    assert_eq!(
        focused_ime_frame_state(true, true, &vec![commit("漢")]),
        ImeFrameState::Committed
    );
    assert_eq!(
        focused_ime_frame_state(true, true, &vec![preedit("", None)]),
        ImeFrameState::Cancelled
    );
    assert_eq!(
        focused_ime_frame_state(true, true, &vec![commit("")]),
        ImeFrameState::Cancelled
    );
    assert_eq!(
        focused_ime_frame_state(true, true, &vec![commit(""), key(EditorKey::Enter)]),
        ImeFrameState::Committed
    );
    assert_eq!(
        focused_ime_frame_state(true, true, &vec![preedit("\n", None)]),
        ImeFrameState::Composing
    );
    assert_eq!(
        focused_ime_frame_state(true, false, &vec![payload(PayloadKind::Text, "x")]),
        ImeFrameState::Inactive
    );
}

#[test]
fn focus_is_retained_only_for_an_active_composition_with_a_commit() {
    let events = vec![commit("漢")];
    assert!(retain_active_ime_commit_focus(false, true, &events));
    assert!(!retain_active_ime_commit_focus(true, true, &events));
    assert!(!retain_active_ime_commit_focus(false, false, &events));
    assert!(!retain_active_ime_commit_focus(false, true, &vec![commit("")]));
}

#[test]
fn accepted_payload_prefix_is_shown_in_canonical_form() {
    let mut text = "a\r\nb\rc".to_owned();
    canonicalize_projected_payload(&mut text, 6);
    assert_eq!(text, "a\nb\nc");

    let mut cut = "a\r\nb\rc".to_owned();
    canonicalize_projected_payload(&mut cut, 3);
    assert_eq!(cut, "a\n");

    let mut plain = "héllo".to_owned();
    canonicalize_projected_payload(&mut plain, 3);
    assert_eq!(plain, "hé");
}

#[test]
fn payload_character_ranges_map_to_the_canonical_display() {
    assert_eq!(project_payload_character_range("abc", 2, 1), None);
    assert_eq!(project_payload_character_range("abc", 0, 4), None);
    assert_eq!(project_payload_character_range("abc", 1, 3), Some((1, 3)));
    // "a\r\nb": the display is "a\nb"; characters 2..4 ("\nb") start inside
    // the pair, which widens to include it.
    assert_eq!(project_payload_character_range("a\r\nb", 2, 4), Some((1, 3)));
    assert_eq!(project_payload_character_range("a\r\nb", 3, 4), Some((2, 3)));
    assert_eq!(project_payload_character_range("a\r\nb", 0, 1), Some((0, 1)));
}

#[test]
fn modal_transitions_keep_only_document_input() {
    assert!(document_input_event_survives_modal_transition(&TextEvent::Cut));
    assert!(document_input_event_survives_modal_transition(&payload(
        PayloadKind::Paste,
        "x"
    )));
    assert!(document_input_event_survives_modal_transition(&commit("")));
    assert!(document_input_event_survives_modal_transition(&preedit("か", None)));
    assert!(document_input_event_survives_modal_transition(&TextEvent::ImeSwitch));
    assert!(document_input_event_survives_modal_transition(&key(EditorKey::Other)));
    let released = TextEvent::Key {
        key: EditorKey::Enter,
        pressed: false,
        modifiers: KeyModifiers::none(),
    };
    assert!(!document_input_event_survives_modal_transition(&released));
    assert!(!document_input_event_survives_modal_transition(&TextEvent::PointerButton));
    assert!(!document_input_event_survives_modal_transition(&TextEvent::Other));
}
