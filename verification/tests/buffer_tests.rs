use noter::input_events::{sanitize_bounded_text_events, EditorKey, KeyModifiers, PayloadKind, TextEvent};
use noter::text_buffer::BoundedTextBuffer;

#[test]
fn a_character_limit_clamps_and_its_absence_costs_nothing() {
    let mut buffer = BoundedTextBuffer::new("existing".to_owned(), 1024);
    assert_eq!(buffer.insert_text_at(8, " and more", usize::MAX), 17);
    assert_eq!(buffer.into_value(), "existing and more");

    // A real limit still truncates to the characters that remain.
    let mut buffer = BoundedTextBuffer::new("abc".to_owned(), 1024);
    assert_eq!(buffer.insert_text_at(3, "defgh", 5), 5);
    assert_eq!(
        buffer.into_value(),
        "abcde",
        "a present limit must still clamp"
    );

    // A limit already reached admits nothing further.
    let mut buffer = BoundedTextBuffer::new("abcde".to_owned(), 1024);
    assert_eq!(buffer.insert_text_at(5, "fgh", 5), 5);
    assert_eq!(buffer.into_value(), "abcde");
}

#[test]
fn mutation_boundary_preserves_an_exact_utf8_byte_ceiling() {
    let mut buffer = BoundedTextBuffer::new("aé".to_owned(), 4);
    assert_eq!(buffer.insert_text("é", 0), 0);
    assert!(buffer.was_limited());
    assert_eq!(buffer.into_value(), "aé");
}

#[test]
fn text_buffer_trait_operations_preserve_their_contract() {
    let mut buffer = BoundedTextBuffer::new("aéx".to_owned(), 8);
    assert!(buffer.is_mutable());
    buffer.delete_char_range(1, 2);
    assert_eq!(buffer.as_str(), "ax");
    buffer.replace_with("ééééé");
    assert_eq!(buffer.as_str(), "éééé");
    buffer.clear();
    assert_eq!(buffer.as_str(), "");
    buffer.replace_with("kept");
    assert_eq!(buffer.take(), "kept");
    assert_eq!(buffer.as_str(), "");
    assert_eq!(buffer.into_value(), "");
}

#[test]
fn inverted_character_ranges_sort_instead_of_panicking() {
    let mut buffer = BoundedTextBuffer::new("abcd".to_owned(), 8);
    buffer.delete_char_range(3, 1);
    assert_eq!(buffer.as_str(), "ad");
}

#[test]
fn initial_text_is_cut_to_the_ceiling() {
    let buffer = BoundedTextBuffer::new("aéx".to_owned(), 2);
    assert!(buffer.was_limited());
    assert_eq!(buffer.into_value(), "a");
    let exact = BoundedTextBuffer::new("aé".to_owned(), 3);
    assert!(!exact.was_limited());
}

#[test]
fn refused_replacement_restores_the_deleted_selection() {
    // Replacing "a" in "aéx" (4 bytes, ceiling 4) with "é" cannot fit, so
    // the deleted "a" comes back.
    let mut buffer = BoundedTextBuffer::new("aéx".to_owned(), 4);
    assert_eq!(buffer.delete_selected(0, 1), 0);
    assert_eq!(buffer.insert_text("é", 0), 0);
    assert!(buffer.was_limited());
    assert_eq!(buffer.into_value(), "aéx");
}

#[test]
fn layout_between_deletion_and_insertion_ends_the_pairing() {
    let mut buffer = BoundedTextBuffer::new("aéx".to_owned(), 4);
    assert_eq!(buffer.delete_selected(1, 0), 0);
    assert_eq!(buffer.as_str(), "éx");
    assert_eq!(buffer.insert_text("é", 0), 0);
    assert_eq!(buffer.into_value(), "éx");
}

#[test]
fn a_selection_replacement_uses_the_freed_bytes() {
    let mut buffer = BoundedTextBuffer::new("full".to_owned(), 4);
    assert_eq!(buffer.delete_selected(1, 3), 1);
    assert_eq!(buffer.insert_text("\n", 1), 1);
    assert!(!buffer.was_limited());
    assert_eq!(buffer.into_value(), "f\nl");
}

#[test]
fn insertion_at_the_ceiling_is_refused() {
    let mut buffer = BoundedTextBuffer::new("full".to_owned(), 4);
    assert_eq!(buffer.insert_text("\n", 4), 0);
    assert!(buffer.was_limited());
    assert_eq!(buffer.into_value(), "full");
}

#[test]
fn insertion_past_the_end_appends() {
    let mut buffer = BoundedTextBuffer::new("ab".to_owned(), 8);
    assert_eq!(buffer.insert_text("cd", 10), 2);
    assert_eq!(buffer.into_value(), "abcd");
}

/// Runs one editor frame: the events are bounded first, then applied to the
/// buffer the way a single-line or multi-line text editor applies them.
fn edit_with_events(
    current: &str,
    maximum: usize,
    selection: (usize, usize),
    mut events: Vec<TextEvent>,
    lock_focus: bool,
) -> (String, bool) {
    let clamped = sanitize_bounded_text_events(
        true,
        &mut events,
        current,
        Some(selection),
        maximum,
        false,
    );
    let mut buffer = BoundedTextBuffer::new(current.to_owned(), maximum);
    let (mut anchor, mut active) = selection;
    for event in events {
        let inserted = match event {
            TextEvent::Payload { text, .. } if !text.is_empty() => Some(text),
            TextEvent::Key {
                key: EditorKey::Enter,
                pressed: true,
                ..
            } => Some("\n".to_owned()),
            TextEvent::Key {
                key: EditorKey::Tab,
                pressed: true,
                ..
            } if lock_focus => Some("\t".to_owned()),
            TextEvent::Key {
                key: EditorKey::ArrowRight,
                pressed: true,
                ..
            } => {
                let end = anchor.max(active);
                let moved = if anchor == active { end + 1 } else { end };
                anchor = moved;
                active = moved;
                None
            }
            _ => None,
        };
        if let Some(text) = inserted {
            let mut cursor = anchor.min(active);
            if anchor != active {
                cursor = buffer.delete_selected(anchor, active);
            }
            let moved = buffer.insert_text_at(cursor, &text, usize::MAX);
            anchor = moved;
            active = moved;
        }
    }
    let limited = clamped || buffer.was_limited();
    (buffer.into_value(), limited)
}

fn pressed_key(key: EditorKey) -> TextEvent {
    TextEvent::Key {
        key,
        pressed: true,
        modifiers: KeyModifiers::none(),
    }
}

#[test]
fn rejected_multibyte_replacement_preserves_a_smaller_selection() {
    let (value, was_limited) = edit_with_events(
        "aéx",
        4,
        (0, 1),
        vec![TextEvent::Payload {
            kind: PayloadKind::Paste,
            text: "é".to_owned(),
        }],
        false,
    );
    assert_eq!(value, "aéx");
    assert!(was_limited);
}

#[test]
fn enter_and_locked_focus_tab_are_blocked_at_the_exact_ceiling() {
    for (event, lock_focus) in [(pressed_key(EditorKey::Enter), false), (pressed_key(EditorKey::Tab), true)] {
        let (value, was_limited) = edit_with_events("full", 4, (4, 4), vec![event], lock_focus);
        assert_eq!(value, "full");
        assert!(was_limited);
    }
}

#[test]
fn selection_replacements_receive_the_freed_byte_budget() {
    for (event, expected, lock_focus) in [
        (pressed_key(EditorKey::Enter), "f\nl", false),
        (pressed_key(EditorKey::Tab), "f\tl", true),
    ] {
        let (value, was_limited) = edit_with_events("full", 4, (1, 3), vec![event], lock_focus);
        assert_eq!(value, expected);
        assert!(!was_limited);
    }
}

#[test]
fn cursor_change_before_paste_cannot_reuse_a_stale_selection_budget() {
    let events = vec![
        pressed_key(EditorKey::ArrowRight),
        TextEvent::Payload {
            kind: PayloadKind::Paste,
            text: "extra".to_owned(),
        },
    ];
    let (value, was_limited) = edit_with_events("full", 4, (0, 2), events, false);
    assert_eq!(value, "full");
    assert!(was_limited);
}

#[test]
fn cursor_change_before_ime_commit_cannot_exceed_the_ceiling() {
    let events = vec![
        pressed_key(EditorKey::ArrowRight),
        TextEvent::Payload {
            kind: PayloadKind::ImeCommit,
            text: "extra".to_owned(),
        },
    ];
    let (value, was_limited) = edit_with_events("full", 4, (0, 2), events, false);
    assert_eq!(value, "full");
    assert!(was_limited);
}
