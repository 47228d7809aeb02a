use noter::input_events::{sanitize_projected_text_events, PayloadKind, TextEvent};
use noter::line_endings::{
    normalize_inserted_text, LineEnding, LineEndingCounts, LineEndingProfile,
};
use noter::projection::DisplayRange;

fn caret(index: usize) -> Option<DisplayRange> {
    Some(DisplayRange {
        primary: index,
        secondary: index,
    })
}

fn sanitize_projected_preedit(active_range_chars: (usize, usize)) -> (String, Option<(usize, usize)>) {
    let source = "x\r\n";
    let mut events = vec![TextEvent::ImePreedit {
        text: "a\r\nbc".to_owned(),
        active_range_chars: Some(active_range_chars),
    }];
    assert!(!sanitize_projected_text_events(
        true,
        &mut events,
        source,
        caret(0),
        64,
        LineEnding::CrLf,
        false,
    ));
    let Some(TextEvent::ImePreedit {
        text,
        active_range_chars,
    }) = events.pop()
    else {
        panic!("the projected preedit should remain available")
    };
    (text, active_range_chars)
}

#[test]
fn projected_sanitizer_maps_crlf_ime_ranges_before_across_and_after_newline() {
    for (original, expected) in [((0, 1), (0, 1)), ((1, 3), (1, 2)), ((3, 5), (2, 4))] {
        let (text, active_range) = sanitize_projected_preedit(original);
        assert_eq!(text, "a\nbc", "{original:?}");
        assert_eq!(active_range, Some(expected), "{original:?}");
    }
}

#[test]
fn projected_sanitizer_cancels_a_newline_terminal_rejected_by_crlf_ceiling() {
    let source = "a\r\nb";
    let mut events = vec![TextEvent::Payload {
        kind: PayloadKind::ImeCommit,
        text: "\n".to_owned(),
    }];
    assert!(sanitize_projected_text_events(
        true,
        &mut events,
        source,
        caret(3),
        source.len(),
        LineEnding::CrLf,
        false,
    ));
    assert_eq!(
        events,
        vec![TextEvent::Payload {
            kind: PayloadKind::ImeCommit,
            text: String::new(),
        }]
    );
}

#[test]
fn an_accepted_newline_only_commit_becomes_one_crlf_sentinel() {
    for payload in ["\n", "\r", "\r\n"] {
        let mut events = vec![TextEvent::Payload {
            kind: PayloadKind::ImeCommit,
            text: payload.to_owned(),
        }];
        assert!(!sanitize_projected_text_events(
            true,
            &mut events,
            "a\nb",
            caret(1),
            64,
            LineEnding::Lf,
            false,
        ));
        assert_eq!(
            events,
            vec![TextEvent::Payload {
                kind: PayloadKind::ImeCommit,
                text: "\r\n".to_owned(),
            }],
            "{payload:?}"
        );
    }
}

#[test]
fn projected_payloads_are_measured_in_written_source_bytes() {
    let mut events = vec![
        TextEvent::Payload {
            kind: PayloadKind::Paste,
            text: "x\ry".to_owned(),
        },
        TextEvent::Payload {
            kind: PayloadKind::Text,
            text: "\nz".to_owned(),
        },
    ];
    // Five bytes remain: "x\r\ny" takes four, and the CRLF of the next
    // payload no longer fits.
    assert!(sanitize_projected_text_events(
        true,
        &mut events,
        "ab",
        caret(2),
        7,
        LineEnding::CrLf,
        false,
    ));
    assert_eq!(
        events,
        vec![
            TextEvent::Payload {
                kind: PayloadKind::Paste,
                text: "x\ny".to_owned(),
            },
            TextEvent::Payload {
                kind: PayloadKind::Text,
                text: String::new(),
            },
        ]
    );
}

#[test]
fn a_projected_selection_frees_its_source_bytes() {
    // The display selection covers "b\n", which is "b\r\n" in source.
    let mut events = vec![TextEvent::Payload {
        kind: PayloadKind::Text,
        text: "xyz".to_owned(),
    }];
    assert!(!sanitize_projected_text_events(
        true,
        &mut events,
        "ab\r\nc",
        Some(DisplayRange {
            primary: 1,
            secondary: 3,
        }),
        5,
        LineEnding::CrLf,
        false,
    ));
    assert_eq!(
        events,
        vec![TextEvent::Payload {
            kind: PayloadKind::Text,
            text: "xyz".to_owned(),
        }]
    );
}

#[test]
fn unfocused_or_textless_projected_frames_are_untouched() {
    let mut events = vec![TextEvent::Payload {
        kind: PayloadKind::Paste,
        text: "a\r\nb".to_owned(),
    }];
    assert!(!sanitize_projected_text_events(false, &mut events, "", None, 0, LineEnding::Lf, false));
    assert_eq!(
        events,
        vec![TextEvent::Payload {
            kind: PayloadKind::Paste,
            text: "a\r\nb".to_owned(),
        }]
    );
    let mut navigation = vec![TextEvent::PointerMoved, TextEvent::Cut];
    assert!(!sanitize_projected_text_events(true, &mut navigation, "", None, 0, LineEnding::Lf, true));
    assert_eq!(navigation, vec![TextEvent::PointerMoved, TextEvent::Cut]);
}

#[test]
fn a_cut_or_moved_projected_preedit_loses_its_range() {
    let mut cut = vec![TextEvent::ImePreedit {
        text: "ab\ncd".to_owned(),
        active_range_chars: Some((0, 2)),
    }];
    assert!(sanitize_projected_text_events(true, &mut cut, "", None, 3, LineEnding::CrLf, false));
    assert_eq!(
        cut,
        vec![TextEvent::ImePreedit {
            text: "ab".to_owned(),
            active_range_chars: None,
        }]
    );
    let mut moved = vec![
        TextEvent::PointerButton,
        TextEvent::ImePreedit {
            text: "ab".to_owned(),
            active_range_chars: Some((0, 1)),
        },
    ];
    assert!(!sanitize_projected_text_events(true, &mut moved, "", None, 64, LineEnding::Lf, false));
    assert_eq!(
        moved[1],
        TextEvent::ImePreedit {
            text: "ab".to_owned(),
            active_range_chars: None,
        }
    );
}

#[test]
fn inserted_newlines_follow_the_insertion_convention() {
    for (text, ending, expected) in [
        ("a\nb", LineEnding::CrLf, "a\r\nb"),
        ("a\r\nb", LineEnding::CrLf, "a\r\nb"),
        ("a\rb", LineEnding::CrLf, "a\r\nb"),
        ("a\r\nb\rc\n", LineEnding::Lf, "a\nb\nc\n"),
        ("a\r\nb\nc", LineEnding::Cr, "a\rb\rc"),
    ] {
        let normalized = normalize_inserted_text(text, ending, 64);
        assert_eq!(normalized.text, expected, "{text:?}");
        assert_eq!(normalized.consumed_input_bytes, text.len(), "{text:?}");
        assert!(!normalized.was_limited, "{text:?}");
    }
    assert_eq!(LineEnding::CrLf.as_str(), "\r\n");
    assert_eq!(LineEnding::Cr.byte_len(), 1);
}

#[test]
fn inserted_text_keeps_whole_units_that_fit() {
    let normalized = normalize_inserted_text("\né", LineEnding::CrLf, 4);
    assert_eq!(normalized.text, "\r\né");
    assert!(!normalized.was_limited);

    let refused = normalize_inserted_text("\n", LineEnding::CrLf, 1);
    assert_eq!(refused.text, "");
    assert_eq!(refused.consumed_input_bytes, 0);
    assert!(refused.was_limited);

    let split = normalize_inserted_text("ab\r\ncd", LineEnding::CrLf, 3);
    assert_eq!(split.text, "ab");
    assert_eq!(split.consumed_input_bytes, 2);
    assert!(split.was_limited);

    let wide = normalize_inserted_text("a字", LineEnding::Lf, 3);
    assert_eq!(wide.text, "a");
    assert_eq!(wide.consumed_input_bytes, 1);
}

#[test]
fn kept_projected_payloads_write_at_most_the_budget() {
    let source = "ab\r\ncd";
    let maximum = 12;
    let mut events = vec![
        TextEvent::Payload {
            kind: PayloadKind::Paste,
            text: "1\r2\n3".to_owned(),
        },
        TextEvent::Payload {
            kind: PayloadKind::Text,
            text: "\r\n45\n6".to_owned(),
        },
        TextEvent::Payload {
            kind: PayloadKind::ImeCommit,
            text: "\r".to_owned(),
        },
    ];
    assert!(sanitize_projected_text_events(
        true,
        &mut events,
        source,
        caret(5),
        maximum,
        LineEnding::CrLf,
        false,
    ));
    let budget = maximum - source.len();
    let written: usize = events
        .iter()
        .map(|event| match event {
            TextEvent::Payload { text, .. } => {
                normalize_inserted_text(text, LineEnding::CrLf, usize::MAX).text.len()
            }
            _ => 0,
        })
        .sum();
    assert!(written <= budget);
    assert_eq!(
        events[0],
        TextEvent::Payload {
            kind: PayloadKind::Paste,
            text: "1\n2\n".to_owned(),
        }
    );
    assert_eq!(written, budget);
}

#[test]
fn profiles_count_each_ending_once_and_pick_the_most_frequent() {
    assert_eq!(LineEndingProfile::detect(""), LineEndingProfile::Empty);
    assert_eq!(LineEndingProfile::detect("no newline"), LineEndingProfile::Empty);
    assert_eq!(
        LineEndingProfile::detect("a\rb\r"),
        LineEndingProfile::Uniform {
            ending: LineEnding::Cr,
            count: 2
        }
    );
    assert_eq!(
        LineEndingProfile::detect("a\n\nb\r\n"),
        LineEndingProfile::Mixed {
            counts: LineEndingCounts {
                lf: 2,
                crlf: 1,
                cr: 0
            },
            insertion: LineEnding::Lf
        }
    );
    assert_eq!(
        LineEndingProfile::detect("a\r\nb\nc\r"),
        LineEndingProfile::Mixed {
            counts: LineEndingCounts {
                lf: 1,
                crlf: 1,
                cr: 1
            },
            insertion: LineEnding::CrLf
        }
    );
    assert_eq!(
        LineEndingProfile::detect("\r\r\n\n"),
        LineEndingProfile::Mixed {
            counts: LineEndingCounts {
                lf: 1,
                crlf: 1,
                cr: 1
            },
            insertion: LineEnding::CrLf
        }
    );
}
