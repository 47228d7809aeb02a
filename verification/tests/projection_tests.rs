use noter::edit::Selection;
use noter::projection::{
    display_selection_to_source, projection_for_source, source_selection_to_display,
    DisplayRange, ProjectedTextCache, SourceDisplayProjection,
};

#[test]
fn projection_canonicalizes_crlf_and_cr_with_exact_boundary_mapping() {
    let projection = SourceDisplayProjection::new("a\r\né\rb\n");
    assert_eq!(projection.display(), "a\né\nb\n");

    for (display_character, source_byte) in [0, 1, 3, 5, 6, 7, 8].into_iter().enumerate() {
        assert_eq!(
            projection.display_char_to_source_byte(display_character),
            Some(source_byte)
        );
        assert_eq!(
            projection.source_byte_to_display_char(source_byte),
            Some(display_character)
        );
    }
    assert_eq!(projection.source_byte_to_display_char(2), None);
    assert_eq!(projection.source_byte_to_display_char(4), None);
    assert_eq!(projection.display_char_to_source_byte(7), None);
}

#[test]
fn projection_preserves_selection_direction_and_canonicalizes_crlf_midpoints() {
    let projection = SourceDisplayProjection::new("a\r\né");
    let display = DisplayRange {
        primary: 1,
        secondary: 3,
    };
    assert_eq!(
        projection.selection_to_source(display),
        Some(Selection::new(5, 1))
    );

    let caret = projection
        .selection_to_display(Selection::caret(2))
        .expect("a CRLF midpoint caret should snap deterministically");
    assert_eq!(caret.primary, 1);
    assert_eq!(caret.secondary, 1);

    let forward = projection
        .selection_to_display(Selection::new(1, 2))
        .expect("a partial CRLF selection should expand outward");
    assert_eq!(forward.secondary, 1);
    assert_eq!(forward.primary, 2);

    let reverse = projection
        .selection_to_display(Selection::new(5, 2))
        .expect("a reverse selection should retain its direction");
    assert_eq!(reverse.secondary, 3);
    assert_eq!(reverse.primary, 1);
}

#[test]
fn crlf_midpoints_and_interior_bytes_are_not_boundaries() {
    let projection = SourceDisplayProjection::new("x\r\ny");
    assert!(projection.is_crlf_midpoint(2));
    assert!(!projection.is_crlf_midpoint(1));
    assert!(!projection.is_crlf_midpoint(3));
    assert!(!projection.is_crlf_midpoint(usize::MAX));
    assert_eq!(projection.collapsed_count_at_display_byte(0), 0);
    assert_eq!(projection.collapsed_count_at_display_byte(2), 1);
    assert_eq!(projection.source_byte_to_display_char(9), None);
    let wide = SourceDisplayProjection::new("é\r");
    assert_eq!(wide.source_byte_to_display_char(1), None);
    assert_eq!(wide.display(), "é\n");
}

#[test]
fn lf_only_text_maps_without_a_projection() {
    assert!(projection_for_source("plain\ntext").is_none());
    assert!(projection_for_source("cr\rtext").is_some());
    assert_eq!(
        display_selection_to_source("aé\nb", DisplayRange { primary: 2, secondary: 4 }),
        Some(Selection::new(5, 3))
    );
    assert_eq!(
        display_selection_to_source("aé\nb", DisplayRange { primary: 6, secondary: 0 }),
        None
    );
    let range = source_selection_to_display("aé\nb", Selection::new(5, 3))
        .expect("boundaries map");
    assert_eq!((range.primary, range.secondary), (2, 4));
    assert!(source_selection_to_display("aé\nb", Selection::new(2, 3)).is_none());
    let crlf = source_selection_to_display("a\r\nb", Selection::caret(2)).expect("snaps");
    assert_eq!((crlf.primary, crlf.secondary), (1, 1));
}

#[test]
fn a_cache_returns_the_projection_it_keeps() {
    let cache = ProjectedTextCache::new(Some(SourceDisplayProjection::new("a\r\n")));
    let projection = cache.into_projection().expect("kept");
    assert_eq!(projection.display(), "a\n");
    assert!(ProjectedTextCache::new(None).into_projection().is_none());
}
