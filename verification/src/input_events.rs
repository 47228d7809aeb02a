//! Bounding text-bearing input events against the bytes a document can
//! still accept: every pasted, typed or committed text keeps its longest
//! prefix that fits what earlier events left, and a composition draft that
//! was cut, or whose selection may have moved, drops its active range.
//! Also here: which events may move the selection or change the text.

use vstd::prelude::*;
use vstd::string::StringExecFns;

use crate::edit::Selection;
use crate::line_endings::{
    ending_chars, lemma_normalize_bounds, lemma_normalized_is_written_prefix,
    lemma_written_form_of_display, normalize_inserted_text, normalize_within, written_form,
    LineEnding,
};
use crate::projection::{
    canonical_endpoint, contains_carriage_return, display_of, display_selection_to_source,
    first_unit_len,
    endpoints_displayable, is_display_boundary, lemma_source_offset_bound, DisplayRange, lemma_display_round_trip, lemma_source_offsets_increase,
    lemma_without_carriage_return, source_offset, SourceDisplayProjection,
};
use crate::text_bounds::{
    byte_range_from_char_range, clamped_char_byte, fitting_count, is_newline_text,
    is_single_logical_newline, lemma_fitting_count, truncate_to_utf8_byte_limit,
};
use crate::utf8_text::{
    char_count_at, chars_of, is_boundary, lemma_char_count_at, lemma_prefix_is_boundary,
    prefix_bytes, str_len, str_slice, utf8_bytes,
};

verus! {

/// Which kind of text payload an event carries.
#[derive(Clone, Copy, PartialEq, Eq, Structural, Debug)]
pub enum PayloadKind {
    /// Pasted text.
    Paste,
    /// Typed text.
    Text,
    /// Text committed by an input method.
    ImeCommit,
}

/// A key the editor tells apart when deciding whether a key press may move
/// the selection or change the text; every other key is `Other`.
#[derive(Clone, Copy, PartialEq, Eq, Structural, Debug)]
pub enum EditorKey {
    ArrowDown,
    ArrowLeft,
    ArrowRight,
    ArrowUp,
    Backspace,
    Delete,
    End,
    Enter,
    Home,
    Tab,
    A,
    B,
    E,
    F,
    H,
    K,
    N,
    P,
    U,
    W,
    Y,
    Z,
    Other,
}

/// The modifier keys held during a key event.
#[derive(Clone, Copy, PartialEq, Eq, Structural, Debug)]
pub struct KeyModifiers {
    /// Alt (Option on macOS).
    pub alt: bool,
    /// Control.
    pub ctrl: bool,
    /// Shift.
    pub shift: bool,
    /// The macOS Command key.
    pub mac_cmd: bool,
    /// The platform command key: Command on macOS, Control elsewhere.
    pub command: bool,
}

impl KeyModifiers {
    /// No modifier held.
    pub open spec fn spec_none() -> Self {
        KeyModifiers { alt: false, ctrl: false, shift: false, mac_cmd: false, command: false }
    }

    /// No modifier held.
    pub fn none() -> (modifiers: Self)
        ensures
            modifiers == KeyModifiers::spec_none(),
    {
        KeyModifiers { alt: false, ctrl: false, shift: false, mac_cmd: false, command: false }
    }
}

/// One input event offered to a bounded text editor.
#[derive(PartialEq, Eq, Debug)]
pub enum TextEvent {
    /// Text that will be inserted.
    Payload {
        /// Where the text comes from.
        kind: PayloadKind,
        /// The text.
        text: String,
    },
    /// An input method's composition draft.
    ImePreedit {
        /// The draft text.
        text: String,
        /// The active character range inside the draft, if any.
        active_range_chars: Option<(usize, usize)>,
    },
    /// A key press or release.
    Key {
        /// The key.
        key: EditorKey,
        /// Whether the key went down.
        pressed: bool,
        /// The modifiers held.
        modifiers: KeyModifiers,
    },
    /// A request to cut the selection.
    Cut,
    /// An action requested through the accessibility interface.
    AccessibilityAction,
    /// The input method was switched on or off.
    ImeSwitch,
    /// The pointer moved.
    PointerMoved,
    /// A pointer button went down or up.
    PointerButton,
    /// Any other event.
    Other,
}

/// What an input event holds, as values.
pub enum EventModel {
    /// Text that will be inserted.
    Payload {
        /// Where the text comes from.
        kind: PayloadKind,
        /// The text.
        text: Seq<char>,
    },
    /// A composition draft.
    ImePreedit {
        /// The draft text.
        text: Seq<char>,
        /// The active character range inside the draft, if any.
        active_range_chars: Option<(usize, usize)>,
    },
    /// A key press or release.
    Key {
        /// The key.
        key: EditorKey,
        /// Whether the key went down.
        pressed: bool,
        /// The modifiers held.
        modifiers: KeyModifiers,
    },
    /// A request to cut the selection.
    Cut,
    /// An accessibility action.
    AccessibilityAction,
    /// The input method was switched on or off.
    ImeSwitch,
    /// The pointer moved.
    PointerMoved,
    /// A pointer button went down or up.
    PointerButton,
    /// Any other event.
    Other,
}

impl TextEvent {
    /// The values this event holds.
    pub open spec fn model(&self) -> EventModel {
        match self {
            TextEvent::Payload { kind, text } => EventModel::Payload { kind: *kind, text: text@ },
            TextEvent::ImePreedit { text, active_range_chars } => EventModel::ImePreedit {
                text: text@,
                active_range_chars: *active_range_chars,
            },
            TextEvent::Key { key, pressed, modifiers } => EventModel::Key {
                key: *key,
                pressed: *pressed,
                modifiers: *modifiers,
            },
            TextEvent::Cut => EventModel::Cut,
            TextEvent::AccessibilityAction => EventModel::AccessibilityAction,
            TextEvent::ImeSwitch => EventModel::ImeSwitch,
            TextEvent::PointerMoved => EventModel::PointerMoved,
            TextEvent::PointerButton => EventModel::PointerButton,
            TextEvent::Other => EventModel::Other,
        }
    }
}

/// Keys that move the caret, delete, or insert a line break or tab.
pub open spec fn is_editing_key(key: EditorKey) -> bool {
    match key {
        EditorKey::ArrowDown | EditorKey::ArrowLeft | EditorKey::ArrowRight | EditorKey::ArrowUp
        | EditorKey::Backspace | EditorKey::Delete | EditorKey::End | EditorKey::Enter
        | EditorKey::Home | EditorKey::Tab => true,
        _ => false,
    }
}

/// Keys that select all, undo or redo with the command modifier.
pub open spec fn is_command_editing_key(key: EditorKey) -> bool {
    key == EditorKey::A || key == EditorKey::Y || key == EditorKey::Z
}

/// Keys that move or delete with the Control modifier in Emacs-style
/// bindings.
pub open spec fn is_control_editing_key(key: EditorKey) -> bool {
    match key {
        EditorKey::A | EditorKey::B | EditorKey::E | EditorKey::F | EditorKey::H | EditorKey::K
        | EditorKey::N | EditorKey::P | EditorKey::U | EditorKey::W => true,
        _ => false,
    }
}

/// Whether an event may move the selection or change the text: a cut, an
/// accessibility action, or a pressed editing key, command-A/Y/Z, or one of
/// the Control editing keys.
pub open spec fn changes_selection_or_text(event: EventModel) -> bool {
    match event {
        EventModel::Cut | EventModel::AccessibilityAction => true,
        EventModel::Key { key, pressed, modifiers } => pressed && (is_editing_key(key) || (
        modifiers.command && is_command_editing_key(key)) || (modifiers.ctrl
            && is_control_editing_key(key))),
        _ => false,
    }
}

/// Returns whether `event` may move the selection or change the text.
pub fn event_may_change_selection_or_text(event: &TextEvent) -> (may_change: bool)
    ensures
        may_change == changes_selection_or_text(event.model()),
{
    match event {
        TextEvent::Cut | TextEvent::AccessibilityAction => true,
        TextEvent::Key { key, pressed, modifiers } => {
            let editing = match key {
                EditorKey::ArrowDown | EditorKey::ArrowLeft | EditorKey::ArrowRight
                | EditorKey::ArrowUp | EditorKey::Backspace | EditorKey::Delete | EditorKey::End
                | EditorKey::Enter | EditorKey::Home | EditorKey::Tab => true,
                _ => false,
            };
            let command_editing = *key == EditorKey::A || *key == EditorKey::Y || *key
                == EditorKey::Z;
            let control_editing = match key {
                EditorKey::A | EditorKey::B | EditorKey::E | EditorKey::F | EditorKey::H
                | EditorKey::K | EditorKey::N | EditorKey::P | EditorKey::U | EditorKey::W => true,
                _ => false,
            };
            *pressed && (editing || (modifiers.command && command_editing) || (modifiers.ctrl
                && control_editing))
        },
        _ => false,
    }
}

/// The values a sequence of events holds.
pub open spec fn models(events: Seq<TextEvent>) -> Seq<EventModel> {
    events.map_values(|event: TextEvent| event.model())
}

/// One event bounded by `remaining` bytes, with the budget left after it,
/// whether the selection may since have moved, and whether it was cut.
pub open spec fn clamp_event(event: EventModel, remaining: int, stale: bool) -> (
    EventModel,
    int,
    bool,
    bool,
) {
    match event {
        EventModel::Payload { kind, text } => {
            let kept = text.take(fitting_count(text, remaining));
            (
                EventModel::Payload { kind, text: kept },
                remaining - utf8_bytes(kept).len(),
                stale,
                utf8_bytes(text).len() > remaining,
            )
        },
        EventModel::ImePreedit { text, active_range_chars } => {
            let cut = utf8_bytes(text).len() > remaining;
            (
                EventModel::ImePreedit {
                    text: text.take(fitting_count(text, remaining)),
                    active_range_chars: if cut || stale {
                        None
                    } else {
                        active_range_chars
                    },
                },
                remaining,
                stale,
                cut,
            )
        },
        _ => (event, remaining, stale || changes_selection_or_text(event), false),
    }
}

/// Every event bounded in order, and whether any was cut.
pub open spec fn clamp_all(events: Seq<EventModel>, remaining: int, stale: bool) -> (
    Seq<EventModel>,
    bool,
)
    decreases events.len(),
{
    if events.len() == 0 {
        (Seq::empty(), false)
    } else {
        let (event, left, moved, cut) = clamp_event(events[0], remaining, stale);
        let (rest, rest_cut) = clamp_all(events.drop_first(), left, moved);
        (seq![event] + rest, cut || rest_cut)
    }
}

/// The bytes of text that the events would insert.
pub open spec fn payload_bytes(events: Seq<EventModel>) -> int
    decreases events.len(),
{
    if events.len() == 0 {
        0
    } else {
        (match events[0] {
            EventModel::Payload { text, .. } => utf8_bytes(text).len() as int,
            _ => 0,
        }) + payload_bytes(events.drop_first())
    }
}

/// Bounded events insert at most the budget they were given.
pub proof fn lemma_clamped_payload_fits(events: Seq<EventModel>, remaining: int, stale: bool)
    requires
        remaining >= 0,
    ensures
        payload_bytes(clamp_all(events, remaining, stale).0) <= remaining,
    decreases events.len(),
{
    if events.len() > 0 {
        let (event, left, moved, cut) = clamp_event(events[0], remaining, stale);
        let clamped = clamp_all(events, remaining, stale).0;
        assert(clamped.drop_first() =~= clamp_all(events.drop_first(), left, moved).0);
        match events[0] {
            EventModel::Payload { text, .. } => {
                lemma_fitting_count(text, remaining);
                crate::utf8_text::lemma_prefix_bytes_full(text.take(fitting_count(text, remaining)));
                assert(text.take(fitting_count(text, remaining)).take(
                    fitting_count(text, remaining),
                ) =~= text.take(fitting_count(text, remaining)));
            },
            _ => {},
        }
        lemma_clamped_payload_fits(events.drop_first(), left, moved);
    }
}

/// The bytes a text editor can still accept: the ceiling less what stays
/// when the selection is replaced.
pub fn text_budget(current_len: usize, selected_bytes: usize, maximum: usize) -> (budget: usize)
    ensures
        budget == if current_len <= selected_bytes {
            maximum as int
        } else if maximum <= current_len - selected_bytes {
            0
        } else {
            maximum - (current_len - selected_bytes)
        },
{
    let retained = current_len.saturating_sub(selected_bytes);
    maximum.saturating_sub(retained)
}

/// Returns a copy of `text`.
fn copy_text(text: &String) -> (copy: String)
    ensures
        copy@ == text@,
{
    text.clone()
}

/// Returns an equal event.
pub fn copy_event(event: &TextEvent) -> (copy: TextEvent)
    ensures
        copy == *event,
{
    match event {
        TextEvent::Payload { kind, text } => TextEvent::Payload { kind: *kind, text: text.clone() },
        TextEvent::ImePreedit { text, active_range_chars } => TextEvent::ImePreedit {
            text: text.clone(),
            active_range_chars: *active_range_chars,
        },
        TextEvent::Key { key, pressed, modifiers } => TextEvent::Key {
            key: *key,
            pressed: *pressed,
            modifiers: *modifiers,
        },
        TextEvent::Cut => TextEvent::Cut,
        TextEvent::AccessibilityAction => TextEvent::AccessibilityAction,
        TextEvent::ImeSwitch => TextEvent::ImeSwitch,
        TextEvent::PointerMoved => TextEvent::PointerMoved,
        TextEvent::PointerButton => TextEvent::PointerButton,
        TextEvent::Other => TextEvent::Other,
    }
}

/// Bounds each text-bearing event in order against `remaining` bytes; a
/// composition draft loses its active range when it was cut or when the
/// selection may have moved (`selection_may_be_stale`, or an earlier event
/// that may change it). Returns whether any text was cut.
pub fn clamp_text_events(
    events: &mut Vec<TextEvent>,
    remaining: usize,
    selection_may_be_stale: bool,
) -> (clamped: bool)
    ensures
        (models(final(events)@), clamped) == clamp_all(
            models(old(events)@),
            remaining as int,
            selection_may_be_stale,
        ),
{
    let ghost original = models(events@);
    let mut result: Vec<TextEvent> = Vec::new();
    let mut left = remaining;
    let mut stale = selection_may_be_stale;
    let mut clamped = false;
    let mut index: usize = 0;
    proof {
        assert(original.skip(0) =~= original);
        assert(models(result@) =~= Seq::<EventModel>::empty());
    }
    while index < events.len()
        invariant
            original == models(events@),
            index <= events@.len(),
            ({
                let (tail, tail_cut) = clamp_all(original.skip(index as int), left as int, stale);
                &&& models(result@) + tail == clamp_all(
                    original,
                    remaining as int,
                    selection_may_be_stale,
                ).0
                &&& (clamped || tail_cut) == clamp_all(
                    original,
                    remaining as int,
                    selection_may_be_stale,
                ).1
            }),
        decreases events@.len() - index,
    {
        let ghost rest = original.skip(index as int);
        proof {
            assert(rest[0] == original[index as int]);
            assert(rest.drop_first() =~= original.skip(index + 1));
            assert(original[index as int] == events@[index as int].model());
        }
        let next = match &events[index] {
            TextEvent::Payload { kind, text } => {
                let mut kept = copy_text(text);
                let cut = truncate_to_utf8_byte_limit(&mut kept, left);
                proof {
                    lemma_fitting_count(text@, left as int);
                    crate::utf8_text::lemma_prefix_bytes_full(kept@);
                    assert(kept@.take(kept@.len() as int) =~= kept@);
                }
                left = left - str_len(kept.as_str());
                clamped = clamped || cut;
                TextEvent::Payload { kind: *kind, text: kept }
            },
            TextEvent::ImePreedit { text, active_range_chars } => {
                let mut kept = copy_text(text);
                let cut = truncate_to_utf8_byte_limit(&mut kept, left);
                let range = if cut || stale {
                    None
                } else {
                    *active_range_chars
                };
                clamped = clamped || cut;
                TextEvent::ImePreedit { text: kept, active_range_chars: range }
            },
            other => {
                stale = stale || event_may_change_selection_or_text(other);
                copy_event(other)
            },
        };
        let ghost before = result@;
        result.push(next);
        proof {
            assert(models(result@) =~= models(before) + seq![next.model()]);
        }
        index = index + 1;
    }
    proof {
        assert(original.skip(index as int) =~= Seq::<EventModel>::empty());
        assert(models(result@) =~= clamp_all(original, remaining as int, selection_may_be_stale).0);
    }
    *events = result;
    clamped
}

/// Input a document editor still owes the user after a modal dialog closes:
/// a cut, any text or input-method event, or a key press.
pub open spec fn survives_modal_transition(event: EventModel) -> bool {
    match event {
        EventModel::Cut | EventModel::Payload { .. } | EventModel::ImePreedit { .. }
        | EventModel::ImeSwitch => true,
        EventModel::Key { pressed, .. } => pressed,
        _ => false,
    }
}

/// Returns whether `event` is input to keep for the document editor across
/// a modal dialog's opening or closing.
pub fn document_input_event_survives_modal_transition(event: &TextEvent) -> (survives: bool)
    ensures
        survives == survives_modal_transition(event.model()),
{
    match event {
        TextEvent::Cut | TextEvent::Payload { .. } | TextEvent::ImePreedit { .. }
        | TextEvent::ImeSwitch => true,
        TextEvent::Key { pressed, .. } => *pressed,
        _ => false,
    }
}

/// An event that carries text for the editor: pasted, typed or committed
/// text, or a composition draft.
pub open spec fn carries_text(event: EventModel) -> bool {
    event is Payload || event is ImePreedit
}

/// Whether some event carries text.
pub open spec fn has_text_payload(events: Seq<EventModel>) -> bool {
    exists|index: int| 0 <= index < events.len() && #[trigger] carries_text(events[index])
}

/// Whether pointer activity in the frame may already have moved the
/// selection: a drag (the primary button held while the pointer moves) or
/// any button press or release.
pub open spec fn pointer_may_move_selection(events: Seq<EventModel>, primary_down: bool) -> bool {
    (primary_down && exists|index: int|
        0 <= index < events.len() && #[trigger] events[index] is PointerMoved) || exists|
        index: int,
    |
        0 <= index < events.len() && #[trigger] events[index] is PointerButton
}

/// The bytes text events may still insert into `current` when the
/// selection covering characters `selection` is replaced: the ceiling less
/// the bytes outside the selection, and none below zero.
pub open spec fn selection_budget(
    current: Seq<char>,
    selection: Option<(usize, usize)>,
    maximum: int,
) -> int {
    let selected = match selection {
        Some((first, second)) => {
            let low = if first <= second {
                first as int
            } else {
                second as int
            };
            let high = if first <= second {
                second as int
            } else {
                first as int
            };
            clamped_char_byte(current, high) - clamped_char_byte(current, low)
        },
        None => 0,
    };
    let retained = utf8_bytes(current).len() - selected;
    if retained <= 0 {
        maximum
    } else if maximum <= retained {
        0
    } else {
        maximum - retained
    }
}

/// Returns whether some event carries text.
fn any_text_payload(events: &Vec<TextEvent>) -> (found: bool)
    ensures
        found == has_text_payload(models(events@)),
{
    let mut index: usize = 0;
    while index < events.len()
        invariant
            index <= events@.len(),
            forall|i: int| 0 <= i < index ==> !carries_text(#[trigger] models(events@)[i]),
        decreases events@.len() - index,
    {
        let carries = match &events[index] {
            TextEvent::Payload { .. } | TextEvent::ImePreedit { .. } => true,
            _ => false,
        };
        proof {
            assert(models(events@)[index as int] == events@[index as int].model());
        }
        if carries {
            proof {
                assert(carries_text(models(events@)[index as int]));
            }
            return true;
        }
        index = index + 1;
    }
    false
}

/// Returns whether pointer activity may have moved the selection.
fn pointer_activity(events: &Vec<TextEvent>, primary_down: bool) -> (may_move: bool)
    ensures
        may_move == pointer_may_move_selection(models(events@), primary_down),
{
    let mut moved = false;
    let mut button = false;
    let mut index: usize = 0;
    while index < events.len()
        invariant
            index <= events@.len(),
            moved == exists|i: int| 0 <= i < index && #[trigger] models(events@)[i] is PointerMoved,
            button == exists|i: int|
                0 <= i < index && #[trigger] models(events@)[i] is PointerButton,
        decreases events@.len() - index,
    {
        proof {
            assert(models(events@)[index as int] == events@[index as int].model());
        }
        match &events[index] {
            TextEvent::PointerMoved => {
                moved = true;
            },
            TextEvent::PointerButton => {
                button = true;
            },
            _ => {},
        }
        index = index + 1;
    }
    (primary_down && moved) || button
}

/// Bounds the text-bearing events offered to a focused editor holding
/// `current`, whose selection covers characters `selection` (in either
/// order; none for a caret-less editor), so that they insert at most
/// `maximum` bytes in all once the selection is replaced. Nothing changes
/// for an unfocused editor or a frame without text. A composition draft
/// keeps its active range only when it was not cut and neither pointer
/// activity (`primary_down` tells whether the primary button is held) nor
/// an earlier event may have moved the selection. Returns whether any text
/// was cut.
pub fn sanitize_bounded_text_events(
    has_focus: bool,
    events: &mut Vec<TextEvent>,
    current: &str,
    selection: Option<(usize, usize)>,
    maximum: usize,
    primary_down: bool,
) -> (clamped: bool)
    ensures
        !has_focus || !has_text_payload(models(old(events)@)) ==> !clamped && final(events)@
            == old(events)@,
        has_focus && has_text_payload(models(old(events)@)) ==> (models(final(events)@), clamped)
            == clamp_all(
            models(old(events)@),
            selection_budget(current@, selection, maximum as int),
            pointer_may_move_selection(models(old(events)@), primary_down),
        ),
{
    if !has_focus {
        return false;
    }
    if !any_text_payload(events) {
        return false;
    }
    let selected_bytes = match selection {
        Some((first, second)) => {
            let (start, end) = byte_range_from_char_range(current, first, second);
            proof {
                crate::utf8_text::lemma_prefix_bytes_full(current@);
                let low = if first <= second {
                    first as int
                } else {
                    second as int
                };
                let high = if first <= second {
                    second as int
                } else {
                    first as int
                };
                let l = if low < current@.len() { low } else { current@.len() as int };
                let h = if high < current@.len() { high } else { current@.len() as int };
                crate::utf8_text::lemma_prefix_bytes_monotone(current@, l, h);
            }
            end - start
        },
        None => 0,
    };
    let length = str_len(current);
    let budget = text_budget(length, selected_bytes, maximum);
    let stale = pointer_activity(events, primary_down);
    clamp_text_events(events, budget, stale)
}

/// The text a projected editor keeps of a payload whose first
/// `accepted_bytes` bytes were accepted: that prefix in canonical display
/// form, each CRLF or lone CR shown as one LF.
pub open spec fn canonical_payload(text: Seq<char>, accepted_bytes: int) -> Seq<char> {
    display_of(text.take(char_count_at(text, accepted_bytes)))
}

/// Replaces a payload with the canonical display of its accepted prefix,
/// which ends at scalar boundary `accepted_bytes`.
pub fn canonicalize_projected_payload(text: &mut String, accepted_bytes: usize)
    requires
        is_boundary(old(text)@, accepted_bytes as int),
    ensures
        final(text)@ == canonical_payload(old(text)@, accepted_bytes as int),
{
    let ghost original = text@;
    proof {
        lemma_prefix_is_boundary(original, 0);
        lemma_char_count_at(original, 0);
        lemma_char_count_at(original, accepted_bytes as int);
        assert(prefix_bytes(original, 0) == 0);
        assert(original.subrange(0, char_count_at(original, accepted_bytes as int)) =~= original.take(
            char_count_at(original, accepted_bytes as int),
        ));
    }
    let accepted = str_slice(text.as_str(), 0, accepted_bytes).to_owned();
    if contains_carriage_return(accepted.as_str()) {
        let canonical = SourceDisplayProjection::new(accepted.as_str());
        *text = canonical.display().to_owned();
    } else {
        proof {
            lemma_without_carriage_return(accepted@, 0);
        }
        *text = accepted;
    }
}

/// Display cursors `low..high` show the two canonical endpoints of
/// `selection` in `chars`, the earlier one at `low`.
pub open spec fn shows_endpoints(chars: Seq<char>, selection: Selection, low: int, high: int) -> bool {
    match (
        canonical_endpoint(chars, selection, selection.spec_anchor() as int),
        canonical_endpoint(chars, selection, selection.spec_active() as int),
    ) {
        (Some(anchor), Some(active)) => {
            &&& 0 <= low <= high <= display_of(chars).len()
            &&& ((source_offset(chars, low) == anchor && source_offset(chars, high) == active) || (
            source_offset(chars, low) == active && source_offset(chars, high) == anchor))
        },
        _ => false,
    }
}

/// Display cursors showing the two endpoints of a selection are unique.
pub proof fn lemma_shown_endpoints_unique(
    chars: Seq<char>,
    selection: Selection,
    low: int,
    high: int,
    other_low: int,
    other_high: int,
)
    requires
        shows_endpoints(chars, selection, low, high),
        shows_endpoints(chars, selection, other_low, other_high),
    ensures
        low == other_low,
        high == other_high,
{
    if low < high {
        lemma_source_offsets_increase(chars, low, high);
    }
    if other_low < other_high {
        lemma_source_offsets_increase(chars, other_low, other_high);
    }
    if source_offset(chars, low) == source_offset(chars, other_low) {
        lemma_display_round_trip(chars, low, other_low);
    }
    if source_offset(chars, high) == source_offset(chars, other_high) {
        lemma_display_round_trip(chars, high, other_high);
    }
    if source_offset(chars, low) == source_offset(chars, other_high) {
        lemma_display_round_trip(chars, low, other_high);
    }
    if source_offset(chars, high) == source_offset(chars, other_low) {
        lemma_display_round_trip(chars, high, other_low);
    }
}

/// The display characters of a composition draft's canonical form that
/// show its active characters `start..end`: none for a reversed range or
/// one past the end; the range itself for a draft without CR; otherwise
/// the display cursors that show the range's source bytes, widened over
/// any CRLF it splits, when both ends can be shown.
pub open spec fn payload_range_projection(payload: Seq<char>, start: usize, end: usize) -> Option<
    (usize, usize),
> {
    if start > end || end > payload.len() {
        None
    } else if !payload.contains('\r') {
        Some((start, end))
    } else {
        let selection = Selection::spec_new(
            prefix_bytes(payload, start as int) as usize,
            prefix_bytes(payload, end as int) as usize,
        );
        if endpoints_displayable(payload, selection) {
            Some(
                choose|pair: (usize, usize)|
                    shows_endpoints(payload, selection, pair.0 as int, pair.1 as int),
            )
        } else {
            None
        }
    }
}

/// Maps an active character range of a composition draft to the draft's
/// canonical display: `None` for a reversed range or one past the end; the
/// range itself for a draft without CR; otherwise the display characters
/// that show the range's source bytes, widened over any CRLF it splits.
pub fn project_payload_character_range(
    payload: &str,
    start: usize,
    end: usize,
) -> (projected: Option<(usize, usize)>)
    ensures
        start > end || end > payload@.len() ==> projected is None,
        start <= end <= payload@.len() && !payload@.contains('\r') ==> projected == Some(
            (start, end),
        ),
        start <= end <= payload@.len() && payload@.contains('\r') ==> {
            let selection = Selection::spec_new(
                prefix_bytes(payload@, start as int) as usize,
                prefix_bytes(payload@, end as int) as usize,
            );
            match projected {
                Some((low, high)) => shows_endpoints(payload@, selection, low as int, high as int),
                None => !endpoints_displayable(payload@, selection),
            }
        },
        projected == payload_range_projection(payload@, start, end),
{
    let projected = project_payload_range(payload, start, end);
    proof {
        if start <= end && end <= payload@.len() && payload@.contains('\r') {
            let selection = Selection::spec_new(
                prefix_bytes(payload@, start as int) as usize,
                prefix_bytes(payload@, end as int) as usize,
            );
            if let Some((low, high)) = projected {
                let anchor = canonical_endpoint(payload@, selection, selection.spec_anchor() as int);
                let active = canonical_endpoint(payload@, selection, selection.spec_active() as int);
                if source_offset(payload@, low as int) == anchor->0 as int {
                    assert(is_display_boundary(payload@, anchor->0 as int));
                    assert(is_display_boundary(payload@, active->0 as int));
                } else {
                    assert(is_display_boundary(payload@, anchor->0 as int));
                    assert(is_display_boundary(payload@, active->0 as int));
                }
                assert(endpoints_displayable(payload@, selection));
                let pair = choose|pair: (usize, usize)|
                    shows_endpoints(payload@, selection, pair.0 as int, pair.1 as int);
                assert(shows_endpoints(payload@, selection, low as int, high as int));
                lemma_shown_endpoints_unique(
                    payload@,
                    selection,
                    low as int,
                    high as int,
                    pair.0 as int,
                    pair.1 as int,
                );
            }
        }
    }
    projected
}

fn project_payload_range(payload: &str, start: usize, end: usize) -> (projected: Option<
    (usize, usize),
>)
    ensures
        start > end || end > payload@.len() ==> projected is None,
        start <= end <= payload@.len() && !payload@.contains('\r') ==> projected == Some(
            (start, end),
        ),
        start <= end <= payload@.len() && payload@.contains('\r') ==> {
            let selection = Selection::spec_new(
                prefix_bytes(payload@, start as int) as usize,
                prefix_bytes(payload@, end as int) as usize,
            );
            match projected {
                Some((low, high)) => shows_endpoints(payload@, selection, low as int, high as int),
                None => !endpoints_displayable(payload@, selection),
            }
        },
{
    if start > end {
        return None;
    }
    let count = chars_of(payload).len();
    if end > count {
        return None;
    }
    if !contains_carriage_return(payload) {
        return Some((start, end));
    }
    let (first, second) = byte_range_from_char_range(payload, start, end);
    let selection = Selection::new(first, second);
    let projection = SourceDisplayProjection::new(payload);
    match projection.selection_to_display(selection) {
        Some(range) => {
            if range.secondary <= range.primary {
                Some((range.secondary, range.primary))
            } else {
                Some((range.primary, range.secondary))
            }
        },
        None => None,
    }
}

/// The text a projected editor receives for a payload whose first
/// `consumed` characters were accepted and written as `written`: for a
/// committed newline alone, a CRLF that stands for the one accepted newline
/// (nothing when it was refused); otherwise the canonical display of the
/// accepted prefix.
pub open spec fn projected_payload_text(
    kind: PayloadKind,
    text: Seq<char>,
    written: Seq<char>,
    consumed: int,
) -> Seq<char> {
    if kind == PayloadKind::ImeCommit && is_newline_text(text) {
        if written.len() == 0 {
            Seq::empty()
        } else {
            seq!['\r', '\n']
        }
    } else {
        display_of(text.take(consumed))
    }
}

/// One event offered to a projected editor, bounded by `remaining` source
/// bytes with its newlines written as `ending`: the event, the budget left
/// after it, whether the selection may since have moved, and whether its
/// text was cut. A composition draft uses no budget; its active range moves
/// to the canonical display, or goes when the draft was cut or the
/// selection may have moved.
pub open spec fn clamp_projected_event(
    event: EventModel,
    remaining: int,
    ending: LineEnding,
    stale: bool,
) -> (EventModel, int, bool, bool) {
    match event {
        EventModel::Payload { kind, text } => {
            let (written, consumed) = normalize_within(text, ending, remaining);
            (
                EventModel::Payload {
                    kind,
                    text: projected_payload_text(kind, text, written, consumed),
                },
                remaining - utf8_bytes(written).len(),
                stale,
                consumed < text.len(),
            )
        },
        EventModel::ImePreedit { text, active_range_chars } => {
            let (written, consumed) = normalize_within(text, ending, remaining);
            let limited = consumed < text.len();
            (
                EventModel::ImePreedit {
                    text: display_of(text.take(consumed)),
                    active_range_chars: if limited || stale {
                        None
                    } else {
                        match active_range_chars {
                            Some((start, end)) => payload_range_projection(
                                text.take(consumed),
                                start,
                                end,
                            ),
                            None => None,
                        }
                    },
                },
                remaining,
                stale,
                limited,
            )
        },
        _ => (event, remaining, stale || changes_selection_or_text(event), false),
    }
}

/// Every event bounded in order for a projected editor, and whether any was
/// cut.
pub open spec fn clamp_projected_all(
    events: Seq<EventModel>,
    remaining: int,
    ending: LineEnding,
    stale: bool,
) -> (Seq<EventModel>, bool)
    decreases events.len(),
{
    if events.len() == 0 {
        (Seq::empty(), false)
    } else {
        let (event, left, moved, cut) = clamp_projected_event(events[0], remaining, ending, stale);
        let (rest, rest_cut) = clamp_projected_all(events.drop_first(), left, ending, moved);
        (seq![event] + rest, cut || rest_cut)
    }
}

/// The source bytes the payloads of `events` write, each newline written
/// as `ending`.
pub open spec fn projected_payload_bytes(events: Seq<EventModel>, ending: LineEnding) -> int
    decreases events.len(),
{
    if events.len() == 0 {
        0
    } else {
        (match events[0] {
            EventModel::Payload { text, .. } => utf8_bytes(written_form(text, ending)).len() as int,
            _ => 0,
        }) + projected_payload_bytes(events.drop_first(), ending)
    }
}

/// Bounded projected events write at most the source bytes they were given,
/// with each newline in the insertion convention.
pub proof fn lemma_projected_payload_fits(
    events: Seq<EventModel>,
    remaining: int,
    ending: LineEnding,
    stale: bool,
)
    requires
        remaining >= 0,
    ensures
        projected_payload_bytes(clamp_projected_all(events, remaining, ending, stale).0, ending)
            <= remaining,
    decreases events.len(),
{
    if events.len() > 0 {
        let (event, left, moved, cut) = clamp_projected_event(events[0], remaining, ending, stale);
        let clamped = clamp_projected_all(events, remaining, ending, stale).0;
        assert(clamped.drop_first() =~= clamp_projected_all(
            events.drop_first(),
            left,
            ending,
            moved,
        ).0);
        match events[0] {
            EventModel::Payload { kind, text } => {
                let (written, consumed) = normalize_within(text, ending, remaining);
                lemma_normalize_bounds(text, ending, remaining);
                lemma_normalized_is_written_prefix(text, ending, remaining);
                lemma_written_form_of_display(text.take(consumed), ending);
                if kind == PayloadKind::ImeCommit && is_newline_text(text) {
                    let pair = seq!['\r', '\n'];
                    assert(first_unit_len(pair) == 2);
                    assert(pair.skip(2) =~= Seq::<char>::empty());
                    assert(written_form(pair.skip(2), ending) =~= Seq::<char>::empty());
                    assert(written_form(pair, ending) =~= ending_chars(ending));
                    if text.len() == 2 {
                        assert(first_unit_len(text) == 2);
                    } else {
                        assert(text.len() == 1);
                        assert(first_unit_len(text) == 1);
                    }
                    assert(text.skip(first_unit_len(text)) =~= Seq::<char>::empty());
                    let width = utf8_bytes(ending_chars(ending)).len() as int;
                    assert(crate::line_endings::unit_output(text, ending) == ending_chars(ending));
                    assert(normalize_within(
                        text.skip(first_unit_len(text)),
                        ending,
                        remaining - width,
                    ).0 =~= Seq::<char>::empty());
                    if written.len() != 0 {
                        assert(written =~= ending_chars(ending));
                    }
                }
            },
            _ => {},
        }
        lemma_projected_payload_fits(events.drop_first(), left, ending, moved);
    }
}

/// The source bytes text events may still insert into `source` when the
/// display selection `selection` (none, or one that does not fit the
/// display, stands for a caret at the end) is replaced: the ceiling less the
/// source bytes outside the selection, and none below zero.
pub open spec fn projected_budget(
    source: Seq<char>,
    selection: Option<DisplayRange>,
    maximum: int,
) -> int {
    let length = utf8_bytes(source).len() as int;
    let selected = match selection {
        Some(range) => if range.secondary <= display_of(source).len() && range.primary
            <= display_of(source).len() {
            let anchor = source_offset(source, range.secondary as int);
            let active = source_offset(source, range.primary as int);
            if anchor <= active {
                active - anchor
            } else {
                anchor - active
            }
        } else {
            0
        },
        None => 0,
    };
    let retained = length - selected;
    if retained <= 0 {
        maximum
    } else if maximum <= retained {
        0
    } else {
        maximum - retained
    }
}

/// Bounds one payload for a projected editor; returns the event, the
/// written bytes, and whether it was cut.
fn clamp_projected_payload(
    kind: PayloadKind,
    text: &String,
    ending: LineEnding,
    left: usize,
) -> (result: (TextEvent, usize, bool))
    ensures
        ({
            let (written, consumed) = normalize_within(text@, ending, left as int);
            &&& result.0 == TextEvent::Payload {
                kind,
                text: result.0->Payload_text,
            }
            &&& result.0->Payload_text@ == projected_payload_text(kind, text@, written, consumed)
            &&& result.1 == utf8_bytes(written).len()
            &&& result.1 <= left
            &&& result.2 == (consumed < text@.len())
        }),
{
    let normalized = normalize_inserted_text(text.as_str(), ending, left);
    let ghost consumed = normalize_within(text@, ending, left as int).1;
    let newline_only = match kind {
        PayloadKind::ImeCommit => is_single_logical_newline(text.as_str()),
        _ => false,
    };
    let mut kept = copy_text(text);
    if newline_only {
        kept = String::new();
        if !normalized.text.as_str().is_empty() {
            proof {
                reveal_strlit("\r\n");
            }
            kept.append("\r\n");
        }
        proof {
            assert(kept@ =~= projected_payload_text(
                kind,
                text@,
                normalized.text@,
                consumed,
            ));
        }
    } else {
        proof {
            lemma_prefix_is_boundary(text@, consumed);
            lemma_char_count_at(text@, prefix_bytes(text@, consumed) as int);
            crate::utf8_text::lemma_prefix_bytes_unique(
                text@,
                consumed,
                char_count_at(text@, prefix_bytes(text@, consumed) as int),
            );
        }
        canonicalize_projected_payload(&mut kept, normalized.consumed_input_bytes);
    }
    let written = str_len(normalized.text.as_str());
    (TextEvent::Payload { kind, text: kept }, written, normalized.was_limited)
}

/// Bounds one composition draft for a projected editor; returns the event
/// and whether it was cut.
fn clamp_projected_preedit(
    text: &String,
    active_range_chars: Option<(usize, usize)>,
    ending: LineEnding,
    left: usize,
    stale: bool,
) -> (result: (TextEvent, bool))
    ensures
        result.0.model() == clamp_projected_event(
            EventModel::ImePreedit { text: text@, active_range_chars },
            left as int,
            ending,
            stale,
        ).0,
        result.1 == clamp_projected_event(
            EventModel::ImePreedit { text: text@, active_range_chars },
            left as int,
            ending,
            stale,
        ).3,
{
    let normalized = normalize_inserted_text(text.as_str(), ending, left);
    let ghost consumed = normalize_within(text@, ending, left as int).1;
    proof {
        lemma_prefix_is_boundary(text@, consumed);
        lemma_prefix_is_boundary(text@, 0);
        lemma_char_count_at(text@, prefix_bytes(text@, consumed) as int);
        lemma_char_count_at(text@, 0);
        assert(prefix_bytes(text@, 0) == 0);
        crate::utf8_text::lemma_prefix_bytes_unique(
            text@,
            consumed,
            char_count_at(text@, prefix_bytes(text@, consumed) as int),
        );
        crate::utf8_text::lemma_prefix_bytes_unique(text@, 0, char_count_at(text@, 0));
        assert(text@.subrange(0, consumed) =~= text@.take(consumed));
    }
    let accepted = str_slice(text.as_str(), 0, normalized.consumed_input_bytes);
    let projected = match active_range_chars {
        Some((start, end)) => project_payload_character_range(accepted, start, end),
        None => None,
    };
    let mut kept = copy_text(text);
    canonicalize_projected_payload(&mut kept, normalized.consumed_input_bytes);
    let range = if normalized.was_limited || stale {
        None
    } else {
        projected
    };
    (TextEvent::ImePreedit { text: kept, active_range_chars: range }, normalized.was_limited)
}

/// Bounds each text-bearing event for a projected editor in order against
/// `remaining` source bytes, writing newlines as `ending`. Returns whether
/// any text was cut.
#[verifier::rlimit(30)]
pub fn clamp_projected_text_events(
    events: &mut Vec<TextEvent>,
    remaining: usize,
    ending: LineEnding,
    selection_may_be_stale: bool,
) -> (clamped: bool)
    ensures
        (models(final(events)@), clamped) == clamp_projected_all(
            models(old(events)@),
            remaining as int,
            ending,
            selection_may_be_stale,
        ),
{
    let ghost original = models(events@);
    let mut result: Vec<TextEvent> = Vec::new();
    let mut left = remaining;
    let mut stale = selection_may_be_stale;
    let mut clamped = false;
    let mut index: usize = 0;
    proof {
        assert(original.skip(0) =~= original);
        assert(models(result@) =~= Seq::<EventModel>::empty());
    }
    while index < events.len()
        invariant
            original == models(events@),
            index <= events@.len(),
            ({
                let (tail, tail_cut) = clamp_projected_all(
                    original.skip(index as int),
                    left as int,
                    ending,
                    stale,
                );
                &&& models(result@) + tail == clamp_projected_all(
                    original,
                    remaining as int,
                    ending,
                    selection_may_be_stale,
                ).0
                &&& (clamped || tail_cut) == clamp_projected_all(
                    original,
                    remaining as int,
                    ending,
                    selection_may_be_stale,
                ).1
            }),
        decreases events@.len() - index,
    {
        let ghost rest = original.skip(index as int);
        proof {
            assert(rest[0] == original[index as int]);
            assert(rest.drop_first() =~= original.skip(index + 1));
            assert(original[index as int] == events@[index as int].model());
        }
        let next = match &events[index] {
            TextEvent::Payload { kind, text } => {
                let (event, written, cut) = clamp_projected_payload(*kind, text, ending, left);
                left = left - written;
                clamped = clamped || cut;
                event
            },
            TextEvent::ImePreedit { text, active_range_chars } => {
                let (event, cut) = clamp_projected_preedit(
                    text,
                    *active_range_chars,
                    ending,
                    left,
                    stale,
                );
                clamped = clamped || cut;
                event
            },
            other => {
                stale = stale || event_may_change_selection_or_text(other);
                copy_event(other)
            },
        };
        let ghost before = result@;
        result.push(next);
        proof {
            assert(models(result@) =~= models(before) + seq![next.model()]);
        }
        index = index + 1;
    }
    proof {
        assert(original.skip(index as int) =~= Seq::<EventModel>::empty());
        assert(models(result@) =~= clamp_projected_all(
            original,
            remaining as int,
            ending,
            selection_may_be_stale,
        ).0);
    }
    *events = result;
    clamped
}

/// Bounds the text-bearing events offered to a focused projected editor
/// over exact source text `current_source`, whose display selection is
/// `selection`, so that they insert at most `maximum` source bytes in all
/// once the selection is replaced. Newlines are measured as `insertion`
/// writes them at the selection's start. Nothing changes for an unfocused
/// editor or a frame without text. Pasted and typed text keeps the canonical
/// display of its accepted prefix; a committed newline alone becomes a CRLF
/// standing for one newline, or nothing when it does not fit; a
/// composition draft's active range moves to its canonical display, and
/// goes when the draft was cut or pointer activity (`primary_down` tells
/// whether the primary button is held) or an earlier event may have moved
/// the selection. Returns whether any text was cut.
pub fn sanitize_projected_text_events(
    has_focus: bool,
    events: &mut Vec<TextEvent>,
    current_source: &str,
    selection: Option<DisplayRange>,
    maximum: usize,
    insertion: LineEnding,
    primary_down: bool,
) -> (clamped: bool)
    ensures
        !has_focus || !has_text_payload(models(old(events)@)) ==> !clamped && final(events)@
            == old(events)@,
        has_focus && has_text_payload(models(old(events)@)) ==> (models(final(events)@), clamped)
            == clamp_projected_all(
            models(old(events)@),
            projected_budget(current_source@, selection, maximum as int),
            insertion,
            pointer_may_move_selection(models(old(events)@), primary_down),
        ),
{
    if !has_focus {
        return false;
    }
    if !any_text_payload(events) {
        return false;
    }
    let source_selection = match selection {
        Some(range) => display_selection_to_source(current_source, range),
        None => None,
    };
    let selected_bytes = match source_selection {
        Some(chosen) => {
            proof {
                chosen.lemma_endpoints();
                let range = selection->0;
                lemma_source_offset_bound(current_source@, range.secondary as int);
                lemma_source_offset_bound(current_source@, range.primary as int);
            }
            let anchor = chosen.anchor();
            let active = chosen.active();
            if anchor <= active {
                active - anchor
            } else {
                anchor - active
            }
        },
        None => 0,
    };
    let length = str_len(current_source);
    let budget = text_budget(length, selected_bytes, maximum);
    let stale = pointer_activity(events, primary_down);
    clamp_projected_text_events(events, budget, insertion, stale)
}

} // verus!
