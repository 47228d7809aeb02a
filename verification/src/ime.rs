//! The input-method lifecycle of a focused editor within one frame: whether
//! a composition is still running, was committed or was cancelled; where a
//! completed composition ends so that later input waits for the next frame;
//! and how a Commit that belongs to an active composition is set apart.

use vstd::prelude::*;

use crate::input_events::{
    models, EditorKey, EventModel, KeyModifiers, PayloadKind, TextEvent,
};
use crate::text_bounds::{is_newline_text, is_single_logical_newline};
use crate::utf8_text::chars_of;

verus! {

/// What the focused editor's input-method events amount to in one frame.
#[derive(Clone, Copy, PartialEq, Eq, Structural, Debug)]
pub enum ImeFrameState {
    /// No composition was running or ended.
    Inactive,
    /// A composition is still running.
    Composing,
    /// A composition ended with committed text.
    Committed,
    /// A composition ended without text.
    Cancelled,
}

/// A draft that is exactly one LF or one CR; such drafts leave the
/// composition lifecycle alone.
pub open spec fn is_line_break_draft(text: Seq<char>) -> bool {
    text == seq!['\n'] || text == seq!['\r']
}

/// An Enter press with no modifier held.
pub open spec fn is_plain_enter(event: EventModel) -> bool {
    match event {
        EventModel::Key { key, pressed, modifiers } => key == EditorKey::Enter && pressed
            && modifiers == KeyModifiers::spec_none(),
        _ => false,
    }
}

/// An input-method Commit of exactly one logical newline.
pub open spec fn is_newline_commit(event: EventModel) -> bool {
    match event {
        EventModel::Payload { kind, text } => kind == PayloadKind::ImeCommit && is_newline_text(
            text,
        ),
        _ => false,
    }
}

/// An input-method Commit with text.
pub open spec fn is_nonempty_commit(event: EventModel) -> bool {
    match event {
        EventModel::Payload { kind, text } => kind == PayloadKind::ImeCommit && text.len() > 0,
        _ => false,
    }
}

/// Whether some event is a plain Enter press.
pub open spec fn has_plain_enter(events: Seq<EventModel>) -> bool {
    exists|index: int| 0 <= index < events.len() && #[trigger] is_plain_enter(events[index])
}

/// Whether some event is a Commit with text.
pub open spec fn has_nonempty_commit(events: Seq<EventModel>) -> bool {
    exists|index: int| 0 <= index < events.len() && #[trigger] is_nonempty_commit(events[index])
}

/// `position` is the first Commit with text.
pub open spec fn is_first_nonempty_commit(events: Seq<EventModel>, position: int) -> bool {
    &&& 0 <= position < events.len()
    &&& is_nonempty_commit(events[position])
    &&& forall|index: int| 0 <= index < position ==> !#[trigger] is_nonempty_commit(events[index])
}

/// One event's effect on whether a composition runs and on how the frame
/// last ended one. A nonempty draft starts or continues a composition; an
/// empty draft cancels a running one; a Commit with text commits; an empty
/// Commit ends a running composition, as a commit when the frame also holds
/// a plain Enter and as a cancellation otherwise.
pub open spec fn ime_step(event: EventModel, enter_pressed: bool, state: (bool, ImeFrameState)) -> (
    bool,
    ImeFrameState,
) {
    let (composing, terminal) = state;
    match event {
        EventModel::ImePreedit { text, .. } => if is_line_break_draft(text) {
            state
        } else if text.len() == 0 {
            if composing {
                (false, ImeFrameState::Cancelled)
            } else {
                state
            }
        } else {
            (true, ImeFrameState::Composing)
        },
        EventModel::Payload { kind, text } => if kind != PayloadKind::ImeCommit {
            state
        } else if text.len() == 0 {
            if composing {
                (
                    false,
                    if enter_pressed {
                        ImeFrameState::Committed
                    } else {
                        ImeFrameState::Cancelled
                    },
                )
            } else {
                state
            }
        } else {
            (false, ImeFrameState::Committed)
        },
        _ => state,
    }
}

/// The lifecycle state after the first `count` events.
pub open spec fn ime_scan(
    events: Seq<EventModel>,
    count: int,
    enter_pressed: bool,
    composition_was_active: bool,
) -> (bool, ImeFrameState)
    decreases count,
{
    if count <= 0 {
        (composition_was_active, ImeFrameState::Inactive)
    } else {
        ime_step(
            events[count - 1],
            enter_pressed,
            ime_scan(events, count - 1, enter_pressed, composition_was_active),
        )
    }
}

/// What the frame's events amount to for an editor that may hold focus: an
/// unfocused editor cancels a running composition; a focused one composes
/// when a composition still runs after the last event, and otherwise reports
/// how the frame last ended one.
pub open spec fn frame_state(
    has_focus: bool,
    composition_was_active: bool,
    events: Seq<EventModel>,
) -> ImeFrameState {
    if !has_focus {
        if composition_was_active {
            ImeFrameState::Cancelled
        } else {
            ImeFrameState::Inactive
        }
    } else {
        let (composing, terminal) = ime_scan(
            events,
            events.len() as int,
            has_plain_enter(events),
            composition_was_active,
        );
        if composing {
            ImeFrameState::Composing
        } else {
            terminal
        }
    }
}

/// Returns whether `text` is exactly one LF or one CR.
fn is_line_break_text(text: &String) -> (line_break: bool)
    ensures
        line_break == is_line_break_draft(text@),
{
    let chars = chars_of(text.as_str());
    let line_break = chars.len() == 1 && (chars[0] == '\n' || chars[0] == '\r');
    proof {
        if chars@.len() == 1 {
            assert(chars@ =~= seq![chars@[0]]);
        }
    }
    line_break
}

/// Returns whether `event` is an Enter press with no modifier.
fn is_plain_enter_press(event: &TextEvent) -> (plain: bool)
    ensures
        plain == is_plain_enter(event.model()),
{
    match event {
        TextEvent::Key { key, pressed, modifiers } => *key == EditorKey::Enter && *pressed
            && *modifiers == KeyModifiers::none(),
        _ => false,
    }
}

/// Returns whether some event is a plain Enter press.
fn any_plain_enter(events: &Vec<TextEvent>) -> (found: bool)
    ensures
        found == has_plain_enter(models(events@)),
{
    let mut index: usize = 0;
    while index < events.len()
        invariant
            index <= events@.len(),
            forall|i: int| 0 <= i < index ==> !is_plain_enter(#[trigger] models(events@)[i]),
        decreases events@.len() - index,
    {
        if is_plain_enter_press(&events[index]) {
            proof {
                assert(is_plain_enter(models(events@)[index as int]));
            }
            return true;
        }
        index = index + 1;
    }
    false
}

/// Decides what the focused editor's input-method events amount to in this
/// frame. Without focus, a running composition is cancelled. With focus,
/// each draft or Commit moves the lifecycle as `ime_step` describes; an
/// empty Commit that ends a composition counts as committed when the frame
/// also holds a plain Enter press.
pub fn focused_ime_frame_state(
    has_focus: bool,
    composition_was_active: bool,
    events: &Vec<TextEvent>,
) -> (state: ImeFrameState)
    ensures
        state == frame_state(has_focus, composition_was_active, models(events@)),
{
    if !has_focus {
        return if composition_was_active {
            ImeFrameState::Cancelled
        } else {
            ImeFrameState::Inactive
        };
    }
    let ghost all = models(events@);
    let enter_pressed = any_plain_enter(events);
    let mut composing = composition_was_active;
    let mut terminal = ImeFrameState::Inactive;
    let mut index: usize = 0;
    while index < events.len()
        invariant
            all == models(events@),
            index <= events@.len(),
            enter_pressed == has_plain_enter(all),
            (composing, terminal) == ime_scan(
                all,
                index as int,
                enter_pressed,
                composition_was_active,
            ),
        decreases events@.len() - index,
    {
        proof {
            assert(all[index as int] == events@[index as int].model());
        }
        match &events[index] {
            TextEvent::ImePreedit { text, .. } => {
                if !is_line_break_text(text) {
                    if text.as_str().is_empty() {
                        if composing {
                            composing = false;
                            terminal = ImeFrameState::Cancelled;
                        }
                    } else {
                        composing = true;
                        terminal = ImeFrameState::Composing;
                    }
                }
            },
            TextEvent::Payload { kind, text } => {
                if *kind == PayloadKind::ImeCommit {
                    if text.as_str().is_empty() {
                        if composing {
                            composing = false;
                            terminal = if enter_pressed {
                                ImeFrameState::Committed
                            } else {
                                ImeFrameState::Cancelled
                            };
                        }
                    } else {
                        composing = false;
                        terminal = ImeFrameState::Committed;
                    }
                }
            },
            _ => {},
        }
        index = index + 1;
    }
    if composing {
        ImeFrameState::Composing
    } else {
        terminal
    }
}

/// The Commit left after an Enter press consumed its newline.
pub open spec fn cleared_commit() -> EventModel {
    EventModel::Payload { kind: PayloadKind::ImeCommit, text: Seq::empty() }
}

/// Pairs the event at `enter`, when it is a plain Enter press, with an
/// adjacent newline Commit, the one before it first, and empties that
/// Commit.
pub open spec fn pair_enter_at(events: Seq<EventModel>, enter: int) -> Seq<EventModel> {
    if !is_plain_enter(events[enter]) {
        events
    } else if enter >= 1 && is_newline_commit(events[enter - 1]) {
        events.update(enter - 1, cleared_commit())
    } else if enter + 1 < events.len() && is_newline_commit(events[enter + 1]) {
        events.update(enter + 1, cleared_commit())
    } else {
        events
    }
}

/// The events after pairing the first `count` positions in order.
pub open spec fn pair_enters(events: Seq<EventModel>, count: int) -> Seq<EventModel>
    decreases count,
{
    if count <= 0 {
        events
    } else {
        pair_enter_at(pair_enters(events, count - 1), count - 1)
    }
}

/// Pairing keeps the number of events.
pub proof fn lemma_pair_enters_len(events: Seq<EventModel>, count: int)
    requires
        count <= events.len(),
    ensures
        pair_enters(events, count).len() == events.len(),
    decreases count,
{
    if count > 0 {
        lemma_pair_enters_len(events, count - 1);
    }
}

/// Whether the event at `index` is a plain Enter press next to a neighbour.
pub open spec fn next_to_plain_enter(events: Seq<EventModel>, index: int) -> bool {
    (index >= 1 && is_plain_enter(events[index - 1])) || (index + 1 < events.len()
        && is_plain_enter(events[index + 1]))
}

/// What pairing may do to one event: leave it, or empty a newline Commit
/// that sits next to a plain Enter press.
pub open spec fn paired_from(events: Seq<EventModel>, paired: Seq<EventModel>, index: int) -> bool {
    paired[index] == events[index] || (is_newline_commit(events[index]) && paired[index]
        == cleared_commit() && next_to_plain_enter(events, index))
}

/// Pairing changes no event but a newline Commit next to a plain Enter
/// press, which it can only empty.
pub proof fn lemma_pairing_only_empties_newline_commits(events: Seq<EventModel>, count: int)
    requires
        0 <= count <= events.len(),
    ensures
        pair_enters(events, count).len() == events.len(),
        forall|index: int|
            0 <= index < events.len() ==> #[trigger] paired_from(
                events,
                pair_enters(events, count),
                index,
            ),
    decreases count,
{
    if count > 0 {
        lemma_pairing_only_empties_newline_commits(events, count - 1);
        let previous = pair_enters(events, count - 1);
        let current = pair_enters(events, count);
        let enter = count - 1;
        assert(!is_newline_commit(cleared_commit())) by {
            assert(seq!['\n'].len() == 1);
            assert(seq!['\r'].len() == 1);
            assert(seq!['\r', '\n'].len() == 2);
        }
        assert(!is_plain_enter(cleared_commit()));
        assert(paired_from(events, previous, enter));
        if is_plain_enter(previous[enter]) {
            assert(previous[enter] == events[enter]);
        }
        assert forall|index: int| 0 <= index < events.len() implies #[trigger] paired_from(
            events,
            current,
            index,
        ) by {
            assert(paired_from(events, previous, index));
        }
    }
}

/// How many of the first `count` events pairing changed.
pub open spec fn emptied_count(events: Seq<EventModel>, paired: Seq<EventModel>, count: int) -> int
    decreases count,
{
    if count <= 0 {
        0
    } else {
        emptied_count(events, paired, count - 1) + if paired[count - 1] != events[count - 1] {
            1int
        } else {
            0int
        }
    }
}

/// How many of the first `count` events are plain Enter presses.
pub open spec fn plain_enter_count(events: Seq<EventModel>, count: int) -> int
    decreases count,
{
    if count <= 0 {
        0
    } else {
        plain_enter_count(events, count - 1) + if is_plain_enter(events[count - 1]) {
            1int
        } else {
            0int
        }
    }
}

/// Changing one event that matched adds one to the count of changes.
proof fn lemma_emptied_count_update(
    events: Seq<EventModel>,
    paired: Seq<EventModel>,
    at: int,
    value: EventModel,
    count: int,
)
    requires
        0 <= at < paired.len(),
        paired.len() == events.len(),
        paired[at] == events[at],
        value != events[at],
        0 <= count <= events.len(),
    ensures
        emptied_count(events, paired.update(at, value), count) == emptied_count(events, paired, count)
            + if at < count {
            1int
        } else {
            0int
        },
    decreases count,
{
    if count > 0 {
        lemma_emptied_count_update(events, paired, at, value, count - 1);
    }
}

/// Pairing empties no more Commits than the events hold plain Enter
/// presses: each Enter consumes at most one Commit.
pub proof fn lemma_each_enter_empties_at_most_one_commit(events: Seq<EventModel>, count: int)
    requires
        0 <= count <= events.len(),
    ensures
        emptied_count(events, pair_enters(events, count), events.len() as int) <= plain_enter_count(
            events,
            count,
        ),
    decreases count,
{
    if count == 0 {
        assert(emptied_count(events, events, events.len() as int) == 0) by {
            lemma_no_change_counts_nothing(events, events.len() as int);
        }
    } else {
        let enter = count - 1;
        lemma_each_enter_empties_at_most_one_commit(events, enter);
        lemma_pairing_only_empties_newline_commits(events, enter);
        let current = pair_enters(events, enter);
        assert(!is_newline_commit(cleared_commit())) by {
            assert(seq!['\n'].len() == 1);
            assert(seq!['\r'].len() == 1);
            assert(seq!['\r', '\n'].len() == 2);
        }
        assert(!is_plain_enter(cleared_commit()));
        assert(paired_from(events, current, enter));
        if is_plain_enter(current[enter]) {
            assert(current[enter] == events[enter]);
            if enter >= 1 && is_newline_commit(current[enter - 1]) {
                assert(paired_from(events, current, enter - 1));
                lemma_emptied_count_update(
                    events,
                    current,
                    enter - 1,
                    cleared_commit(),
                    events.len() as int,
                );
            } else if enter + 1 < current.len() && is_newline_commit(current[enter + 1]) {
                assert(paired_from(events, current, enter + 1));
                lemma_emptied_count_update(
                    events,
                    current,
                    enter + 1,
                    cleared_commit(),
                    events.len() as int,
                );
            }
        }
    }
}

/// Comparing a sequence with itself counts no change.
proof fn lemma_no_change_counts_nothing(events: Seq<EventModel>, count: int)
    requires
        0 <= count <= events.len(),
    ensures
        emptied_count(events, events, count) == 0,
    decreases count,
{
    if count > 0 {
        lemma_no_change_counts_nothing(events, count - 1);
    }
}

/// Empties each newline Commit that a plain Enter press next to it already
/// stands for: some platforms report one Enter as both a key press and a
/// newline Commit. Each Enter consumes at most one Commit, the earlier one
/// first, so further Commits stay ordered input.
pub fn deduplicate_adjacent_newline_commits(events: &mut Vec<TextEvent>)
    ensures
        models(final(events)@) == pair_enters(models(old(events)@), old(events)@.len() as int),
{
    let ghost original = models(events@);
    let length = events.len();
    let mut enter: usize = 0;
    proof {
        lemma_pair_enters_len(original, 0);
    }
    while enter < length
        invariant
            length == original.len(),
            enter <= length,
            models(events@) == pair_enters(original, enter as int),
            events@.len() == length,
        decreases length - enter,
    {
        proof {
            lemma_pair_enters_len(original, enter as int);
            assert(models(events@)[enter as int] == events@[enter as int].model());
        }
        if is_plain_enter_press(&events[enter]) {
            let before = enter >= 1 && is_newline_commit_event(&events[enter - 1]);
            if before {
                let ghost previous = events@;
                events.set(
                    enter - 1,
                    TextEvent::Payload { kind: PayloadKind::ImeCommit, text: String::new() },
                );
                proof {
                    assert(models(previous)[enter - 1] == previous[enter - 1].model());
                    assert(models(events@) =~= models(previous).update(
                        enter - 1,
                        cleared_commit(),
                    ));
                }
            } else if enter + 1 < length && is_newline_commit_event(&events[enter + 1]) {
                let ghost previous = events@;
                proof {
                    assert(models(previous)[enter + 1] == previous[enter + 1].model());
                }
                events.set(
                    enter + 1,
                    TextEvent::Payload { kind: PayloadKind::ImeCommit, text: String::new() },
                );
                proof {
                    assert(models(events@) =~= models(previous).update(
                        enter + 1,
                        cleared_commit(),
                    ));
                }
            } else {
                proof {
                    if enter >= 1 {
                        assert(models(events@)[enter - 1] == events@[enter - 1].model());
                    }
                    if enter + 1 < length {
                        assert(models(events@)[enter + 1] == events@[enter + 1].model());
                    }
                }
            }
        }
        enter = enter + 1;
    }
}

/// Returns whether `event` is a Commit of exactly one logical newline.
fn is_newline_commit_event(event: &TextEvent) -> (newline: bool)
    ensures
        newline == is_newline_commit(event.model()),
{
    match event {
        TextEvent::Payload { kind, text } => *kind == PayloadKind::ImeCommit
            && is_single_logical_newline(text.as_str()),
        _ => false,
    }
}

/// Returns whether `event` is a Commit with text.
fn is_nonempty_commit_event(event: &TextEvent) -> (nonempty: bool)
    ensures
        nonempty == is_nonempty_commit(event.model()),
{
    match event {
        TextEvent::Payload { kind, text } => *kind == PayloadKind::ImeCommit
            && !text.as_str().is_empty(),
        _ => false,
    }
}

/// One event's effect on the search for the end of a composition: whether
/// it ends one here, and whether a composition runs after it. A Commit with
/// text always ends one; an empty Commit or an empty draft ends a running
/// one; a nonempty draft starts one.
pub open spec fn terminal_step(event: EventModel, composing: bool) -> (bool, bool) {
    match event {
        EventModel::ImePreedit { text, .. } => if is_line_break_draft(text) {
            (false, composing)
        } else if text.len() == 0 {
            (composing, false)
        } else {
            (false, true)
        },
        EventModel::Payload { kind, text } => if kind == PayloadKind::ImeCommit {
            (text.len() > 0 || composing, false)
        } else {
            (false, composing)
        },
        _ => (false, composing),
    }
}

/// The position of the first event that ends a composition.
pub open spec fn terminal_position(events: Seq<EventModel>, composing: bool) -> Option<int>
    decreases events.len(),
{
    if events.len() == 0 {
        None
    } else {
        let (ends, next) = terminal_step(events[0], composing);
        if ends {
            Some(0)
        } else {
            match terminal_position(events.drop_first(), next) {
                Some(position) => Some(position + 1),
                None => None,
            }
        }
    }
}

/// Where the events split after pairing: just after the first event that
/// ends a composition, when some event follows it.
pub open spec fn split_point(events: Seq<EventModel>, composition_was_active: bool) -> Option<int> {
    match terminal_position(events, composition_was_active) {
        Some(position) => if position + 1 < events.len() {
            Some(position + 1)
        } else {
            None
        },
        None => None,
    }
}

/// Keeps a completed composition and any input after it in separate
/// frames. When the editor owns the frame's events, adjacent Enter and
/// newline Commit pairs are merged first; then everything after the first
/// event that ends a composition is taken out and returned, in order, for a
/// later frame. Otherwise nothing changes and nothing is returned.
pub fn take_events_after_ime_terminal(
    events: &mut Vec<TextEvent>,
    owns_events: bool,
    composition_was_active: bool,
) -> (later: Vec<TextEvent>)
    ensures
        !owns_events ==> final(events)@ == old(events)@ && later@.len() == 0,
        owns_events ==> models(final(events)@) + models(later@) == pair_enters(
            models(old(events)@),
            old(events)@.len() as int,
        ),
        owns_events ==> {
            let paired = pair_enters(models(old(events)@), old(events)@.len() as int);
            match split_point(paired, composition_was_active) {
                Some(at) => {
                    &&& models(final(events)@) == paired.take(at)
                    &&& models(later@) == paired.skip(at)
                },
                None => models(final(events)@) == paired && later@.len() == 0,
            }
        },
{
    if !owns_events {
        return Vec::new();
    }
    deduplicate_adjacent_newline_commits(events);
    let ghost paired = models(events@);
    let mut composing = composition_was_active;
    let mut index: usize = 0;
    let mut terminal: Option<usize> = None;
    proof {
        assert(paired.skip(0) =~= paired);
    }
    while index < events.len() && terminal.is_none()
        invariant
            paired == models(events@),
            index <= events@.len(),
            match terminal {
                Some(position) => position == index && index < events@.len()
                    && terminal_position(paired, composition_was_active) == Some(position as int),
                None => terminal_position(paired, composition_was_active) == match terminal_position(
                    paired.skip(index as int),
                    composing,
                ) {
                    Some(position) => Some(position + index),
                    None => None::<int>,
                },
            },
        decreases events@.len() - index + if terminal is None {
            1int
        } else {
            0int
        },
    {
        let ghost rest = paired.skip(index as int);
        let ghost before = composing;
        proof {
            assert(rest[0] == paired[index as int]);
            assert(rest.drop_first() =~= paired.skip(index + 1));
            assert(paired[index as int] == events@[index as int].model());
        }
        let ends = match &events[index] {
            TextEvent::ImePreedit { text, .. } => {
                if is_line_break_text(text) {
                    false
                } else if text.as_str().is_empty() {
                    let was_composing = composing;
                    composing = false;
                    was_composing
                } else {
                    composing = true;
                    false
                }
            },
            TextEvent::Payload { kind, text } => {
                if *kind == PayloadKind::ImeCommit {
                    let ends = !text.as_str().is_empty() || composing;
                    composing = false;
                    ends
                } else {
                    false
                }
            },
            _ => false,
        };
        proof {
            assert((ends, composing) == terminal_step(paired[index as int], before));
        }
        if ends {
            terminal = Some(index);
        } else {
            index = index + 1;
        }
    }
    proof {
        if terminal is None {
            assert(paired.skip(index as int).len() == 0);
        }
    }
    match terminal {
        Some(position) => {
            if position + 1 < events.len() {
                events.split_off(position + 1)
            } else {
                Vec::new()
            }
        },
        None => Vec::new(),
    }
}

/// Sets an active composition's final Commit apart until the document
/// editor runs. Returns the first Commit with text and every event after
/// it, which are taken out of `events`; the events before the Commit stay.
/// Without an active composition, or without such a Commit, nothing changes.
pub fn isolate_active_ime_commit(
    events: &mut Vec<TextEvent>,
    composition_was_active: bool,
) -> (isolated: Option<(TextEvent, Vec<TextEvent>)>)
    ensures
        match isolated {
            Some((commit, deferred)) => {
                let at = final(events)@.len() as int;
                &&& composition_was_active
                &&& is_first_nonempty_commit(models(old(events)@), at)
                &&& final(events)@ == old(events)@.take(at)
                &&& commit == old(events)@[at]
                &&& deferred@ == old(events)@.skip(at + 1)
                &&& final(events)@ + seq![commit] + deferred@ == old(events)@
            },
            None => {
                &&& final(events)@ == old(events)@
                &&& (!composition_was_active || !has_nonempty_commit(models(old(events)@)))
            },
        },
{
    if !composition_was_active {
        return None;
    }
    let ghost original = events@;
    assert(original == old(events)@);
    let mut index: usize = 0;
    while index < events.len()
        invariant
            composition_was_active,
            original == old(events)@,
            events@ == original,
            index <= events@.len(),
            forall|i: int| 0 <= i < index ==> !is_nonempty_commit(#[trigger] models(original)[i]),
        decreases events@.len() - index,
    {
        if is_nonempty_commit_event(&events[index]) {
            let deferred = events.split_off(index + 1);
            proof {
                assert(events@.len() == index + 1);
            }
            let commit = events.pop();
            proof {
                assert(commit == Some(original[index as int]));
                assert(models(original)[index as int] == original[index as int].model());
                assert(events@ =~= original.take(index as int));
                assert(deferred@ =~= original.skip(index + 1));
                assert(models(original).len() == original.len());
                assert(is_nonempty_commit(models(original)[index as int]));
                assert(is_first_nonempty_commit(models(original), index as int));
            }
            return match commit {
                Some(commit) => Some((commit, deferred)),
                None => None,
            };
        }
        proof {
            assert(models(original)[index as int] == original[index as int].model());
        }
        index = index + 1;
    }
    None
}

/// Whether the editor must take focus back for one frame so that an active
/// composition can consume its final Commit: the composition was active,
/// the editor lost focus, and the frame holds a Commit with text.
pub fn retain_active_ime_commit_focus(
    editor_has_focus: bool,
    composition_was_active: bool,
    events: &Vec<TextEvent>,
) -> (retain: bool)
    ensures
        retain == (composition_was_active && !editor_has_focus && has_nonempty_commit(
            models(events@),
        )),
{
    if !composition_was_active || editor_has_focus {
        return false;
    }
    let mut index: usize = 0;
    while index < events.len()
        invariant
            composition_was_active,
            !editor_has_focus,
            index <= events@.len(),
            forall|i: int| 0 <= i < index ==> !is_nonempty_commit(#[trigger] models(events@)[i]),
        decreases events@.len() - index,
    {
        if is_nonempty_commit_event(&events[index]) {
            proof {
                assert(models(events@)[index as int] == events@[index as int].model());
                assert(is_nonempty_commit(models(events@)[index as int]));
                assert(has_nonempty_commit(models(events@)));
            }
            return true;
        }
        index = index + 1;
    }
    false
}

/// An event that can start, continue or end a composition: a draft other
/// than a lone LF or CR, or an input-method Commit.
pub open spec fn moves_composition(event: EventModel) -> bool {
    match event {
        EventModel::ImePreedit { text, .. } => !(text == seq!['\n'] || text == seq!['\r']),
        EventModel::Payload { kind, .. } => kind == PayloadKind::ImeCommit,
        _ => false,
    }
}

/// Events that cannot move a composition leave the lifecycle as it was.
proof fn lemma_unmoved_scan(
    events: Seq<EventModel>,
    from: int,
    count: int,
    enter_pressed: bool,
    composition_was_active: bool,
)
    requires
        0 <= from <= count <= events.len(),
        forall|index: int| from <= index < count ==> !moves_composition(#[trigger] events[index]),
    ensures
        ime_scan(events, count, enter_pressed, composition_was_active) == ime_scan(
            events,
            from,
            enter_pressed,
            composition_was_active,
        ),
    decreases count - from,
{
    if count > from {
        lemma_unmoved_scan(events, from, count - 1, enter_pressed, composition_was_active);
        assert(!moves_composition(events[count - 1]));
    }
}

/// In a focused frame whose last composition event is an input-method
/// Commit with text, the frame has committed, whether or not a composition
/// was running before the frame or the Commit.
pub proof fn lemma_last_nonempty_commit_commits(
    events: Seq<EventModel>,
    last: int,
    composition_was_active: bool,
)
    requires
        0 <= last < events.len(),
        events[last] matches EventModel::Payload { kind, text } && kind == PayloadKind::ImeCommit
            && text.len() > 0,
        forall|index: int|
            last < index < events.len() ==> !moves_composition(#[trigger] events[index]),
    ensures
        frame_state(true, composition_was_active, events) == ImeFrameState::Committed,
{
    let enter = has_plain_enter(events);
    lemma_unmoved_scan(events, last + 1, events.len() as int, enter, composition_was_active);
}

/// In a focused frame whose last composition event is a draft with text
/// (other than a lone LF or CR), a composition is running.
pub proof fn lemma_last_draft_composes(
    events: Seq<EventModel>,
    last: int,
    composition_was_active: bool,
)
    requires
        0 <= last < events.len(),
        events[last] matches EventModel::ImePreedit { text, .. } && text.len() > 0
            && moves_composition(events[last]),
        forall|index: int|
            last < index < events.len() ==> !moves_composition(#[trigger] events[index]),
    ensures
        frame_state(true, composition_was_active, events) == ImeFrameState::Composing,
{
    let enter = has_plain_enter(events);
    lemma_unmoved_scan(events, last + 1, events.len() as int, enter, composition_was_active);
}

/// A running composition that the frame's only composition event, an
/// empty Commit, ends has committed when the frame also holds a plain
/// Enter press, and was cancelled otherwise.
pub proof fn lemma_empty_commit_ends_running_composition(events: Seq<EventModel>, last: int)
    requires
        0 <= last < events.len(),
        events[last] matches EventModel::Payload { kind, text } && kind == PayloadKind::ImeCommit
            && text.len() == 0,
        forall|index: int|
            0 <= index < events.len() && index != last ==> !moves_composition(
                #[trigger] events[index],
            ),
    ensures
        frame_state(true, true, events) == if has_plain_enter(events) {
            ImeFrameState::Committed
        } else {
            ImeFrameState::Cancelled
        },
{
    let enter = has_plain_enter(events);
    lemma_unmoved_scan(events, 0, last, enter, true);
    lemma_unmoved_scan(events, last + 1, events.len() as int, enter, true);
}

/// A running composition that the frame's only composition event, an
/// empty draft, ends was cancelled.
pub proof fn lemma_empty_draft_cancels_running_composition(events: Seq<EventModel>, last: int)
    requires
        0 <= last < events.len(),
        events[last] matches EventModel::ImePreedit { text, .. } && text.len() == 0,
        forall|index: int|
            0 <= index < events.len() && index != last ==> !moves_composition(
                #[trigger] events[index],
            ),
    ensures
        frame_state(true, true, events) == ImeFrameState::Cancelled,
{
    let enter = has_plain_enter(events);
    lemma_unmoved_scan(events, 0, last, enter, true);
    lemma_unmoved_scan(events, last + 1, events.len() as int, enter, true);
}

/// A focused frame without any composition event keeps a running
/// composition running and otherwise reports nothing.
pub proof fn lemma_quiet_frame_keeps_composition(
    events: Seq<EventModel>,
    composition_was_active: bool,
)
    requires
        forall|index: int| 0 <= index < events.len() ==> !moves_composition(#[trigger] events[index]),
    ensures
        frame_state(true, composition_was_active, events) == if composition_was_active {
            ImeFrameState::Composing
        } else {
            ImeFrameState::Inactive
        },
{
    let enter = has_plain_enter(events);
    lemma_unmoved_scan(events, 0, events.len() as int, enter, composition_was_active);
}

/// An unfocused editor cancels exactly a composition that was running.
pub proof fn lemma_unfocused_cancels_running_composition(
    events: Seq<EventModel>,
    composition_was_active: bool,
)
    ensures
        (frame_state(false, composition_was_active, events) == ImeFrameState::Cancelled)
            == composition_was_active,
        !composition_was_active ==> frame_state(false, composition_was_active, events)
            == ImeFrameState::Inactive,
{
}

} // verus!
