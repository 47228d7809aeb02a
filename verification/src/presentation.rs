//! Editor presentation rules that need no widget toolkit: command labels,
//! dialog and update-status state, caret positions for the status line,
//! selection checks, and memory-bounded labels for recovery notices.

use vstd::prelude::*;
use vstd::string::StringExecFns;
use vstd::string::StringSliceAdditionalSpecFns;
use vstd::utf8::*;

use std::path::PathBuf;

use crate::document::{Document, PreparedSaveAs};
use crate::edit::{Selection, TextRange};
use crate::projection::DisplayRange;
use crate::text_bounds::{
    clamped_char_byte, fitting_count, lemma_fitting_count, truncate_to_utf8_byte_limit,
    utf8_prefix,
};
use crate::utf8_text::{
    char_count_at, chars_of, is_boundary, lemma_char_count_at, lemma_prefix_bytes_full,
    lemma_prefix_bytes_monotone, prefix_bytes, str_len, str_slice, utf8_bytes,
};

verus! {

broadcast use vstd::seq_lib::group_seq_properties;

/// How a document is presented.
#[derive(Clone, Copy, PartialEq, Eq, Structural, Debug)]
pub enum DocumentView {
    /// Plain source text.
    Text,
    /// Formatted Markdown.
    Markdown,
}

impl Default for DocumentView {
    fn default() -> (view: Self)
        ensures
            view == DocumentView::Text,
    {
        DocumentView::Text
    }
}

impl DocumentView {
    /// Returns the mode's label.
    pub fn label(self) -> (label: &'static str)
        ensures
            label@ == match self {
                DocumentView::Text => "Text"@,
                DocumentView::Markdown => "Markdown"@,
            },
    {
        match self {
            DocumentView::Text => "Text",
            DocumentView::Markdown => "Markdown",
        }
    }
}

/// Whether `extension` names Markdown, ignoring ASCII case.
pub open spec fn is_markdown_extension(extension: Seq<char>) -> bool {
    ascii_equal_ignoring_case(extension, "md"@) || ascii_equal_ignoring_case(extension, "markdown"@)
}

/// The code of a character with ASCII capitals folded to lowercase.
pub open spec fn ascii_lower(c: char) -> u32 {
    if 65 <= (c as u32) <= 90 {
        (c as u32 + 32) as u32
    } else {
        c as u32
    }
}

/// Whether two texts are equal when ASCII letters are compared without case.
pub open spec fn ascii_equal_ignoring_case(a: Seq<char>, b: Seq<char>) -> bool {
    a.len() == b.len() && forall|i: int| 0 <= i < a.len() ==> ascii_lower(a[i]) == ascii_lower(b[i])
}

/// Returns the code of a character with ASCII capitals folded to lowercase.
fn lower_ascii(c: char) -> (lower: u32)
    ensures
        lower == ascii_lower(c),
{
    let code = c as u32;
    if 65 <= code && code <= 90 {
        code + 32
    } else {
        code
    }
}

/// Returns whether `a` and `b` are equal ignoring ASCII case.
fn equal_ignoring_ascii_case(a: &str, b: &str) -> (equal: bool)
    ensures
        equal == ascii_equal_ignoring_case(a@, b@),
{
    let left = chars_of(a);
    let right = chars_of(b);
    if left.len() != right.len() {
        return false;
    }
    let mut index: usize = 0;
    while index < left.len()
        invariant
            left@ == a@,
            right@ == b@,
            left@.len() == right@.len(),
            index <= left@.len(),
            forall|i: int| 0 <= i < index ==> ascii_lower(left@[i]) == ascii_lower(right@[i]),
        decreases left@.len() - index,
    {
        if lower_ascii(left[index]) != lower_ascii(right[index]) {
            return false;
        }
        index = index + 1;
    }
    true
}

/// The view a file opens in: Markdown for an `md` or `markdown` extension in
/// any ASCII case, and Text otherwise.
pub fn preferred_view_for_extension(extension: Option<&str>) -> (view: DocumentView)
    ensures
        view == match extension {
            Some(extension) => if is_markdown_extension(extension@) {
                DocumentView::Markdown
            } else {
                DocumentView::Text
            },
            None => DocumentView::Text,
        },
{
    match extension {
        Some(extension) => {
            if equal_ignoring_ascii_case(extension, "md") || equal_ignoring_ascii_case(
                extension,
                "markdown",
            ) {
                DocumentView::Markdown
            } else {
                DocumentView::Text
            }
        },
        None => DocumentView::Text,
    }
}

/// A File menu command.
#[derive(Clone, Copy, PartialEq, Eq, Structural, Debug)]
pub enum FileCommand {
    /// Start a new untitled document.
    New,
    /// Open a file.
    Open,
    /// Reload the current file from disk.
    Reload,
    /// Save to the current path.
    Save,
    /// Save to a chosen path.
    SaveAs,
    /// Close the editor.
    Quit,
}

impl FileCommand {
    /// Returns the command's menu label.
    pub fn label(self) -> (label: &'static str)
        ensures
            label@ == match self {
                FileCommand::New => "New"@,
                FileCommand::Open => "Open..."@,
                FileCommand::Reload => "Reload from Disk"@,
                FileCommand::Save => "Save"@,
                FileCommand::SaveAs => "Save As..."@,
                FileCommand::Quit => "Quit"@,
            },
    {
        match self {
            FileCommand::New => "New",
            FileCommand::Open => "Open...",
            FileCommand::Reload => "Reload from Disk",
            FileCommand::Save => "Save",
            FileCommand::SaveAs => "Save As...",
            FileCommand::Quit => "Quit",
        }
    }
}

/// An Edit menu command.
#[derive(Clone, Copy, PartialEq, Eq, Structural, Debug)]
pub enum EditCommand {
    /// Undo the last edit.
    Undo,
    /// Redo the last undone edit.
    Redo,
    /// Cut the selection.
    Cut,
    /// Copy the selection.
    Copy,
    /// Paste the clipboard.
    Paste,
    /// Select the whole document.
    SelectAll,
    /// Open Find.
    Find,
    /// Find the next match.
    FindNext,
    /// Find the previous match.
    FindPrevious,
    /// Open Replace.
    Replace,
    /// Open Go To Line.
    GoToLine,
}

impl EditCommand {
    /// Returns the command's menu label.
    pub fn label(self) -> (label: &'static str)
        ensures
            label@ == match self {
                EditCommand::Undo => "Undo"@,
                EditCommand::Redo => "Redo"@,
                EditCommand::Cut => "Cut"@,
                EditCommand::Copy => "Copy"@,
                EditCommand::Paste => "Paste"@,
                EditCommand::SelectAll => "Select All"@,
                EditCommand::Find => "Find..."@,
                EditCommand::FindNext => "Find Next"@,
                EditCommand::FindPrevious => "Find Previous"@,
                EditCommand::Replace => "Replace..."@,
                EditCommand::GoToLine => "Go To Line..."@,
            },
    {
        match self {
            EditCommand::Undo => "Undo",
            EditCommand::Redo => "Redo",
            EditCommand::Cut => "Cut",
            EditCommand::Copy => "Copy",
            EditCommand::Paste => "Paste",
            EditCommand::SelectAll => "Select All",
            EditCommand::Find => "Find...",
            EditCommand::FindNext => "Find Next",
            EditCommand::FindPrevious => "Find Previous",
            EditCommand::Replace => "Replace...",
            EditCommand::GoToLine => "Go To Line...",
        }
    }
}

/// A View menu command.
#[derive(Clone, Copy, PartialEq, Eq, Structural, Debug)]
pub enum ViewCommand {
    /// Toggle word wrap.
    ToggleWordWrap,
    /// Switch between Text and Markdown.
    ToggleDocumentView,
    /// Toggle full screen.
    ToggleFullscreen,
    /// Zoom in.
    ZoomIn,
    /// Zoom out.
    ZoomOut,
    /// Reset the zoom.
    ResetZoom,
}

impl ViewCommand {
    /// Returns the command's menu label.
    pub fn label(self) -> (label: &'static str)
        ensures
            label@ == match self {
                ViewCommand::ToggleWordWrap => "Word Wrap"@,
                ViewCommand::ToggleDocumentView => "Switch Mode"@,
                ViewCommand::ToggleFullscreen => "Full Screen"@,
                ViewCommand::ZoomIn => "Zoom In"@,
                ViewCommand::ZoomOut => "Zoom Out"@,
                ViewCommand::ResetZoom => "Reset Zoom"@,
            },
    {
        match self {
            ViewCommand::ToggleWordWrap => "Word Wrap",
            ViewCommand::ToggleDocumentView => "Switch Mode",
            ViewCommand::ToggleFullscreen => "Full Screen",
            ViewCommand::ZoomIn => "Zoom In",
            ViewCommand::ZoomOut => "Zoom Out",
            ViewCommand::ResetZoom => "Reset Zoom",
        }
    }
}

/// Where keyboard focus goes after a view command.
#[derive(Clone, Copy, PartialEq, Eq, Structural, Debug)]
pub enum ViewCommandFocus {
    /// Return focus to the document.
    RestoreDocument,
    /// Keep focus on the control that issued the command.
    PreserveControl,
}

/// A view command together with its focus policy.
#[derive(Clone, Copy, PartialEq, Eq, Structural, Debug)]
pub struct ViewCommandRequest {
    /// The command.
    pub command: ViewCommand,
    /// Where focus goes afterwards.
    pub focus: ViewCommandFocus,
}

impl ViewCommandRequest {
    /// A request that returns focus to the document.
    pub fn restore_document(command: ViewCommand) -> (request: Self)
        ensures
            request == (ViewCommandRequest { command, focus: ViewCommandFocus::RestoreDocument }),
    {
        ViewCommandRequest { command, focus: ViewCommandFocus::RestoreDocument }
    }

    /// A request that keeps focus on the issuing control.
    pub fn preserve_control(command: ViewCommand) -> (request: Self)
        ensures
            request == (ViewCommandRequest { command, focus: ViewCommandFocus::PreserveControl }),
    {
        ViewCommandRequest { command, focus: ViewCommandFocus::PreserveControl }
    }
}

/// Whether the local update status is showing, and what opened it.
#[derive(Clone, Copy, PartialEq, Eq, Structural, Debug)]
pub enum UpdateStatusState {
    /// Not showing.
    Closed,
    /// Opened from the Help menu during an editing session.
    Open,
    /// Opened at launch, which also names the window while it shows.
    OpenedByLaunch,
}

impl Default for UpdateStatusState {
    fn default() -> (state: Self)
        ensures
            state == UpdateStatusState::Closed,
    {
        UpdateStatusState::Closed
    }
}

impl UpdateStatusState {
    /// Returns whether the status is showing.
    pub fn is_open(self) -> (open: bool)
        ensures
            open == !(self is Closed),
    {
        !matches!(self, UpdateStatusState::Closed)
    }

    /// Returns whether the status names the window.
    pub fn names_the_window(self) -> (names: bool)
        ensures
            names == self is OpenedByLaunch,
    {
        matches!(self, UpdateStatusState::OpenedByLaunch)
    }
}

/// A dialog stays open only while its window is open and its close button
/// was not clicked.
pub fn dialog_remains_open(window_open: bool, close_clicked: bool) -> (open: bool)
    ensures
        open == (window_open && !close_clicked),
{
    window_open && !close_clicked
}

/// Adds one, saturating at `usize::MAX`.
pub open spec fn saturating_next(value: int) -> int {
    if value >= usize::MAX {
        usize::MAX as int
    } else {
        value + 1
    }
}

/// The one-based line and column reached after walking `chars` from
/// `line`, `column`: CR, CRLF and LF each start a new line.
pub open spec fn walk_position(chars: Seq<char>, line: int, column: int) -> (int, int)
    decreases chars.len(),
{
    if chars.len() == 0 {
        (line, column)
    } else if chars[0] == '\r' {
        if chars.len() > 1 && chars[1] == '\n' {
            walk_position(chars.skip(2), saturating_next(line), 1)
        } else {
            walk_position(chars.drop_first(), saturating_next(line), 1)
        }
    } else if chars[0] == '\n' {
        walk_position(chars.drop_first(), saturating_next(line), 1)
    } else {
        walk_position(chars.drop_first(), line, saturating_next(column))
    }
}

/// Returns the largest scalar boundary of `source` at or before `position`,
/// which is clamped to the end.
pub fn byte_at_or_before(source: &str, position: usize) -> (boundary: usize)
    ensures
        boundary == prefix_bytes(source@, fitting_count(source@, position as int)),
{
    let prefix = utf8_prefix(source, position);
    proof {
        lemma_fitting_count(source@, position as int);
        lemma_prefix_bytes_full(prefix@);
    }
    str_len(prefix)
}

/// Returns the byte offset of character `character`, or the end past it.
pub fn char_index_to_byte(source: &str, character: usize) -> (byte: usize)
    ensures
        byte == clamped_char_byte(source@, character as int),
{
    let (byte, _) = crate::text_bounds::byte_range_from_char_range(source, character, character);
    byte
}

/// Returns the one-based line and column of the caret at `position`, taken
/// at the scalar boundary at or before it.
pub fn caret_line_column(source: &str, position: usize) -> (place: (usize, usize))
    ensures
        (place.0 as int, place.1 as int) == walk_position(
            source@.take(fitting_count(source@, position as int)),
            1,
            1,
        ),
{
    let prefix = utf8_prefix(source, position);
    let chars = chars_of(prefix);
    let ghost all = chars@;
    let mut line: usize = 1;
    let mut column: usize = 1;
    let mut index: usize = 0;
    proof {
        assert(all.skip(0) =~= all);
    }
    while index < chars.len()
        invariant
            chars@ == all,
            index <= all.len(),
            walk_position(all, 1, 1) == walk_position(all.skip(index as int), line as int, column as int),
        decreases all.len() - index,
    {
        let ghost rest = all.skip(index as int);
        proof {
            assert(rest[0] == all[index as int]);
            assert(rest.drop_first() =~= all.skip(index + 1));
            if index + 1 < all.len() {
                assert(rest[1] == all[index + 1]);
                assert(rest.skip(2) =~= all.skip(index + 2));
            }
        }
        let character = chars[index];
        if character == '\r' {
            if index + 1 < chars.len() && chars[index + 1] == '\n' {
                index = index + 2;
            } else {
                index = index + 1;
            }
            line = line.saturating_add(1);
            column = 1;
        } else if character == '\n' {
            index = index + 1;
            line = line.saturating_add(1);
            column = 1;
        } else {
            index = index + 1;
            column = column.saturating_add(1);
        }
    }
    proof {
        assert(all.skip(index as int).len() == 0);
    }
    (line, column)
}

/// Whether both selection endpoints are scalar boundaries inside `chars`.
pub open spec fn selection_fits(chars: Seq<char>, selection: Selection) -> bool {
    &&& selection.spec_anchor() <= utf8_bytes(chars).len()
    &&& selection.spec_active() <= utf8_bytes(chars).len()
    &&& is_boundary(chars, selection.spec_anchor() as int)
    &&& is_boundary(chars, selection.spec_active() as int)
}

/// Returns whether both selection endpoints are scalar boundaries inside
/// `source`.
pub fn selection_is_valid(source: &str, selection: Selection) -> (valid: bool)
    ensures
        valid == selection_fits(source@, selection),
{
    let length = str_len(source);
    selection.anchor() <= length && selection.active() <= length && source.is_char_boundary(
        selection.anchor(),
    ) && source.is_char_boundary(selection.active())
}

/// Returns `selection` when it fits `source`, and otherwise a caret at the
/// end.
pub fn valid_selection_or_end(source: &str, selection: Selection) -> (chosen: Selection)
    ensures
        chosen == if selection_fits(source@, selection) {
            selection
        } else {
            Selection::spec_new(
                utf8_bytes(source@).len() as usize,
                utf8_bytes(source@).len() as usize,
            )
        },
{
    if selection_is_valid(source, selection) {
        selection
    } else {
        Selection::caret(str_len(source))
    }
}

/// The source selection that display cursors pick in LF-only source: the
/// anchor at the secondary cursor's character and the active end at the
/// primary's, each at that character's byte offset or the end past it.
pub fn selection_from_cursor_range(source: &str, range: DisplayRange) -> (selection: Selection)
    ensures
        selection == Selection::spec_new(
            clamped_char_byte(source@, range.secondary as int) as usize,
            clamped_char_byte(source@, range.primary as int) as usize,
        ),
{
    Selection::new(char_index_to_byte(source, range.secondary), char_index_to_byte(source, range.primary))
}

/// The display cursors of a selection of LF-only source: the number of
/// characters before each end, or `None` when the selection does not fit.
pub fn cursor_range_from_selection(source: &str, selection: Selection) -> (range: Option<
    DisplayRange,
>)
    ensures
        match range {
            Some(range) => {
                &&& selection_fits(source@, selection)
                &&& range.secondary == char_count_at(source@, selection.spec_anchor() as int)
                &&& range.primary == char_count_at(source@, selection.spec_active() as int)
            },
            None => !selection_fits(source@, selection),
        },
{
    if !selection_is_valid(source, selection) {
        return None;
    }
    proof {
        crate::utf8_text::lemma_prefix_is_boundary(source@, 0);
        lemma_prefix_bytes_full(source@);
        assert(prefix_bytes(source@, 0) == 0);
        lemma_char_count_at(source@, 0);
        lemma_char_count_at(source@, selection.spec_anchor() as int);
        lemma_char_count_at(source@, selection.spec_active() as int);
    }
    let anchor = chars_of(str_slice(source, 0, selection.anchor())).len();
    let active = chars_of(str_slice(source, 0, selection.active())).len();
    Some(DisplayRange { primary: active, secondary: anchor })
}

/// The number of characters a selection covers, or zero when its ordered
/// range is not a pair of scalar boundaries inside the source.
pub open spec fn selected_characters(chars: Seq<char>, selection: Selection) -> int {
    let start = if selection.spec_anchor() <= selection.spec_active() {
        selection.spec_anchor()
    } else {
        selection.spec_active()
    };
    let end = if selection.spec_anchor() <= selection.spec_active() {
        selection.spec_active()
    } else {
        selection.spec_anchor()
    };
    if end <= utf8_bytes(chars).len() && is_boundary(chars, start as int) && is_boundary(
        chars,
        end as int,
    ) {
        char_count_at(chars, end as int) - char_count_at(chars, start as int)
    } else {
        0
    }
}

/// Returns how many characters `selection` covers in `source`.
pub fn selected_character_count(source: &str, selection: Selection) -> (count: usize)
    ensures
        count == selected_characters(source@, selection),
{
    let range = selection.ordered_range();
    let start = range.start();
    let end = range.end();
    let length = str_len(source);
    if end > length || !source.is_char_boundary(start) || !source.is_char_boundary(end) {
        return 0;
    }
    proof {
        lemma_char_count_at(source@, start as int);
        lemma_char_count_at(source@, end as int);
        let cs = char_count_at(source@, start as int);
        let ce = char_count_at(source@, end as int);
        if ce < cs {
            lemma_prefix_bytes_monotone(source@, ce, cs);
        }
    }
    let piece = crate::utf8_text::str_slice(source, start, end);
    let characters = chars_of(piece);
    characters.len()
}

/// The source length after replacing `range` with `replacement_len` bytes,
/// or `None` when the range is reversed or a step would overflow.
pub fn projected_replacement_length(
    source_len: usize,
    range: TextRange,
    replacement_len: usize,
) -> (length: Option<usize>)
    ensures
        length == if range.spec_end() < range.spec_start() || source_len < range.spec_end()
            - range.spec_start() || source_len - (range.spec_end() - range.spec_start())
            + replacement_len > usize::MAX {
            None::<usize>
        } else {
            Some(
                (source_len - (range.spec_end() - range.spec_start()) + replacement_len) as usize,
            )
        },
{
    let removed = match range.end().checked_sub(range.start()) {
        Some(removed) => removed,
        None => return None,
    };
    let kept = match source_len.checked_sub(removed) {
        Some(kept) => kept,
        None => return None,
    };
    kept.checked_add(replacement_len)
}

/// The largest recovery-notice label, in bytes.
pub const MAX_SAVE_RECOVERY_LABEL_BYTES: usize = 1024;

/// The text a bounded writer holds after one more write: unchanged once
/// truncated; the whole value when everything fits; otherwise the longest
/// fitting prefixes of what it held and of the value, leaving room for the
/// truncation suffix, and it becomes truncated.
pub open spec fn bounded_write(
    output: Seq<char>,
    truncated: bool,
    value: Seq<char>,
    maximum: int,
    suffix_bytes: int,
) -> (Seq<char>, bool) {
    if truncated {
        (output, true)
    } else if utf8_bytes(output).len() + utf8_bytes(value).len() <= maximum {
        (output + value, false)
    } else {
        let limit = maximum - suffix_bytes;
        let kept = output.take(fitting_count(output, limit));
        (kept + value.take(fitting_count(value, limit - utf8_bytes(kept).len())), true)
    }
}

/// A text sink that holds at most a fixed number of UTF-8 bytes: once a
/// write does not fit, it keeps the longest fitting prefix, never splitting
/// a scalar, and ends with a truncation suffix.
pub struct BoundedTextWriter {
    output: String,
    maximum_bytes: usize,
    truncation_suffix: &'static str,
    truncated: bool,
}

impl BoundedTextWriter {
    /// The text written so far.
    pub closed spec fn spec_output(&self) -> Seq<char> {
        self.output@
    }

    /// The byte ceiling.
    pub closed spec fn spec_maximum(&self) -> usize {
        self.maximum_bytes
    }

    /// The suffix that marks truncation.
    pub closed spec fn spec_suffix(&self) -> Seq<char> {
        self.truncation_suffix@
    }

    /// Whether a write has been cut short.
    pub closed spec fn spec_truncated(&self) -> bool {
        self.truncated
    }

    /// The writer's text and suffix fit its ceiling.
    pub open spec fn well_formed(&self) -> bool {
        &&& utf8_bytes(self.spec_suffix()).len() <= self.spec_maximum()
        &&& utf8_bytes(self.spec_output()).len() <= if self.spec_truncated() {
            self.spec_maximum() - utf8_bytes(self.spec_suffix()).len()
        } else {
            self.spec_maximum() as int
        }
    }

    /// Creates a writer that continues `output` under `maximum_bytes`.
    pub fn new(
        output: String,
        maximum_bytes: usize,
        truncation_suffix: &'static str,
    ) -> (writer: Self)
        requires
            utf8_bytes(truncation_suffix@).len() <= maximum_bytes,
            utf8_bytes(output@).len() <= maximum_bytes,
        ensures
            writer.spec_output() == output@,
            writer.spec_maximum() == maximum_bytes,
            writer.spec_suffix() == truncation_suffix@,
            !writer.spec_truncated(),
            writer.well_formed(),
    {
        BoundedTextWriter { output, maximum_bytes, truncation_suffix, truncated: false }
    }

    /// Appends `value`, or as much of it as fits before the truncation
    /// suffix.
    pub fn write_str(&mut self, value: &str)
        requires
            old(self).well_formed(),
        ensures
            final(self).well_formed(),
            final(self).spec_maximum() == old(self).spec_maximum(),
            final(self).spec_suffix() == old(self).spec_suffix(),
            (final(self).spec_output(), final(self).spec_truncated()) == bounded_write(
                old(self).spec_output(),
                old(self).spec_truncated(),
                value@,
                old(self).spec_maximum() as int,
                utf8_bytes(old(self).spec_suffix()).len() as int,
            ),
    {
        if self.truncated {
            return;
        }
        let output_len = str_len(self.output.as_str());
        let value_len = str_len(value);
        if output_len.saturating_add(value_len) <= self.maximum_bytes {
            proof {
                lemma_encode_concat_len(self.output@, value@);
                assert(utf8_bytes(self.output@).len() + utf8_bytes(value@).len()
                    <= self.maximum_bytes);
            }
            self.output.append(value);
            return;
        }
        let suffix_len = str_len(self.truncation_suffix);
        let prefix_limit = self.maximum_bytes - suffix_len;
        let ghost before = self.output@;
        truncate_to_utf8_byte_limit(&mut self.output, prefix_limit);
        let kept_len = str_len(self.output.as_str());
        proof {
            lemma_fitting_count(before, prefix_limit as int);
            lemma_prefix_bytes_full(self.output@);
            lemma_prefix_bytes_full(before);
            assert(self.output@ =~= before.take(fitting_count(before, prefix_limit as int)));
        }
        let available = prefix_limit - kept_len;
        let piece = utf8_prefix(value, available);
        proof {
            lemma_fitting_count(value@, available as int);
            lemma_prefix_bytes_full(piece@);
            lemma_encode_concat_len(self.output@, piece@);
        }
        self.output.append(piece);
        self.truncated = true;
    }

    /// Returns the written text, ending with the truncation suffix when a
    /// write was cut short; it always fits the ceiling.
    pub fn finish(self) -> (text: String)
        requires
            self.well_formed(),
        ensures
            text@ == if self.spec_truncated() {
                self.spec_output() + self.spec_suffix()
            } else {
                self.spec_output()
            },
            utf8_bytes(text@).len() <= self.spec_maximum(),
    {
        let mut output = self.output;
        if self.truncated {
            output.append(self.truncation_suffix);
            proof {
                lemma_encode_concat_len(self.output@, self.truncation_suffix@);
            }
        }
        output
    }
}

/// The encoding of two joined texts is as long as both encodings.
proof fn lemma_encode_concat_len(a: Seq<char>, b: Seq<char>)
    ensures
        utf8_bytes(a + b).len() == utf8_bytes(a).len() + utf8_bytes(b).len(),
{
    crate::utf8_text::lemma_encode_concat(a, b);
}

/// `String::try_reserve_exact`: asks the allocator for room for
/// `additional` more bytes. Whether it succeeds depends on the allocator, so
/// only the unchanged contents are stated.
#[verifier::external_body]
fn string_try_reserve_exact(text: &mut String, additional: usize) -> (reserved: bool)
    ensures
        final(text)@ == old(text)@,
{
    text.try_reserve_exact(additional).is_ok()
}

/// The label a recovery notice shows for a destination: `parent`, the
/// separator and `name` when both are known, else `name`, else the whole
/// displayed path, bounded to [`MAX_SAVE_RECOVERY_LABEL_BYTES`].
pub open spec fn destination_label(
    parent: Option<Seq<char>>,
    name: Option<Seq<char>>,
    display: Seq<char>,
    separator: Seq<char>,
) -> Seq<char> {
    let maximum = MAX_SAVE_RECOVERY_LABEL_BYTES as int;
    let suffix = 3int;
    let written = match (parent, name) {
        (Some(parent), Some(name)) => {
            let first = bounded_write(Seq::empty(), false, parent, maximum, suffix);
            let second = bounded_write(first.0, first.1, separator, maximum, suffix);
            bounded_write(second.0, second.1, name, maximum, suffix)
        },
        (_, Some(name)) => bounded_write(Seq::empty(), false, name, maximum, suffix),
        _ => bounded_write(Seq::empty(), false, display, maximum, suffix),
    };
    if written.1 {
        written.0 + "..."@
    } else {
        written.0
    }
}

/// The label of a destination from its path parts, as `destination_label`
/// gives it.
pub open spec fn label_of_parts(
    parent: Option<&str>,
    name: Option<&str>,
    display: &str,
    separator: &str,
) -> Seq<char> {
    destination_label(
        match parent {
            Some(parent) => Some(parent@),
            None => None,
        },
        match name {
            Some(name) => Some(name@),
            None => None,
        },
        display@,
        separator@,
    )
}

/// Writes the bounded label for a destination into `output`, an empty
/// buffer (normally one with room for [`MAX_SAVE_RECOVERY_LABEL_BYTES`]
/// bytes): `parent`, the separator and `name` when both are known, else
/// `name`, else the whole displayed path, cut with `...` to fit.
pub fn write_destination_label(
    output: String,
    parent: Option<&str>,
    name: Option<&str>,
    display: &str,
    separator: &str,
) -> (label: String)
    requires
        output@.len() == 0,
    ensures
        label@ == label_of_parts(parent, name, display, separator),
        utf8_bytes(label@).len() <= MAX_SAVE_RECOVERY_LABEL_BYTES,
{
    proof {
        reveal_strlit("...");
        assert(utf8_bytes(output@) =~= Seq::<u8>::empty());
        assert(utf8_bytes("..."@).len() == 3) by {
            reveal_with_fuel(encode_utf8, 4);
        }
    }
    let mut writer = BoundedTextWriter::new(output, MAX_SAVE_RECOVERY_LABEL_BYTES, "...");
    proof {
        assert(writer.spec_output() =~= Seq::<char>::empty());
    }
    match (parent, name) {
        (Some(parent), Some(name)) => {
            writer.write_str(parent);
            writer.write_str(separator);
            writer.write_str(name);
        },
        (_, Some(name)) => {
            writer.write_str(name);
        },
        _ => {
            writer.write_str(display);
        },
    }
    writer.finish()
}

/// Builds the bounded label for a destination from its path parts, or
/// `None` when the allocator refuses the label buffer of
/// [`MAX_SAVE_RECOVERY_LABEL_BYTES`] bytes, reserved up front so that
/// writing the label never allocates again. The label is the one
/// `write_destination_label` writes.
pub fn bounded_destination_label(
    parent: Option<&str>,
    name: Option<&str>,
    display: &str,
    separator: &str,
) -> (label: Option<String>)
    ensures
        label matches Some(text) ==> text@ == label_of_parts(parent, name, display, separator)
            && utf8_bytes(text@).len() <= MAX_SAVE_RECOVERY_LABEL_BYTES,
{
    let mut output = String::new();
    if !string_try_reserve_exact(&mut output, MAX_SAVE_RECOVERY_LABEL_BYTES) {
        return None;
    }
    Some(write_destination_label(output, parent, name, display, separator))
}

/// One lowercase hexadecimal digit.
pub open spec fn hex_char(value: int) -> char {
    if value == 0 {
        '0'
    } else if value == 1 {
        '1'
    } else if value == 2 {
        '2'
    } else if value == 3 {
        '3'
    } else if value == 4 {
        '4'
    } else if value == 5 {
        '5'
    } else if value == 6 {
        '6'
    } else if value == 7 {
        '7'
    } else if value == 8 {
        '8'
    } else if value == 9 {
        '9'
    } else if value == 10 {
        'a'
    } else if value == 11 {
        'b'
    } else if value == 12 {
        'c'
    } else if value == 13 {
        'd'
    } else if value == 14 {
        'e'
    } else {
        'f'
    }
}

/// Two lowercase hexadecimal digits for each byte, high digit first.
pub open spec fn hex_text(bytes: Seq<u8>) -> Seq<char>
    decreases bytes.len(),
{
    if bytes.len() == 0 {
        Seq::empty()
    } else {
        hex_text(bytes.drop_last()) + seq![
            hex_char(bytes.last() as int / 16),
            hex_char(bytes.last() as int % 16),
        ]
    }
}

/// Returns one lowercase hexadecimal digit.
fn hex_digit(value: u8) -> (digit: &'static str)
    requires
        value < 16,
    ensures
        digit@ == seq![hex_char(value as int)],
{
    let digit = if value == 0 {
        "0"
    } else if value == 1 {
        "1"
    } else if value == 2 {
        "2"
    } else if value == 3 {
        "3"
    } else if value == 4 {
        "4"
    } else if value == 5 {
        "5"
    } else if value == 6 {
        "6"
    } else if value == 7 {
        "7"
    } else if value == 8 {
        "8"
    } else if value == 9 {
        "9"
    } else if value == 10 {
        "a"
    } else if value == 11 {
        "b"
    } else if value == 12 {
        "c"
    } else if value == 13 {
        "d"
    } else if value == 14 {
        "e"
    } else {
        "f"
    };
    proof {
        reveal_strlit("0");
        reveal_strlit("1");
        reveal_strlit("2");
        reveal_strlit("3");
        reveal_strlit("4");
        reveal_strlit("5");
        reveal_strlit("6");
        reveal_strlit("7");
        reveal_strlit("8");
        reveal_strlit("9");
        reveal_strlit("a");
        reveal_strlit("b");
        reveal_strlit("c");
        reveal_strlit("d");
        reveal_strlit("e");
        reveal_strlit("f");
    }
    digit
}

/// Returns `prefix` followed by two lowercase hexadecimal digits per byte,
/// a path representation that survives any encoding.
pub fn hex_encoded_path(prefix: &str, bytes: &[u8]) -> (text: String)
    ensures
        text@ == prefix@ + hex_text(bytes@),
{
    let mut output = String::from_str(prefix);
    let mut index: usize = 0;
    while index < bytes.len()
        invariant
            index <= bytes@.len(),
            output@ == prefix@ + hex_text(bytes@.take(index as int)),
        decreases bytes@.len() - index,
    {
        let byte = bytes[index];
        output.append(hex_digit(byte / 16u8));
        output.append(hex_digit(byte % 16u8));
        proof {
            let taken = bytes@.take(index + 1);
            assert(taken.drop_last() =~= bytes@.take(index as int));
            assert(taken.last() == byte);
        }
        index = index + 1;
    }
    proof {
        assert(bytes@.take(bytes@.len() as int) =~= bytes@);
    }
    output
}

/// The largest text, in bytes, that the interactive editors accept.
pub const INTERACTIVE_TEXT_MAX_BYTES: usize = 8_388_608;

/// The byte ceiling for editing `document` interactively: the document's
/// own text ceiling, capped at `INTERACTIVE_TEXT_MAX_BYTES`.
pub fn interactive_text_maximum_for(document: &Document) -> (maximum: usize)
    ensures
        maximum == if document.spec_maximum_text_bytes() < INTERACTIVE_TEXT_MAX_BYTES {
            document.spec_maximum_text_bytes()
        } else {
            INTERACTIVE_TEXT_MAX_BYTES as int
        },
{
    let own = document.maximum_text_bytes();
    if own < INTERACTIVE_TEXT_MAX_BYTES {
        own
    } else {
        INTERACTIVE_TEXT_MAX_BYTES
    }
}

/// The status bar's persistence label: "Modified" when the document or
/// memory the editor keeps outside it holds unsaved changes, "Unsaved" for
/// an untitled document, and "Saved" otherwise.
pub fn persistence_status_label(
    document: &Document,
    external_memory_at_risk: bool,
) -> (label: &'static str)
    ensures
        label@ == if document.spec_fingerprint() != document.spec_saved_fingerprint()
            || external_memory_at_risk {
            "Modified"@
        } else if document.spec_path() is None {
            "Unsaved"@
        } else {
            "Saved"@
        },
{
    if document.is_dirty() || external_memory_at_risk {
        "Modified"
    } else if document.path().is_none() {
        "Unsaved"
    } else {
        "Saved"
    }
}

/// A save in progress and the destination it writes.
#[derive(Debug)]
pub enum SaveAttempt {
    /// Saving to the document's own path.
    Current(PathBuf),
    /// Saving to a newly chosen path.
    SaveAs(PathBuf),
}

impl SaveAttempt {
    /// The destination, whichever kind of save this is.
    pub open spec fn spec_destination(&self) -> PathBuf {
        match self {
            SaveAttempt::Current(destination) => *destination,
            SaveAttempt::SaveAs(destination) => *destination,
        }
    }

    /// Returns the destination.
    pub fn destination(&self) -> (destination: &PathBuf)
        ensures
            *destination == self.spec_destination(),
    {
        match self {
            SaveAttempt::Current(destination) => destination,
            SaveAttempt::SaveAs(destination) => destination,
        }
    }

    /// Gives up the attempt for its destination.
    pub fn into_destination(self) -> (destination: PathBuf)
        ensures
            destination == self.spec_destination(),
    {
        match self {
            SaveAttempt::Current(destination) => destination,
            SaveAttempt::SaveAs(destination) => destination,
        }
    }
}

/// A save held back until the user confirms replacing one name of a file
/// that has several.
#[derive(Debug)]
pub enum PendingHardLinkSave {
    /// A save to the document's own path.
    Current {
        /// The destination.
        target: PathBuf,
        /// How many names the destination file has.
        link_count: u64,
    },
    /// A Save As to a prepared destination.
    SaveAs {
        /// The prepared Save As.
        prepared: PreparedSaveAs,
        /// The destination.
        target: PathBuf,
        /// How many names the destination file has.
        link_count: u64,
    },
}

impl PendingHardLinkSave {
    /// Returns how many names the destination file has.
    pub fn link_count(&self) -> (count: u64)
        ensures
            count == match self {
                PendingHardLinkSave::Current { link_count, .. } => *link_count,
                PendingHardLinkSave::SaveAs { link_count, .. } => *link_count,
            },
    {
        match self {
            PendingHardLinkSave::Current { link_count, .. } => *link_count,
            PendingHardLinkSave::SaveAs { link_count, .. } => *link_count,
        }
    }
}

} // verus!
