//! Verified core of the Noter text editor.
//!
//! - `edit` and `undo`: revision-checked, reversible edit transactions over a
//!   rope, with the laws that an inverse restores and a redo repeats exactly.
//! - `document`: the editable document, its byte-order mark, exact
//!   serialization, dirty tracking and ceilings.
//! - `conflict`: the external-change conflict reducer.
//! - `observation` and `inspection`: file identity and content evidence, and
//!   the decisions of the stable, bounded file read.
//! - `projection`: the canonical LF display of CR and CRLF source with exact
//!   byte mappings in both directions.
//! - `line_endings`: the line-ending profile of a text, and newlines of
//!   inserted text written in the insertion convention, within a byte budget.
//! - `replace_all`: the scope, outcome and selection of Replace All.
//! - `input_events`, `ime`, `text_buffer` and `projected_buffer`: bounding
//!   editor input to a byte ceiling, the input-method lifecycle, and the
//!   bounded editor buffers over plain and over projected source text.
//! - `text_bounds`, `utf8_text`, `rope_text`, `presentation`, `revision` and
//!   `limits`: the UTF-8 helpers, rope access, labels and status text they
//!   share.

pub mod revision;
pub mod utf8_text;
pub mod rope_text;
pub mod edit;
pub mod undo;
pub mod observation;
pub mod conflict;
pub mod limits;
pub mod inspection;
pub mod text_bounds;
pub mod presentation;
pub mod document;
pub mod projection;
pub mod line_endings;
pub mod input_events;
pub mod ime;
pub mod text_buffer;
pub mod projected_buffer;
pub mod replace_all;
