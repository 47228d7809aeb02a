//! The authoritative text and save metadata of one open document.

use ropey::Rope;
use std::path::PathBuf;
use std::time::Duration;
use vstd::prelude::*;
use vstd::string::StringSliceAdditionalSpecFns;
use vstd::utf8::*;

use crate::edit::{
    applied_bytes, apply_failure, is_inverse_of, result_selection_failure, AppliedTransaction,
    EditError, EditOrigin, EditTimestamp, EditTransaction, Selection, TextEdit,
};
use crate::limits::MAX_DOCUMENT_BYTES;
use crate::line_endings::{detect_profile, LineEndingProfile};
use crate::observation::{
    blake3_digest, hasher_finalize, hasher_input, hasher_new, hasher_update, ContentFingerprint,
    FileObservation, SpecialFileKind, TargetExpectation, TargetState,
};
use crate::revision::Revision;
use crate::rope_text::{
    joined_chunks, rope_chars, rope_chunks, rope_from_str, rope_new, rope_to_string,
};
use crate::utf8_text::{lemma_encode_concat, str_len, utf8_bytes};

verus! {

broadcast use vstd::seq_lib::group_seq_properties;

/// The optional byte-order mark of UTF-8 file content.
#[derive(Clone, Copy, PartialEq, Eq, Structural, Debug)]
pub enum Bom {
    /// No byte-order mark.
    Absent,
    /// The UTF-8 byte-order mark `EF BB BF`.
    Utf8,
}

/// The bytes a byte-order mark occupies.
pub open spec fn bom_bytes(bom: Bom) -> Seq<u8> {
    match bom {
        Bom::Absent => Seq::empty(),
        Bom::Utf8 => seq![0xEFu8, 0xBBu8, 0xBFu8],
    }
}

/// Whether `bytes` begin with the UTF-8 byte-order mark.
pub open spec fn starts_with_bom(bytes: Seq<u8>) -> bool {
    bytes.len() >= 3 && bytes[0] == 0xEFu8 && bytes[1] == 0xBBu8 && bytes[2] == 0xBFu8
}

/// The byte-order mark that `bytes` begin with.
pub open spec fn bom_of(bytes: Seq<u8>) -> Bom {
    if starts_with_bom(bytes) {
        Bom::Utf8
    } else {
        Bom::Absent
    }
}

/// The content of `bytes` after any byte-order mark.
pub open spec fn content_of(bytes: Seq<u8>) -> Seq<u8> {
    if starts_with_bom(bytes) {
        bytes.skip(3)
    } else {
        bytes
    }
}

impl Bom {
    /// Returns the bytes this byte-order mark occupies.
    pub fn as_bytes(self) -> (bytes: &'static [u8])
        ensures
            bytes@ == bom_bytes(self),
    {
        match self {
            Bom::Absent => &[],
            Bom::Utf8 => &[0xEF, 0xBB, 0xBF],
        }
    }

    /// Returns the byte-order mark `bytes` begin with and the content after
    /// it.
    pub fn split_utf8(bytes: &[u8]) -> (split: (Bom, &[u8]))
        ensures
            split.0 == bom_of(bytes@),
            split.1@ == content_of(bytes@),
    {
        if bytes.len() >= 3 && bytes[0] == 0xEF && bytes[1] == 0xBB && bytes[2] == 0xBF {
            let (_, content) = bytes.split_at(3);
            (Bom::Utf8, content)
        } else {
            (Bom::Absent, bytes)
        }
    }
}

/// The on-disk text encoding.
#[derive(Clone, Copy, PartialEq, Eq, Structural, Debug)]
pub enum Encoding {
    /// Strict UTF-8.
    Utf8,
}

/// Why a document operation failed.
#[derive(Clone, PartialEq, Eq, Debug)]
pub enum DocumentError {
    /// The serialized input exceeds the document ceiling.
    DocumentTooLarge {
        /// The input length in bytes.
        actual: usize,
        /// The ceiling in bytes.
        maximum: usize,
    },
    /// The content after any byte-order mark is not UTF-8.
    InvalidUtf8 {
        /// How many leading content bytes were valid.
        valid_up_to: usize,
        /// The length of the invalid sequence there, or `None` when the
        /// content ended inside a sequence.
        error_len: Option<usize>,
    },
    /// An edit was rejected.
    Edit(EditError),
    /// The revision counter cannot advance.
    RevisionExhausted,
    /// Saving would replace one name of a file that has this many names.
    HardLinkedTarget(u64),
    /// The document has no path to save to.
    NoPath,
    /// No trusted load or save observation exists for the current path.
    MissingFileBaseline,
    /// The chosen destination is a link, directory or other special entry.
    UnsupportedTarget(SpecialFileKind),
}

/// `up_to` is the longest prefix of `bytes` that is valid UTF-8.
pub open spec fn is_longest_valid_prefix(bytes: Seq<u8>, up_to: int) -> bool {
    &&& 0 <= up_to <= bytes.len()
    &&& valid_utf8(bytes.take(up_to))
    &&& forall|longer: int| up_to < longer <= bytes.len() ==> !valid_utf8(#[trigger] bytes.take(longer))
}

/// What `Utf8Error::error_len` reports for invalid `bytes`.
pub uninterp spec fn utf8_error_len(bytes: Seq<u8>) -> Option<usize>;

/// `std::str::from_utf8`: the text, exactly when `bytes` are valid UTF-8;
/// otherwise the error's `valid_up_to`, which std documents as the largest
/// length whose prefix would convert, and its `error_len`, a function of the
/// bytes that std documents as `None` when the input ends 1 to 3 bytes after
/// `valid_up_to` inside an incomplete sequence, and otherwise as the length
/// of the invalid sequence starting at `valid_up_to`. Which length that is
/// is not stated here.
#[verifier::external_body]
fn str_from_utf8(bytes: &[u8]) -> (text: Result<&str, (usize, Option<usize>)>)
    ensures
        match text {
            Ok(text) => valid_utf8(bytes@) && text.spec_bytes() == bytes@,
            Err((valid_up_to, error_len)) => {
                &&& !valid_utf8(bytes@)
                &&& is_longest_valid_prefix(bytes@, valid_up_to as int)
                &&& error_len == utf8_error_len(bytes@)
                &&& match error_len {
                    Some(length) => 1 <= length && valid_up_to + length <= bytes@.len(),
                    None => 1 <= bytes@.len() - valid_up_to <= 3,
                }
            },
        },
{
    std::str::from_utf8(bytes).map_err(|error| (error.valid_up_to(), error.error_len()))
}

/// `Duration::ZERO`, the empty duration; a `Duration` is opaque here, so
/// nothing is stated of it.
#[verifier::external_body]
fn zero_duration() -> (zero: Duration) {
    Duration::ZERO
}

/// The bytes a document serializes to: its byte-order mark, then its text.
pub open spec fn serialized(bom: Bom, text: Seq<char>) -> Seq<u8> {
    bom_bytes(bom) + utf8_bytes(text)
}

/// The digest of each successive chunk prefix extends the serialization.
proof fn lemma_chunk_step(bom: Bom, views: Seq<Seq<char>>, index: int)
    requires
        0 <= index < views.len(),
    ensures
        serialized(bom, joined_chunks(views.take(index + 1))) == serialized(
            bom,
            joined_chunks(views.take(index)),
        ) + utf8_bytes(views[index]),
{
    let taken = views.take(index + 1);
    assert(taken.drop_last() =~= views.take(index));
    assert(taken.last() == views[index]);
    lemma_encode_concat(joined_chunks(views.take(index)), views[index]);
}

/// The fingerprint of a byte-order mark followed by a rope's text.
fn serialized_fingerprint(bom: Bom, rope: &Rope) -> (fingerprint: ContentFingerprint)
    ensures
        fingerprint.spec_digest() == blake3_digest(serialized(bom, rope_chars(*rope))),
{
    let mut hasher = hasher_new();
    hasher_update(&mut hasher, bom.as_bytes());
    let chunks = rope_chunks(rope);
    let ghost views = chunks@.map_values(|chunk: &str| chunk@);
    let mut index: usize = 0;
    proof {
        assert(views.take(0) =~= Seq::<Seq<char>>::empty());
        assert(serialized(bom, joined_chunks(views.take(0))) =~= bom_bytes(bom));
    }
    while index < chunks.len()
        invariant
            views == chunks@.map_values(|chunk: &str| chunk@),
            index <= chunks@.len(),
            hasher_input(hasher) == serialized(bom, joined_chunks(views.take(index as int))),
        decreases chunks@.len() - index,
    {
        proof {
            lemma_chunk_step(bom, views, index as int);
        }
        hasher_update(&mut hasher, chunks[index].as_bytes());
        index = index + 1;
    }
    proof {
        assert(views.take(views.len() as int) =~= views);
    }
    ContentFingerprint::new(hasher_finalize(&hasher))
}

/// The refusal to replace one name of a hard-linked file without the
/// user's confirmation, if one is owed.
pub open spec fn require_hard_link_confirmation_spec(
    expected: TargetExpectation,
    confirmed: bool,
) -> Option<DocumentError> {
    match expected {
        TargetExpectation::Existing(observation) => if observation.spec_link_count() > 1
            && !confirmed {
            Some(DocumentError::HardLinkedTarget(observation.spec_link_count()))
        } else {
            None
        },
        TargetExpectation::Missing => None,
    }
}

/// Refuses to replace one name of a hard-linked file unless the user
/// confirmed it.
pub fn require_hard_link_confirmation(
    expected: TargetExpectation,
    confirmed: bool,
) -> (result: Result<(), DocumentError>)
    ensures
        result == match expected {
            TargetExpectation::Existing(observation) => if observation.spec_link_count() > 1
                && !confirmed {
                Err::<(), DocumentError>(
                    DocumentError::HardLinkedTarget(observation.spec_link_count()),
                )
            } else {
                Ok(())
            },
            TargetExpectation::Missing => Ok(()),
        },
{
    match expected {
        TargetExpectation::Existing(observation) => {
            if observation.link_count() > 1 && !confirmed {
                return Err(DocumentError::HardLinkedTarget(observation.link_count()));
            }
            Ok(())
        },
        TargetExpectation::Missing => Ok(()),
    }
}

/// The path type of the standard library.
#[verifier::external_type_specification]
#[verifier::external_body]
pub struct ExPathBuf(PathBuf);

/// A Save As selection paired with the exact target state observed when the
/// user chose it.
///
/// The fields are private so confirmation cannot silently replace the
/// expectation with a later observation.
#[derive(Debug)]
pub struct PreparedSaveAs {
    path: PathBuf,
    expected: TargetExpectation,
    adopt_path: bool,
}

impl PreparedSaveAs {
    /// The chosen destination path.
    pub closed spec fn spec_path(&self) -> PathBuf {
        self.path
    }

    /// The destination's observed expectation.
    pub closed spec fn spec_expected(&self) -> TargetExpectation {
        self.expected
    }

    /// Whether the document adopts the path after committing.
    pub closed spec fn spec_adopt_path(&self) -> bool {
        self.adopt_path
    }

    /// Pairs a chosen path with its observed expectation.
    pub fn new(path: PathBuf, expected: TargetExpectation, adopt_path: bool) -> (prepared: Self)
        ensures
            prepared.spec_path() == path,
            prepared.spec_expected() == expected,
            prepared.spec_adopt_path() == adopt_path,
    {
        PreparedSaveAs { path, expected, adopt_path }
    }

    /// Returns the chosen path.
    pub fn path(&self) -> (path: &PathBuf)
        ensures
            *path == self.spec_path(),
    {
        &self.path
    }

    /// Returns the destination's observed expectation.
    pub fn expected(&self) -> (expected: TargetExpectation)
        ensures
            expected == self.spec_expected(),
    {
        self.expected
    }

    /// Returns whether the document adopts the path after committing.
    pub fn adopt_path(&self) -> (adopt: bool)
        ensures
            adopt == self.spec_adopt_path(),
    {
        self.adopt_path
    }

    /// Returns the observed hard-link count when the selected entry existed.
    pub fn hard_link_count(&self) -> (count: Option<u64>)
        ensures
            count == match self.spec_expected() {
                TargetExpectation::Existing(observation) => Some(observation.spec_link_count()),
                TargetExpectation::Missing => None,
            },
    {
        match self.expected {
            TargetExpectation::Existing(observation) => Some(observation.link_count()),
            TargetExpectation::Missing => None,
        }
    }
}

/// The authoritative text and save metadata for one open document.
pub struct Document {
    rope: Rope,
    encoding: Encoding,
    bom: Bom,
    revision: Revision,
    content_fingerprint: ContentFingerprint,
    saved_content_fingerprint: ContentFingerprint,
    saved_target: Option<TargetExpectation>,
    path: Option<PathBuf>,
    line_endings: LineEndingProfile,
}

impl Document {
    /// The line endings detected in the text.
    pub closed spec fn spec_line_endings(&self) -> LineEndingProfile {
        self.line_endings
    }

    /// The file the document is saved to, or `None` while untitled.
    pub closed spec fn spec_path(&self) -> Option<PathBuf> {
        self.path
    }

    /// The document text.
    pub closed spec fn spec_text(&self) -> Seq<char> {
        rope_chars(self.rope)
    }

    /// The byte-order mark.
    pub closed spec fn spec_bom(&self) -> Bom {
        self.bom
    }

    /// The content revision.
    pub closed spec fn spec_revision(&self) -> Revision {
        self.revision
    }

    /// The fingerprint of the current serialization.
    pub closed spec fn spec_fingerprint(&self) -> ContentFingerprint {
        self.content_fingerprint
    }

    /// The fingerprint of the last committed serialization.
    pub closed spec fn spec_saved_fingerprint(&self) -> ContentFingerprint {
        self.saved_content_fingerprint
    }

    /// The trusted destination expectation from the last load or save.
    pub closed spec fn spec_saved_target(&self) -> Option<TargetExpectation> {
        self.saved_target
    }

    /// The serialized bytes.
    pub open spec fn spec_bytes(&self) -> Seq<u8> {
        serialized(self.spec_bom(), self.spec_text())
    }

    /// The largest text, in bytes, that fits the ceiling beside the
    /// byte-order mark.
    pub open spec fn spec_maximum_text_bytes(&self) -> int {
        MAX_DOCUMENT_BYTES - bom_bytes(self.spec_bom()).len()
    }

    /// The fingerprint describes the current serialization, which fits the
    /// document ceiling, and the line-ending profile is the text's.
    pub open spec fn well_formed(&self) -> bool {
        &&& self.spec_fingerprint().spec_digest() == blake3_digest(self.spec_bytes())
        &&& self.spec_bytes().len() <= MAX_DOCUMENT_BYTES
        &&& self.spec_line_endings() == detect_profile(self.spec_text())
    }

    /// Creates an empty, clean, untitled document.
    pub fn new() -> (document: Self)
        ensures
            document.well_formed(),
            document.spec_text() == Seq::<char>::empty(),
            document.spec_bom() == Bom::Absent,
            document.spec_revision().spec_value() == 0,
            document.spec_saved_fingerprint() == document.spec_fingerprint(),
            document.spec_saved_target() is None,
            document.spec_path() is None,
            document.spec_line_endings() == LineEndingProfile::Empty,
    {
        let fingerprint = ContentFingerprint::from_bytes(Bom::Absent.as_bytes());
        let document = Document {
            rope: rope_new(),
            encoding: Encoding::Utf8,
            bom: Bom::Absent,
            revision: Revision::initial(),
            content_fingerprint: fingerprint,
            saved_content_fingerprint: fingerprint,
            saved_target: None,
            path: None,
            line_endings: LineEndingProfile::Empty,
        };
        proof {
            assert(document.spec_bytes() =~= Seq::<u8>::empty());
        }
        document
    }

    /// Builds an untitled document from strict UTF-8 bytes.
    ///
    /// A UTF-8 byte-order mark is recorded but excluded from the text, and
    /// existing line endings remain, so an unedited document serializes back
    /// to exactly these bytes.
    ///
    /// # Errors
    ///
    /// `DocumentTooLarge` when the input exceeds the document ceiling, and
    /// `InvalidUtf8` when the bytes after an optional byte-order mark are not
    /// valid UTF-8.
    pub fn from_bytes(bytes: &[u8]) -> (result: Result<Self, DocumentError>)
        ensures
            bytes@.len() > MAX_DOCUMENT_BYTES ==> result == Err::<Self, DocumentError>(
                DocumentError::DocumentTooLarge {
                    actual: bytes@.len() as usize,
                    maximum: MAX_DOCUMENT_BYTES,
                },
            ),
            bytes@.len() <= MAX_DOCUMENT_BYTES ==> match result {
                Ok(document) => {
                    &&& valid_utf8(content_of(bytes@))
                    &&& document.well_formed()
                    &&& document.spec_bytes() == bytes@
                    &&& document.spec_bom() == bom_of(bytes@)
                    &&& document.spec_fingerprint().spec_digest() == blake3_digest(bytes@)
                    &&& document.spec_saved_fingerprint() == document.spec_fingerprint()
                    &&& document.spec_revision().spec_value() == 0
                    &&& document.spec_saved_target() is None
                    &&& document.spec_path() is None
                    &&& document.spec_line_endings() == detect_profile(document.spec_text())
                },
                Err(error) => !valid_utf8(content_of(bytes@)) && match error {
                    DocumentError::InvalidUtf8 { valid_up_to, error_len } => {
                        &&& is_longest_valid_prefix(content_of(bytes@), valid_up_to as int)
                        &&& error_len == utf8_error_len(content_of(bytes@))
                    },
                    _ => false,
                },
            },
    {
        if bytes.len() > MAX_DOCUMENT_BYTES {
            return Err(
                DocumentError::DocumentTooLarge { actual: bytes.len(), maximum: MAX_DOCUMENT_BYTES },
            );
        }
        let (bom, content) = Bom::split_utf8(bytes);
        let text = match str_from_utf8(content) {
            Ok(text) => text,
            Err((valid_up_to, error_len)) => return Err(
                DocumentError::InvalidUtf8 { valid_up_to, error_len },
            ),
        };
        let fingerprint = ContentFingerprint::from_bytes(bytes);
        let line_endings = LineEndingProfile::detect(text);
        let document = Document {
            rope: rope_from_str(text),
            encoding: Encoding::Utf8,
            bom,
            revision: Revision::initial(),
            content_fingerprint: fingerprint,
            saved_content_fingerprint: fingerprint,
            saved_target: None,
            path: None,
            line_endings,
        };
        proof {
            assert(document.spec_bytes() =~= bytes@);
        }
        Ok(document)
    }

    /// Returns the authoritative text buffer.
    pub fn rope(&self) -> (rope: &Rope)
        ensures
            rope_chars(*rope) == self.spec_text(),
    {
        &self.rope
    }

    /// Returns the current save path, or `None` for an untitled document.
    pub fn path(&self) -> (path: Option<&PathBuf>)
        ensures
            match path {
                Some(path) => self.spec_path() == Some(*path),
                None => self.spec_path() is None,
            },
    {
        match &self.path {
            Some(path) => Some(path),
            None => None,
        }
    }

    /// Returns the trusted destination expectation captured at load or save.
    ///
    /// Keep Editing and ordinary editing never change it; only a committed
    /// save or a new load replaces it.
    pub fn saved_target(&self) -> (target: Option<TargetExpectation>)
        ensures
            target == self.spec_saved_target(),
    {
        self.saved_target
    }

    /// Returns the strict on-disk text encoding.
    pub fn encoding(&self) -> (encoding: Encoding)
        ensures
            encoding == Encoding::Utf8,
    {
        Encoding::Utf8
    }

    /// Returns the optional on-disk byte-order mark.
    pub fn bom(&self) -> (bom: Bom)
        ensures
            bom == self.spec_bom(),
    {
        self.bom
    }

    /// Returns the line endings detected in the text.
    pub fn line_endings(&self) -> (profile: &LineEndingProfile)
        ensures
            *profile == self.spec_line_endings(),
    {
        &self.line_endings
    }

    /// Returns the largest text, in bytes, that fits the ceiling beside the
    /// byte-order mark.
    pub fn maximum_text_bytes(&self) -> (maximum: usize)
        ensures
            maximum == self.spec_maximum_text_bytes(),
    {
        MAX_DOCUMENT_BYTES - self.bom.as_bytes().len()
    }

    /// Serializes the text, after the original byte-order mark when present;
    /// line endings are emitted exactly as stored.
    pub fn to_bytes(&self) -> (bytes: Vec<u8>)
        ensures
            bytes@ == self.spec_bytes(),
    {
        let mut bytes: Vec<u8> = Vec::new();
        bytes.extend_from_slice(self.bom.as_bytes());
        let chunks = rope_chunks(&self.rope);
        let ghost views = chunks@.map_values(|chunk: &str| chunk@);
        let mut index: usize = 0;
        proof {
            assert(bytes@ =~= bom_bytes(self.bom));
            assert(views.take(0) =~= Seq::<Seq<char>>::empty());
            assert(serialized(self.bom, joined_chunks(views.take(0))) =~= bom_bytes(self.bom));
        }
        while index < chunks.len()
            invariant
                views == chunks@.map_values(|chunk: &str| chunk@),
                index <= chunks@.len(),
                bytes@ == serialized(self.bom, joined_chunks(views.take(index as int))),
            decreases chunks@.len() - index,
        {
            proof {
                lemma_chunk_step(self.bom, views, index as int);
            }
            let ghost before = bytes@;
            let piece = chunks[index].as_bytes();
            bytes.extend_from_slice(piece);
            proof {
                assert(bytes@ =~= before + piece@);
            }
            index = index + 1;
        }
        proof {
            assert(views.take(views.len() as int) =~= views);
        }
        bytes
    }

    /// Returns the current monotonic content revision.
    pub fn revision(&self) -> (revision: Revision)
        ensures
            revision == self.spec_revision(),
    {
        self.revision
    }

    /// Returns whether the serialized content differs from the last
    /// committed snapshot, by fingerprint; revisions keep advancing through
    /// Undo and Redo, so dirtiness is tracked apart from them.
    pub fn is_dirty(&self) -> (dirty: bool)
        ensures
            dirty == (self.spec_fingerprint() != self.spec_saved_fingerprint()),
    {
        !self.content_fingerprint.same_as(&self.saved_content_fingerprint)
    }

    /// Marks recovered content dirty without changing its bytes: the saved
    /// baseline becomes a sentinel fingerprint and the trusted destination is
    /// dropped, so only a save makes it clean.
    pub fn mark_recovered_dirty(&mut self)
        ensures
            final(self).spec_text() == old(self).spec_text(),
            final(self).spec_bom() == old(self).spec_bom(),
            final(self).spec_revision() == old(self).spec_revision(),
            final(self).spec_fingerprint() == old(self).spec_fingerprint(),
            final(self).spec_line_endings() == old(self).spec_line_endings(),
            final(self).spec_saved_fingerprint().spec_digest() == blake3_digest(
                utf8_bytes("\0noter-recovery-unsaved-baseline"@),
            ),
            final(self).spec_saved_target() is None,
            final(self).spec_path() == old(self).spec_path(),
            old(self).well_formed() ==> final(self).well_formed(),
    {
        let sentinel = "\0noter-recovery-unsaved-baseline";
        self.saved_content_fingerprint = ContentFingerprint::from_bytes(sentinel.as_bytes());
        self.saved_target = None;
    }

    /// Records the file the document was loaded from, and the trusted
    /// destination observed when it was read.
    pub fn record_loaded_target(&mut self, path: PathBuf, observation: FileObservation)
        ensures
            final(self).spec_path() == Some(path),
            final(self).spec_text() == old(self).spec_text(),
            final(self).spec_bom() == old(self).spec_bom(),
            final(self).spec_revision() == old(self).spec_revision(),
            final(self).spec_fingerprint() == old(self).spec_fingerprint(),
            final(self).spec_line_endings() == old(self).spec_line_endings(),
            final(self).spec_saved_fingerprint() == old(self).spec_saved_fingerprint(),
            final(self).spec_saved_target() == Some(TargetExpectation::Existing(observation)),
            old(self).well_formed() ==> final(self).well_formed(),
    {
        self.saved_target = Some(TargetExpectation::Existing(observation));
        self.path = Some(path);
    }

    /// Records a committed save of `revision` to `path` that left
    /// `observation` on disk. Only a commit of the current revision makes the
    /// document clean and rebaselines it, and only then does a Save As
    /// (`adopt_path`) make `path` the document's own; returns whether the
    /// commit was adopted.
    pub fn record_committed_save(
        &mut self,
        revision: Revision,
        observation: FileObservation,
        path: PathBuf,
        adopt_path: bool,
    ) -> (adopted: bool)
        ensures
            adopted && adopt_path ==> final(self).spec_path() == Some(path),
            !(adopted && adopt_path) ==> final(self).spec_path() == old(self).spec_path(),
            adopted == (revision == old(self).spec_revision()),
            final(self).spec_text() == old(self).spec_text(),
            final(self).spec_bom() == old(self).spec_bom(),
            final(self).spec_revision() == old(self).spec_revision(),
            final(self).spec_fingerprint() == old(self).spec_fingerprint(),
            final(self).spec_line_endings() == old(self).spec_line_endings(),
            adopted ==> final(self).spec_saved_fingerprint() == old(self).spec_fingerprint()
                && final(self).spec_saved_target() == Some(
                TargetExpectation::Existing(observation),
            ),
            !adopted ==> final(self).spec_saved_fingerprint() == old(
                self,
            ).spec_saved_fingerprint() && final(self).spec_saved_target() == old(
                self,
            ).spec_saved_target(),
            old(self).well_formed() ==> final(self).well_formed(),
    {
        if revision == self.revision {
            self.saved_content_fingerprint = self.content_fingerprint;
            self.saved_target = Some(TargetExpectation::Existing(observation));
            if adopt_path {
                self.path = Some(path);
            }
            true
        } else {
            false
        }
    }

    /// Applies one validated source transaction atomically, building its
    /// inverse in `reserved`, an empty vector with room for it.
    ///
    /// The base revision, ordered UTF-8 byte ranges, expected removed text,
    /// the ceiling, and both selections are validated before the text or
    /// revision changes; a rejected transaction leaves the document as it
    /// was. Success returns the exact inverse required for Undo.
    pub fn apply_reserved_transaction(
        &mut self,
        transaction: &EditTransaction,
        reserved: Vec<TextEdit>,
    ) -> (result: Result<AppliedTransaction, EditError>)
        requires
            old(self).well_formed(),
            reserved@.len() == 0,
        ensures
            final(self).well_formed(),
            final(self).spec_bom() == old(self).spec_bom(),
            final(self).spec_saved_fingerprint() == old(self).spec_saved_fingerprint(),
            final(self).spec_saved_target() == old(self).spec_saved_target(),
            final(self).spec_path() == old(self).spec_path(),
            ({
                let source = utf8_bytes(old(self).spec_text());
                let maximum = old(self).spec_maximum_text_bytes() as usize;
                match apply_failure(*transaction, source, old(self).spec_revision(), maximum) {
                    Some(error) => result == Err::<AppliedTransaction, EditError>(error),
                    None => match result_selection_failure(*transaction, source) {
                        Some(error) => result == Err::<AppliedTransaction, EditError>(error),
                        None => result matches Ok(applied) && document_applied(
                            *old(self),
                            *final(self),
                            *transaction,
                            applied,
                        ),
                    },
                }
            }),
            result is Err ==> final(self).spec_text() == old(self).spec_text()
                && final(self).spec_revision() == old(self).spec_revision()
                && final(self).spec_fingerprint() == old(self).spec_fingerprint()
                && final(self).spec_line_endings() == old(self).spec_line_endings(),
    {
        let maximum = self.maximum_text_bytes();
        let (replacement, applied) = match transaction.apply_with_reserved(
            &self.rope,
            self.revision,
            maximum,
            reserved,
        ) {
            Ok(done) => done,
            Err(error) => return Err(error),
        };
        let ghost source = utf8_bytes(rope_chars(self.rope));
        proof {
            assert(apply_failure(*transaction, source, self.revision, maximum) is None);
            crate::undo::lemma_applied_length(
                *transaction,
                rope_chars(self.rope),
                self.revision,
                maximum,
            );
        }
        self.content_fingerprint = serialized_fingerprint(self.bom, &replacement);
        let replacement_text = rope_to_string(&replacement);
        self.line_endings = LineEndingProfile::detect(replacement_text.as_str());
        self.rope = replacement;
        self.revision = applied.revision();
        Ok(applied)
    }

    /// Applies one validated source transaction atomically.
    ///
    /// Every check runs before the allocator is asked for the inverse's
    /// room, so a refused allocation never hides a rejection; with the room
    /// granted, `apply_reserved_transaction` does the rest.
    pub fn apply_transaction(
        &mut self,
        transaction: &EditTransaction,
    ) -> (result: Result<AppliedTransaction, EditError>)
        requires
            old(self).well_formed(),
        ensures
            final(self).well_formed(),
            final(self).spec_bom() == old(self).spec_bom(),
            final(self).spec_saved_fingerprint() == old(self).spec_saved_fingerprint(),
            final(self).spec_saved_target() == old(self).spec_saved_target(),
            final(self).spec_path() == old(self).spec_path(),
            ({
                let source = utf8_bytes(old(self).spec_text());
                let maximum = old(self).spec_maximum_text_bytes() as usize;
                match apply_failure(*transaction, source, old(self).spec_revision(), maximum) {
                    Some(error) => result == Err::<AppliedTransaction, EditError>(error),
                    None => match result {
                        Ok(applied) => {
                            &&& result_selection_failure(*transaction, source) is None
                            &&& document_applied(*old(self), *final(self), *transaction, applied)
                        },
                        Err(EditError::AllocationUnavailable { requested_edits }) => requested_edits
                            == transaction.spec_edits().len(),
                        Err(error) => result_selection_failure(*transaction, source) == Some(
                            error,
                        ),
                    },
                }
            }),
            result is Err ==> final(self).spec_text() == old(self).spec_text()
                && final(self).spec_revision() == old(self).spec_revision()
                && final(self).spec_fingerprint() == old(self).spec_fingerprint()
                && final(self).spec_line_endings() == old(self).spec_line_endings(),
    {
        let maximum = self.maximum_text_bytes();
        match transaction.check_applicable(&self.rope, self.revision, maximum) {
            Ok(_) => {},
            Err(error) => return Err(error),
        }
        let reserved = match transaction.reserve_inverse() {
            Some(reserved) => reserved,
            None => {
                return Err(
                    EditError::AllocationUnavailable {
                        requested_edits: transaction.edits().len(),
                    },
                )
            },
        };
        self.apply_reserved_transaction(transaction, reserved)
    }

    /// The programmatic transaction that replaces the whole text with
    /// `text`, checked against `maximum` first: `None` when the text is
    /// unchanged. The transaction's own checks against this document are
    /// stated exactly, so that applying it fails only as they say.
    fn replacement_transaction(&self, text: &str, maximum: usize) -> (result: Result<
        Option<EditTransaction>,
        DocumentError,
    >)
        ensures
            utf8_bytes(text@).len() > maximum ==> result == Err::<
                Option<EditTransaction>,
                DocumentError,
            >(
                DocumentError::Edit(
                    EditError::ResultTooLarge {
                        projected: utf8_bytes(text@).len() as usize,
                        maximum,
                    },
                ),
            ),
            utf8_bytes(text@).len() <= maximum && text@ == self.spec_text() ==> result == Ok::<
                Option<EditTransaction>,
                DocumentError,
            >(None),
            utf8_bytes(text@).len() <= maximum && text@ != self.spec_text() ==> (result matches Ok(
                Some(transaction),
            ) && {
                let source = utf8_bytes(self.spec_text());
                let ceiling = self.spec_maximum_text_bytes() as usize;
                &&& transaction.spec_edits().len() == 1
                &&& apply_failure(transaction, source, self.spec_revision(), ceiling) == if self.spec_revision().spec_value() == u64::MAX {
                    Some(EditError::RevisionExhausted)
                } else if utf8_bytes(text@).len() > ceiling {
                    Some(
                        EditError::ResultTooLarge {
                            projected: utf8_bytes(text@).len() as usize,
                            maximum: ceiling,
                        },
                    )
                } else {
                    None::<EditError>
                }
                &&& result_selection_failure(transaction, source) is None
                &&& applied_bytes(transaction, source) == utf8_bytes(text@)
            }),
    {
        let length = str_len(text);
        if length > maximum {
            return Err(
                DocumentError::Edit(EditError::ResultTooLarge { projected: length, maximum }),
            );
        }
        let before = crate::rope_text::rope_to_string(&self.rope);
        let before_length = str_len(before.as_str());
        proof {
            encode_utf8_valid_utf8(before@);
            encode_utf8_valid_utf8(text@);
            is_char_boundary_start_end_of_seq(utf8_bytes(before@));
            is_char_boundary_start_end_of_seq(text.spec_bytes());
        }
        let transaction = match EditTransaction::between(
            self.revision,
            before.as_str(),
            text,
            Selection::caret(before_length),
            Selection::caret(length),
            EditOrigin::Programmatic,
            EditTimestamp::new(zero_duration()),
        ) {
            Ok(Some(transaction)) => transaction,
            Ok(None) => return Ok(None),
            Err(error) => return Err(DocumentError::Edit(error)),
        };
        proof {
            crate::undo::lemma_minimal_replacement_passes(
                transaction.spec_edits(),
                before@,
                text@,
                self.spec_maximum_text_bytes() as usize,
            );
            crate::undo::lemma_between_applies(transaction, before@, text@);
            is_char_boundary_start_end_of_seq(utf8_bytes(text@));
        }
        Ok(Some(transaction))
    }

    /// Replaces the text with `text` as one programmatic transaction when it
    /// differs, and returns whether it did; the text must fit `maximum`
    /// bytes.
    ///
    /// # Errors
    ///
    /// An edit error when `text` exceeds `maximum` or the transaction is
    /// rejected, and `RevisionExhausted` when the revision cannot advance.
    pub fn replace_text_with_maximum(
        &mut self,
        text: &str,
        maximum: usize,
    ) -> (result: Result<bool, DocumentError>)
        requires
            old(self).well_formed(),
        ensures
            final(self).well_formed(),
            utf8_bytes(text@).len() > maximum ==> result == Err::<bool, DocumentError>(
                DocumentError::Edit(
                    EditError::ResultTooLarge {
                        projected: utf8_bytes(text@).len() as usize,
                        maximum,
                    },
                ),
            ),
            utf8_bytes(text@).len() <= maximum && text@ == old(self).spec_text() ==> result == Ok::<
                bool,
                DocumentError,
            >(false),
            utf8_bytes(text@).len() <= maximum && text@ != old(self).spec_text() ==> if old(
                self,
            ).spec_revision().spec_value() == u64::MAX {
                result == Err::<bool, DocumentError>(DocumentError::RevisionExhausted)
            } else if utf8_bytes(text@).len() > old(self).spec_maximum_text_bytes() {
                result == Err::<bool, DocumentError>(
                    DocumentError::Edit(
                        EditError::ResultTooLarge {
                            projected: utf8_bytes(text@).len() as usize,
                            maximum: old(self).spec_maximum_text_bytes() as usize,
                        },
                    ),
                )
            } else {
                result == Ok::<bool, DocumentError>(true) || result == Err::<bool, DocumentError>(
                    DocumentError::Edit(EditError::AllocationUnavailable { requested_edits: 1 }),
                )
            },
            result matches Ok(true) ==> final(self).spec_text() == text@
                && final(self).spec_revision().spec_value() == old(self).spec_revision().spec_value()
                + 1,
            !(result matches Ok(true)) ==> final(self).spec_text() == old(self).spec_text()
                && final(self).spec_revision() == old(self).spec_revision(),
            final(self).spec_bom() == old(self).spec_bom(),
            final(self).spec_saved_fingerprint() == old(self).spec_saved_fingerprint(),
            final(self).spec_saved_target() == old(self).spec_saved_target(),
            final(self).spec_path() == old(self).spec_path(),
    {
        let transaction = match self.replacement_transaction(text, maximum) {
            Ok(Some(transaction)) => transaction,
            Ok(None) => return Ok(false),
            Err(error) => return Err(error),
        };
        match self.apply_transaction(&transaction) {
            Ok(_) => {
                proof {
                    crate::utf8_text::lemma_encode_injective(self.spec_text(), text@);
                }
                Ok(true)
            },
            Err(EditError::RevisionExhausted) => Err(DocumentError::RevisionExhausted),
            Err(error) => Err(DocumentError::Edit(error)),
        }
    }

    /// Replaces the text as `replace_text_with_maximum` does, building the
    /// inverse in `reserved`, an empty vector with room for one edit.
    pub fn replace_text_with_reserved(
        &mut self,
        text: &str,
        maximum: usize,
        reserved: Vec<TextEdit>,
    ) -> (result: Result<bool, DocumentError>)
        requires
            old(self).well_formed(),
            reserved@.len() == 0,
        ensures
            final(self).well_formed(),
            utf8_bytes(text@).len() > maximum ==> result == Err::<bool, DocumentError>(
                DocumentError::Edit(
                    EditError::ResultTooLarge {
                        projected: utf8_bytes(text@).len() as usize,
                        maximum,
                    },
                ),
            ),
            utf8_bytes(text@).len() <= maximum && text@ == old(self).spec_text() ==> result == Ok::<
                bool,
                DocumentError,
            >(false),
            utf8_bytes(text@).len() <= maximum && text@ != old(self).spec_text() ==> if old(
                self,
            ).spec_revision().spec_value() == u64::MAX {
                result == Err::<bool, DocumentError>(DocumentError::RevisionExhausted)
            } else if utf8_bytes(text@).len() > old(self).spec_maximum_text_bytes() {
                result == Err::<bool, DocumentError>(
                    DocumentError::Edit(
                        EditError::ResultTooLarge {
                            projected: utf8_bytes(text@).len() as usize,
                            maximum: old(self).spec_maximum_text_bytes() as usize,
                        },
                    ),
                )
            } else {
                result == Ok::<bool, DocumentError>(true)
            },
            result matches Ok(true) ==> final(self).spec_text() == text@
                && final(self).spec_revision().spec_value() == old(self).spec_revision().spec_value()
                + 1,
            !(result matches Ok(true)) ==> final(self).spec_text() == old(self).spec_text()
                && final(self).spec_revision() == old(self).spec_revision(),
            final(self).spec_bom() == old(self).spec_bom(),
            final(self).spec_saved_fingerprint() == old(self).spec_saved_fingerprint(),
            final(self).spec_saved_target() == old(self).spec_saved_target(),
            final(self).spec_path() == old(self).spec_path(),
    {
        let transaction = match self.replacement_transaction(text, maximum) {
            Ok(Some(transaction)) => transaction,
            Ok(None) => return Ok(false),
            Err(error) => return Err(error),
        };
        match self.apply_reserved_transaction(&transaction, reserved) {
            Ok(_) => {
                proof {
                    crate::utf8_text::lemma_encode_injective(self.spec_text(), text@);
                }
                Ok(true)
            },
            Err(EditError::RevisionExhausted) => Err(DocumentError::RevisionExhausted),
            Err(error) => Err(DocumentError::Edit(error)),
        }
    }

    /// Replaces the text, bounded by the document ceiling beside the
    /// byte-order mark.
    pub fn replace_text(&mut self, text: &str) -> (result: Result<bool, DocumentError>)
        requires
            old(self).well_formed(),
        ensures
            final(self).well_formed(),
            utf8_bytes(text@).len() > old(self).spec_maximum_text_bytes() ==> result == Err::<
                bool,
                DocumentError,
            >(
                DocumentError::Edit(
                    EditError::ResultTooLarge {
                        projected: utf8_bytes(text@).len() as usize,
                        maximum: old(self).spec_maximum_text_bytes() as usize,
                    },
                ),
            ),
            utf8_bytes(text@).len() <= old(self).spec_maximum_text_bytes() && text@ == old(
                self,
            ).spec_text() ==> result == Ok::<bool, DocumentError>(false),
            utf8_bytes(text@).len() <= old(self).spec_maximum_text_bytes() && text@ != old(
                self,
            ).spec_text() ==> if old(self).spec_revision().spec_value() == u64::MAX {
                result == Err::<bool, DocumentError>(DocumentError::RevisionExhausted)
            } else {
                result == Ok::<bool, DocumentError>(true) || result == Err::<bool, DocumentError>(
                    DocumentError::Edit(EditError::AllocationUnavailable { requested_edits: 1 }),
                )
            },
            result matches Ok(true) ==> final(self).spec_text() == text@
                && final(self).spec_revision().spec_value() == old(self).spec_revision().spec_value()
                + 1,
            !(result matches Ok(true)) ==> final(self).spec_text() == old(self).spec_text()
                && final(self).spec_revision() == old(self).spec_revision(),
            final(self).spec_bom() == old(self).spec_bom(),
            final(self).spec_saved_fingerprint() == old(self).spec_saved_fingerprint(),
            final(self).spec_saved_target() == old(self).spec_saved_target(),
            final(self).spec_path() == old(self).spec_path(),
    {
        let maximum = self.maximum_text_bytes();
        self.replace_text_with_maximum(text, maximum)
    }
    /// Where a plain save writes and what it expects to find there: the
    /// document's path and its trusted baseline, once a hard-linked
    /// destination was confirmed.
    ///
    /// # Errors
    ///
    /// `NoPath` for an untitled document, `MissingFileBaseline` when no
    /// trusted load or save observation exists, and `HardLinkedTarget` when
    /// the destination has other names and `hard_link_confirmed` is false.
    pub fn save_destination(&self, hard_link_confirmed: bool) -> (result: Result<
        (&PathBuf, TargetExpectation),
        DocumentError,
    >)
        ensures
            match (self.spec_path(), self.spec_saved_target()) {
                (None, _) => result == Err::<(&PathBuf, TargetExpectation), DocumentError>(
                    DocumentError::NoPath,
                ),
                (Some(_), None) => result == Err::<(&PathBuf, TargetExpectation), DocumentError>(
                    DocumentError::MissingFileBaseline,
                ),
                (Some(path), Some(expected)) => match result {
                    Ok((chosen, kept)) => *chosen == path && kept == expected
                        && (require_hard_link_confirmation_spec(expected, hard_link_confirmed)
                        is None),
                    Err(error) => require_hard_link_confirmation_spec(
                        expected,
                        hard_link_confirmed,
                    ) == Some(error),
                },
            },
    {
        let path = match &self.path {
            Some(path) => path,
            None => return Err(DocumentError::NoPath),
        };
        let expected = match self.saved_target {
            Some(expected) => expected,
            None => return Err(DocumentError::MissingFileBaseline),
        };
        match require_hard_link_confirmation(expected, hard_link_confirmed) {
            Ok(()) => Ok((path, expected)),
            Err(error) => Err(error),
        }
    }

    /// Prepares a Save As to `path` from what is known of it: whether it is
    /// the document's current path, and otherwise the state an inspection
    /// found there. The current path keeps its trusted baseline and is not
    /// adopted again; another path expects what was found and is adopted
    /// after the save commits.
    ///
    /// # Errors
    ///
    /// `MissingFileBaseline` for the current path without a trusted
    /// baseline, and `UnsupportedTarget` for a special entry.
    pub fn prepare_save_as(
        &self,
        path: PathBuf,
        is_current_path: bool,
        inspected: Option<TargetState>,
    ) -> (result: Result<PreparedSaveAs, DocumentError>)
        requires
            !is_current_path ==> (inspected is Some),
        ensures
            is_current_path ==> match self.spec_saved_target() {
                None => result == Err::<PreparedSaveAs, DocumentError>(
                    DocumentError::MissingFileBaseline,
                ),
                Some(expected) => result matches Ok(prepared) && prepared.spec_path() == path
                    && prepared.spec_expected() == expected && !prepared.spec_adopt_path(),
            },
            !is_current_path ==> match inspected->0 {
                TargetState::Missing => result matches Ok(prepared) && prepared.spec_path() == path
                    && prepared.spec_expected() == TargetExpectation::Missing
                    && prepared.spec_adopt_path(),
                TargetState::Regular(observation) => result matches Ok(prepared)
                    && prepared.spec_path() == path && prepared.spec_expected()
                    == TargetExpectation::Existing(observation) && prepared.spec_adopt_path(),
                TargetState::Special(kind) => result == Err::<PreparedSaveAs, DocumentError>(
                    DocumentError::UnsupportedTarget(kind),
                ),
            },
    {
        if is_current_path {
            return match self.saved_target {
                Some(expected) => Ok(PreparedSaveAs::new(path, expected, false)),
                None => Err(DocumentError::MissingFileBaseline),
            };
        }
        match inspected {
            Some(TargetState::Missing) => Ok(PreparedSaveAs::new(
                path,
                TargetExpectation::Missing,
                true,
            )),
            Some(TargetState::Regular(observation)) => Ok(
                PreparedSaveAs::new(path, TargetExpectation::Existing(observation), true),
            ),
            Some(TargetState::Special(kind)) => Err(DocumentError::UnsupportedTarget(kind)),
            None => Err(DocumentError::MissingFileBaseline),
        }
    }
}

/// What applying `transaction` made of a document: the produced bytes, the
/// next revision, the after-selection and the exact inverse.
pub open spec fn document_applied(
    before: Document,
    after: Document,
    transaction: EditTransaction,
    applied: AppliedTransaction,
) -> bool {
    &&& utf8_bytes(after.spec_text()) == applied_bytes(transaction, utf8_bytes(before.spec_text()))
    &&& after.spec_revision() == applied.spec_revision()
    &&& applied.spec_base_revision() == before.spec_revision()
    &&& applied.spec_revision().spec_value() == before.spec_revision().spec_value() + 1
    &&& applied.spec_selection() == transaction.spec_selection_after()
    &&& is_inverse_of(applied.spec_inverse(), transaction, applied.spec_revision())
    &&& after.spec_line_endings() == detect_profile(after.spec_text())
}

} // verus!
