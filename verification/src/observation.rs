//! What the editor knows about a destination path: a captured regular-file
//! observation, a special entry, or absence, and the trusted expectation a
//! save compares against.

use vstd::prelude::*;

verus! {

/// A final path entry that is neither missing nor a regular file.
#[derive(Clone, Copy, PartialEq, Eq, Structural, Hash, Debug)]
pub enum SpecialFileKind {
    /// A symbolic link or reparse point.
    SymbolicLink,
    /// A directory.
    Directory,
    /// Any other non-regular entry.
    Other,
}

/// How strongly a file identity distinguishes file objects.
#[derive(Clone, Copy, PartialEq, Eq, Structural, Hash, Debug)]
pub enum IdentityQuality {
    /// The platform's preferred stable identity.
    Preferred,
    /// A weaker identity that the platform could still provide.
    Reduced,
}

/// The identity of one file object: its volume and file numbers.
#[derive(Clone, Copy, PartialEq, Eq, Structural, Hash, Debug)]
pub struct FileIdentity {
    volume: u128,
    file: u128,
    quality: IdentityQuality,
}

impl FileIdentity {
    /// The volume number.
    pub closed spec fn spec_volume(self) -> u128 {
        self.volume
    }

    /// The file number within the volume.
    pub closed spec fn spec_file(self) -> u128 {
        self.file
    }

    /// The identity's quality.
    pub closed spec fn spec_quality(self) -> IdentityQuality {
        self.quality
    }

    /// An identity is determined by its volume, file number and quality.
    pub proof fn lemma_identity_fields(self, other: Self)
        ensures
            (self.spec_volume() == other.spec_volume() && self.spec_file() == other.spec_file()
                && self.spec_quality() == other.spec_quality()) <==> self == other,
    {
    }

    /// Creates a preferred-quality identity.
    pub fn new(volume: u128, file: u128) -> (identity: Self)
        ensures
            identity.spec_volume() == volume,
            identity.spec_file() == file,
            identity.spec_quality() == IdentityQuality::Preferred,
    {
        FileIdentity { volume, file, quality: IdentityQuality::Preferred }
    }

    /// Creates a reduced-quality identity.
    pub fn reduced(volume: u128, file: u128) -> (identity: Self)
        ensures
            identity.spec_volume() == volume,
            identity.spec_file() == file,
            identity.spec_quality() == IdentityQuality::Reduced,
    {
        FileIdentity { volume, file, quality: IdentityQuality::Reduced }
    }

    /// Returns the volume number.
    pub fn volume(&self) -> (volume: u128)
        ensures
            volume == self.spec_volume(),
    {
        self.volume
    }

    /// Returns the file number within the volume.
    pub fn file(&self) -> (file: u128)
        ensures
            file == self.spec_file(),
    {
        self.file
    }

    /// Returns how strongly this identity distinguishes file objects.
    pub fn quality(&self) -> (quality: IdentityQuality)
        ensures
            quality == self.spec_quality(),
    {
        self.quality
    }
}

/// The BLAKE3 digest of `bytes`.
pub uninterp spec fn blake3_digest(bytes: Seq<u8>) -> Seq<u8>;

/// `blake3::hash`: the 32-byte BLAKE3 digest of `bytes`. The digest is a
/// function of the bytes alone; which bytes it is is left to the crate.
#[verifier::external_body]
fn blake3_hash(bytes: &[u8]) -> (digest: [u8; 32])
    ensures
        digest@ == blake3_digest(bytes@),
{
    *blake3::hash(bytes).as_bytes()
}

/// The incremental BLAKE3 hasher of the `blake3` crate.
#[verifier::external_type_specification]
#[verifier::external_body]
pub struct ExHasher(blake3::Hasher);

/// The bytes fed to a hasher so far.
pub uninterp spec fn hasher_input(hasher: blake3::Hasher) -> Seq<u8>;

/// `blake3::Hasher::new`: a hasher that has seen no input.
#[verifier::external_body]
pub(crate) fn hasher_new() -> (hasher: blake3::Hasher)
    ensures
        hasher_input(hasher) == Seq::<u8>::empty(),
{
    blake3::Hasher::new()
}

/// `blake3::Hasher::update`: feeds `input` after what the hasher has seen.
#[verifier::external_body]
pub(crate) fn hasher_update(hasher: &mut blake3::Hasher, input: &[u8])
    ensures
        hasher_input(*final(hasher)) == hasher_input(*old(hasher)) + input@,
{
    hasher.update(input);
}

/// `blake3::Hasher::finalize`: the digest of everything fed so far, which the
/// crate documents to equal `blake3::hash` of the concatenated input.
#[verifier::external_body]
pub(crate) fn hasher_finalize(hasher: &blake3::Hasher) -> (digest: [u8; 32])
    ensures
        digest@ == blake3_digest(hasher_input(*hasher)),
{
    *hasher.finalize().as_bytes()
}

/// A BLAKE3 digest of exact serialized content.
#[derive(Clone, Copy, PartialEq, Eq, Hash, Debug)]
pub struct ContentFingerprint {
    digest: [u8; 32],
}

impl ContentFingerprint {
    /// The digest bytes.
    pub closed spec fn spec_digest(self) -> Seq<u8> {
        self.digest@
    }

    /// Fingerprints are equal exactly when their digests are.
    pub proof fn lemma_digest_determines(self, other: Self)
        ensures
            self.spec_digest() == other.spec_digest() <==> self == other,
    {
        broadcast use vstd::array::axiom_array_ext_equal;

        if self.spec_digest() == other.spec_digest() {
            assert(self.digest =~= other.digest);
        }
    }

    /// Returns whether both fingerprints hold the same digest.
    pub fn same_as(&self, other: &Self) -> (same: bool)
        ensures
            same == (*self == *other),
    {
        broadcast use vstd::array::axiom_array_ext_equal;

        let mut index: usize = 0;
        while index < 32
            invariant
                index <= 32,
                forall|i: int| 0 <= i < index ==> self.digest@[i] == other.digest@[i],
            decreases 32 - index,
        {
            if self.digest[index] != other.digest[index] {
                return false;
            }
            index = index + 1;
        }
        assert(self.digest =~= other.digest);
        true
    }

    /// Wraps an already computed digest.
    pub fn new(digest: [u8; 32]) -> (fingerprint: Self)
        ensures
            fingerprint.spec_digest() == digest@,
    {
        ContentFingerprint { digest }
    }

    /// Fingerprints exact content.
    pub fn from_bytes(bytes: &[u8]) -> (fingerprint: Self)
        ensures
            fingerprint.spec_digest() == blake3_digest(bytes@),
    {
        ContentFingerprint { digest: blake3_hash(bytes) }
    }

    /// Returns the digest bytes.
    pub fn as_bytes(&self) -> (digest: &[u8; 32])
        ensures
            digest@ == self.spec_digest(),
    {
        &self.digest
    }
}

/// An opaque platform change stamp (modification time or equivalent).
#[derive(Clone, Copy, PartialEq, Eq, Structural, Hash, Debug)]
pub struct FileChangeToken {
    primary: i64,
    secondary: u32,
}

impl FileChangeToken {
    /// The primary stamp.
    pub closed spec fn spec_primary(self) -> i64 {
        self.primary
    }

    /// The secondary stamp.
    pub closed spec fn spec_secondary(self) -> u32 {
        self.secondary
    }

    /// Creates a change token from its two stamps.
    pub fn new(primary: i64, secondary: u32) -> (token: Self)
        ensures
            token.spec_primary() == primary,
            token.spec_secondary() == secondary,
    {
        FileChangeToken { primary, secondary }
    }

    /// Returns the primary stamp.
    pub fn primary(&self) -> (primary: i64)
        ensures
            primary == self.spec_primary(),
    {
        self.primary
    }

    /// Returns the secondary stamp.
    pub fn secondary(&self) -> (secondary: u32)
        ensures
            secondary == self.spec_secondary(),
    {
        self.secondary
    }
}

/// Everything captured about one stable regular file: identity, content
/// fingerprint, length, hard-link count and change stamp.
#[derive(Clone, Copy, PartialEq, Eq, Hash, Debug)]
pub struct FileObservation {
    identity: FileIdentity,
    fingerprint: ContentFingerprint,
    length: u64,
    link_count: u64,
    change_token: FileChangeToken,
}

impl FileObservation {
    /// The file object's identity.
    pub closed spec fn spec_identity(self) -> FileIdentity {
        self.identity
    }

    /// The content fingerprint.
    pub closed spec fn spec_fingerprint(self) -> ContentFingerprint {
        self.fingerprint
    }

    /// The content length in bytes.
    pub closed spec fn spec_length(self) -> u64 {
        self.length
    }

    /// The number of directory entries naming the file.
    pub closed spec fn spec_link_count(self) -> u64 {
        self.link_count
    }

    /// The change stamp.
    pub closed spec fn spec_change_token(self) -> FileChangeToken {
        self.change_token
    }

    /// Creates an observation from its captured parts.
    pub fn new(
        identity: FileIdentity,
        fingerprint: ContentFingerprint,
        length: u64,
        link_count: u64,
        change_token: FileChangeToken,
    ) -> (observation: Self)
        ensures
            observation.spec_identity() == identity,
            observation.spec_fingerprint() == fingerprint,
            observation.spec_length() == length,
            observation.spec_link_count() == link_count,
            observation.spec_change_token() == change_token,
    {
        FileObservation { identity, fingerprint, length, link_count, change_token }
    }

    /// Two observations are equal exactly when every captured part is.
    pub proof fn lemma_observation_fields(self, other: Self)
        ensures
            (self.spec_identity() == other.spec_identity() && self.spec_fingerprint()
                == other.spec_fingerprint() && self.spec_length() == other.spec_length()
                && self.spec_link_count() == other.spec_link_count()
                && self.spec_change_token() == other.spec_change_token()) <==> self == other,
    {
    }

    /// Returns whether both observations captured exactly the same file state.
    pub fn same_as(&self, other: &Self) -> (same: bool)
        ensures
            same == (*self == *other),
    {
        proof {
            self.fingerprint.lemma_digest_determines(other.fingerprint);
        }
        self.identity == other.identity && self.fingerprint.same_as(&other.fingerprint)
            && self.length == other.length && self.link_count == other.link_count
            && self.change_token == other.change_token
    }

    /// Returns the file object's identity.
    pub fn identity(&self) -> (identity: FileIdentity)
        ensures
            identity == self.spec_identity(),
    {
        self.identity
    }

    /// Returns the content fingerprint.
    pub fn fingerprint(&self) -> (fingerprint: ContentFingerprint)
        ensures
            fingerprint == self.spec_fingerprint(),
    {
        self.fingerprint
    }

    /// Returns the content length in bytes.
    pub fn length(&self) -> (length: u64)
        ensures
            length == self.spec_length(),
    {
        self.length
    }

    /// Returns the number of directory entries naming the file.
    pub fn link_count(&self) -> (link_count: u64)
        ensures
            link_count == self.spec_link_count(),
    {
        self.link_count
    }

    /// Returns the change stamp.
    pub fn change_token(&self) -> (change_token: FileChangeToken)
        ensures
            change_token == self.spec_change_token(),
    {
        self.change_token
    }
}

/// The state of a destination path as one inspection found it.
#[derive(Clone, Copy, PartialEq, Eq, Hash, Debug)]
pub enum TargetState {
    /// Nothing exists at the path.
    Missing,
    /// A stable regular file, as observed.
    Regular(FileObservation),
    /// A link, directory, or other special entry.
    Special(SpecialFileKind),
}

/// What a save expects to find at its destination.
#[derive(Clone, Copy, PartialEq, Eq, Hash, Debug)]
pub enum TargetExpectation {
    /// The destination must still be absent.
    Missing,
    /// The destination must still be exactly this regular file.
    Existing(FileObservation),
}

/// Whether `state` is exactly what `expected` allows.
pub open spec fn expectation_matches(expected: TargetExpectation, state: TargetState) -> bool {
    match expected {
        TargetExpectation::Missing => state is Missing,
        TargetExpectation::Existing(observation) => state == TargetState::Regular(observation),
    }
}

impl TargetState {
    /// Returns whether both inspections found exactly the same state.
    pub fn same_as(&self, other: &Self) -> (same: bool)
        ensures
            same == (*self == *other),
    {
        match (self, other) {
            (TargetState::Missing, TargetState::Missing) => true,
            (TargetState::Regular(first), TargetState::Regular(second)) => first.same_as(second),
            (TargetState::Special(first), TargetState::Special(second)) => *first == *second,
            _ => false,
        }
    }
}

impl TargetExpectation {
    /// Returns whether `state` is exactly what this expectation allows: the
    /// same absence, or the same regular-file observation.
    pub fn matches_state(self, state: TargetState) -> (matches: bool)
        ensures
            matches == expectation_matches(self, state),
    {
        match (self, state) {
            (TargetExpectation::Missing, TargetState::Missing) => true,
            (TargetExpectation::Existing(expected), TargetState::Regular(observed)) => expected.same_as(
                &observed,
            ),
            _ => false,
        }
    }
}

} // verus!
