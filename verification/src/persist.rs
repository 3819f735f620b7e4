//! Snapshot persistence: the header that gates reuse, the persisted forms of the
//! two metadata types that correctness rests on, and their encoding.
//!
//! The encoding is bincode with its standard configuration. Any structural change
//! to a persisted type must bump `SNAPSHOT_SCHEMA_VERSION`; a header mismatch is a
//! silent cold start, never an error.
use vstd::prelude::*;
use vstd::string::*;

use crate::force_dirty::{ForceDirtyHistory, ForceDirtyView, InvalidationSourcePriority};
use crate::text::{append_decimal, decimal};
use crate::versions::{VersionNumber, VersionRange, VersionRanges};

verus! {

/// Bump on any change to the persisted types below: the encoding is sensitive to
/// the order and the types of fields. A mismatch is a cold start.
pub const SNAPSHOT_SCHEMA_VERSION: u32 = 1;

/// `DICE`, a zero byte, `SNP`.
pub const SNAPSHOT_MAGIC: [u8; 8] = [68, 73, 67, 69, 0, 83, 78, 80];

/// Why persisting or restoring failed.
#[derive(Debug, PartialEq, Eq)]
pub enum PersistError {
    /// The value could not be encoded.
    Encode,
    /// The bytes do not begin with an encoded value, for the reason that bincode gives.
    Decode { message: String },
    /// The bytes go on after the encoded value.
    TrailingBytes { count: usize },
    /// A stored invalidation priority is none of the known ones.
    Priority { found: u8 },
    /// A record's parts are not in order, or its value is missing.
    Record,
}

impl PersistError {
    /// What the error says.
    pub open spec fn text(self) -> Seq<char> {
        match self {
            PersistError::Encode => "snapshot value cannot be encoded"@,
            PersistError::Decode { message } => message@,
            PersistError::TrailingBytes { count } => "corrupt snapshot: "@ + decimal(count as nat)
                + " trailing bytes after decode"@,
            PersistError::Priority { found } => "corrupt snapshot: invalidation priority "@
                + decimal(found as nat) + " (expected 0..=2)"@,
            PersistError::Record => "corrupt snapshot: a record is not in order"@,
        }
    }

    /// The error as a message for people.
    pub fn message(&self) -> (r: String)
        ensures
            r@ == self.text(),
    {
        match self {
            PersistError::Encode => String::from_str("snapshot value cannot be encoded"),
            PersistError::Decode { message } => message.clone(),
            PersistError::TrailingBytes { count } => {
                let mut out: String = String::from_str("corrupt snapshot: ");
                append_decimal(&mut out, *count as u64);
                out.append(" trailing bytes after decode");
                out
            },
            PersistError::Priority { found } => {
                let mut out: String = String::from_str("corrupt snapshot: invalidation priority ");
                append_decimal(&mut out, *found as u64);
                out.append(" (expected 0..=2)");
                out
            },
            PersistError::Record => String::from_str("corrupt snapshot: a record is not in order"),
        }
    }
}

/// Validated before any node bytes are read. Every mismatch is a silent cold
/// start: persisted state is a cache, never truth.
#[derive(Debug, Clone, Copy, PartialEq, Eq)]
pub struct SnapshotHeader {
    pub magic: [u8; 8],
    pub schema_version: u32,
    /// Digest of the producing binary: reuse across versions is a non-goal.
    pub binary_hash: [u8; 32],
    pub buckconfig_digest: [u8; 32],
    pub cell_digest: [u8; 32],
    pub prelude_digest: [u8; 32],
    pub node_count: u64,
    /// The version that the snapshot was taken at.
    pub max_version: u64,
}

impl View for SnapshotHeader {
    type V = SnapshotHeader;

    open spec fn view(&self) -> SnapshotHeader {
        *self
    }
}

/// Why a snapshot was rejected. For diagnostics only: callers start cold in the
/// same way for every variant.
#[derive(Debug, Clone, Copy, PartialEq, Eq, Structural)]
pub enum HeaderMismatch {
    Magic,
    Schema,
    BinaryHash,
    BuckconfigDigest,
    CellDigest,
    PreludeDigest,
}

/// Whether two digests are the same.
fn digest_eq(a: &[u8; 32], b: &[u8; 32]) -> (r: bool)
    ensures
        r == (a@ == b@),
{
    let mut i: usize = 0;
    while i < 32
        invariant
            i <= 32,
            forall|j: int| 0 <= j < i ==> a@[j] == b@[j],
        decreases 32 - i,
    {
        if a[i] != b[i] {
            return false;
        }
        i += 1;
    }
    assert(a@ =~= b@);
    true
}

impl SnapshotHeader {
    /// Whether this header lets a snapshot be reused where `expected` describes
    /// the present.
    pub open spec fn reusable_for(self, expected: SnapshotHeader) -> bool {
        &&& self.magic@ == SNAPSHOT_MAGIC@
        &&& self.schema_version == expected.schema_version
        &&& self.binary_hash@ == expected.binary_hash@
        &&& self.buckconfig_digest@ == expected.buckconfig_digest@
        &&& self.cell_digest@ == expected.cell_digest@
        &&& self.prelude_digest@ == expected.prelude_digest@
    }

    /// Compares the identity fields in the order in which they are declared and
    /// reports the first that differs.
    pub fn validate(&self, expected: &SnapshotHeader) -> (r: Result<(), HeaderMismatch>)
        ensures
            r is Ok <==> self.reusable_for(*expected),
            r == (if self.magic@ != SNAPSHOT_MAGIC@ {
                Err::<(), HeaderMismatch>(HeaderMismatch::Magic)
            } else if self.schema_version != expected.schema_version {
                Err(HeaderMismatch::Schema)
            } else if self.binary_hash@ != expected.binary_hash@ {
                Err(HeaderMismatch::BinaryHash)
            } else if self.buckconfig_digest@ != expected.buckconfig_digest@ {
                Err(HeaderMismatch::BuckconfigDigest)
            } else if self.cell_digest@ != expected.cell_digest@ {
                Err(HeaderMismatch::CellDigest)
            } else if self.prelude_digest@ != expected.prelude_digest@ {
                Err(HeaderMismatch::PreludeDigest)
            } else {
                Ok(())
            }),
    {
        let mut i: usize = 0;
        while i < 8
            invariant
                i <= 8,
                forall|j: int| 0 <= j < i ==> self.magic@[j] == SNAPSHOT_MAGIC@[j],
            decreases 8 - i,
        {
            if self.magic[i] != SNAPSHOT_MAGIC[i] {
                return Err(HeaderMismatch::Magic);
            }
            i += 1;
        }
        assert(self.magic@ =~= SNAPSHOT_MAGIC@);
        if self.schema_version != expected.schema_version {
            return Err(HeaderMismatch::Schema);
        }
        if !digest_eq(&self.binary_hash, &expected.binary_hash) {
            return Err(HeaderMismatch::BinaryHash);
        }
        if !digest_eq(&self.buckconfig_digest, &expected.buckconfig_digest) {
            return Err(HeaderMismatch::BuckconfigDigest);
        }
        if !digest_eq(&self.cell_digest, &expected.cell_digest) {
            return Err(HeaderMismatch::CellDigest);
        }
        if !digest_eq(&self.prelude_digest, &expected.prelude_digest) {
            return Err(HeaderMismatch::PreludeDigest);
        }
        Ok(())
    }
}

/// A set of versions as it is stored: `[begin, end)` intervals, the end missing
/// from an open last one.
#[derive(Debug, PartialEq, Eq)]
pub struct PersistedVersionRanges {
    pub ranges: Vec<(u64, Option<u64>)>,
}

impl View for PersistedVersionRanges {
    type V = Seq<(u64, Option<u64>)>;

    open spec fn view(&self) -> Seq<(u64, Option<u64>)> {
        self.ranges@
    }
}

/// A range as it is stored.
pub open spec fn stored_range(r: VersionRange) -> (u64, Option<u64>) {
    (
        r.begin.number,
        match r.end {
            Some(e) => Some(e.number),
            None => None,
        },
    )
}

/// The range that a stored one stands for.
pub open spec fn restored_range(p: (u64, Option<u64>)) -> VersionRange {
    VersionRange {
        begin: VersionNumber { number: p.0 },
        end: match p.1 {
            Some(e) => Some(VersionNumber { number: e }),
            None => None,
        },
    }
}

/// Ranges as they are stored.
pub open spec fn stored_ranges(s: Seq<VersionRange>) -> Seq<(u64, Option<u64>)> {
    s.map_values(|x: VersionRange| stored_range(x))
}

/// The ranges that stored ones stand for.
pub open spec fn restored_ranges(s: Seq<(u64, Option<u64>)>) -> Seq<VersionRange> {
    s.map_values(|p: (u64, Option<u64>)| restored_range(p))
}

impl PersistedVersionRanges {
    /// The stored form of `ranges`, range by range.
    pub fn from_internal(ranges: &VersionRanges) -> (r: PersistedVersionRanges)
        ensures
            r@ == stored_ranges(ranges@),
    {
        let parts: &Vec<VersionRange> = ranges.ranges_for_persist();
        let mut out: Vec<(u64, Option<u64>)> = Vec::new();
        let mut i: usize = 0;
        while i < parts.len()
            invariant
                i <= parts@.len(),
                parts@ == ranges@,
                out@ =~= stored_ranges(ranges@.take(i as int)),
            decreases parts@.len() - i,
        {
            let (begin, end) = parts[i].parts_for_persist();
            let stored_end: Option<u64> = match end {
                Some(e) => Some(e.value()),
                None => None,
            };
            out.push((begin.value(), stored_end));
            assert(ranges@.take(i + 1) =~= ranges@.take(i as int).push(ranges@[i as int]));
            i += 1;
        }
        assert(ranges@.take(ranges@.len() as int) =~= ranges@);
        PersistedVersionRanges { ranges: out }
    }

    /// The set of versions that the stored ranges stand for, range by range.
    pub fn into_internal(self) -> (r: VersionRanges)
        ensures
            r@ == restored_ranges(self@),
    {
        let mut out: Vec<VersionRange> = Vec::new();
        let mut i: usize = 0;
        while i < self.ranges.len()
            invariant
                i <= self.ranges@.len(),
                out@ =~= restored_ranges(self@.take(i as int)),
            decreases self.ranges@.len() - i,
        {
            let (begin, end) = self.ranges[i];
            let restored_end: Option<VersionNumber> = match end {
                Some(e) => Some(VersionNumber::new(e)),
                None => None,
            };
            out.push(VersionRange::from_persisted_parts(VersionNumber::new(begin), restored_end));
            assert(self@.take(i + 1) =~= self@.take(i as int).push(self@[i as int]));
            i += 1;
        }
        assert(self@.take(self@.len() as int) =~= self@);
        VersionRanges::from_persisted_ranges(out)
    }
}

/// A force-dirty history as it is stored. Every marker has to survive verbatim,
/// the priority with it.
#[derive(Debug, PartialEq, Eq)]
pub struct PersistedForceDirty {
    pub versions: Vec<u64>,
    /// 0 is ignored, 1 normal, 2 high: numbers of their own, so that reordering
    /// the enum cannot change what is stored.
    pub priority: u8,
}

impl View for PersistedForceDirty {
    type V = (Seq<u64>, u8);

    open spec fn view(&self) -> (Seq<u64>, u8) {
        (self.versions@, self.priority)
    }
}

/// A priority as it is stored.
pub open spec fn stored_priority(p: InvalidationSourcePriority) -> u8 {
    match p {
        InvalidationSourcePriority::Ignored => 0,
        InvalidationSourcePriority::Normal => 1,
        InvalidationSourcePriority::High => 2,
    }
}

/// The priority that a stored one stands for, if it is one of the known ones.
pub open spec fn restored_priority(p: u8) -> Option<InvalidationSourcePriority> {
    if p == 0 {
        Some(InvalidationSourcePriority::Ignored)
    } else if p == 1 {
        Some(InvalidationSourcePriority::Normal)
    } else if p == 2 {
        Some(InvalidationSourcePriority::High)
    } else {
        None
    }
}

/// A force-dirty history as it is stored: one without versions counts as one of
/// normal priority.
pub open spec fn stored_force_dirty(h: ForceDirtyView) -> (Seq<u64>, u8) {
    if h.versions.len() == 0 {
        (Seq::empty(), 1)
    } else {
        (h.versions.map_values(|v: VersionNumber| v.number), stored_priority(h.priority))
    }
}

/// The history that a stored one stands for, if its priority is a known one.
pub open spec fn restored_force_dirty(stored: (Seq<u64>, u8)) -> Option<ForceDirtyView> {
    match restored_priority(stored.1) {
        Some(p) => Some(
            ForceDirtyView::of_parts(
                stored.0.map_values(|n: u64| VersionNumber { number: n }),
                p,
            ),
        ),
        None => None,
    }
}

impl PersistedForceDirty {
    /// The stored form of `history`.
    pub fn from_internal(history: &ForceDirtyHistory) -> (r: PersistedForceDirty)
        ensures
            r@ == stored_force_dirty(history@),
    {
        match history.parts_for_persist() {
            None => PersistedForceDirty { versions: Vec::new(), priority: 1 },
            Some((versions, priority)) => {
                let mut out: Vec<u64> = Vec::new();
                let mut i: usize = 0;
                while i < versions.len()
                    invariant
                        i <= versions@.len(),
                        out@ =~= versions@.take(i as int).map_values(|v: VersionNumber| v.number),
                    decreases versions@.len() - i,
                {
                    out.push(versions[i].value());
                    assert(versions@.take(i + 1) =~= versions@.take(i as int).push(
                        versions@[i as int],
                    ));
                    i += 1;
                }
                assert(versions@.take(versions@.len() as int) =~= versions@);
                let stored: u8 = match priority {
                    InvalidationSourcePriority::Ignored => 0,
                    InvalidationSourcePriority::Normal => 1,
                    InvalidationSourcePriority::High => 2,
                };
                PersistedForceDirty { versions: out, priority: stored }
            },
        }
    }

    /// The history that the stored form stands for; an unknown priority is an
    /// error.
    pub fn into_internal(self) -> (r: Result<ForceDirtyHistory, PersistError>)
        ensures
            match r {
                Ok(history) => restored_force_dirty(self@) == Some(history@),
                Err(e) => restored_force_dirty(self@) is None && e == (PersistError::Priority {
                    found: self.priority,
                }),
            },
    {
        let priority: InvalidationSourcePriority = match self.priority {
            0 => InvalidationSourcePriority::Ignored,
            1 => InvalidationSourcePriority::Normal,
            2 => InvalidationSourcePriority::High,
            other => {
                return Err(PersistError::Priority { found: other });
            },
        };
        let mut out: Vec<VersionNumber> = Vec::new();
        let mut i: usize = 0;
        while i < self.versions.len()
            invariant
                i <= self.versions@.len(),
                out@ =~= self@.0.take(i as int).map_values(|n: u64| VersionNumber { number: n }),
            decreases self.versions@.len() - i,
        {
            out.push(VersionNumber::new(self.versions[i]));
            assert(self@.0.take(i + 1) =~= self@.0.take(i as int).push(self@.0[i as int]));
            i += 1;
        }
        assert(self@.0.take(self@.0.len() as int) =~= self@.0);
        Ok(ForceDirtyHistory::from_persisted_parts(out, priority))
    }
}

/// A header describes a snapshot that may be reused where nothing that it names has
/// changed, however many nodes there are and whatever version it was taken at.
pub proof fn law_unchanged_header_is_reusable(header: SnapshotHeader, expected: SnapshotHeader)
    requires
        header.magic@ == SNAPSHOT_MAGIC@,
        expected == (SnapshotHeader {
            node_count: expected.node_count,
            max_version: expected.max_version,
            ..header
        }),
    ensures
        header.reusable_for(expected),
{
}

/// A set of versions survives being stored and restored, range by range.
pub proof fn law_version_ranges_round_trip(ranges: Seq<VersionRange>)
    ensures
        restored_ranges(stored_ranges(ranges)) == ranges,
{
    assert(restored_ranges(stored_ranges(ranges)) =~= ranges);
}

/// Stored ranges survive being restored and stored again.
pub proof fn law_stored_ranges_round_trip(stored: Seq<(u64, Option<u64>)>)
    ensures
        stored_ranges(restored_ranges(stored)) == stored,
{
    assert(stored_ranges(restored_ranges(stored)) =~= stored);
}

/// A force-dirty history survives being stored and restored: restoring succeeds,
/// every version is there in its place, the priority too where there is a version,
/// and so the same versions are separated as before.
pub proof fn law_force_dirty_round_trip(history: ForceDirtyView)
    ensures
        restored_force_dirty(stored_force_dirty(history)) matches Some(restored) && {
            &&& restored.versions == history.versions
            &&& history.versions.len() > 0 ==> restored == history
            &&& forall|a: int, b: int| #[trigger]
                restored.separates(a, b) == history.separates(a, b)
        },
{
    let (versions, priority) = stored_force_dirty(history);
    assert(versions.map_values(|n: u64| VersionNumber { number: n }) =~= history.versions);
}

/// What an encoding failure of bincode looks like.
#[verifier::external_type_specification]
#[verifier::external_body]
pub struct ExEncodeError(bincode::error::EncodeError);

/// That a value was read, and from how many bytes.
pub open spec fn read_whole<V>(content: V, taken: nat) -> Result<(V, nat), Seq<char>> {
    Ok((content, taken))
}

/// The bytes that bincode encodes a header to, field by field.
pub uninterp spec fn bincode_header(header: SnapshotHeader) -> Seq<u8>;

/// The header that bincode reads from the front of some bytes and how many bytes
/// it takes, or what it says where there is none.
pub uninterp spec fn bincode_read_header(bytes: Seq<u8>) -> Result<
    (SnapshotHeader, nat),
    Seq<char>,
>;

/// The bytes that bincode encodes a list of stored ranges to.
pub uninterp spec fn bincode_ranges(ranges: Seq<(u64, Option<u64>)>) -> Seq<u8>;

/// The stored ranges that bincode reads from the front of some bytes and how many
/// bytes they take, or what it says where there are none. A length is read as a
/// `usize`, so what the largest one is has a say.
pub uninterp spec fn bincode_read_ranges(bytes: Seq<u8>, max_len: nat) -> Result<
    (Seq<(u64, Option<u64>)>, nat),
    Seq<char>,
>;

/// The bytes that bincode encodes the parts of a stored force-dirty history to.
pub uninterp spec fn bincode_force_dirty(versions: Seq<u64>, priority: u8) -> Seq<u8>;

/// The parts of a stored force-dirty history that bincode reads from the front of
/// some bytes and how many bytes they take, or what it says where they are not there.
/// A length is read as a `usize`, so what the largest one is has a say.
pub uninterp spec fn bincode_read_force_dirty(bytes: Seq<u8>, max_len: nat) -> Result<
    ((Seq<u64>, u8), nat),
    Seq<char>,
>;

/// `bincode::serde::encode_to_vec` with the standard configuration, on the fields
/// of a header in their order: writing to memory cannot fail, the bytes depend on
/// the header alone, and reading them back, whatever comes after them, gives
/// the header and takes just them.
#[verifier::external_body]
fn encode_header(header: &SnapshotHeader) -> (r: Result<Vec<u8>, bincode::error::EncodeError>)
    ensures
        r is Ok,
        r->Ok_0@ == bincode_header(*header),
        forall|more: Seq<u8>| #[trigger]
            bincode_read_header(r->Ok_0@ + more) == read_whole(*header, r->Ok_0@.len()),
{
    let h = header;
    bincode::serde::encode_to_vec(
        (
            h.magic,
            h.schema_version,
            h.binary_hash,
            h.buckconfig_digest,
            h.cell_digest,
            h.prelude_digest,
            h.node_count,
            h.max_version,
        ),
        bincode::config::standard(),
    )
}

/// `bincode::serde::decode_from_slice` with the standard configuration, into the
/// fields of a header in their order: what comes back, the text of the error where there
/// is one too, depends on the bytes alone, and no more bytes are taken than there are.
#[verifier::external_body]
fn decode_header(bytes: &[u8]) -> (r: Result<(SnapshotHeader, usize), String>)
    ensures
        bincode_read_header(bytes@) == (match r {
            Ok(read) => Ok((read.0, read.1 as nat)),
            Err(text) => Err(text@),
        }),
        r matches Ok(read) ==> read.1 <= bytes@.len(),
{
    let (
        (magic, schema_version, binary_hash, buckconfig_digest, cell_digest, prelude_digest,
            node_count, max_version), taken) =
        bincode::serde::decode_from_slice(bytes, bincode::config::standard())
            .map_err(|e| e.to_string())?;
    Ok(
        (
            SnapshotHeader {
                magic, schema_version, binary_hash, buckconfig_digest, cell_digest, prelude_digest,
                node_count, max_version,
            },
            taken,
        ),
    )
}

/// `bincode::serde::encode_to_vec` with the standard configuration, on a list of
/// stored ranges: writing to memory cannot fail, the bytes depend on the list
/// alone, and reading them back, whatever comes after them, gives the list and
/// takes just them.
#[verifier::external_body]
fn encode_ranges(ranges: &Vec<(u64, Option<u64>)>) -> (r: Result<
    Vec<u8>,
    bincode::error::EncodeError,
>)
    ensures
        r is Ok,
        r->Ok_0@ == bincode_ranges(ranges@),
        forall|more: Seq<u8>| #[trigger]
            bincode_read_ranges(r->Ok_0@ + more, usize::MAX as nat) == read_whole(
                ranges@,
                r->Ok_0@.len(),
            ),
{
    bincode::serde::encode_to_vec(ranges, bincode::config::standard())
}

/// `bincode::serde::decode_from_slice` with the standard configuration, into a list
/// of stored ranges: what comes back, the text of the error where there is one too,
/// depends on the bytes and on how large a `usize` is, and no more bytes are taken than
/// there are.
#[verifier::external_body]
fn decode_ranges(bytes: &[u8]) -> (r: Result<(Vec<(u64, Option<u64>)>, usize), String>)
    ensures
        bincode_read_ranges(bytes@, usize::MAX as nat) == (match r {
            Ok(read) => Ok((read.0@, read.1 as nat)),
            Err(text) => Err(text@),
        }),
        r matches Ok(read) ==> read.1 <= bytes@.len(),
{
    bincode::serde::decode_from_slice(bytes, bincode::config::standard()).map_err(
        |e| e.to_string(),
    )
}

/// `bincode::serde::encode_to_vec` with the standard configuration, on the fields
/// of a stored force-dirty history in their order: writing to memory cannot fail,
/// the bytes depend on the fields alone, and reading them back, whatever comes
/// after them, gives the fields and takes just them.
#[verifier::external_body]
fn encode_force_dirty(versions: &Vec<u64>, priority: u8) -> (r: Result<
    Vec<u8>,
    bincode::error::EncodeError,
>)
    ensures
        r is Ok,
        r->Ok_0@ == bincode_force_dirty(versions@, priority),
        forall|more: Seq<u8>| #[trigger]
            bincode_read_force_dirty(r->Ok_0@ + more, usize::MAX as nat) == read_whole(
                (versions@, priority),
                r->Ok_0@.len(),
            ),
{
    bincode::serde::encode_to_vec((versions, priority), bincode::config::standard())
}

/// `bincode::serde::decode_from_slice` with the standard configuration, into the
/// fields of a stored force-dirty history in their order: what comes back, the text of
/// the error where there is one too, depends on the bytes and on how large a `usize` is,
/// and no more bytes are taken than there are.
#[verifier::external_body]
fn decode_force_dirty(bytes: &[u8]) -> (r: Result<((Vec<u64>, u8), usize), String>)
    ensures
        bincode_read_force_dirty(bytes@, usize::MAX as nat) == (match r {
            Ok(read) => Ok(((read.0.0@, read.0.1), read.1 as nat)),
            Err(text) => Err(text@),
        }),
        r matches Ok(read) ==> read.1 <= bytes@.len(),
{
    bincode::serde::decode_from_slice(bytes, bincode::config::standard()).map_err(
        |e| e.to_string(),
    )
}

/// A type with an encoded form.
pub trait Wire: View + Sized {
    /// The encoded form of a value.
    spec fn wire(content: Self::V) -> Seq<u8>;

    /// The value whose encoded form the bytes begin with and how many bytes that
    /// form takes, or why there is none.
    spec fn read_wire(bytes: Seq<u8>) -> Result<(Self::V, nat), Seq<char>>;

    /// Encodes the value. It can be read back from the bytes, whatever comes after
    /// them.
    fn to_wire(&self) -> (r: Result<Vec<u8>, PersistError>)
        ensures
            r matches Ok(bytes) && bytes@ == Self::wire(self@) && forall|more: Seq<u8>| #[trigger]
                Self::read_wire(bytes@ + more) == read_whole(self@, bytes@.len()),
    ;

    /// Decodes a value from the front of the bytes.
    fn from_wire(bytes: &[u8]) -> (r: Result<(Self, usize), PersistError>)
        ensures
            match r {
                Ok((value, taken)) => Self::read_wire(bytes@) == read_whole(
                    value@,
                    taken as nat,
                ) && taken <= bytes@.len(),
                Err(e) => e matches PersistError::Decode { message } && Self::read_wire(bytes@)
                    == Err::<(Self::V, nat), Seq<char>>(message@),
            },
    ;
}

impl Wire for SnapshotHeader {
    open spec fn wire(content: SnapshotHeader) -> Seq<u8> {
        bincode_header(content)
    }

    open spec fn read_wire(bytes: Seq<u8>) -> Result<(SnapshotHeader, nat), Seq<char>> {
        bincode_read_header(bytes)
    }

    fn to_wire(&self) -> (r: Result<Vec<u8>, PersistError>) {
        match encode_header(self) {
            Ok(bytes) => Ok(bytes),
            Err(_) => Err(PersistError::Encode),
        }
    }

    fn from_wire(bytes: &[u8]) -> (r: Result<(SnapshotHeader, usize), PersistError>) {
        match decode_header(bytes) {
            Ok(read) => Ok(read),
            Err(message) => Err(PersistError::Decode { message }),
        }
    }
}

impl Wire for PersistedVersionRanges {
    open spec fn wire(content: Seq<(u64, Option<u64>)>) -> Seq<u8> {
        bincode_ranges(content)
    }

    open spec fn read_wire(bytes: Seq<u8>) -> Result<(Seq<(u64, Option<u64>)>, nat), Seq<char>> {
        bincode_read_ranges(bytes, usize::MAX as nat)
    }

    fn to_wire(&self) -> (r: Result<Vec<u8>, PersistError>) {
        match encode_ranges(&self.ranges) {
            Ok(bytes) => Ok(bytes),
            Err(_) => Err(PersistError::Encode),
        }
    }

    fn from_wire(bytes: &[u8]) -> (r: Result<(PersistedVersionRanges, usize), PersistError>) {
        match decode_ranges(bytes) {
            Ok((ranges, taken)) => Ok((PersistedVersionRanges { ranges }, taken)),
            Err(message) => Err(PersistError::Decode { message }),
        }
    }
}

impl Wire for PersistedForceDirty {
    open spec fn wire(content: (Seq<u64>, u8)) -> Seq<u8> {
        bincode_force_dirty(content.0, content.1)
    }

    open spec fn read_wire(bytes: Seq<u8>) -> Result<((Seq<u64>, u8), nat), Seq<char>> {
        bincode_read_force_dirty(bytes, usize::MAX as nat)
    }

    fn to_wire(&self) -> (r: Result<Vec<u8>, PersistError>) {
        match encode_force_dirty(&self.versions, self.priority) {
            Ok(bytes) => Ok(bytes),
            Err(_) => Err(PersistError::Encode),
        }
    }

    fn from_wire(bytes: &[u8]) -> (r: Result<(PersistedForceDirty, usize), PersistError>) {
        match decode_force_dirty(bytes) {
            Ok(((versions, priority), taken)) => Ok(
                (PersistedForceDirty { versions, priority }, taken),
            ),
            Err(message) => Err(PersistError::Decode { message }),
        }
    }
}

/// The encoded form of `value`. Encoding a value twice gives the same bytes, and they
/// decode to the value; with more bytes after them, they decode to no value.
pub fn encode<T: Wire>(value: &T) -> (r: Result<Vec<u8>, PersistError>)
    ensures
        r matches Ok(bytes) && {
            &&& bytes@ == T::wire(value@)
            &&& decoded::<T>(bytes@) == Ok::<T::V, Refusal>(value@)
            &&& forall|more: Seq<u8>|
                more.len() > 0 ==> #[trigger] decoded::<T>(bytes@ + more) == Err::<T::V, Refusal>(
                    Refusal::LeftOver { count: more.len() },
                )
        },
{
    let bytes: Vec<u8> = value.to_wire()?;
    proof {
        assert(bytes@ + Seq::<u8>::empty() =~= bytes@);
    }
    Ok(bytes)
}

/// Why some bytes are the encoded form of no value.
pub enum Refusal {
    /// They do not begin with an encoded value, for the given reason.
    Unreadable { text: Seq<char> },
    /// So many of them are left over behind an encoded value.
    LeftOver { count: nat },
}

/// What some bytes decode to.
pub open spec fn decoded<T: Wire>(bytes: Seq<u8>) -> Result<T::V, Refusal> {
    match T::read_wire(bytes) {
        Ok((content, taken)) => if taken == bytes.len() {
            Ok(content)
        } else {
            Err(Refusal::LeftOver { count: (bytes.len() - taken) as nat })
        },
        Err(text) => Err(Refusal::Unreadable { text }),
    }
}

/// Accepts a value that was decoded from `consumed` of `available` bytes, unless
/// some of them are left over.
pub fn accept_whole<T>(value: T, consumed: usize, available: usize) -> (r: Result<T, PersistError>)
    requires
        consumed <= available,
    ensures
        r == (if consumed == available {
            Ok(value)
        } else {
            Err(PersistError::TrailingBytes { count: (available - consumed) as usize })
        }),
{
    if consumed != available {
        return Err(PersistError::TrailingBytes { count: available - consumed });
    }
    Ok(value)
}

/// The value whose encoded form the bytes are, with nothing after it.
pub fn decode<T: Wire>(bytes: &[u8]) -> (r: Result<T, PersistError>)
    ensures
        match decoded::<T>(bytes@) {
            Ok(content) => r matches Ok(value) && value@ == content,
            Err(Refusal::LeftOver { count }) => r matches Err(PersistError::TrailingBytes {
                count: left,
            }) && left == count,
            Err(Refusal::Unreadable { text }) => r matches Err(PersistError::Decode { message })
                && message@ == text,
        },
{
    match T::from_wire(bytes) {
        Ok((value, consumed)) => accept_whole(value, consumed, bytes.len()),
        Err(e) => Err(e),
    }
}

/// A history that holds versions is stored as their numbers in their order, with 0 for an ignored
/// priority, 1 for a normal and 2 for a high one; another number stands for no priority.
/// One without versions is stored as one of normal priority.
pub proof fn law_histories_are_stored_by_number(h: ForceDirtyView, i: int, versions: Seq<u64>, p: u8)
    requires
        h.versions.len() > 0,
        0 <= i < h.versions.len(),
        versions.len() > 0,
    ensures
        forall|none: ForceDirtyView|
            #![trigger stored_force_dirty(none)]
            none.versions.len() == 0 ==> stored_force_dirty(none).0.len() == 0 && stored_force_dirty(
                none,
            ).1 == 1,
        stored_force_dirty(h).0.len() == h.versions.len(),
        stored_force_dirty(h).0[i] == h.versions[i].number,
        h.priority is Ignored <==> stored_force_dirty(h).1 == 0,
        h.priority is Normal <==> stored_force_dirty(h).1 == 1,
        h.priority is High <==> stored_force_dirty(h).1 == 2,
        restored_force_dirty((versions, p)) is Some <==> p <= 2,
        restored_force_dirty((versions, p)) matches Some(back) ==> {
            &&& back.versions.len() == versions.len()
            &&& forall|j: int|
                #![trigger back.versions[j]]
                0 <= j < versions.len() ==> back.versions[j].number == versions[j]
            &&& back.priority is Ignored <==> p == 0
            &&& back.priority is Normal <==> p == 1
            &&& back.priority is High <==> p == 2
        },
{
}

/// A range is stored as the numbers of its ends, in its place.
pub proof fn law_ranges_are_stored_as_they_are(s: Seq<VersionRange>, i: int)
    requires
        0 <= i < s.len(),
    ensures
        stored_ranges(s).len() == s.len(),
        stored_ranges(s)[i].0 == s[i].begin.number,
        match s[i].end {
            Some(end) => stored_ranges(s)[i].1 == Some(end.number),
            None => stored_ranges(s)[i].1 is None,
        },
{
}

/// A header that differs from what describes the present in anything that it names is refused, and
/// so is one that does not begin as a header does.
pub proof fn law_any_difference_refuses_a_header(header: SnapshotHeader, expected: SnapshotHeader)
    requires
        header.magic@ != SNAPSHOT_MAGIC@ || header.schema_version != expected.schema_version
            || header.binary_hash@ != expected.binary_hash@ || header.buckconfig_digest@
            != expected.buckconfig_digest@ || header.cell_digest@ != expected.cell_digest@
            || header.prelude_digest@ != expected.prelude_digest@,
    ensures
        !header.reusable_for(expected),
{
}

/// Bytes decode to a value just where they are read as one to the last; where some are left over,
/// it is told how many.
pub proof fn law_bytes_decode_to_the_last<T: Wire>(bytes: Seq<u8>, content: T::V, taken: nat)
    requires
        T::read_wire(bytes) == read_whole(content, taken),
        taken <= bytes.len(),
    ensures
        decoded::<T>(bytes) is Ok <==> taken == bytes.len(),
        taken == bytes.len() ==> decoded::<T>(bytes) == Ok::<T::V, Refusal>(content),
        decoded::<T>(bytes) matches Err(refusal) ==> (refusal matches Refusal::LeftOver { count }
            && taken + count == bytes.len()),
{
}

} // verus!
