//! The names of objects.

use crate::adapter::{BackendError, ObjectKey};
use crate::bytes;
use crate::bytes::{less_bytes, same_bytes};
use crate::domain::{DictionaryId, Id, ManifestId, PackId, StagingId};
use crate::error::StoreError;
use crate::frame;
use crate::order::Key;
use crate::segment;
use crate::segment::{SEGMENT_SUFFIX, parse_filename};
use crate::text;
use crate::text::{parse_hex, push_hex, push_text};
use vstd::prelude::*;
use vstd::slice::slice_subrange;
use vstd::string::StringSliceAdditionalSpecFns;

verus! {

/// `blob`.
pub const BLOB_EXTENSION: [u8; 4] = [98, 108, 111, 98];

/// `segment`.
pub const SEGMENT_EXTENSION: [u8; 7] = [115, 101, 103, 109, 101, 110, 116];

/// `dict`.
pub const DICTIONARY_EXTENSION: [u8; 4] = [100, 105, 99, 116];

/// `index`.
pub const INDEX_EXTENSION: [u8; 5] = [105, 110, 100, 101, 120];

/// `pack`.
pub const PACK_EXTENSION: [u8; 4] = [112, 97, 99, 107];

/// `pending`.
pub const PENDING_EXTENSION: [u8; 7] = [112, 101, 110, 100, 105, 110, 103];

/// `view`.
pub const VIEW_EXTENSION: [u8; 4] = [118, 105, 101, 119];

/// `.view`.
pub const VIEW_SUFFIX: [u8; 5] = [46, 118, 105, 101, 119];

/// The first dot of a text stands at `d`.
pub open spec fn dot_at(text: Seq<u8>, d: int) -> bool {
    0 <= d < text.len() && text[d] == 46 && forall|i: int| 0 <= i < d ==> text[i] != 46
}

/// What stands before and behind the first dot of a text.
pub open spec fn split_dot(text: Seq<u8>) -> Option<(Seq<u8>, Seq<u8>)> {
    if exists|d: int| dot_at(text, d) {
        let d = choose|d: int| dot_at(text, d);
        Some((text.take(d), text.skip(d + 1)))
    } else {
        None
    }
}

proof fn lemma_split_dot(text: Seq<u8>, d: int)
    requires
        dot_at(text, d),
    ensures
        split_dot(text) == Some((text.take(d), text.skip(d + 1))),
{
    let e = choose|e: int| dot_at(text, e);
    assert(d == e) by {
        if d < e {
            assert(text[d] != 46);
        } else if e < d {
            assert(text[e] != 46);
        }
    }
}

fn find_dot(text: &[u8]) -> (found: Option<usize>)
    ensures
        match found {
            Some(d) => d < text.len() && dot_at(text@, d as int),
            None => split_dot(text@) is None,
        },
{
    let mut i: usize = 0;
    while i < text.len()
        invariant
            i <= text@.len(),
            forall|j: int| 0 <= j < i ==> text@[j] != 46,
        decreases text.len() - i,
    {
        if text[i] == 46 {
            return Some(i);
        }
        i += 1;
    }
    proof {
        if exists|d: int| dot_at(text@, d) {
            let d = choose|d: int| dot_at(text@, d);
            assert(text@[d] == 46);
        }
    }
    None
}

/// A name: the digits of an identity, a dot, and an extension.
pub open spec fn dotted(id: Seq<u8>, extension: Seq<u8>) -> Seq<u8> {
    text::hex_text(id) + seq![46u8] + extension
}

impl ObjectKey {
    pub open spec fn extension(self) -> Seq<u8> {
        match self {
            ObjectKey::Blob(_) => BLOB_EXTENSION@,
            ObjectKey::Manifest(_) => SEGMENT_EXTENSION@,
            ObjectKey::Dictionary(_) => DICTIONARY_EXTENSION@,
            ObjectKey::Index(_) => INDEX_EXTENSION@,
        }
    }

    /// The text of the key's name.
    pub open spec fn name_text(self) -> Seq<u8> {
        dotted(self.digest()@, self.extension())
    }
}

/// The key that a name stands for, or why it stands for none.
pub open spec fn key_parse(text: Seq<u8>) -> Result<ObjectKey, BackendError> {
    match split_dot(text) {
        None => Err(BackendError::InvalidData),
        Some((id, extension)) => if !text::is_hex(id) {
            Err(BackendError::InvalidData)
        } else if extension == BLOB_EXTENSION@ {
            Ok(ObjectKey::Blob(frame::id_of(text::unhex(id))))
        } else if extension == SEGMENT_EXTENSION@ {
            Ok(ObjectKey::Manifest(frame::id_of(text::unhex(id))))
        } else if extension == DICTIONARY_EXTENSION@ {
            Ok(ObjectKey::Dictionary(frame::id_of(text::unhex(id))))
        } else if extension == INDEX_EXTENSION@ {
            Ok(ObjectKey::Index(frame::id_of(text::unhex(id))))
        } else {
            Err(BackendError::InvalidData)
        },
    }
}

fn named<const KIND: u8>(bytes: [u8; 32], text: Ghost<Seq<u8>>) -> (id: Id<KIND>)
    requires
        bytes@ == text@,
    ensures
        id == frame::id_of::<KIND>(text@),
{
    let id: Id<KIND> = Id { bytes };
    proof {
        frame::lemma_id_of(id);
    }
    id
}

/// The text of a name.
fn dotted_name(id: &[u8], extension: &str, suffix: Ghost<Seq<u8>>) -> (name: String)
    requires
        text::spells(extension@, suffix@),
    ensures
        text::spells(name@, dotted(id@, suffix@)),
{
    let mut name: String = String::new();
    let ghost dot = seq![46u8];
    proof {
        reveal_strlit(".");
        assert(text::spells("."@, dot));
        assert(text::spells(name@, Seq::<u8>::empty()));
    }
    push_hex(&mut name, id, Ghost(Seq::empty()));
    let ghost a = Seq::<u8>::empty() + text::hex_text(id@);
    assert(a =~= text::hex_text(id@));
    push_text(&mut name, ".", Ghost(a), Ghost(dot));
    push_text(&mut name, extension, Ghost(a + dot), suffix);
    name
}

impl ObjectKey {
    /// The name under which the object is kept.
    pub fn name(&self) -> (name: String)
        ensures
            text::spells(name@, self.name_text()),
    {
        proof {
            reveal_strlit("blob");
            reveal_strlit("segment");
            reveal_strlit("dict");
            reveal_strlit("index");
            assert(text::spells("blob"@, BLOB_EXTENSION@));
            assert(text::spells("segment"@, SEGMENT_EXTENSION@));
            assert(text::spells("dict"@, DICTIONARY_EXTENSION@));
            assert(text::spells("index"@, INDEX_EXTENSION@));
        }
        let extension: &str = match self {
            ObjectKey::Blob(_) => "blob",
            ObjectKey::Manifest(_) => "segment",
            ObjectKey::Dictionary(_) => "dict",
            ObjectKey::Index(_) => "index",
        };
        dotted_name(self.bytes().as_slice(), extension, Ghost(self.extension()))
    }

    /// The key that a name stands for.
    pub fn parse(name: &str) -> (key: Result<ObjectKey, BackendError>)
        ensures
            key == key_parse(name.spec_bytes()),
    {
        let text: &[u8] = name.as_bytes();
        let d: usize = match find_dot(text) {
            Some(d) => d,
            None => {
                return Err(BackendError::InvalidData);
            },
        };
        proof {
            lemma_split_dot(text@, d as int);
        }
        let digits: &[u8] = slice_subrange(text, 0, d);
        let extension: &[u8] = slice_subrange(text, d + 1, text.len());
        assert(digits@ =~= text@.take(d as int));
        assert(extension@ =~= text@.skip(d as int + 1));
        let bytes: [u8; 32] = match parse_hex(digits) {
            Ok(bytes) => bytes,
            Err(_) => {
                return Err(BackendError::InvalidData);
            },
        };
        let ghost id = text::unhex(digits@);
        if same_bytes(extension, BLOB_EXTENSION.as_slice()) {
            return Ok(ObjectKey::Blob(named(bytes, Ghost(id))));
        }
        if same_bytes(extension, SEGMENT_EXTENSION.as_slice()) {
            return Ok(ObjectKey::Manifest(named(bytes, Ghost(id))));
        }
        if same_bytes(extension, DICTIONARY_EXTENSION.as_slice()) {
            return Ok(ObjectKey::Dictionary(named(bytes, Ghost(id))));
        }
        if same_bytes(extension, INDEX_EXTENSION.as_slice()) {
            return Ok(ObjectKey::Index(named(bytes, Ghost(id))));
        }
        Err(BackendError::InvalidData)
    }
}

/// The name of an object is its identity in sixty-four lower-case digits, a dot and
/// the kind of the object; so different objects have different names.
pub proof fn law_key_names_differ(a: ObjectKey, b: ObjectKey)
    ensures
        a.name_text() == text::hex_text(a.digest()@) + seq![46u8] + a.extension(),
        text::hex_text(a.digest()@).len() == 64,
        a.name_text() == b.name_text() ==> a == b,
{
    crate::text::lemma_hex_text(a.digest()@);
    law_key_name_round_trip(a);
    law_key_name_round_trip(b);
}

/// Reading the name of a key gives the key back.
pub proof fn law_key_name_round_trip(key: ObjectKey)
    ensures
        key_parse(key.name_text()) == Ok::<ObjectKey, BackendError>(key),
{
    let text = key.name_text();
    let digits = text::hex_text(key.digest()@);
    crate::text::law_hex_round_trip(key.digest()@);
    crate::text::lemma_hex_text(key.digest()@);
    crate::text::lemma_hex_text_digits(key.digest()@);
    assert(text.take(digits.len() as int) =~= digits);
    assert(text.skip(digits.len() as int + 1) =~= key.extension());
    assert(dot_at(text, digits.len() as int)) by {
        assert forall|i: int| 0 <= i < digits.len() implies text[i] != 46 by {
            crate::text::lemma_only_digits(digits, i);
            assert(text[i] == digits[i]);
        }
    }
    lemma_split_dot(text, digits.len() as int);
    assert(BLOB_EXTENSION@[0] != DICTIONARY_EXTENSION@[0]);
    assert(BLOB_EXTENSION@.len() != SEGMENT_EXTENSION@.len());
    match key {
        ObjectKey::Blob(id) => frame::lemma_id_of(id),
        ObjectKey::Manifest(id) => frame::lemma_id_of(id),
        ObjectKey::Dictionary(id) => frame::lemma_id_of(id),
        ObjectKey::Index(id) => frame::lemma_id_of(id),
    }
}

/// A logical object of the catalog. Packs are kept in blobs; a staging object is
/// not installed yet.
#[derive(Clone, Copy, Debug, PartialEq, Eq)]
pub enum CatalogKey {
    Manifest(ManifestId),
    Pack(PackId),
    Dictionary(DictionaryId),
    Staging(StagingId),
}

impl CatalogKey {
    pub open spec fn rank(self) -> int {
        match self {
            CatalogKey::Manifest(_) => 0,
            CatalogKey::Pack(_) => 1,
            CatalogKey::Dictionary(_) => 2,
            CatalogKey::Staging(_) => 3,
        }
    }

    pub open spec fn digest(self) -> [u8; 32] {
        match self {
            CatalogKey::Manifest(id) => id.bytes,
            CatalogKey::Pack(id) => id.bytes,
            CatalogKey::Dictionary(id) => id.bytes,
            CatalogKey::Staging(id) => id.bytes,
        }
    }

    fn kind(&self) -> (kind: u8)
        ensures
            kind == self.rank(),
    {
        match self {
            CatalogKey::Manifest(_) => 0,
            CatalogKey::Pack(_) => 1,
            CatalogKey::Dictionary(_) => 2,
            CatalogKey::Staging(_) => 3,
        }
    }

    fn bytes(&self) -> (bytes: [u8; 32])
        ensures
            bytes == self.digest(),
    {
        match self {
            CatalogKey::Manifest(id) => id.bytes,
            CatalogKey::Pack(id) => id.bytes,
            CatalogKey::Dictionary(id) => id.bytes,
            CatalogKey::Staging(id) => id.bytes,
        }
    }
}

impl Key for CatalogKey {
    type Model = CatalogKey;

    open spec fn model(&self) -> CatalogKey {
        *self
    }

    open spec fn precedes(a: CatalogKey, b: CatalogKey) -> bool {
        a.rank() < b.rank() || (a.rank() == b.rank() && bytes::bytes_less(a.digest()@, b.digest()@))
    }

    proof fn lemma_irreflexive(a: CatalogKey) {
        crate::bytes::lemma_bytes_less_irreflexive(a.digest()@);
    }

    proof fn lemma_transitive(a: CatalogKey, b: CatalogKey, c: CatalogKey) {
        if a.rank() == b.rank() && b.rank() == c.rank() {
            crate::bytes::lemma_bytes_less_transitive(a.digest()@, b.digest()@, c.digest()@);
        }
    }

    proof fn lemma_total(a: CatalogKey, b: CatalogKey) {
        crate::bytes::lemma_bytes_less_total(a.digest()@, b.digest()@);
        if a.digest()@ == b.digest()@ {
            assert(a.digest() =~= b.digest());
        }
    }

    fn before(&self, other: &CatalogKey) -> bool {
        let a: u8 = self.kind();
        let b: u8 = other.kind();
        a < b || (a == b && less_bytes(self.bytes().as_slice(), other.bytes().as_slice()))
    }

    fn duplicate(&self) -> CatalogKey {
        *self
    }
}

/// Some text ends with a suffix.
pub open spec fn ends_with(text: Seq<u8>, suffix: Seq<u8>) -> bool {
    text.len() >= suffix.len() && text.skip(text.len() - suffix.len()) == suffix
}

/// The object that a name stands for, or why it stands for none. A manifest has
/// the name of its segment.
pub open spec fn catalog_parse(text: Seq<u8>) -> Result<CatalogKey, StoreError> {
    if ends_with(text, SEGMENT_SUFFIX@) {
        match segment::name_parse(text) {
            Err(error) => Err(error),
            Ok(id) => Ok(CatalogKey::Manifest(id)),
        }
    } else {
        match split_dot(text) {
            None => Err(StoreError::Corrupt(0)),
            Some((id, kind)) => if !text::is_hex(id) {
                Err(StoreError::Corrupt(0))
            } else if kind == PACK_EXTENSION@ {
                Ok(CatalogKey::Pack(frame::id_of(text::unhex(id))))
            } else if kind == DICTIONARY_EXTENSION@ {
                Ok(CatalogKey::Dictionary(frame::id_of(text::unhex(id))))
            } else if kind == PENDING_EXTENSION@ {
                Ok(CatalogKey::Staging(frame::id_of(text::unhex(id))))
            } else {
                Err(StoreError::Corrupt(0))
            },
        }
    }
}

/// The object that the name of a reader's lease stands for. A manifest's lease has
/// its identity.
pub open spec fn lease_parse(text: Seq<u8>) -> Result<CatalogKey, StoreError> {
    if ends_with(text, VIEW_SUFFIX@) {
        let id = text.take(text.len() - 5);
        if text::is_hex(id) {
            Ok(CatalogKey::Manifest(frame::id_of(text::unhex(id))))
        } else {
            Err(StoreError::Corrupt(0))
        }
    } else {
        catalog_parse(text)
    }
}

fn has_suffix(text: &[u8], suffix: &[u8]) -> (found: bool)
    ensures
        found == ends_with(text@, suffix@),
{
    if text.len() < suffix.len() {
        return false;
    }
    let tail: &[u8] = slice_subrange(text, text.len() - suffix.len(), text.len());
    assert(tail@ =~= text@.skip(text@.len() - suffix@.len()));
    same_bytes(tail, suffix)
}

impl CatalogKey {
    /// The object that a name stands for.
    pub fn parse(name: &str) -> (key: Result<CatalogKey, StoreError>)
        ensures
            key == catalog_parse(name.spec_bytes()),
    {
        let text: &[u8] = name.as_bytes();
        if has_suffix(text, SEGMENT_SUFFIX.as_slice()) {
            return match parse_filename(name) {
                Ok(id) => Ok(CatalogKey::Manifest(id)),
                Err(error) => Err(error),
            };
        }
        let d: usize = match find_dot(text) {
            Some(d) => d,
            None => {
                return Err(StoreError::Corrupt(0));
            },
        };
        proof {
            lemma_split_dot(text@, d as int);
        }
        let digits: &[u8] = slice_subrange(text, 0, d);
        let kind: &[u8] = slice_subrange(text, d + 1, text.len());
        assert(digits@ =~= text@.take(d as int));
        assert(kind@ =~= text@.skip(d as int + 1));
        let bytes: [u8; 32] = parse_hex(digits)?;
        let ghost id = text::unhex(digits@);
        if same_bytes(kind, PACK_EXTENSION.as_slice()) {
            return Ok(CatalogKey::Pack(named(bytes, Ghost(id))));
        }
        if same_bytes(kind, DICTIONARY_EXTENSION.as_slice()) {
            return Ok(CatalogKey::Dictionary(named(bytes, Ghost(id))));
        }
        if same_bytes(kind, PENDING_EXTENSION.as_slice()) {
            return Ok(CatalogKey::Staging(named(bytes, Ghost(id))));
        }
        Err(StoreError::Corrupt(0))
    }

    /// The object that the name of a reader's lease stands for.
    pub fn parse_lease(name: &str) -> (key: Result<CatalogKey, StoreError>)
        ensures
            key == lease_parse(name.spec_bytes()),
    {
        let text: &[u8] = name.as_bytes();
        if has_suffix(text, VIEW_SUFFIX.as_slice()) {
            let digits: &[u8] = slice_subrange(text, 0, text.len() - 5);
            assert(digits@ =~= text@.take(text@.len() - 5));
            let bytes: [u8; 32] = parse_hex(digits)?;
            let ghost id = text::unhex(digits@);
            return Ok(CatalogKey::Manifest(named(bytes, Ghost(id))));
        }
        CatalogKey::parse(name)
    }

    /// The text of the name of a reader's lease on the object.
    pub open spec fn lease_text(self) -> Seq<u8> {
        dotted(
            self.digest()@,
            match self {
                CatalogKey::Manifest(_) => VIEW_EXTENSION@,
                CatalogKey::Pack(_) => PACK_EXTENSION@,
                CatalogKey::Dictionary(_) => DICTIONARY_EXTENSION@,
                CatalogKey::Staging(_) => PENDING_EXTENSION@,
            },
        )
    }

    /// The name of a reader's lease on the object; a staging object has none.
    pub fn lease_name(&self) -> (name: Result<String, StoreError>)
        ensures
            match name {
                Ok(n) => !(self is Staging) && text::spells(n@, self.lease_text()),
                Err(e) => self is Staging && e == StoreError::Corrupt(0),
            },
    {
        proof {
            reveal_strlit("view");
            reveal_strlit("pack");
            reveal_strlit("dict");
            assert(text::spells("view"@, VIEW_EXTENSION@));
            assert(text::spells("pack"@, PACK_EXTENSION@));
            assert(text::spells("dict"@, DICTIONARY_EXTENSION@));
        }
        let bytes: [u8; 32] = self.bytes();
        match self {
            CatalogKey::Manifest(_) => Ok(
                dotted_name(bytes.as_slice(), "view", Ghost(VIEW_EXTENSION@)),
            ),
            CatalogKey::Pack(_) => Ok(
                dotted_name(bytes.as_slice(), "pack", Ghost(PACK_EXTENSION@)),
            ),
            CatalogKey::Dictionary(_) => Ok(
                dotted_name(bytes.as_slice(), "dict", Ghost(DICTIONARY_EXTENSION@)),
            ),
            CatalogKey::Staging(_) => Err(StoreError::Corrupt(0)),
        }
    }
}

/// Reading the name of a lease gives the object back.
pub proof fn law_lease_name_round_trip(key: CatalogKey)
    requires
        !(key is Staging),
    ensures
        lease_parse(key.lease_text()) == Ok::<CatalogKey, StoreError>(key),
{
    let text = key.lease_text();
    let digits = text::hex_text(key.digest()@);
    crate::text::law_hex_round_trip(key.digest()@);
    crate::text::lemma_hex_text(key.digest()@);
    crate::text::lemma_hex_text_digits(key.digest()@);
    assert(text.take(digits.len() as int) =~= digits);
    assert(dot_at(text, digits.len() as int)) by {
        assert forall|i: int| 0 <= i < digits.len() implies text[i] != 46 by {
            crate::text::lemma_only_digits(digits, i);
            assert(text[i] == digits[i]);
        }
    }
    lemma_split_dot(text, digits.len() as int);
    assert(text.len() == digits.len() + 5);
    match key {
        CatalogKey::Manifest(id) => {
            assert(text.skip(text.len() - 5) =~= VIEW_SUFFIX@);
            frame::lemma_id_of(id);
        },
        CatalogKey::Pack(id) => {
            assert(text.skip(digits.len() as int + 1) =~= PACK_EXTENSION@);
            assert(text.skip(text.len() - 5)[1] == 112);
            assert(text.skip(text.len() - 8)[7] == 107);
            assert(SEGMENT_SUFFIX@[7] == 116);
            assert(VIEW_SUFFIX@[1] == 118);
            frame::lemma_id_of(id);
        },
        CatalogKey::Dictionary(id) => {
            assert(text.skip(digits.len() as int + 1) =~= DICTIONARY_EXTENSION@);
            assert(text.skip(text.len() - 5)[1] == 100);
            assert(text.skip(text.len() - 8)[6] == 99);
            assert(SEGMENT_SUFFIX@[6] == 110);
            assert(VIEW_SUFFIX@[1] == 118);
            assert(DICTIONARY_EXTENSION@[0] != PACK_EXTENSION@[0]);
            frame::lemma_id_of(id);
        },
        CatalogKey::Staging(_) => {},
    }
}

} // verus!
