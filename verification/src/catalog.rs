//! Heads, and the state of a namespace behind its one conditional root.

use crate::adapter::StorageBackend;
use crate::bytes;
use crate::bytes::{append, copied, same_bytes};
use crate::domain::{ATTACHMENT, AttachmentId, DatabaseId, Id};
use crate::error::StoreError;
use crate::format::{ACTIVE_HEADER_SIZE, ActiveHeader};
use crate::view_codec;
use crate::view_codec::read_id;
use crate::wire;
use crate::wire::Decoder;
use vstd::prelude::*;
use vstd::string::*;
use vstd::slice::slice_subrange;

verus! {

/// `ZBRANCH1`.
pub const HEAD_MAGIC: [u8; 8] = [90, 66, 82, 65, 78, 67, 72, 49];

/// `ZCAT0001`.
pub const ROOT_MAGIC: [u8; 8] = [90, 67, 65, 84, 48, 48, 48, 49];

/// `main`.
pub const MAIN: [u8; 4] = [109, 97, 105, 110];

/// What is wrong with a refused head name.
pub const HEAD_NAMES: &'static str = "head names must be 1..=128 ASCII letters, digits, '.', '_' or '-'";

/// A byte that a head name may have.
pub open spec fn head_byte(byte: u8) -> bool {
    ||| 48 <= byte <= 57
    ||| 65 <= byte <= 90
    ||| 97 <= byte <= 122
    ||| byte == 46
    ||| byte == 95
    ||| byte == 45
}

/// A head name: from 1 to 128 letters, digits, dots, underscores or hyphens.
pub open spec fn head_name(name: Seq<u8>) -> bool {
    1 <= name.len() <= 128 && forall|i: int| 0 <= i < name.len() ==> head_byte(#[trigger] name[i])
}

/// Refuses what is no head name.
pub fn validate_head(name: &[u8]) -> (done: Result<(), StoreError>)
    ensures
        done == if head_name(name@) {
            Ok::<(), StoreError>(())
        } else {
            Err::<(), StoreError>(StoreError::InvalidConfiguration(HEAD_NAMES))
        },
{
    if name.len() == 0 || name.len() > 128 {
        return Err(StoreError::InvalidConfiguration(HEAD_NAMES));
    }
    let mut i: usize = 0;
    while i < name.len()
        invariant
            i <= name@.len(),
            forall|j: int| 0 <= j < i ==> head_byte(#[trigger] name@[j]),
        decreases name.len() - i,
    {
        let byte: u8 = name[i];
        let fine: bool = (48 <= byte && byte <= 57) || (65 <= byte && byte <= 90) || (97 <= byte
            && byte <= 122) || byte == 46 || byte == 95 || byte == 45;
        if !fine {
            assert(!head_byte(name@[i as int]));
            return Err(StoreError::InvalidConfiguration(HEAD_NAMES));
        }
        i += 1;
    }
    Ok(())
}

/// `std::str::from_utf8`: the text whose encoding the bytes are, if and only if
/// they are valid UTF-8.
#[verifier::external_body]
pub(crate) fn as_text(bytes: &[u8]) -> (text: Option<&str>)
    ensures
        match text {
            Some(t) => vstd::utf8::valid_utf8(bytes@) && t.spec_bytes() == bytes@,
            None => !vstd::utf8::valid_utf8(bytes@),
        },
{
    std::str::from_utf8(bytes).ok()
}

/// The header that some bytes record, or why they record none.
pub open spec fn header_parse(bytes: Seq<u8>) -> Result<ActiveHeader, StoreError> {
    if exists|h: ActiveHeader| bytes == #[trigger] h.record() {
        Ok(choose|h: ActiveHeader| bytes == #[trigger] h.record())
    } else {
        Err(StoreError::Corrupt(0))
    }
}

pub proof fn lemma_header_parse(header: ActiveHeader)
    ensures
        header_parse(header.record()) == Ok::<ActiveHeader, StoreError>(header),
{
    let chosen = choose|h: ActiveHeader| header.record() == #[trigger] h.record();
    ActiveHeader::law_record_determines_header(chosen, header);
}

/// Reading an optional header.
pub open spec fn header_at(bytes: Seq<u8>, position: int) -> Result<
    (Option<ActiveHeader>, int),
    StoreError,
> {
    match wire::number_at(bytes, position, 1) {
        Err(error) => Err(error),
        Ok((tag, p)) => if tag == 0 {
            Ok((None, p))
        } else if tag == 1 {
            match wire::take_at(bytes, p, ACTIVE_HEADER_SIZE as int) {
                Err(error) => Err(error),
                Ok((record, p)) => match header_parse(record) {
                    Err(error) => Err(error),
                    Ok(header) => Ok((Some(header), p)),
                },
            }
        } else {
            Err(StoreError::Corrupt(0))
        },
    }
}

pub open spec fn header_bytes(header: Option<ActiveHeader>) -> Seq<u8> {
    match header {
        None => seq![0u8],
        Some(header) => seq![1u8] + header.record(),
    }
}

/// Reading an optional identity of some kind.
pub open spec fn option_at<const KIND: u8>(bytes: Seq<u8>, position: int) -> Result<
    (Option<Id<KIND>>, int),
    StoreError,
> {
    match wire::number_at(bytes, position, 1) {
        Err(error) => Err(error),
        Ok((tag, p)) => if tag == 0 {
            Ok((None, p))
        } else if tag == 1 {
            match view_codec::id_at::<KIND>(bytes, p) {
                Err(error) => Err(error),
                Ok((id, p)) => Ok((Some(id), p)),
            }
        } else {
            Err(StoreError::Corrupt(0))
        },
    }
}

pub open spec fn option_bytes<const KIND: u8>(id: Option<Id<KIND>>) -> Seq<u8> {
    match id {
        None => seq![0u8],
        Some(id) => seq![1u8] + id.bytes@,
    }
}

pub fn read_option<const KIND: u8>(wire: &mut Decoder) -> (id: Result<Option<Id<KIND>>, StoreError>)
    requires
        old(wire).wf(),
    ensures
        final(wire).wf(),
        final(wire).bytes@ == old(wire).bytes@,
        match id {
            Ok(i) => option_at::<KIND>(old(wire).bytes@, old(wire).position as int) == Ok::<
                (Option<Id<KIND>>, int),
                StoreError,
            >((i, final(wire).position as int)),
            Err(e) => option_at::<KIND>(old(wire).bytes@, old(wire).position as int) == Err::<
                (Option<Id<KIND>>, int),
                StoreError,
            >(e),
        },
{
    let tag: u8 = wire.u8()?;
    if tag == 0 {
        return Ok(None);
    }
    if tag != 1 {
        return Err(StoreError::Corrupt(0));
    }
    let id: Id<KIND> = read_id(wire)?;
    Ok(Some(id))
}

pub fn write_option<const KIND: u8>(bytes: &mut Vec<u8>, id: Option<Id<KIND>>)
    ensures
        final(bytes)@ == old(bytes)@ + option_bytes(id),
{
    match id {
        Some(id) => {
            bytes.push(1);
            append(bytes, id.bytes.as_slice());
        },
        None => {
            bytes.push(0);
        },
    }
    assert(bytes@ =~= old(bytes)@ + option_bytes(id));
}

fn read_header(wire: &mut Decoder) -> (header: Result<Option<ActiveHeader>, StoreError>)
    requires
        old(wire).wf(),
    ensures
        final(wire).wf(),
        final(wire).bytes@ == old(wire).bytes@,
        match header {
            Ok(h) => header_at(old(wire).bytes@, old(wire).position as int) == Ok::<
                (Option<ActiveHeader>, int),
                StoreError,
            >((h, final(wire).position as int)),
            Err(e) => header_at(old(wire).bytes@, old(wire).position as int) == Err::<
                (Option<ActiveHeader>, int),
                StoreError,
            >(e),
        },
{
    let tag: u8 = wire.u8()?;
    if tag == 0 {
        return Ok(None);
    }
    if tag != 1 {
        return Err(StoreError::Corrupt(0));
    }
    let record: &[u8] = wire.take(ACTIVE_HEADER_SIZE)?;
    let header: ActiveHeader = ActiveHeader::decode(record)?;
    proof {
        lemma_header_parse(header);
    }
    Ok(Some(header))
}

fn write_header(bytes: &mut Vec<u8>, header: &Option<ActiveHeader>)
    ensures
        final(bytes)@ == old(bytes)@ + header_bytes(*header),
{
    match header {
        Some(header) => {
            bytes.push(1);
            append(bytes, header.encode().as_slice());
        },
        None => {
            bytes.push(0);
        },
    }
    assert(bytes@ =~= old(bytes)@ + header_bytes(*header));
}

/// A named head: the attachment that may write it, its last finished seal, and a
/// seal under way.
#[derive(Clone, Copy, Debug, PartialEq, Eq)]
pub struct Head {
    pub attachment: Option<AttachmentId>,
    pub sealed: Option<ActiveHeader>,
    pub pending: Option<ActiveHeader>,
}

impl Head {
    pub open spec fn record(self) -> Seq<u8> {
        HEAD_MAGIC@ + option_bytes(self.attachment) + header_bytes(self.sealed) + header_bytes(
            self.pending,
        )
    }

    /// A head without anything.
    pub open spec fn vacant() -> Head {
        Head { attachment: None, sealed: None, pending: None }
    }
}

/// A header that a head may have: of the namespace's database, with a manifest.
pub open spec fn header_belongs(header: Option<ActiveHeader>, database: Option<DatabaseId>) -> bool {
    header matches Some(h) ==> database matches Some(id) && id.bytes@ == h.database_id@
        && h.parent_physical_digest@ != bytes::zeros(32)
}

/// The head that some bytes record, or why they record none.
pub open spec fn head_parse(bytes: Seq<u8>, database: Option<DatabaseId>) -> Result<
    Head,
    StoreError,
> {
    match wire::take_at(bytes, 0, 8) {
        Err(error) => Err(error),
        Ok((magic, p)) => if magic != HEAD_MAGIC@ {
            Err(StoreError::Corrupt(0))
        } else {
            match option_at::<ATTACHMENT>(bytes, p) {
                Err(error) => Err(error),
                Ok((attachment, p)) => match header_at(bytes, p) {
                    Err(error) => Err(error),
                    Ok((sealed, p)) => match header_at(bytes, p) {
                        Err(error) => Err(error),
                        Ok((pending, p)) => match wire::finish_at(bytes, p) {
                            Err(error) => Err(error),
                            Ok(_) => if !header_belongs(sealed, database) || !header_belongs(
                                pending,
                                database,
                            ) {
                                Err(StoreError::IdentityMismatch)
                            } else {
                                Ok(Head { attachment, sealed, pending })
                            },
                        },
                    },
                },
            }
        },
    }
}

fn belongs(header: &Option<ActiveHeader>, database: &Option<DatabaseId>) -> (fine: bool)
    ensures
        fine == header_belongs(*header, *database),
{
    match header {
        None => true,
        Some(h) => match database {
            None => false,
            Some(id) => {
                let none: [u8; 32] = [0u8; 32];
                assert(none@ =~= bytes::zeros(32));
                same_bytes(id.bytes.as_slice(), h.database_id.as_slice()) && !same_bytes(
                    h.parent_physical_digest.as_slice(),
                    none.as_slice(),
                )
            },
        },
    }
}

impl Head {
    pub fn encode(&self) -> (bytes: Vec<u8>)
        ensures
            bytes@ == self.record(),
    {
        let mut bytes: Vec<u8> = copied(HEAD_MAGIC.as_slice());
        write_option(&mut bytes, self.attachment);
        write_header(&mut bytes, &self.sealed);
        write_header(&mut bytes, &self.pending);
        bytes
    }

    pub fn decode(bytes: &[u8], database: &Option<DatabaseId>) -> (head: Result<Head, StoreError>)
        ensures
            head == head_parse(bytes@, *database),
    {
        let mut wire: Decoder = Decoder::new(bytes);
        if !same_bytes(wire.take(8)?, HEAD_MAGIC.as_slice()) {
            return Err(StoreError::Corrupt(0));
        }
        let attachment: Option<AttachmentId> = read_option(&mut wire)?;
        let sealed: Option<ActiveHeader> = read_header(&mut wire)?;
        let pending: Option<ActiveHeader> = read_header(&mut wire)?;
        wire.finish()?;
        if !belongs(&sealed, database) || !belongs(&pending, database) {
            return Err(StoreError::IdentityMismatch);
        }
        Ok(Head { attachment, sealed, pending })
    }
}

proof fn lemma_tag_piece(before: Seq<u8>, tag: u8, after: Seq<u8>)
    requires
        (before + seq![tag] + after).len() <= usize::MAX,
    ensures
        wire::number_at(before + seq![tag] + after, before.len() as int, 1) == Ok::<
            (nat, int),
            StoreError,
        >((tag as nat, before.len() as int + 1)),
{
    let rest = seq![tag].skip(1);
    assert(rest.len() == 0);
    assert(crate::bytes::le_value(rest) == 0);
    assert(crate::bytes::le_value(seq![tag]) == tag);
    crate::wire::lemma_take_piece(before, seq![tag], after);
}

pub proof fn lemma_option_piece<const KIND: u8>(before: Seq<u8>, id: Option<Id<KIND>>, after: Seq<u8>)
    requires
        (before + option_bytes(id) + after).len() <= usize::MAX,
    ensures
        option_at::<KIND>(before + option_bytes(id) + after, before.len() as int) == Ok::<
            (Option<Id<KIND>>, int),
            StoreError,
        >((id, (before.len() + option_bytes(id).len()) as int)),
{
    let whole = before + option_bytes(id) + after;
    match id {
        None => {
            lemma_tag_piece(before, 0, after);
        },
        Some(i) => {
            assert(whole =~= before + seq![1u8] + (i.bytes@ + after));
            lemma_tag_piece(before, 1, i.bytes@ + after);
            assert(whole =~= (before + seq![1u8]) + i.bytes@ + after);
            crate::wire::lemma_take_piece(before + seq![1u8], i.bytes@, after);
            crate::frame::lemma_id_of(i);
        },
    }
}

proof fn lemma_header_piece(before: Seq<u8>, header: Option<ActiveHeader>, after: Seq<u8>)
    requires
        (before + header_bytes(header) + after).len() <= usize::MAX,
    ensures
        header_at(before + header_bytes(header) + after, before.len() as int) == Ok::<
            (Option<ActiveHeader>, int),
            StoreError,
        >((header, (before.len() + header_bytes(header).len()) as int)),
{
    let whole = before + header_bytes(header) + after;
    match header {
        None => {
            lemma_tag_piece(before, 0, after);
        },
        Some(h) => {
            h.lemma_record();
            let record = h.record();
            assert(whole =~= before + seq![1u8] + (record + after));
            lemma_tag_piece(before, 1, record + after);
            assert(whole =~= (before + seq![1u8]) + record + after);
            crate::wire::lemma_take_piece(before + seq![1u8], record, after);
            lemma_header_parse(h);
        },
    }
}

/// Where the parts of a head's record stand, whatever follows the record.
proof fn lemma_head_places(head: Head, rest: Seq<u8>)
    ensures
        ({
            let whole = head.record() + rest;
            let p = 8 + option_bytes(head.attachment).len() as int;
            let q = p + header_bytes(head.sealed).len() as int;
            let end = head.record().len() as int;
            &&& end == q + header_bytes(head.pending).len()
            &&& end <= 600
            &&& wire::take_at(whole, 0, 8) == Ok::<(Seq<u8>, int), StoreError>((HEAD_MAGIC@, 8))
            &&& option_at::<ATTACHMENT>(whole, 8) == Ok::<
                (Option<AttachmentId>, int),
                StoreError,
            >((head.attachment, p))
            &&& header_at(whole, p) == Ok::<(Option<ActiveHeader>, int), StoreError>(
                (head.sealed, q),
            )
            &&& header_at(whole, q) == Ok::<(Option<ActiveHeader>, int), StoreError>(
                (head.pending, end),
            )
        }),
{
    let record = head.record();
    let a = option_bytes(head.attachment);
    let b = header_bytes(head.sealed);
    let c = header_bytes(head.pending);
    let none = Seq::<u8>::empty();
    match head.sealed {
        Some(h) => h.lemma_record(),
        None => {},
    }
    match head.pending {
        Some(h) => h.lemma_record(),
        None => {},
    }
    assert(record.len() <= 600);
    assert(record =~= none + HEAD_MAGIC@ + (a + b + c));
    crate::wire::lemma_take_piece(none, HEAD_MAGIC@, a + b + c);
    assert(record =~= HEAD_MAGIC@ + a + (b + c));
    lemma_option_piece(HEAD_MAGIC@, head.attachment, b + c);
    assert(record =~= (HEAD_MAGIC@ + a) + b + c);
    lemma_header_piece(HEAD_MAGIC@ + a, head.sealed, c);
    assert(record =~= (HEAD_MAGIC@ + a + b) + c + none);
    lemma_header_piece(HEAD_MAGIC@ + a + b, head.pending, none);
    let p = 8 + a.len() as int;
    let whole = record + rest;
    assert(whole.subrange(0, record.len() as int) =~= record);
    crate::wire::lemma_take_of_part(record, whole, 0, 8);
    lemma_option_of_part::<ATTACHMENT>(record, whole, 8);
    lemma_header_of_part(record, whole, p);
    lemma_header_of_part(record, whole, p + b.len());
}

proof fn lemma_option_of_part<const KIND: u8>(part: Seq<u8>, whole: Seq<u8>, position: int)
    requires
        part.len() <= whole.len(),
        part == whole.subrange(0, part.len() as int),
        0 <= position,
    ensures
        option_at::<KIND>(part, position) is Ok ==> option_at::<KIND>(whole, position)
            == option_at::<KIND>(part, position),
{
    crate::wire::lemma_take_of_part(part, whole, position, 1);
    crate::wire::lemma_take_of_part(part, whole, position + 1, 32);
}

proof fn lemma_header_of_part(part: Seq<u8>, whole: Seq<u8>, position: int)
    requires
        part.len() <= whole.len(),
        part == whole.subrange(0, part.len() as int),
        0 <= position,
    ensures
        header_at(part, position) is Ok ==> header_at(whole, position) == header_at(part, position),
{
    crate::wire::lemma_take_of_part(part, whole, position, 1);
    crate::wire::lemma_take_of_part(part, whole, position + 1, ACTIVE_HEADER_SIZE as int);
}

/// A head is read back from its record exactly where its headers are of the
/// namespace's database; elsewhere the identity is refused.
pub proof fn law_head_round_trip(head: Head, database: Option<DatabaseId>)
    ensures
        head_parse(head.record(), database) == if header_belongs(head.sealed, database)
            && header_belongs(head.pending, database) {
            Ok::<Head, StoreError>(head)
        } else {
            Err(StoreError::IdentityMismatch)
        },
{
    lemma_head_places(head, Seq::empty());
    assert(head.record() + Seq::<u8>::empty() =~= head.record());
}

/// A record of a head that lost bytes at its end is refused, and so is one with
/// bytes after its end.
pub proof fn law_head_takes_its_whole_record(
    head: Head,
    bytes: Seq<u8>,
    database: Option<DatabaseId>,
)
    requires
        bytes.is_prefix_of(head.record()) || head.record().is_prefix_of(bytes),
        bytes != head.record(),
    ensures
        head_parse(bytes, database) is Err,
{
    let record = head.record();
    let p = 8 + option_bytes(head.attachment).len() as int;
    let q = p + header_bytes(head.sealed).len() as int;
    if record.is_prefix_of(bytes) {
        let rest = bytes.subrange(record.len() as int, bytes.len() as int);
        assert(record + rest =~= bytes);
        lemma_head_places(head, rest);
        assert(bytes.len() != record.len()) by {
            if bytes.len() == record.len() {
                assert(bytes =~= record);
            }
        }
    } else {
        lemma_head_places(head, Seq::empty());
        assert(record + Seq::<u8>::empty() =~= record);
        assert(bytes.len() != record.len()) by {
            if bytes.len() == record.len() {
                assert(bytes =~= record);
            }
        }
        crate::wire::lemma_take_of_part(bytes, record, 0, 8);
        lemma_option_of_part::<ATTACHMENT>(bytes, record, 8);
        lemma_header_of_part(bytes, record, p);
        lemma_header_of_part(bytes, record, q);
    }
}

} // verus!
