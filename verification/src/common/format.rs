//! The internal key codec: value type tags, the eight-byte footer that packs a
//! sequence number with a value type, and the holder that stamps one global
//! sequence number on the keys of a table.

use vstd::prelude::*;
use crate::common::{DISABLE_GLOBAL_SEQUENCE_NUMBER, MAX_SEQUENCE_NUMBER};
use crate::util::{
    decode_fixed_uint64, extract_user_key, lemma_decode_fixed_uint64_low_byte, put_fixed_uint64,
    spec_decode_fixed_uint64,
    spec_agree_up_to, spec_encode_fixed_uint64, spec_extract_user_key, FOOTER_SIZE,
};

verus! {

/// What an entry of the table records. The tag of each variant is the low
/// byte of the footer of an internal key.
#[derive(Clone, Copy, Debug, PartialEq, Eq, Structural)]
pub enum ValueType {
    TypeDeletion,
    TypeValue,
    TypeMerge,
    /// Write-ahead log only.
    TypeLogData,
    /// Write-ahead log only.
    TypeColumnFamilyDeletion,
    /// Write-ahead log only.
    TypeColumnFamilyValue,
    /// Write-ahead log only.
    TypeColumnFamilyMerge,
    /// Write-ahead log only.
    TypeColumnFamilyRangeDeletion,
    /// Stored in a meta block.
    TypeRangeDeletion,
    /// Blob store only.
    TypeColumnFamilyBlobIndex,
    /// Blob store only.
    TypeBlobIndex,
    /// Upper bound of the tags; never stored.
    MaxValue,
}

impl ValueType {
    /// The tag byte of a value type.
    pub open spec fn spec_to_u8(self) -> u8 {
        match self {
            ValueType::TypeDeletion => 0x0,
            ValueType::TypeValue => 0x1,
            ValueType::TypeMerge => 0x2,
            ValueType::TypeLogData => 0x3,
            ValueType::TypeColumnFamilyDeletion => 0x4,
            ValueType::TypeColumnFamilyValue => 0x5,
            ValueType::TypeColumnFamilyMerge => 0x6,
            ValueType::TypeColumnFamilyRangeDeletion => 0xE,
            ValueType::TypeRangeDeletion => 0xF,
            ValueType::TypeColumnFamilyBlobIndex => 0x10,
            ValueType::TypeBlobIndex => 0x11,
            ValueType::MaxValue => 0x7F,
        }
    }

    /// The value type that a tag byte stands for, if any.
    pub open spec fn spec_from_u8(tag: u8) -> Option<ValueType> {
        if tag == 0x0 {
            Some(ValueType::TypeDeletion)
        } else if tag == 0x1 {
            Some(ValueType::TypeValue)
        } else if tag == 0x2 {
            Some(ValueType::TypeMerge)
        } else if tag == 0x3 {
            Some(ValueType::TypeLogData)
        } else if tag == 0x4 {
            Some(ValueType::TypeColumnFamilyDeletion)
        } else if tag == 0x5 {
            Some(ValueType::TypeColumnFamilyValue)
        } else if tag == 0x6 {
            Some(ValueType::TypeColumnFamilyMerge)
        } else if tag == 0xE {
            Some(ValueType::TypeColumnFamilyRangeDeletion)
        } else if tag == 0xF {
            Some(ValueType::TypeRangeDeletion)
        } else if tag == 0x10 {
            Some(ValueType::TypeColumnFamilyBlobIndex)
        } else if tag == 0x11 {
            Some(ValueType::TypeBlobIndex)
        } else if tag == 0x7F {
            Some(ValueType::MaxValue)
        } else {
            None
        }
    }

    /// Returns the tag byte of this value type.
    pub fn to_u8(self) -> (tag: u8)
        ensures
            tag == self.spec_to_u8(),
    {
        match self {
            ValueType::TypeDeletion => 0x0,
            ValueType::TypeValue => 0x1,
            ValueType::TypeMerge => 0x2,
            ValueType::TypeLogData => 0x3,
            ValueType::TypeColumnFamilyDeletion => 0x4,
            ValueType::TypeColumnFamilyValue => 0x5,
            ValueType::TypeColumnFamilyMerge => 0x6,
            ValueType::TypeColumnFamilyRangeDeletion => 0xE,
            ValueType::TypeRangeDeletion => 0xF,
            ValueType::TypeColumnFamilyBlobIndex => 0x10,
            ValueType::TypeBlobIndex => 0x11,
            ValueType::MaxValue => 0x7F,
        }
    }

    /// Decodes a tag byte; a byte that is no tag gives `None`.
    pub fn from_u8(tag: u8) -> (value_type: Option<ValueType>)
        ensures
            value_type == Self::spec_from_u8(tag),
            value_type matches Some(v) ==> v.spec_to_u8() == tag,
            value_type is None ==> forall|v: ValueType| v.spec_to_u8() != tag,
    {
        match tag {
            0x0 => Some(ValueType::TypeDeletion),
            0x1 => Some(ValueType::TypeValue),
            0x2 => Some(ValueType::TypeMerge),
            0x3 => Some(ValueType::TypeLogData),
            0x4 => Some(ValueType::TypeColumnFamilyDeletion),
            0x5 => Some(ValueType::TypeColumnFamilyValue),
            0x6 => Some(ValueType::TypeColumnFamilyMerge),
            0xE => Some(ValueType::TypeColumnFamilyRangeDeletion),
            0xF => Some(ValueType::TypeRangeDeletion),
            0x10 => Some(ValueType::TypeColumnFamilyBlobIndex),
            0x11 => Some(ValueType::TypeBlobIndex),
            0x7F => Some(ValueType::MaxValue),
            _ => None,
        }
    }

    /// Every value type is what its own tag decodes to.
    pub proof fn lemma_tag_round_trip(self)
        ensures
            Self::spec_from_u8(self.spec_to_u8()) == Some(self),
    {
    }
}

/// Tag used in the footer of a key that a seek starts from: the largest tag
/// that is ever stored, so that the key orders before every stored entry of
/// the same user key and sequence number.
pub const VALUE_TYPE_FOR_SEEK: u8 = 0x11;

/// The footer that packs `seq` and the tag `t`: the tag in the low byte, the
/// low 56 bits of `seq` above it.
pub open spec fn spec_pack_sequence_and_type(seq: u64, t: u8) -> u64 {
    ((seq % 0x100_0000_0000_0000) * 0x100 + t) as u64
}

/// The value type tag that a footer holds: its low byte.
pub open spec fn spec_footer_value_type(footer: u64) -> u8 {
    (footer % 0x100) as u8
}

/// The sequence number that a footer holds: its upper 56 bits.
pub open spec fn spec_footer_sequence(footer: u64) -> u64 {
    footer / 0x100
}

/// The footer of an internal key: its last eight bytes, read as a
/// little-endian integer.
pub open spec fn spec_internal_key_footer(key: Seq<u8>) -> u64
    recommends
        key.len() >= FOOTER_SIZE,
{
    spec_decode_fixed_uint64(key.subrange(key.len() - FOOTER_SIZE, key.len() as int))
}

/// The value type tag of an internal key.
pub open spec fn spec_value_type(key: Seq<u8>) -> u8
    recommends
        key.len() >= FOOTER_SIZE,
{
    spec_footer_value_type(spec_internal_key_footer(key))
}

/// The sequence number of an internal key.
pub open spec fn spec_sequence_number(key: Seq<u8>) -> u64
    recommends
        key.len() >= FOOTER_SIZE,
{
    spec_footer_sequence(spec_internal_key_footer(key))
}

/// The internal key of a user key, a sequence number and a value type tag:
/// the user key followed by the eight bytes of the packed footer.
pub open spec fn spec_internal_key(user_key: Seq<u8>, seq: u64, t: u8) -> Seq<u8> {
    user_key + spec_encode_fixed_uint64(spec_pack_sequence_and_type(seq, t))
}

/// Packs a sequence number and a value type tag into a footer,
/// `(seq << 8) | t`. Bits of `seq` above the 56th do not fit and are lost.
pub fn pack_sequence_and_type(seq: u64, t: u8) -> (footer: u64)
    ensures
        footer == spec_pack_sequence_and_type(seq, t),
        spec_footer_value_type(footer) == t,
        seq <= MAX_SEQUENCE_NUMBER ==> footer == seq * 0x100 + t && spec_footer_sequence(footer)
            == seq,
{
    let low: u64 = t as u64;
    assert((seq << 8) | low == (seq % 0x100_0000_0000_0000) * 0x100 + low) by (bit_vector)
        requires
            low < 0x100,
    ;
    (seq << 8) | low
}

/// Appends to `dst` the internal key of a user key, a sequence number and a
/// value type tag.
pub fn append_internal_key(dst: &mut Vec<u8>, user_key: &[u8], seq: u64, t: u8)
    ensures
        final(dst)@ == old(dst)@ + spec_internal_key(user_key@, seq, t),
{
    dst.extend_from_slice(user_key);
    put_fixed_uint64(dst, pack_sequence_and_type(seq, t));
    assert(dst@ =~= old(dst)@ + spec_internal_key(user_key@, seq, t));
}

/// Reads the footer of an internal key: its last eight bytes as a
/// little-endian integer.
pub fn extract_internal_key_footer(key: &[u8]) -> (footer: u64)
    requires
        key@.len() >= FOOTER_SIZE,
    ensures
        footer == spec_internal_key_footer(key@),
{
    let n: usize = key.len();
    decode_fixed_uint64(&key[(n - FOOTER_SIZE)..n])
}

/// Reads the value type tag of an internal key: the low byte of its footer,
/// which is the first of its last eight bytes.
pub fn extract_value_type(key: &[u8]) -> (t: u8)
    requires
        key@.len() >= FOOTER_SIZE,
    ensures
        t == spec_value_type(key@),
        t == key@[key@.len() - FOOTER_SIZE],
{
    let num: u64 = extract_internal_key_footer(key);
    proof {
        lemma_decode_fixed_uint64_low_byte(
            key@.subrange(key@.len() - FOOTER_SIZE, key@.len() as int),
        );
    }
    assert(num & 0xff == num % 0x100) by (bit_vector);
    (num & 0xff) as u8
}

/// Whether a tag marks an entry that a reader hands out as a value: a
/// deletion, a value, a merge operand or a blob index.
pub open spec fn spec_is_value_type(t: u8) -> bool {
    t <= ValueType::TypeMerge.spec_to_u8() || t == ValueType::TypeBlobIndex.spec_to_u8()
}

/// Whether a tag marks a value in the sense of `spec_is_value_type` or a range
/// deletion.
pub open spec fn spec_is_extended_value_type(t: u8) -> bool {
    spec_is_value_type(t) || t == ValueType::TypeRangeDeletion.spec_to_u8()
}

/// Tells whether `t` is the tag of a deletion, a value, a merge operand or a
/// blob index.
pub fn is_value_type(t: u8) -> (b: bool)
    ensures
        b == spec_is_value_type(t),
        b <==> (ValueType::spec_from_u8(t) matches Some(v) && (v == ValueType::TypeDeletion || v
            == ValueType::TypeValue || v == ValueType::TypeMerge || v
            == ValueType::TypeBlobIndex)),
{
    t <= ValueType::TypeMerge.to_u8() || t == ValueType::TypeBlobIndex.to_u8()
}

/// Tells whether `t` is the tag of a deletion, a value, a merge operand, a
/// blob index or a range deletion.
pub fn is_extended_value_type(t: u8) -> (b: bool)
    ensures
        b == spec_is_extended_value_type(t),
        b <==> spec_is_value_type(t) || ValueType::spec_from_u8(t) == Some(
            ValueType::TypeRangeDeletion,
        ),
{
    t <= ValueType::TypeMerge.to_u8() || t == ValueType::TypeBlobIndex.to_u8() || t
        == ValueType::TypeRangeDeletion.to_u8()
}

/// A half-open range `offset..limit` of bytes in a buffer that somebody else
/// owns. It holds no bytes itself and means something only together with the
/// buffer it was made for.
#[derive(Clone, Copy, Debug)]
pub struct Slice {
    pub offset: usize,
    pub limit: usize,
}

impl Slice {
    /// Whether the range lies inside a buffer of `buffer_len` bytes.
    pub open spec fn is_valid_for(&self, buffer_len: nat) -> bool {
        self.offset <= self.limit <= buffer_len
    }

    /// The bytes of `buffer` that the range denotes.
    pub open spec fn spec_bytes(&self, buffer: Seq<u8>) -> Seq<u8>
        recommends
            self.is_valid_for(buffer.len()),
    {
        buffer.subrange(self.offset as int, self.limit as int)
    }

    /// Number of bytes in the range; none where `limit` lies before `offset`.
    pub fn len(&self) -> (n: usize)
        ensures
            n == if self.offset <= self.limit {
                self.limit - self.offset
            } else {
                0
            },
    {
        if self.offset <= self.limit {
            self.limit - self.offset
        } else {
            0
        }
    }

    /// Borrows the bytes of `buffer` that the range denotes.
    pub fn bytes<'a>(&self, buffer: &'a [u8]) -> (bytes: &'a [u8])
        requires
            self.is_valid_for(buffer@.len()),
        ensures
            bytes@ == self.spec_bytes(buffer@),
    {
        &buffer[self.offset..self.limit]
    }
}

impl Default for Slice {
    /// The empty range at the start of a buffer.
    fn default() -> (slice: Self)
        ensures
            slice.offset == 0,
            slice.limit == 0,
    {
        Slice { offset: 0, limit: 0 }
    }
}

/// What a `GlobalSeqnoAppliedKey` holds.
pub struct GlobalSeqnoAppliedKeyView {
    /// The bytes of the key that is held.
    pub key: Seq<u8>,
    /// The sequence number that `set_key` stamps on each key, or
    /// `DISABLE_GLOBAL_SEQUENCE_NUMBER`.
    pub global_seqno: u64,
    /// Whether the bytes held are a user key, with no footer behind it.
    pub is_user_key: bool,
}

/// The key that `set_key` stores for `key` under `global_seqno`: `key` itself
/// where rewriting is switched off, else the user key of `key` followed by a
/// footer that packs `global_seqno` with the value type tag of `key`.
pub open spec fn spec_apply_global_seqno(global_seqno: u64, key: Seq<u8>) -> Seq<u8>
    recommends
        global_seqno != DISABLE_GLOBAL_SEQUENCE_NUMBER ==> key.len() >= FOOTER_SIZE,
{
    if global_seqno == DISABLE_GLOBAL_SEQUENCE_NUMBER {
        key
    } else {
        spec_internal_key(spec_extract_user_key(key), global_seqno, spec_value_type(key))
    }
}

/// `held` cut down to its first `shared` bytes, or filled up to `shared` bytes
/// with zeros where it is shorter.
pub open spec fn spec_resize_key(held: Seq<u8>, shared: nat) -> Seq<u8> {
    if shared <= held.len() {
        held.subrange(0, shared as int)
    } else {
        held + Seq::new((shared - held.len()) as nat, |i: int| 0u8)
    }
}

/// The key that `trim_append` leaves: the first `shared` bytes of `held`,
/// then the `non_shared` bytes of `data` from `offset` on.
pub open spec fn spec_trim_append(
    held: Seq<u8>,
    data: Seq<u8>,
    offset: nat,
    shared: nat,
    non_shared: nat,
) -> Seq<u8>
    recommends
        offset + non_shared <= data.len(),
{
    spec_resize_key(held, shared) + data.subrange(offset as int, (offset + non_shared) as int)
}

/// Where the front-coded form of one key lies: the key shares its first
/// `shared` bytes with the key before it, and its other `non_shared` bytes
/// stand in the data from `offset` on.
pub struct FrontCodedEntry {
    pub offset: nat,
    pub shared: nat,
    pub non_shared: nat,
}

/// `entry` is a front-coded form of `key` against `prev` in `data`.
pub open spec fn spec_is_front_coded(
    prev: Seq<u8>,
    key: Seq<u8>,
    data: Seq<u8>,
    entry: FrontCodedEntry,
) -> bool {
    &&& spec_agree_up_to(prev, key, entry.shared as int)
    &&& entry.shared + entry.non_shared == key.len()
    &&& entry.offset + entry.non_shared <= data.len()
    &&& data.subrange(entry.offset as int, (entry.offset + entry.non_shared) as int)
        == key.subrange(entry.shared as int, key.len() as int)
}

/// The key that the `i`-th key of a run is front-coded against: the key
/// before it, and for the first key what the holder held at the start.
pub open spec fn spec_key_before(start: Seq<u8>, keys: Seq<Seq<u8>>, i: int) -> Seq<u8> {
    if i == 0 {
        start
    } else {
        keys[i - 1]
    }
}

/// Each of `entries` is a front-coded form of the key of `keys` at its
/// place, against the key before it.
pub open spec fn spec_is_front_coded_run(
    start: Seq<u8>,
    keys: Seq<Seq<u8>>,
    data: Seq<u8>,
    entries: Seq<FrontCodedEntry>,
) -> bool {
    &&& entries.len() == keys.len()
    &&& forall|i: int|
        0 <= i < keys.len() ==> spec_is_front_coded(
            spec_key_before(start, keys, i),
            #[trigger] keys[i],
            data,
            entries[i],
        )
}

/// The keys that a holder of `held` goes through when `trim_append` is called
/// on it for each of `entries` in turn.
pub open spec fn spec_replay(held: Seq<u8>, data: Seq<u8>, entries: Seq<FrontCodedEntry>) -> Seq<
    Seq<u8>,
>
    decreases entries.len(),
{
    if entries.len() == 0 {
        Seq::empty()
    } else {
        let key = spec_trim_append(
            held,
            data,
            entries[0].offset,
            entries[0].shared,
            entries[0].non_shared,
        );
        seq![key] + spec_replay(key, data, entries.subrange(1, entries.len() as int))
    }
}

/// Holder of one internal key at a time that stamps a global sequence number
/// on every key stored through `set_key`. It owns its buffer; a slice
/// borrowed from it is valid until the next call that changes it.
pub struct GlobalSeqnoAppliedKey {
    internal_key: Vec<u8>,
    global_seqno: u64,
    is_user_key: bool,
}

impl View for GlobalSeqnoAppliedKey {
    type V = GlobalSeqnoAppliedKeyView;

    closed spec fn view(&self) -> GlobalSeqnoAppliedKeyView {
        GlobalSeqnoAppliedKeyView {
            key: self.internal_key@,
            global_seqno: self.global_seqno,
            is_user_key: self.is_user_key,
        }
    }
}

impl GlobalSeqnoAppliedKey {
    /// Makes an empty holder for the given global sequence number.
    pub fn new(global_seqno: u64, is_user_key: bool) -> (holder: Self)
        ensures
            holder@.key == Seq::<u8>::empty(),
            holder@.global_seqno == global_seqno,
            holder@.is_user_key == is_user_key,
    {
        Self { internal_key: Vec::new(), global_seqno, is_user_key }
    }

    /// Borrows the bytes of the key that is held.
    pub fn get_key(&self) -> (key: &[u8])
        ensures
            key@ == self@.key,
    {
        self.internal_key.as_slice()
    }

    /// Borrows the user key of the key that is held: all of it where the
    /// holder holds a user key, else all but the footer.
    pub fn get_user_key(&self) -> (user_key: &[u8])
        requires
            !self@.is_user_key ==> self@.key.len() >= FOOTER_SIZE,
        ensures
            user_key@ == if self@.is_user_key {
                self@.key
            } else {
                spec_extract_user_key(self@.key)
            },
    {
        if self.is_user_key {
            self.internal_key.as_slice()
        } else {
            extract_user_key(self.internal_key.as_slice())
        }
    }

    /// Marks the holder as holding a user key and stores `key` as `set_key`
    /// does.
    pub fn set_user_key(&mut self, key: &[u8])
        requires
            old(self)@.global_seqno != DISABLE_GLOBAL_SEQUENCE_NUMBER ==> key@.len() >= FOOTER_SIZE,
        ensures
            final(self)@.key == spec_apply_global_seqno(old(self)@.global_seqno, key@),
            final(self)@.global_seqno == old(self)@.global_seqno,
            final(self)@.is_user_key,
    {
        self.is_user_key = true;
        self.set_key(key);
    }

    /// Stores `key` in place of the key held before. Where rewriting is
    /// switched off the bytes are stored as they are. Else the sequence
    /// number in the footer of `key` is replaced by the global sequence
    /// number; user key and value type tag stay.
    pub fn set_key(&mut self, key: &[u8])
        requires
            old(self)@.global_seqno != DISABLE_GLOBAL_SEQUENCE_NUMBER ==> key@.len() >= FOOTER_SIZE,
        ensures
            final(self)@.key == spec_apply_global_seqno(old(self)@.global_seqno, key@),
            final(self)@.global_seqno == old(self)@.global_seqno,
            final(self)@.is_user_key == old(self)@.is_user_key,
            old(self)@.global_seqno == DISABLE_GLOBAL_SEQUENCE_NUMBER ==> final(self)@.key == key@,
            old(self)@.global_seqno != DISABLE_GLOBAL_SEQUENCE_NUMBER ==> {
                &&& final(self)@.key.len() == key@.len()
                &&& spec_extract_user_key(final(self)@.key) == spec_extract_user_key(key@)
                &&& spec_value_type(final(self)@.key) == spec_value_type(key@)
                &&& spec_sequence_number(final(self)@.key) == old(self)@.global_seqno
                    % 0x100_0000_0000_0000
                &&& old(self)@.global_seqno <= MAX_SEQUENCE_NUMBER ==> spec_sequence_number(
                    final(self)@.key,
                ) == old(self)@.global_seqno
            },
    {
        self.internal_key.clear();
        if self.global_seqno == DISABLE_GLOBAL_SEQUENCE_NUMBER {
            self.internal_key.extend_from_slice(key);
            assert(self.internal_key@ =~= key@);
            return ;
        }
        let tail_offset: usize = key.len() - FOOTER_SIZE;
        let t: u8 = extract_value_type(key);
        self.internal_key.extend_from_slice(&key[0..tail_offset]);
        assert(self.internal_key@ =~= spec_extract_user_key(key@));
        let num: u64 = pack_sequence_and_type(self.global_seqno, t);
        put_fixed_uint64(&mut self.internal_key, num);
        proof {
            lemma_internal_key_parts(spec_extract_user_key(key@), self.global_seqno, t);
        }
    }

    /// Rebuilds a key from its front-coded form: keeps the first `shared`
    /// bytes of the key held and appends the `non_shared` bytes of `data`
    /// that start at `offset`. A key shorter than `shared` bytes is first
    /// filled up with zeros.
    pub fn trim_append(&mut self, data: &[u8], offset: usize, shared: usize, non_shared: usize)
        requires
            offset + non_shared <= data@.len(),
        ensures
            final(self)@.key == spec_trim_append(
                old(self)@.key,
                data@,
                offset as nat,
                shared as nat,
                non_shared as nat,
            ),
            final(self)@.global_seqno == old(self)@.global_seqno,
            final(self)@.is_user_key == old(self)@.is_user_key,
    {
        assert(offset + non_shared <= data.len());
        let end: usize = offset + non_shared;
        self.internal_key.resize(shared, 0);
        assert(self.internal_key@ =~= spec_resize_key(old(self)@.key, shared as nat));
        self.internal_key.extend_from_slice(&data[offset..end]);
        assert(self.internal_key@ =~= spec_trim_append(
            old(self)@.key,
            data@,
            offset as nat,
            shared as nat,
            non_shared as nat,
        ));
    }
}

/// An internal key splits back into the parts it was built from: the user
/// key, the value type tag and the low 56 bits of the sequence number.
pub proof fn lemma_internal_key_parts(user_key: Seq<u8>, seq: u64, t: u8)
    ensures
        spec_internal_key(user_key, seq, t).len() == user_key.len() + FOOTER_SIZE,
        spec_extract_user_key(spec_internal_key(user_key, seq, t)) == user_key,
        spec_internal_key_footer(spec_internal_key(user_key, seq, t))
            == spec_pack_sequence_and_type(seq, t),
        spec_value_type(spec_internal_key(user_key, seq, t)) == t,
        spec_sequence_number(spec_internal_key(user_key, seq, t)) == seq % 0x100_0000_0000_0000,
{
    let footer = spec_pack_sequence_and_type(seq, t);
    let key = spec_internal_key(user_key, seq, t);
    crate::util::lemma_decode_encode_fixed_uint64(footer);
    assert(key.subrange(0, key.len() - FOOTER_SIZE) =~= user_key);
    assert(key.subrange(key.len() - FOOTER_SIZE, key.len() as int) =~= spec_encode_fixed_uint64(
        footer,
    ));
}

/// An internal key is determined by its user key and its footer.
pub proof fn lemma_internal_key_determined(a: Seq<u8>, b: Seq<u8>)
    requires
        a.len() >= FOOTER_SIZE,
        b.len() >= FOOTER_SIZE,
        spec_extract_user_key(a) == spec_extract_user_key(b),
        spec_internal_key_footer(a) == spec_internal_key_footer(b),
    ensures
        a == b,
{
    let tail_a = a.subrange(a.len() - FOOTER_SIZE, a.len() as int);
    let tail_b = b.subrange(b.len() - FOOTER_SIZE, b.len() as int);
    crate::util::lemma_encode_decode_fixed_uint64(tail_a);
    crate::util::lemma_encode_decode_fixed_uint64(tail_b);
    assert(a =~= spec_extract_user_key(a) + tail_a);
    assert(b =~= spec_extract_user_key(b) + tail_b);
}

/// Stamping a global sequence number on a key leaves its length as it is.
pub proof fn lemma_applied_key_len(global_seqno: u64, key: Seq<u8>)
    requires
        key.len() >= FOOTER_SIZE,
    ensures
        spec_apply_global_seqno(global_seqno, key).len() == key.len(),
{
    lemma_internal_key_parts(spec_extract_user_key(key), global_seqno, spec_value_type(key));
}

/// A key stored under a global sequence number keeps its user key and its
/// value type tag and carries that sequence number, whatever sequence number
/// it came with.
pub proof fn lemma_applied_key_carries_global_seqno(global_seqno: u64, key: Seq<u8>)
    requires
        global_seqno != DISABLE_GLOBAL_SEQUENCE_NUMBER,
        global_seqno <= MAX_SEQUENCE_NUMBER,
        key.len() >= FOOTER_SIZE,
    ensures
        spec_apply_global_seqno(global_seqno, key).len() == key.len(),
        spec_extract_user_key(spec_apply_global_seqno(global_seqno, key)) == spec_extract_user_key(
            key,
        ),
        spec_value_type(spec_apply_global_seqno(global_seqno, key)) == spec_value_type(key),
        spec_sequence_number(spec_apply_global_seqno(global_seqno, key)) == global_seqno,
{
    lemma_internal_key_parts(spec_extract_user_key(key), global_seqno, spec_value_type(key));
}

/// Where a key is front-coded against the key before it, as the number of
/// leading bytes that the two share and the bytes that follow them,
/// `trim_append` on a holder of the key before it rebuilds the key.
pub proof fn lemma_trim_append_rebuilds_key(
    prev: Seq<u8>,
    key: Seq<u8>,
    data: Seq<u8>,
    entry: FrontCodedEntry,
)
    requires
        spec_is_front_coded(prev, key, data, entry),
    ensures
        spec_trim_append(prev, data, entry.offset, entry.shared, entry.non_shared) == key,
{
    assert(spec_trim_append(prev, data, entry.offset, entry.shared, entry.non_shared) =~= key);
}

/// Replaying the front-coded entries of a run of keys through `trim_append`,
/// one after the other on one holder, rebuilds the keys of the run in their
/// order.
pub proof fn lemma_replay_rebuilds_keys(
    start: Seq<u8>,
    keys: Seq<Seq<u8>>,
    data: Seq<u8>,
    entries: Seq<FrontCodedEntry>,
)
    requires
        spec_is_front_coded_run(start, keys, data, entries),
    ensures
        spec_replay(start, data, entries) == keys,
    decreases entries.len(),
{
    if entries.len() == 0 {
        assert(spec_replay(start, data, entries) =~= keys);
    } else {
        assert(spec_is_front_coded(spec_key_before(start, keys, 0), keys[0], data, entries[0]));
        lemma_trim_append_rebuilds_key(start, keys[0], data, entries[0]);
        let rest_keys = keys.subrange(1, keys.len() as int);
        let rest_entries = entries.subrange(1, entries.len() as int);
        assert forall|i: int| 0 <= i < rest_keys.len() implies spec_is_front_coded(
            spec_key_before(keys[0], rest_keys, i),
            #[trigger] rest_keys[i],
            data,
            rest_entries[i],
        ) by {
            assert(spec_is_front_coded(
                spec_key_before(start, keys, i + 1),
                keys[i + 1],
                data,
                entries[i + 1],
            ));
        }
        lemma_replay_rebuilds_keys(keys[0], rest_keys, data, rest_entries);
        assert(spec_replay(start, data, entries) =~= keys);
    }
}

} // verus!
