//! Building a block: entries are front-coded against the entry before them,
//! and every so many entries one is stored whole and noted as a restart
//! point.

use vstd::prelude::*;
use crate::table::block_based::block::{
    spec_entry_at, spec_entry_end, spec_entry_fits, spec_entry_non_shared, spec_entry_shared,
    spec_entry_value_len, spec_length_at, spec_parse_block, spec_parse_entries, Entry,
    ENTRY_HEADER_SIZE,
};
use crate::table::TableError;
use crate::util::{
    common_prefix_len, lemma_common_prefix_len_exists, lemma_decode_encode_fixed_uint32,
    put_fixed_uint32, spec_agree_up_to, spec_common_prefix_len, spec_encode_fixed_uint32,
};

verus! {

/// The bytes of an entry that shares the first `shared` bytes of its key
/// with the key before it.
pub open spec fn spec_encode_entry(shared: nat, entry: Entry) -> Seq<u8>
    recommends
        shared <= entry.key.len(),
{
    spec_encode_fixed_uint32(shared as u32) + spec_encode_fixed_uint32(
        (entry.key.len() - shared) as u32,
    ) + spec_encode_fixed_uint32(entry.value.len() as u32) + entry.key.subrange(
        shared as int,
        entry.key.len() as int,
    ) + entry.value
}

/// The key before the `i`-th of `entries`; the empty key before the first.
pub open spec fn spec_key_before_entry(entries: Seq<Entry>, i: int) -> Seq<u8> {
    if i <= 0 {
        Seq::empty()
    } else {
        entries[i - 1].key
    }
}

/// How many entries stand after the latest restart point, that point
/// counted, once `n` entries were added.
pub open spec fn spec_restart_counter(interval: nat, n: nat) -> nat
    decreases n,
{
    if n == 0 {
        0
    } else if spec_restart_counter(interval, (n - 1) as nat) < interval {
        spec_restart_counter(interval, (n - 1) as nat) + 1
    } else {
        1
    }
}

/// How many leading bytes of its key the `i`-th entry leaves to the key
/// before it: what the two keys share, and nothing where the entry is a
/// restart point.
pub open spec fn spec_shared_len(entries: Seq<Entry>, interval: nat, i: int) -> nat {
    if spec_restart_counter(interval, i as nat) < interval {
        spec_common_prefix_len(spec_key_before_entry(entries, i), entries[i].key) as nat
    } else {
        0
    }
}

/// The bytes of the first `n` of `entries`.
pub open spec fn spec_encode_entries(entries: Seq<Entry>, interval: nat, n: nat) -> Seq<u8>
    decreases n,
{
    if n == 0 {
        Seq::empty()
    } else {
        spec_encode_entries(entries, interval, (n - 1) as nat) + spec_encode_entry(
            spec_shared_len(entries, interval, n - 1),
            entries[n - 1],
        )
    }
}

/// The restart points of the first `n` of `entries`: offset 0, and the
/// offset of each entry that follows a full interval of entries.
pub open spec fn spec_restart_points(entries: Seq<Entry>, interval: nat, n: nat) -> Seq<u32>
    decreases n,
{
    if n == 0 {
        seq![0u32]
    } else if spec_restart_counter(interval, (n - 1) as nat) < interval {
        spec_restart_points(entries, interval, (n - 1) as nat)
    } else {
        spec_restart_points(entries, interval, (n - 1) as nat).push(
            spec_encode_entries(entries, interval, (n - 1) as nat).len() as u32,
        )
    }
}

/// The bytes of the first `n` of `values`, four for each.
pub open spec fn spec_encode_fixed_uint32s(values: Seq<u32>, n: nat) -> Seq<u8>
    decreases n,
{
    if n == 0 {
        Seq::empty()
    } else {
        spec_encode_fixed_uint32s(values, (n - 1) as nat) + spec_encode_fixed_uint32(values[n - 1])
    }
}

/// The bytes of a block of `entries`: the entries, the restart points, and
/// the number of restart points.
pub open spec fn spec_encode_block(entries: Seq<Entry>, interval: nat) -> Seq<u8> {
    let points = spec_restart_points(entries, interval, entries.len());
    spec_encode_entries(entries, interval, entries.len()) + spec_encode_fixed_uint32s(
        points,
        points.len(),
    ) + spec_encode_fixed_uint32(points.len() as u32)
}

/// The number of bytes of a block of `entries`.
pub open spec fn spec_block_size(entries: Seq<Entry>, interval: nat) -> nat {
    spec_encode_entries(entries, interval, entries.len()).len() + 4 * spec_restart_points(
        entries,
        interval,
        entries.len(),
    ).len() + 4
}

/// The number of bytes of a block of `entries` and one more entry with this
/// key and a value of `value_len` bytes.
pub open spec fn spec_grown_block_size(
    entries: Seq<Entry>,
    interval: nat,
    key: Seq<u8>,
    value_len: nat,
) -> nat {
    spec_block_size(
        entries.push(Entry { key, value: Seq::new(value_len, |i: int| 0u8) }),
        interval,
    )
}

/// What a `BlockBuilder` holds.
pub struct BlockBuilderView {
    /// The entries added since the builder was made or last finished.
    pub entries: Seq<Entry>,
    /// After how many entries a restart point is set.
    pub restart_interval: nat,
}

/// Collects the entries of one block.
pub struct BlockBuilder {
    buffer: Vec<u8>,
    restarts: Vec<u32>,
    counter: usize,
    restart_interval: usize,
    last_key: Vec<u8>,
    entries: Ghost<Seq<Entry>>,
}

impl View for BlockBuilder {
    type V = BlockBuilderView;

    closed spec fn view(&self) -> BlockBuilderView {
        BlockBuilderView {
            entries: self.entries@,
            restart_interval: self.restart_interval as nat,
        }
    }
}

impl BlockBuilder {
    /// The builder holds the bytes of its entries, and the block of them has
    /// no more bytes than a 32-bit offset can tell.
    pub closed spec fn wf(&self) -> bool {
        let interval = self.restart_interval as nat;
        let n = self.entries@.len();
        &&& interval >= 1
        &&& self.buffer@ == spec_encode_entries(self.entries@, interval, n)
        &&& self.restarts@ == spec_restart_points(self.entries@, interval, n)
        &&& self.counter == spec_restart_counter(interval, n)
        &&& self.last_key@ == spec_key_before_entry(self.entries@, n as int)
        &&& self.last_key@.len() <= self.buffer@.len()
        &&& self.buffer@.len() + 4 * self.restarts@.len() + 4 <= u32::MAX
    }

    /// Makes a builder without entries that sets a restart point after every
    /// `restart_interval` entries.
    pub fn new(restart_interval: usize) -> (builder: Self)
        requires
            restart_interval >= 1,
        ensures
            builder.wf(),
            builder@.entries == Seq::<Entry>::empty(),
            builder@.restart_interval == restart_interval,
    {
        let mut restarts: Vec<u32> = Vec::new();
        restarts.push(0);
        BlockBuilder {
            buffer: Vec::new(),
            restarts,
            counter: 0,
            restart_interval,
            last_key: Vec::new(),
            entries: Ghost(Seq::empty()),
        }
    }

    /// Tells whether no entry was added.
    pub fn is_empty(&self) -> (empty: bool)
        requires
            self.wf(),
        ensures
            empty == (self@.entries.len() == 0),
    {
        proof {
            lemma_encode_entries_len(self.entries@, self.restart_interval as nat, self.entries@.len());
        }
        self.buffer.len() == 0
    }

    /// The number of bytes that the block would have if it were finished
    /// now.
    pub fn current_size(&self) -> (size: usize)
        requires
            self.wf(),
        ensures
            size == spec_block_size(self@.entries, self@.restart_interval),
            size == spec_encode_block(self@.entries, self@.restart_interval).len(),
            size <= u32::MAX,
    {
        proof {
            lemma_encode_block_len(self.entries@, self.restart_interval as nat);
        }
        self.buffer.len() + 4 * self.restarts.len() + 4
    }

    /// Tells whether the block has room for one more entry with this key
    /// and a value of `value_len` bytes.
    pub fn would_fit(&self, key: &[u8], value_len: usize) -> (fits: bool)
        requires
            self.wf(),
        ensures
            fits == (spec_grown_block_size(
                self@.entries,
                self@.restart_interval,
                key@,
                value_len as nat,
            ) <= u32::MAX),
    {
        proof {
            lemma_push_entry(
                self.entries@,
                Entry { key: key@, value: Seq::new(value_len as nat, |i: int| 0u8) },
                self.restart_interval as nat,
            );
        }
        let restart: bool = self.counter >= self.restart_interval;
        let shared: usize = if restart {
            0
        } else {
            common_prefix_len(self.last_key.as_slice(), key)
        };
        let non_shared: usize = key.len() - shared;
        let used: usize = self.buffer.len() + 4 * self.restarts.len() + 4;
        let header: usize = if restart {
            ENTRY_HEADER_SIZE + 4
        } else {
            ENTRY_HEADER_SIZE
        };
        let max: usize = 0xFFFF_FFFF;
        max - used >= header && non_shared <= max - used - header && value_len <= max - used
            - header - non_shared
    }

    /// Adds an entry behind those added before. Fails, and changes nothing,
    /// where the block would grow beyond what a 32-bit offset can tell.
    pub fn add(&mut self, key: &[u8], value: &[u8]) -> (result: Result<(), TableError>)
        requires
            old(self).wf(),
        ensures
            final(self).wf(),
            final(self)@.restart_interval == old(self)@.restart_interval,
            result is Ok <==> spec_grown_block_size(
                old(self)@.entries,
                old(self)@.restart_interval,
                key@,
                value@.len(),
            ) <= u32::MAX,
            result is Ok ==> final(self)@.entries == old(self)@.entries.push(
                Entry { key: key@, value: value@ },
            ),
            result is Err ==> result == Err::<(), TableError>(TableError::TooLarge)
                && final(self)@.entries == old(self)@.entries,
    {
        let ghost entry = Entry { key: key@, value: value@ };
        if !self.would_fit(key, value.len()) {
            return Err(TableError::TooLarge);
        }
        proof {
            lemma_push_entry(self.entries@, entry, self.restart_interval as nat);
            lemma_push_entry(
                self.entries@,
                Entry { key: key@, value: Seq::new(value@.len(), |i: int| 0u8) },
                self.restart_interval as nat,
            );
        }
        let restart: bool = self.counter >= self.restart_interval;
        let shared: usize = if restart {
            0
        } else {
            common_prefix_len(self.last_key.as_slice(), key)
        };
        if restart {
            self.restarts.push(self.buffer.len() as u32);
            self.counter = 0;
        }
        append_entry(&mut self.buffer, shared, key, value);
        self.last_key.truncate(shared);
        self.last_key.extend_from_slice(&key[shared..key.len()]);
        self.counter = self.counter + 1;
        self.entries = Ghost(self.entries@.push(entry));
        proof {
            assert(self.last_key@ =~= key@);
        }
        Ok(())
    }

    /// Hands out the bytes of the block of the entries added, and starts the
    /// builder anew.
    pub fn finish(&mut self) -> (block: Vec<u8>)
        requires
            old(self).wf(),
        ensures
            final(self).wf(),
            final(self)@.restart_interval == old(self)@.restart_interval,
            final(self)@.entries == Seq::<Entry>::empty(),
            block@ == spec_encode_block(old(self)@.entries, old(self)@.restart_interval),
            block@.len() <= u32::MAX,
            spec_parse_block(block@) == Some(old(self)@.entries),
    {
        let mut block: Vec<u8> = Vec::new();
        block.append(&mut self.buffer);
        let ghost points = self.restarts@;
        let mut i: usize = 0;
        while i < self.restarts.len()
            invariant
                i <= self.restarts@.len(),
                self.restarts@ == points,
                block@ == old(self).buffer@ + spec_encode_fixed_uint32s(points, i as nat),
            decreases self.restarts@.len() - i,
        {
            put_fixed_uint32(&mut block, self.restarts[i]);
            i += 1;
        }
        put_fixed_uint32(&mut block, self.restarts.len() as u32);
        proof {
            lemma_encode_block_parses(old(self).entries@, old(self).restart_interval as nat);
            lemma_encode_block_len(old(self).entries@, old(self).restart_interval as nat);
        }
        self.restarts.clear();
        self.restarts.push(0);
        self.counter = 0;
        self.last_key.clear();
        self.entries = Ghost(Seq::empty());
        block
    }
}

/// Tells whether a block without entries has room for an entry with this
/// key and a value of `value_len` bytes.
pub fn fits_empty_block(restart_interval: usize, key: &[u8], value_len: usize) -> (fits: bool)
    requires
        restart_interval >= 1,
    ensures
        fits == (spec_grown_block_size(
            Seq::empty(),
            restart_interval as nat,
            key@,
            value_len as nat,
        ) <= u32::MAX),
{
    proof {
        lemma_push_entry(
            Seq::empty(),
            Entry { key: key@, value: Seq::new(value_len as nat, |i: int| 0u8) },
            restart_interval as nat,
        );
        crate::util::lemma_common_prefix_len_unique(Seq::empty(), key@, 0);
    }
    let max: usize = 0xFFFF_FFFF;
    let used: usize = ENTRY_HEADER_SIZE + 8;
    key.len() <= max - used && value_len <= max - used - key.len()
}

/// Appends to `buffer` the bytes of an entry that shares the first `shared`
/// bytes of its key with the key before it.
fn append_entry(buffer: &mut Vec<u8>, shared: usize, key: &[u8], value: &[u8])
    requires
        shared <= key@.len(),
        shared <= u32::MAX,
        key@.len() - shared <= u32::MAX,
        value@.len() <= u32::MAX,
    ensures
        final(buffer)@ == old(buffer)@ + spec_encode_entry(
            shared as nat,
            Entry { key: key@, value: value@ },
        ),
{
    let key_len: usize = key.len();
    put_fixed_uint32(buffer, shared as u32);
    put_fixed_uint32(buffer, (key_len - shared) as u32);
    put_fixed_uint32(buffer, value.len() as u32);
    buffer.extend_from_slice(&key[shared..key_len]);
    buffer.extend_from_slice(value);
    assert(buffer@ =~= old(buffer)@ + spec_encode_entry(
        shared as nat,
        Entry { key: key@, value: value@ },
    ));
}

/// What one more entry adds to the bytes, the restart points and the size of
/// a block.
pub proof fn lemma_push_entry(before: Seq<Entry>, entry: Entry, interval: nat)
    ensures
        ({
            let n = before.len();
            let after = before.push(entry);
            let restart = spec_restart_counter(interval, n) >= interval;
            let shared = spec_shared_len(after, interval, n as int);
            let bytes = spec_encode_entries(before, interval, n);
            let points = spec_restart_points(before, interval, n);
            &&& shared == if restart {
                0
            } else {
                spec_common_prefix_len(spec_key_before_entry(before, n as int), entry.key)
            }
            &&& shared <= entry.key.len()
            &&& shared <= spec_key_before_entry(before, n as int).len()
            &&& spec_encode_entries(after, interval, n + 1) == bytes + spec_encode_entry(
                shared,
                entry,
            )
            &&& spec_restart_points(after, interval, n + 1) == if restart {
                points.push(bytes.len() as u32)
            } else {
                points
            }
            &&& spec_restart_counter(interval, n + 1) == if restart {
                1
            } else {
                spec_restart_counter(interval, n) + 1
            }
            &&& spec_key_before_entry(after, after.len() as int) == entry.key
            &&& spec_block_size(after, interval) == spec_block_size(before, interval)
                + ENTRY_HEADER_SIZE + (entry.key.len() - shared) + entry.value.len() + if restart {
                4int
            } else {
                0int
            }
        }),
{
    let n = before.len();
    let after = before.push(entry);
    lemma_encode_prefix_stable(before, after, interval, n);
    lemma_common_prefix_len_exists(spec_key_before_entry(before, n as int), entry.key);
    assert(spec_key_before_entry(after, n as int) == spec_key_before_entry(before, n as int));
    lemma_encode_entry_len(spec_shared_len(after, interval, n as int), entry);
}

/// The bytes of entries are as long as their headers, the parts of the
/// keys that they store, and their values together.
pub proof fn lemma_encode_entries_len(entries: Seq<Entry>, interval: nat, n: nat)
    ensures
        n == 0 ==> spec_encode_entries(entries, interval, n).len() == 0,
        n > 0 ==> spec_encode_entries(entries, interval, n).len() >= ENTRY_HEADER_SIZE,
    decreases n,
{
    if n > 0 {
        lemma_encode_entries_len(entries, interval, (n - 1) as nat);
        lemma_decode_encode_fixed_uint32(spec_shared_len(entries, interval, n - 1) as u32);
        lemma_decode_encode_fixed_uint32(
            (entries[n - 1].key.len() - spec_shared_len(entries, interval, n - 1)) as u32,
        );
        lemma_decode_encode_fixed_uint32(entries[n - 1].value.len() as u32);
    }
}

/// The restart points take four bytes each.
pub proof fn lemma_encode_fixed_uint32s_len(values: Seq<u32>, n: nat)
    ensures
        spec_encode_fixed_uint32s(values, n).len() == 4 * n,
    decreases n,
{
    if n > 0 {
        lemma_encode_fixed_uint32s_len(values, (n - 1) as nat);
        lemma_decode_encode_fixed_uint32(values[n - 1]);
    }
}

/// A block has as many bytes as its entries, its restart points and their
/// number take.
pub proof fn lemma_encode_block_len(entries: Seq<Entry>, interval: nat)
    ensures
        spec_encode_block(entries, interval).len() == spec_block_size(entries, interval),
{
    let points = spec_restart_points(entries, interval, entries.len());
    lemma_encode_fixed_uint32s_len(points, points.len());
    lemma_decode_encode_fixed_uint32(points.len() as u32);
}

/// What the first `n` entries are encoded as does not depend on the entries
/// behind them.
pub proof fn lemma_encode_prefix_stable(a: Seq<Entry>, b: Seq<Entry>, interval: nat, n: nat)
    requires
        n <= a.len() <= b.len(),
        forall|i: int| 0 <= i < n ==> a[i] == b[i],
    ensures
        spec_encode_entries(a, interval, n) == spec_encode_entries(b, interval, n),
        spec_restart_points(a, interval, n) == spec_restart_points(b, interval, n),
    decreases n,
{
    if n > 0 {
        lemma_encode_prefix_stable(a, b, interval, (n - 1) as nat);
    }
}

/// The bytes of entries grow with every entry, and no key is longer than the
/// bytes up to the end of its entry.
pub proof fn lemma_encode_entries_grow(entries: Seq<Entry>, interval: nat, m: nat, n: nat)
    requires
        m <= n <= entries.len(),
    ensures
        spec_encode_entries(entries, interval, m).len() <= spec_encode_entries(
            entries,
            interval,
            n,
        ).len(),
        spec_key_before_entry(entries, n as int).len() <= spec_encode_entries(
            entries,
            interval,
            n,
        ).len(),
    decreases n,
{
    if n > 0 {
        let i = n - 1;
        let prev = spec_key_before_entry(entries, i);
        lemma_common_prefix_len_exists(prev, entries[i].key);
        lemma_encode_entries_grow(entries, interval, 0, i as nat);
        lemma_encode_entry_len(spec_shared_len(entries, interval, i), entries[i]);
        if m < n {
            lemma_encode_entries_grow(entries, interval, m, i as nat);
        }
    }
}

/// An entry takes its header, the part of its key that it stores, and its
/// value.
pub proof fn lemma_encode_entry_len(shared: nat, entry: Entry)
    requires
        shared <= entry.key.len(),
    ensures
        spec_encode_entry(shared, entry).len() == ENTRY_HEADER_SIZE + (entry.key.len() - shared)
            + entry.value.len(),
{
    lemma_decode_encode_fixed_uint32(shared as u32);
    lemma_decode_encode_fixed_uint32((entry.key.len() - shared) as u32);
    lemma_decode_encode_fixed_uint32(entry.value.len() as u32);
}

/// Where the bytes of an entry stand in `data` at `pos`, the entry is read
/// there.
pub proof fn lemma_encoded_entry_is_read(
    data: Seq<u8>,
    pos: int,
    prev_key: Seq<u8>,
    shared: nat,
    entry: Entry,
)
    requires
        0 <= pos,
        spec_agree_up_to(prev_key, entry.key, shared as int),
        shared <= u32::MAX,
        entry.key.len() - shared <= u32::MAX,
        entry.value.len() <= u32::MAX,
        pos + spec_encode_entry(shared, entry).len() <= data.len(),
        data.subrange(pos, pos + spec_encode_entry(shared, entry).len()) == spec_encode_entry(
            shared,
            entry,
        ),
    ensures
        spec_entry_end(data, pos) == pos + spec_encode_entry(shared, entry).len(),
        spec_entry_shared(data, pos) == shared,
        spec_entry_at(data, pos, prev_key) == entry,
{
    let encoded = spec_encode_entry(shared, entry);
    let non_shared: int = entry.key.len() - shared;
    let value_len: int = entry.value.len() as int;
    lemma_encode_entry_len(shared, entry);
    lemma_decode_encode_fixed_uint32(shared as u32);
    lemma_decode_encode_fixed_uint32(non_shared as u32);
    lemma_decode_encode_fixed_uint32(entry.value.len() as u32);
    assert(data.subrange(pos, pos + 4) =~= encoded.subrange(0, 4));
    assert(encoded.subrange(0, 4) =~= spec_encode_fixed_uint32(shared as u32));
    assert(data.subrange(pos + 4, pos + 8) =~= encoded.subrange(4, 8));
    assert(encoded.subrange(4, 8) =~= spec_encode_fixed_uint32(non_shared as u32));
    assert(data.subrange(pos + 8, pos + 12) =~= encoded.subrange(8, 12));
    assert(encoded.subrange(8, 12) =~= spec_encode_fixed_uint32(entry.value.len() as u32));
    assert(spec_length_at(data, pos) == shared);
    assert(spec_length_at(data, pos + 4) == non_shared);
    assert(spec_length_at(data, pos + 8) == entry.value.len());
    let read = spec_entry_at(data, pos, prev_key);
    assert(data.subrange(pos + 12, pos + 12 + non_shared) =~= encoded.subrange(
        12,
        12 + non_shared,
    ));
    assert(encoded.subrange(12, 12 + non_shared) =~= entry.key.subrange(
        shared as int,
        entry.key.len() as int,
    ));
    assert(read.key =~= entry.key);
    assert(data.subrange(pos + 12 + non_shared, pos + 12 + non_shared + value_len)
        =~= encoded.subrange(12 + non_shared, 12 + non_shared + value_len));
    assert(read.value =~= entry.value);
}

/// The key that the entry behind a run of entries is front-coded against.
pub open spec fn spec_last_key(prev_key: Seq<u8>, entries: Seq<Entry>) -> Seq<u8> {
    if entries.len() == 0 {
        prev_key
    } else {
        entries.last().key
    }
}

/// Where a run of entries is followed by one more entry, the longer run
/// parses into the entries of the shorter and that entry.
pub proof fn lemma_parse_entries_push(
    data: Seq<u8>,
    pos: int,
    end: int,
    prev_key: Seq<u8>,
    entries: Seq<Entry>,
)
    requires
        pos <= end,
        spec_parse_entries(data, pos, end, prev_key) == Some(entries),
        spec_entry_fits(data, end, spec_entry_end(data, end), spec_last_key(prev_key, entries)),
    ensures
        spec_parse_entries(data, pos, spec_entry_end(data, end), prev_key) == Some(
            entries.push(spec_entry_at(data, end, spec_last_key(prev_key, entries))),
        ),
    decreases end - pos,
{
    let end2 = spec_entry_end(data, end);
    let last = spec_last_key(prev_key, entries);
    let pushed = spec_entry_at(data, end, last);
    if pos == end {
        assert(entries =~= Seq::empty());
        assert(spec_parse_entries(data, end2, end2, pushed.key) == Some(Seq::<Entry>::empty()));
        assert(seq![pushed] + Seq::<Entry>::empty() =~= entries.push(pushed));
    } else {
        let first = spec_entry_at(data, pos, prev_key);
        let next = spec_entry_end(data, pos);
        let rest = spec_parse_entries(data, next, end, first.key)->0;
        assert(entries == seq![first] + rest);
        assert(spec_last_key(first.key, rest) == last) by {
            if rest.len() > 0 {
                assert(entries.last() == rest.last());
            }
        }
        lemma_parse_entries_push(data, next, end, first.key, rest);
        assert(seq![first] + rest.push(pushed) =~= entries.push(pushed));
    }
}

/// The bytes of the first `n` entries of a block that is not too large
/// parse back into those entries, whatever follows the bytes.
pub proof fn lemma_encode_entries_parse(data: Seq<u8>, entries: Seq<Entry>, interval: nat, n: nat)
    requires
        n <= entries.len(),
        spec_encode_entries(entries, interval, n).len() <= u32::MAX,
        spec_encode_entries(entries, interval, n).len() <= data.len(),
        data.subrange(0, spec_encode_entries(entries, interval, n).len() as int)
            == spec_encode_entries(entries, interval, n),
    ensures
        spec_parse_entries(
            data,
            0,
            spec_encode_entries(entries, interval, n).len() as int,
            Seq::empty(),
        ) == Some(entries.subrange(0, n as int)),
    decreases n,
{
    let bytes = spec_encode_entries(entries, interval, n);
    if n == 0 {
        assert(entries.subrange(0, 0) =~= Seq::<Entry>::empty());
    } else {
        let i = (n - 1) as nat;
        let before = spec_encode_entries(entries, interval, i);
        let shared = spec_shared_len(entries, interval, i as int);
        let entry = entries[i as int];
        let prev = spec_key_before_entry(entries, i as int);
        let encoded = spec_encode_entry(shared, entry);
        lemma_common_prefix_len_exists(prev, entry.key);
        lemma_encode_entry_len(shared, entry);
        lemma_encode_entries_grow(entries, interval, i, i);
        assert(data.subrange(0, before.len() as int) =~= before) by {
            assert(data.subrange(0, before.len() as int) =~= bytes.subrange(
                0,
                before.len() as int,
            ));
        }
        lemma_encode_entries_parse(data, entries, interval, i);
        let start: int = before.len() as int;
        let stop: int = start + encoded.len();
        assert(data.subrange(start, stop) =~= encoded) by {
            assert(data.subrange(start, stop) =~= bytes.subrange(start, stop));
        }
        lemma_encoded_entry_is_read(data, before.len() as int, prev, shared, entry);
        let parsed = entries.subrange(0, i as int);
        assert(spec_last_key(Seq::empty(), parsed) == prev) by {
            if i > 0 {
                assert(parsed.last() == entries[i - 1]);
            }
        }
        lemma_parse_entries_push(data, 0, before.len() as int, Seq::empty(), parsed);
        assert(parsed.push(entry) =~= entries.subrange(0, n as int));
    }
}

/// The number of restart points is what a block ends with, and they start
/// where its entries end.
pub proof fn lemma_encode_block_parses(entries: Seq<Entry>, interval: nat)
    requires
        spec_block_size(entries, interval) <= u32::MAX,
    ensures
        spec_parse_block(spec_encode_block(entries, interval)) == Some(entries),
{
    let bytes = spec_encode_entries(entries, interval, entries.len());
    let points = spec_restart_points(entries, interval, entries.len());
    let block = spec_encode_block(entries, interval);
    lemma_encode_block_len(entries, interval);
    lemma_encode_fixed_uint32s_len(points, points.len());
    lemma_decode_encode_fixed_uint32(points.len() as u32);
    assert(block.subrange(block.len() - 4, block.len() as int) =~= spec_encode_fixed_uint32(
        points.len() as u32,
    ));
    assert(block.subrange(0, bytes.len() as int) =~= bytes);
    lemma_encode_entries_parse(block, entries, interval, entries.len());
    assert(entries.subrange(0, entries.len() as int) =~= entries);
}

} // verus!
