//! Walking over the entries of a table: an iterator stands before any
//! entry, at an entry, or behind all entries, and loads the data block of
//! the entry it stands at.

use vstd::prelude::*;
use crate::common::key_order::{
    lemma_internal_key_less_asymmetric, lemma_internal_key_less_transitive,
    spec_internal_key_less,
};
use crate::table::block_based::block::{
    find_entry, lemma_lower_bound_bounds, lemma_lower_bound_is, spec_entries_of,
    spec_entries_sorted, spec_lower_bound, Entry, KeyValue,
};
use crate::table::block_based::index_reader::{
    find_block, lemma_block_for_bounds, lemma_block_for_is, spec_block_for, spec_index_of,
};
use crate::common::DISABLE_GLOBAL_SEQUENCE_NUMBER;
use crate::table::block_based::options::BlockBasedTableOptions;
use crate::table::block_based::table_builder::{lemma_filter_passes_added_keys, spec_is_table_of};
use crate::table::block_based::table_reader::{
    lemma_concat_blocks_entry, lemma_concat_blocks_place, lemma_ordered_blocks_are_sorted,
    spec_blocks_ordered,
    spec_concat_blocks, spec_get, spec_load_block, spec_open_table, spec_table_blocks,
    spec_block_may_match, spec_table_entries, spec_table_is_ordered, TableReader, TableView,
};
use crate::util::spec_extract_user_key;
use crate::table::TableError;
use crate::util::FOOTER_SIZE;

verus! {

/// Where an iterator stands.
pub enum Position {
    /// At no entry: the iterator was not moved yet, or could not load the
    /// block it was moved to.
    Unpositioned,
    /// At the `entry`-th entry of the `block`-th data block.
    At { block: int, entry: int },
    /// Behind the last entry, or before the first.
    AtEnd,
}

/// The entries of the `j`-th data block of a table.
pub open spec fn spec_block_at(table: TableView, j: int) -> Result<Seq<Entry>, TableError> {
    spec_load_block(table.file, table.index[j].handle, table.global_seqno)
}

/// Whether a position is a place in a table: where it is at an entry, the
/// table has that entry.
pub open spec fn spec_position_in_table(table: TableView, position: Position) -> bool {
    position matches Position::At { block, entry } ==> {
        &&& 0 <= block < table.index.len()
        &&& spec_block_at(table, block) matches Ok(entries)
        &&& 0 <= entry < entries.len()
    }
}

/// The entry at a position that is at an entry.
pub open spec fn spec_entry_at_position(table: TableView, position: Position) -> Entry
    recommends
        position is At,
        spec_position_in_table(table, position),
{
    match position {
        Position::At { block, entry } => match spec_block_at(table, block) {
            Ok(entries) => entries[entry],
            Err(error) => arbitrary(),
        },
        _ => arbitrary(),
    }
}

/// The first entry of the data blocks from the `j`-th on: data blocks
/// without entries are passed over, and a data block that cannot be loaded
/// stops the search with its error.
pub open spec fn spec_first_from(table: TableView, j: int) -> Result<Position, TableError>
    decreases table.index.len() - j,
{
    if j < 0 || j >= table.index.len() {
        Ok(Position::AtEnd)
    } else {
        match spec_block_at(table, j) {
            Ok(entries) => if entries.len() > 0 {
                Ok(Position::At { block: j, entry: 0 })
            } else {
                spec_first_from(table, j + 1)
            },
            Err(error) => Err(error),
        }
    }
}

/// The last entry of the data blocks before the `j`-th.
pub open spec fn spec_last_before(table: TableView, j: int) -> Result<Position, TableError>
    decreases j,
{
    if j <= 0 || j > table.index.len() {
        Ok(Position::AtEnd)
    } else {
        match spec_block_at(table, j - 1) {
            Ok(entries) => if entries.len() > 0 {
                Ok(Position::At { block: j - 1, entry: entries.len() - 1 })
            } else {
                spec_last_before(table, j - 1)
            },
            Err(error) => Err(error),
        }
    }
}

/// The position behind an entry: the next entry of its data block, or the
/// first entry of the data blocks behind it.
pub open spec fn spec_next_position(table: TableView, block: int, entry: int) -> Result<
    Position,
    TableError,
> {
    match spec_block_at(table, block) {
        Ok(entries) => if entry + 1 < entries.len() {
            Ok(Position::At { block, entry: entry + 1 })
        } else {
            spec_first_from(table, block + 1)
        },
        Err(error) => Err(error),
    }
}

/// The position before an entry: the entry before it in its data block, or
/// the last entry of the data blocks before it.
pub open spec fn spec_prev_position(table: TableView, block: int, entry: int) -> Result<
    Position,
    TableError,
> {
    if entry > 0 {
        Ok(Position::At { block, entry: entry - 1 })
    } else {
        spec_last_before(table, block)
    }
}

/// The position that a seek for `target` leads to: in the first data block
/// whose separator does not come before `target`, the first entry whose
/// key does not come before it; where that block has no such entry, the
/// first entry of the data blocks behind it.
pub open spec fn spec_seek_position(table: TableView, target: Seq<u8>) -> Result<
    Position,
    TableError,
> {
    let block = spec_block_for(table.index, target);
    if block >= table.index.len() {
        Ok(Position::AtEnd)
    } else {
        match spec_block_at(table, block) {
            Ok(entries) => if spec_lower_bound(entries, target) < entries.len() {
                Ok(Position::At { block, entry: spec_lower_bound(entries, target) })
            } else {
                spec_first_from(table, block + 1)
            },
            Err(error) => Err(error),
        }
    }
}

/// The position that a move leaves an iterator at: the position that the
/// move leads to, or no position where a data block could not be loaded.
pub open spec fn spec_position_after(moved: Result<Position, TableError>) -> Position {
    match moved {
        Ok(position) => position,
        Err(error) => Position::Unpositioned,
    }
}

/// What a move of an iterator returns.
pub open spec fn spec_move_result(moved: Result<Position, TableError>) -> Result<(), TableError> {
    match moved {
        Ok(position) => Ok(()),
        Err(error) => Err(error),
    }
}

/// What a `TableIterator` holds.
pub struct TableIteratorView {
    /// The table that the iterator walks over.
    pub table: TableView,
    /// Where the iterator stands.
    pub position: Position,
}

enum IteratorState {
    Unpositioned,
    Positioned,
    AtEnd,
}

/// A cursor over the entries of a table. It borrows the table, so that any
/// number of iterators walk over one table without touching each other.
pub struct TableIterator<'a> {
    table: &'a TableReader,
    state: IteratorState,
    block: usize,
    entry: usize,
    entries: Vec<KeyValue>,
}

impl<'a> View for TableIterator<'a> {
    type V = TableIteratorView;

    closed spec fn view(&self) -> TableIteratorView {
        TableIteratorView {
            table: self.table@,
            position: match self.state {
                IteratorState::Unpositioned => Position::Unpositioned,
                IteratorState::Positioned => Position::At {
                    block: self.block as int,
                    entry: self.entry as int,
                },
                IteratorState::AtEnd => Position::AtEnd,
            },
        }
    }
}

impl<'a> TableIterator<'a> {
    /// The iterator holds the entries of the data block that it stands in.
    pub closed spec fn wf(&self) -> bool {
        &&& self.table.wf()
        &&& self.state is Positioned ==> {
            &&& self.block < self.table@.index.len()
            &&& spec_block_at(self.table@, self.block as int) == Ok::<Seq<Entry>, TableError>(
                spec_entries_of(self.entries@),
            )
            &&& spec_entries_sorted(spec_entries_of(self.entries@))
            &&& self.entry < self.entries@.len()
        }
    }

    /// Makes an iterator over `table` that stands at no entry.
    pub fn new(table: &'a TableReader) -> (iterator: Self)
        requires
            table.wf(),
        ensures
            iterator.wf(),
            iterator@.table == table@,
            iterator@.position == Position::Unpositioned,
    {
        TableIterator {
            table,
            state: IteratorState::Unpositioned,
            block: 0,
            entry: 0,
            entries: Vec::new(),
        }
    }

    /// An iterator that is in order stands at a place in its table.
    pub proof fn lemma_position_in_table(&self)
        requires
            self.wf(),
        ensures
            spec_position_in_table(self@.table, self@.position),
    {
    }

    /// Tells whether the iterator stands at an entry.
    pub fn valid(&self) -> (valid: bool)
        ensures
            valid == (self@.position is At),
    {
        match self.state {
            IteratorState::Positioned => true,
            _ => false,
        }
    }

    /// Borrows the key of the entry that the iterator stands at.
    pub fn key(&self) -> (key: &[u8])
        requires
            self.wf(),
            self@.position is At,
        ensures
            key@ == spec_entry_at_position(self@.table, self@.position).key,
    {
        assert(spec_entries_of(self.entries@)[self.entry as int] == self.entries@[self.entry as int]@);
        self.entries[self.entry].key.as_slice()
    }

    /// Borrows the value of the entry that the iterator stands at.
    pub fn value(&self) -> (value: &[u8])
        requires
            self.wf(),
            self@.position is At,
        ensures
            value@ == spec_entry_at_position(self@.table, self@.position).value,
    {
        assert(spec_entries_of(self.entries@)[self.entry as int] == self.entries@[self.entry as int]@);
        self.entries[self.entry].value.as_slice()
    }

    /// Moves to the first entry of the data blocks from the `from`-th on.
    fn move_to_first_from(&mut self, from: usize) -> (result: Result<(), TableError>)
        requires
            old(self).table.wf(),
            from <= old(self).table@.index.len(),
        ensures
            final(self).wf(),
            final(self)@.table == old(self)@.table,
            final(self)@.position == spec_position_after(
                spec_first_from(old(self)@.table, from as int),
            ),
            result == spec_move_result(spec_first_from(old(self)@.table, from as int)),
    {
        self.state = IteratorState::Unpositioned;
        let mut j: usize = from;
        while j < self.table.block_count()
            invariant
                self.table == old(self).table,
                self.table.wf(),
                self.state is Unpositioned,
                from <= j <= self.table@.index.len(),
                spec_first_from(self.table@, from as int) == spec_first_from(
                    self.table@,
                    j as int,
                ),
            decreases self.table@.index.len() - j,
        {
            match self.table.load_block(j) {
                Ok(entries) => {
                    if entries.len() > 0 {
                        self.entries = entries;
                        self.block = j;
                        self.entry = 0;
                        self.state = IteratorState::Positioned;
                        return Ok(());
                    }
                },
                Err(error) => {
                    return Err(error);
                },
            }
            j += 1;
        }
        self.state = IteratorState::AtEnd;
        Ok(())
    }

    /// Moves to the last entry of the data blocks before the `before`-th.
    fn move_to_last_before(&mut self, before: usize) -> (result: Result<(), TableError>)
        requires
            old(self).table.wf(),
            before <= old(self).table@.index.len(),
        ensures
            final(self).wf(),
            final(self)@.table == old(self)@.table,
            final(self)@.position == spec_position_after(
                spec_last_before(old(self)@.table, before as int),
            ),
            result == spec_move_result(spec_last_before(old(self)@.table, before as int)),
    {
        self.state = IteratorState::Unpositioned;
        let mut j: usize = before;
        while j > 0
            invariant
                self.table == old(self).table,
                self.table.wf(),
                self.state is Unpositioned,
                j <= before <= self.table@.index.len(),
                spec_last_before(self.table@, before as int) == spec_last_before(
                    self.table@,
                    j as int,
                ),
            decreases j,
        {
            match self.table.load_block(j - 1) {
                Ok(entries) => {
                    if entries.len() > 0 {
                        self.entry = entries.len() - 1;
                        self.entries = entries;
                        self.block = j - 1;
                        self.state = IteratorState::Positioned;
                        return Ok(());
                    }
                },
                Err(error) => {
                    return Err(error);
                },
            }
            j -= 1;
        }
        self.state = IteratorState::AtEnd;
        Ok(())
    }

    /// Moves to the first entry of the table; behind all entries where the
    /// table has none. Where a data block cannot be loaded, the error is
    /// handed on and the iterator stands at no entry.
    pub fn seek_to_first(&mut self) -> (result: Result<(), TableError>)
        requires
            old(self).wf(),
        ensures
            final(self).wf(),
            final(self)@.table == old(self)@.table,
            final(self)@.position == spec_position_after(spec_first_from(old(self)@.table, 0)),
            result == spec_move_result(spec_first_from(old(self)@.table, 0)),
    {
        self.move_to_first_from(0)
    }

    /// Moves to the last entry of the table.
    pub fn seek_to_last(&mut self) -> (result: Result<(), TableError>)
        requires
            old(self).wf(),
        ensures
            final(self).wf(),
            final(self)@.table == old(self)@.table,
            final(self)@.position == spec_position_after(
                spec_last_before(old(self)@.table, old(self)@.table.index.len() as int),
            ),
            result == spec_move_result(
                spec_last_before(old(self)@.table, old(self)@.table.index.len() as int),
            ),
    {
        let count: usize = self.table.block_count();
        self.move_to_last_before(count)
    }

    /// Moves to the entry behind the one that the iterator stands at;
    /// behind all entries where that was the last.
    pub fn next(&mut self) -> (result: Result<(), TableError>)
        requires
            old(self).wf(),
            old(self)@.position is At,
        ensures
            final(self).wf(),
            final(self)@.table == old(self)@.table,
            old(self)@.position matches Position::At { block, entry } && {
                let moved = spec_next_position(old(self)@.table, block, entry);
                &&& final(self)@.position == spec_position_after(moved)
                &&& result == spec_move_result(moved)
            },
    {
        let count: usize = self.table.block_count();
        if self.entry < self.entries.len() - 1 {
            self.entry = self.entry + 1;
            Ok(())
        } else {
            let from: usize = self.block + 1;
            self.move_to_first_from(from)
        }
    }

    /// Moves to the entry before the one that the iterator stands at; the
    /// iterator stands at no entry after that where that was the first.
    pub fn prev(&mut self) -> (result: Result<(), TableError>)
        requires
            old(self).wf(),
            old(self)@.position is At,
        ensures
            final(self).wf(),
            final(self)@.table == old(self)@.table,
            old(self)@.position matches Position::At { block, entry } && {
                let moved = spec_prev_position(old(self)@.table, block, entry);
                &&& final(self)@.position == spec_position_after(moved)
                &&& result == spec_move_result(moved)
            },
    {
        if self.entry > 0 {
            self.entry = self.entry - 1;
            Ok(())
        } else {
            let before: usize = self.block;
            self.move_to_last_before(before)
        }
    }

    /// Moves to the first entry whose key does not come before `target`, as
    /// the index and the data block that it names tell.
    pub fn seek(&mut self, target: &[u8]) -> (result: Result<(), TableError>)
        requires
            old(self).wf(),
            target@.len() >= FOOTER_SIZE,
        ensures
            final(self).wf(),
            final(self)@.table == old(self)@.table,
            final(self)@.position == spec_position_after(
                spec_seek_position(old(self)@.table, target@),
            ),
            result == spec_move_result(spec_seek_position(old(self)@.table, target@)),
    {
        proof {
            self.table.lemma_index_is_sorted();
        }
        let block: usize = find_block(self.table.index(), target);
        if block >= self.table.block_count() {
            self.state = IteratorState::AtEnd;
            return Ok(());
        }
        match self.table.load_block(block) {
            Ok(entries) => {
                let entry: usize = find_entry(&entries, target);
                if entry < entries.len() {
                    self.entries = entries;
                    self.block = block;
                    self.entry = entry;
                    self.state = IteratorState::Positioned;
                    Ok(())
                } else {
                    self.move_to_first_from(block + 1)
                }
            },
            Err(error) => {
                self.state = IteratorState::Unpositioned;
                Err(error)
            },
        }
    }
}

/// The entries that an iterator comes by on a walk of at most `steps` steps
/// from a position, forward with `next` or backward with `prev`. The walk
/// ends where the iterator stands at no entry.
pub open spec fn spec_walk(table: TableView, position: Position, steps: nat, forward: bool) -> Seq<
    Entry,
>
    decreases steps,
{
    match position {
        Position::At { block, entry } => if steps == 0 {
            Seq::empty()
        } else {
            let moved = if forward {
                spec_next_position(table, block, entry)
            } else {
                spec_prev_position(table, block, entry)
            };
            seq![spec_entry_at_position(table, position)] + spec_walk(
                table,
                spec_position_after(moved),
                (steps - 1) as nat,
                forward,
            )
        },
        _ => Seq::empty(),
    }
}

/// Whether `blocks` are the data blocks of a table, all of them loaded.
pub open spec fn spec_blocks_of(table: TableView, blocks: Seq<Seq<Entry>>) -> bool {
    &&& blocks.len() == table.index.len()
    &&& forall|j: int|
        0 <= j < blocks.len() ==> spec_block_at(table, j) == Ok::<Seq<Entry>, TableError>(
            #[trigger] blocks[j],
        )
}

/// The first entry from a block on stands where the entries of the blocks
/// before that block end; there is none where no entries follow them.
pub proof fn lemma_first_from(table: TableView, blocks: Seq<Seq<Entry>>, j: int)
    requires
        spec_blocks_of(table, blocks),
        0 <= j <= blocks.len(),
    ensures
        match spec_first_from(table, j) {
            Ok(Position::At { block, entry }) => {
                &&& j <= block < blocks.len()
                &&& entry == 0
                &&& blocks[block].len() > 0
                &&& spec_concat_blocks(blocks, block as nat).len() == spec_concat_blocks(
                    blocks,
                    j as nat,
                ).len()
            },
            Ok(Position::AtEnd) => spec_concat_blocks(blocks, j as nat).len()
                == spec_concat_blocks(blocks, blocks.len()).len(),
            _ => false,
        },
    decreases blocks.len() - j,
{
    if j < blocks.len() {
        assert(spec_block_at(table, j) == Ok::<Seq<Entry>, TableError>(blocks[j]));
        if blocks[j].len() == 0 {
            lemma_first_from(table, blocks, j + 1);
            assert(spec_concat_blocks(blocks, (j + 1) as nat).len() == spec_concat_blocks(
                blocks,
                j as nat,
            ).len());
        }
    }
}

/// The last entry before a block stands where the entries of the blocks
/// before that block end; there is none where those blocks have no entries.
pub proof fn lemma_last_before(table: TableView, blocks: Seq<Seq<Entry>>, j: int)
    requires
        spec_blocks_of(table, blocks),
        0 <= j <= blocks.len(),
    ensures
        match spec_last_before(table, j) {
            Ok(Position::At { block, entry }) => {
                &&& 0 <= block < j
                &&& blocks[block].len() > 0
                &&& entry == blocks[block].len() - 1
                &&& spec_concat_blocks(blocks, block as nat).len() + blocks[block].len()
                    == spec_concat_blocks(blocks, j as nat).len()
            },
            Ok(Position::AtEnd) => spec_concat_blocks(blocks, j as nat).len() == 0,
            _ => false,
        },
    decreases j,
{
    if j > 0 {
        assert(spec_block_at(table, j - 1) == Ok::<Seq<Entry>, TableError>(blocks[j - 1]));
        if blocks[j - 1].len() == 0 {
            lemma_last_before(table, blocks, j - 1);
        }
    }
}

/// A forward walk from an entry that is long enough comes by that entry and
/// all entries behind it, in their order.
pub proof fn lemma_walk_forward(
    table: TableView,
    blocks: Seq<Seq<Entry>>,
    block: int,
    entry: int,
    steps: nat,
)
    requires
        spec_blocks_of(table, blocks),
        0 <= block < blocks.len(),
        0 <= entry < blocks[block].len(),
        steps + spec_concat_blocks(blocks, block as nat).len() + entry >= spec_concat_blocks(
            blocks,
            blocks.len(),
        ).len(),
    ensures
        spec_walk(table, Position::At { block, entry }, steps, true) == spec_concat_blocks(
            blocks,
            blocks.len(),
        ).subrange(
            spec_concat_blocks(blocks, block as nat).len() + entry,
            spec_concat_blocks(blocks, blocks.len()).len() as int,
        ),
    decreases steps,
{
    let all = spec_concat_blocks(blocks, blocks.len());
    let place = spec_concat_blocks(blocks, block as nat).len() + entry;
    let position = Position::At { block, entry };
    lemma_concat_blocks_entry(blocks, block, blocks.len() as int, entry);
    assert(spec_block_at(table, block) == Ok::<Seq<Entry>, TableError>(blocks[block]));
    assert(spec_entry_at_position(table, position) == all[place]);
    let moved = spec_next_position(table, block, entry);
    let rest = spec_walk(table, spec_position_after(moved), (steps - 1) as nat, true);
    assert(spec_walk(table, position, steps, true) == seq![all[place]] + rest);
    assert(spec_concat_blocks(blocks, (block + 1) as nat).len() == spec_concat_blocks(
        blocks,
        block as nat,
    ).len() + blocks[block].len());
    if entry + 1 < blocks[block].len() {
        assert(moved == Ok::<Position, TableError>(Position::At { block, entry: entry + 1 }));
        lemma_walk_forward(table, blocks, block, entry + 1, (steps - 1) as nat);
    } else {
        assert(moved == spec_first_from(table, block + 1));
        lemma_first_from(table, blocks, block + 1);
        match moved {
            Ok(Position::At { block: next_block, entry: next_entry }) => {
                lemma_walk_forward(table, blocks, next_block, next_entry, (steps - 1) as nat);
            },
            _ => {
                assert(rest =~= Seq::<Entry>::empty());
            },
        }
    }
    assert(rest =~= all.subrange(place + 1, all.len() as int));
    assert(seq![all[place]] + rest =~= all.subrange(place, all.len() as int));
}

/// A backward walk from an entry that is long enough comes by that entry
/// and all entries before it, the last of them first.
pub proof fn lemma_walk_backward(
    table: TableView,
    blocks: Seq<Seq<Entry>>,
    block: int,
    entry: int,
    steps: nat,
)
    requires
        spec_blocks_of(table, blocks),
        0 <= block < blocks.len(),
        0 <= entry < blocks[block].len(),
        steps > spec_concat_blocks(blocks, block as nat).len() + entry,
    ensures
        spec_walk(table, Position::At { block, entry }, steps, false) == spec_concat_blocks(
            blocks,
            blocks.len(),
        ).subrange(0, spec_concat_blocks(blocks, block as nat).len() + entry + 1).reverse(),
    decreases steps,
{
    let all = spec_concat_blocks(blocks, blocks.len());
    let place = spec_concat_blocks(blocks, block as nat).len() + entry;
    let position = Position::At { block, entry };
    lemma_concat_blocks_entry(blocks, block, blocks.len() as int, entry);
    assert(spec_block_at(table, block) == Ok::<Seq<Entry>, TableError>(blocks[block]));
    assert(spec_entry_at_position(table, position) == all[place]);
    let moved = spec_prev_position(table, block, entry);
    let rest = spec_walk(table, spec_position_after(moved), (steps - 1) as nat, false);
    assert(spec_walk(table, position, steps, false) == seq![all[place]] + rest);
    if entry > 0 {
        assert(moved == Ok::<Position, TableError>(Position::At { block, entry: entry - 1 }));
        lemma_walk_backward(table, blocks, block, entry - 1, (steps - 1) as nat);
    } else {
        assert(moved == spec_last_before(table, block));
        lemma_last_before(table, blocks, block);
        match moved {
            Ok(Position::At { block: prev_block, entry: prev_entry }) => {
                lemma_walk_backward(table, blocks, prev_block, prev_entry, (steps - 1) as nat);
            },
            _ => {
                assert(rest =~= Seq::<Entry>::empty());
            },
        }
    }
    assert(rest =~= all.subrange(0, place).reverse());
    assert(seq![all[place]] + rest =~= all.subrange(0, place + 1).reverse());
}

/// A table whose entries can all be read is walked through from its first
/// entry forward in the order of its entries, and from its last entry
/// backward in the reverse of that order.
pub proof fn lemma_walks_are_table_entries(
    file: Seq<u8>,
    global_seqno: u64,
    table: TableView,
    entries: Seq<Entry>,
    steps: nat,
)
    requires
        spec_open_table(file, global_seqno) == Ok::<TableView, TableError>(table),
        spec_table_entries(file, global_seqno) == Some(entries),
        steps >= entries.len(),
    ensures
        spec_walk(table, spec_position_after(spec_first_from(table, 0)), steps, true) == entries,
        spec_walk(
            table,
            spec_position_after(spec_last_before(table, table.index.len() as int)),
            steps,
            false,
        ) == entries.reverse(),
{
    let blocks = spec_table_blocks(file, global_seqno)->0;
    assert(spec_blocks_of(table, blocks)) by {
        assert forall|j: int| 0 <= j < blocks.len() implies spec_block_at(table, j) == Ok::<
            Seq<Entry>,
            TableError,
        >(#[trigger] blocks[j]) by {
            assert(spec_load_block(file, table.index[j].handle, global_seqno) is Ok);
        }
    }
    lemma_first_from(table, blocks, 0);
    match spec_first_from(table, 0) {
        Ok(Position::At { block, entry }) => {
            lemma_walk_forward(table, blocks, block, entry, steps);
            assert(entries.subrange(0, entries.len() as int) =~= entries);
        },
        _ => {
            assert(entries =~= Seq::<Entry>::empty());
        },
    }
    lemma_last_before(table, blocks, blocks.len() as int);
    match spec_last_before(table, blocks.len() as int) {
        Ok(Position::At { block, entry }) => {
            lemma_walk_backward(table, blocks, block, entry, steps);
            assert(entries.subrange(0, entries.len() as int) =~= entries);
        },
        _ => {
            assert(entries.reverse() =~= Seq::<Entry>::empty());
        },
    }
}

/// Whether a table is made of these data blocks, they are ordered, and the
/// separator of each is its last key.
pub open spec fn spec_ordered_blocks_of(table: TableView, blocks: Seq<Seq<Entry>>) -> bool {
    &&& spec_blocks_of(table, blocks)
    &&& spec_blocks_ordered(blocks)
    &&& forall|j: int|
        0 <= j < blocks.len() ==> (#[trigger] table.index[j]).separator == blocks[j].last().key
}

/// A table that is opened from bytes that are a table in order is made of
/// the data blocks of the bytes, and they are ordered.
pub proof fn lemma_opened_table_is_ordered(file: Seq<u8>, global_seqno: u64, table: TableView)
    requires
        spec_open_table(file, global_seqno) == Ok::<TableView, TableError>(table),
        spec_table_is_ordered(file, global_seqno),
    ensures
        spec_table_blocks(file, global_seqno) matches Some(blocks) && spec_ordered_blocks_of(
            table,
            blocks,
        ),
{
    let blocks = spec_table_blocks(file, global_seqno)->0;
    assert forall|j: int| 0 <= j < blocks.len() implies spec_block_at(table, j) == Ok::<
        Seq<Entry>,
        TableError,
    >(#[trigger] blocks[j]) by {
        assert(spec_load_block(file, table.index[j].handle, global_seqno) is Ok);
    }
}

/// In a table that is in order, a seek leads to the first of all entries
/// whose key does not come before the target, and behind all entries where
/// there is none.
pub proof fn lemma_seek_finds_lower_bound(
    table: TableView,
    blocks: Seq<Seq<Entry>>,
    target: Seq<u8>,
)
    requires
        spec_ordered_blocks_of(table, blocks),
    ensures
        match spec_seek_position(table, target) {
            Ok(Position::At { block, entry }) => {
                &&& 0 <= block < blocks.len()
                &&& 0 <= entry < blocks[block].len()
                &&& spec_concat_blocks(blocks, block as nat).len() + entry == spec_lower_bound(
                    spec_concat_blocks(blocks, blocks.len()),
                    target,
                )
            },
            Ok(Position::AtEnd) => spec_lower_bound(
                spec_concat_blocks(blocks, blocks.len()),
                target,
            ) == spec_concat_blocks(blocks, blocks.len()).len(),
            _ => false,
        },
{
    let all = spec_concat_blocks(blocks, blocks.len());
    let n = blocks.len() as int;
    let found = spec_block_for(table.index, target);
    lemma_block_for_bounds(table.index, target, 0);
    lemma_blocks_before_target(table, blocks, found, target);
    if found >= n {
        lemma_lower_bound_is(all, target, 0, all.len() as int);
    } else {
        let block = blocks[found];
        assert(spec_block_at(table, found) == Ok::<Seq<Entry>, TableError>(block));
        assert(block.len() > 0 && spec_entries_sorted(block));
        let entry = spec_lower_bound(block, target);
        lemma_lower_bound_bounds(block, target, 0);
        assert(table.index[found].separator == block.last().key);
        if entry >= block.len() {
            assert(spec_internal_key_less(block[block.len() - 1].key, target));
        }
        let start = spec_concat_blocks(blocks, found as nat).len() as int;
        lemma_concat_blocks_entry(blocks, found, n, entry);
        assert forall|before: int| 0 <= before < start + entry implies spec_internal_key_less(
            (#[trigger] all[before]).key,
            target,
        ) by {
            if before >= start {
                lemma_concat_blocks_entry(blocks, found, n, before - start);
                assert(spec_internal_key_less(block[before - start].key, target));
            }
        }
        lemma_lower_bound_is(all, target, 0, start + entry);
    }
}

/// The entries of the blocks before a block come before a target that the
/// separators of those blocks come before.
proof fn lemma_blocks_before_target(
    table: TableView,
    blocks: Seq<Seq<Entry>>,
    found: int,
    target: Seq<u8>,
)
    requires
        spec_ordered_blocks_of(table, blocks),
        0 <= found <= blocks.len(),
        forall|j: int|
            0 <= j < found ==> spec_internal_key_less((#[trigger] table.index[j]).separator, target),
    ensures
        forall|place: int|
            0 <= place < spec_concat_blocks(blocks, found as nat).len()
                ==> spec_internal_key_less(
                (#[trigger] spec_concat_blocks(blocks, blocks.len())[place]).key,
                target,
            ),
{
    let all = spec_concat_blocks(blocks, blocks.len());
    assert forall|place: int|
        0 <= place < spec_concat_blocks(blocks, found as nat).len() implies spec_internal_key_less(
        (#[trigger] all[place]).key,
        target,
    ) by {
        let at = lemma_concat_blocks_place(blocks, found, place);
        lemma_concat_blocks_entry(blocks, at.0, blocks.len() as int, at.1);
        assert(spec_internal_key_less(table.index[at.0].separator, target));
        lemma_entry_before_target(table, blocks, at.0, at.1, target);
    }
}

/// An entry of a block whose separator comes before a target comes before
/// the target.
proof fn lemma_entry_before_target(
    table: TableView,
    blocks: Seq<Seq<Entry>>,
    block: int,
    entry: int,
    target: Seq<u8>,
)
    requires
        spec_ordered_blocks_of(table, blocks),
        0 <= block < blocks.len(),
        0 <= entry < blocks[block].len(),
        spec_internal_key_less(table.index[block].separator, target),
    ensures
        spec_internal_key_less(blocks[block][entry].key, target),
{
    let entries = blocks[block];
    assert(entries.len() > 0 && spec_entries_sorted(entries));
    assert(table.index[block].separator == entries.last().key);
    if entry < entries.len() - 1 {
        assert(spec_internal_key_less(entries[entry].key, entries[entries.len() - 1].key));
        lemma_internal_key_less_transitive(entries[entry].key, entries.last().key, target);
    }
}

/// In a table that is in order, the lookup of the key of an entry finds
/// the entry, unless the filter excludes its user key.
pub proof fn lemma_get_finds_entry(
    table: TableView,
    blocks: Seq<Seq<Entry>>,
    block: int,
    entry: int,
)
    requires
        spec_ordered_blocks_of(table, blocks),
        0 <= block < blocks.len(),
        0 <= entry < blocks[block].len(),
        spec_block_may_match(table, block, spec_extract_user_key(blocks[block][entry].key)),
    ensures
        spec_get(table, blocks[block][entry].key) == Ok::<Option<Entry>, TableError>(
            Some(blocks[block][entry]),
        ),
{
    let entries = blocks[block];
    let target = entries[entry].key;
    assert(entries.len() > 0 && spec_entries_sorted(entries));
    assert(spec_block_at(table, block) == Ok::<Seq<Entry>, TableError>(entries));
    assert(table.index[block].separator == entries.last().key);
    lemma_internal_key_less_asymmetric(target, entries.last().key);
    assert forall|j: int| 0 <= j < block implies spec_internal_key_less(
        (#[trigger] table.index[j]).separator,
        target,
    ) by {
        assert(table.index[j].separator == blocks[j].last().key);
        assert(spec_internal_key_less(blocks[j].last().key, blocks[block][entry].key));
    }
    assert forall|j: int| block <= j < table.index.len() implies !spec_internal_key_less(
        (#[trigger] table.index[j]).separator,
        target,
    ) by {
        assert(table.index[j].separator == blocks[j].last().key);
        if entry < entries.len() - 1 {
            assert(spec_internal_key_less(entries[entry].key, entries[entries.len() - 1].key));
        }
        if j > block {
            assert(blocks[j].len() > 0);
            assert(spec_internal_key_less(
                blocks[block].last().key,
                blocks[j][blocks[j].len() - 1].key,
            ));
            lemma_internal_key_less_asymmetric(entries.last().key, blocks[j].last().key);
            if spec_internal_key_less(blocks[j].last().key, target) {
                if entry < entries.len() - 1 {
                    lemma_internal_key_less_transitive(
                        blocks[j].last().key,
                        target,
                        entries.last().key,
                    );
                }
            }
        }
    }
    lemma_block_for_is(table.index, target, 0, block);
    lemma_lower_bound_is(entries, target, 0, entry);
}

/// A table that was built and is opened is walked through forward in the
/// order in which its entries were added, and backward in the reverse of
/// that order.
pub proof fn lemma_built_table_round_trip(
    file: Seq<u8>,
    options: BlockBasedTableOptions,
    entries: Seq<Entry>,
    table: TableView,
    steps: nat,
)
    requires
        spec_is_table_of(file, options, entries),
        spec_open_table(file, DISABLE_GLOBAL_SEQUENCE_NUMBER) == Ok::<TableView, TableError>(
            table,
        ),
        steps >= entries.len(),
    ensures
        spec_walk(table, spec_position_after(spec_first_from(table, 0)), steps, true) == entries,
        spec_walk(
            table,
            spec_position_after(spec_last_before(table, table.index.len() as int)),
            steps,
            false,
        ) == entries.reverse(),
{
    lemma_walks_are_table_entries(file, DISABLE_GLOBAL_SEQUENCE_NUMBER, table, entries, steps);
}

/// In a table that was built and is opened, the lookup of the key of each
/// entry that was added finds that entry.
pub proof fn lemma_built_table_get(
    file: Seq<u8>,
    options: BlockBasedTableOptions,
    entries: Seq<Entry>,
    table: TableView,
    i: int,
)
    requires
        spec_is_table_of(file, options, entries),
        spec_open_table(file, DISABLE_GLOBAL_SEQUENCE_NUMBER) == Ok::<TableView, TableError>(
            table,
        ),
        0 <= i < entries.len(),
    ensures
        spec_get(table, entries[i].key) == Ok::<Option<Entry>, TableError>(Some(entries[i])),
{
    let blocks = spec_table_blocks(file, DISABLE_GLOBAL_SEQUENCE_NUMBER)->0;
    lemma_opened_table_is_ordered(file, DISABLE_GLOBAL_SEQUENCE_NUMBER, table);
    let at = lemma_concat_blocks_place(blocks, blocks.len() as int, i);
    lemma_concat_blocks_entry(blocks, at.0, blocks.len() as int, at.1);
    lemma_filter_passes_added_keys(file, options, entries, table, at.0, at.1);
    lemma_get_finds_entry(table, blocks, at.0, at.1);
}

/// In a table that was built and is opened, a seek leads to the first
/// entry, in the order in which the entries were added, whose key does not
/// come before the target, and behind all entries where there is none.
pub proof fn lemma_built_table_seek(
    file: Seq<u8>,
    options: BlockBasedTableOptions,
    entries: Seq<Entry>,
    table: TableView,
    target: Seq<u8>,
)
    requires
        spec_is_table_of(file, options, entries),
        spec_open_table(file, DISABLE_GLOBAL_SEQUENCE_NUMBER) == Ok::<TableView, TableError>(
            table,
        ),
    ensures
        spec_entries_sorted(entries),
        match spec_seek_position(table, target) {
            Ok(Position::At { block, entry }) => spec_lower_bound(entries, target) < entries.len()
                && spec_entry_at_position(table, Position::At { block, entry })
                == entries[spec_lower_bound(entries, target)],
            Ok(Position::AtEnd) => spec_lower_bound(entries, target) == entries.len(),
            _ => false,
        },
{
    let blocks = spec_table_blocks(file, DISABLE_GLOBAL_SEQUENCE_NUMBER)->0;
    lemma_opened_table_is_ordered(file, DISABLE_GLOBAL_SEQUENCE_NUMBER, table);
    lemma_ordered_blocks_are_sorted(blocks);
    lemma_seek_finds_lower_bound(table, blocks, target);
    match spec_seek_position(table, target) {
        Ok(Position::At { block, entry }) => {
            lemma_concat_blocks_entry(blocks, block, blocks.len() as int, entry);
            assert(spec_block_at(table, block) == Ok::<Seq<Entry>, TableError>(blocks[block]));
        },
        _ => {},
    }
}

} // verus!
