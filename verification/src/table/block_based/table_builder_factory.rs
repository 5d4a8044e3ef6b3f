//! Making the builders and readers of tables with one set of options.

use vstd::prelude::*;
use crate::table::block_based::block::Entry;
use crate::table::block_based::options::BlockBasedTableOptions;
use crate::table::block_based::table_builder::TableBuilder;
use crate::table::block_based::table_reader::{spec_open_table, TableReader, TableView};
use crate::table::TableError;

verus! {

/// Makes the builders and the readers of block-based tables.
#[derive(Clone, Copy, Debug)]
pub struct BlockBasedTableFactory {
    pub options: BlockBasedTableOptions,
}

impl BlockBasedTableFactory {
    /// Makes a factory of tables with these options; `None` where no table
    /// can be built with them.
    pub fn new(options: BlockBasedTableOptions) -> (factory: Option<Self>)
        ensures
            factory == if options.spec_is_valid() {
                Some(BlockBasedTableFactory { options })
            } else {
                None
            },
    {
        if options.is_valid() {
            Some(BlockBasedTableFactory { options })
        } else {
            None
        }
    }

    /// Makes a builder of a table without entries.
    pub fn new_builder(&self) -> (builder: TableBuilder)
        requires
            self.options.spec_is_valid(),
        ensures
            builder.wf(),
            builder@.entries == Seq::<Entry>::empty(),
            builder@.pending == Seq::<Entry>::empty(),
            builder@.file == Seq::<u8>::empty(),
            builder@.options == self.options,
    {
        TableBuilder::new(self.options)
    }

    /// Opens a table from its bytes.
    pub fn new_reader(&self, file: Vec<u8>, global_seqno: u64) -> (result: Result<
        TableReader,
        TableError,
    >)
        ensures
            match spec_open_table(file@, global_seqno) {
                Ok(table) => result matches Ok(reader) && reader.wf() && reader@ == table,
                Err(error) => result matches Err(found) && found == error,
            },
    {
        TableReader::open(file, global_seqno)
    }
}

} // verus!
