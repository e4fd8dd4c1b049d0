//! The parts of a transaction that the lock reads, and their mathematical views.
use vstd::prelude::*;

verus! {

/// A cell created by the transaction.
#[derive(Debug, Clone)]
pub struct OutputCell {
    /// Hash of the cell's lock script.
    pub lock_hash: [u8; 32],
    /// Hash of the cell's type script, if it has one.
    pub type_hash: Option<[u8; 32]>,
    /// The cell's data payload.
    pub data: Vec<u8>,
}

/// An output cell as plain byte sequences.
pub struct OutputView {
    pub lock: Seq<u8>,
    pub type_hash: Option<Seq<u8>>,
    pub data: Seq<u8>,
}

impl View for OutputCell {
    type V = OutputView;

    open spec fn view(&self) -> OutputView {
        OutputView {
            lock: self.lock_hash@,
            type_hash: match self.type_hash {
                Some(h) => Some(h@),
                None => None,
            },
            data: self.data@,
        }
    }
}

/// Everything the lock reads of one transaction, seen from one input group.
#[derive(Debug, Clone)]
pub struct Transaction {
    /// The arguments of the executing lock script.
    pub args: Vec<u8>,
    /// The payloads of the escrow cells in the executing script's input group.
    pub group_data: Vec<Vec<u8>>,
    /// The lock hash of every input cell of the transaction.
    pub input_lock_hashes: Vec<[u8; 32]>,
    /// The transaction's output cells.
    pub outputs: Vec<OutputCell>,
}

/// A transaction as plain byte sequences.
pub struct TransactionView {
    pub args: Seq<u8>,
    pub group: Seq<Seq<u8>>,
    pub input_locks: Seq<Seq<u8>>,
    pub outputs: Seq<OutputView>,
}

/// The byte contents of each payload.
pub open spec fn payloads(cells: Seq<Vec<u8>>) -> Seq<Seq<u8>> {
    cells.map_values(|d: Vec<u8>| d@)
}

/// The byte contents of each hash.
pub open spec fn hashes(hs: Seq<[u8; 32]>) -> Seq<Seq<u8>> {
    hs.map_values(|h: [u8; 32]| h@)
}

/// The view of each output cell.
pub open spec fn output_views(outs: Seq<OutputCell>) -> Seq<OutputView> {
    outs.map_values(|o: OutputCell| o@)
}

impl View for Transaction {
    type V = TransactionView;

    open spec fn view(&self) -> TransactionView {
        TransactionView {
            args: self.args@,
            group: payloads(self.group_data@),
            input_locks: hashes(self.input_lock_hashes@),
            outputs: output_views(self.outputs@),
        }
    }
}

} // verus!
