use vstd::prelude::*;

verus! {

/// Error surface of the plot engine and its facade.
#[derive(Clone, Copy, Debug, PartialEq, Eq, Structural)]
pub enum PlotError {
    /// A read touched pieces beyond the end of the plot.
    Io,
    /// A tag-index operation referred to a salt that is not present.
    Kv,
    /// Commitment creation was aborted by a concurrent removal request.
    Aborted,
}

/// Error surface of the record storage backends.
#[derive(Clone, Copy, Debug, PartialEq, Eq, Structural)]
pub enum RecordStoreError {
    /// The store does not accept new records.
    MaxRecords,
}

} // verus!
