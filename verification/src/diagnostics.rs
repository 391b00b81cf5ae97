//! What the arena remembers of the calls to the system.

use vstd::prelude::*;

verus! {

/// The bit that says that the file could not be given its length.
pub const MASK_TRUNCATE: usize = 1;

/// The bit that says that a part of the file could not be mapped.
pub const MASK_MMAP: usize = 2;

/// The contents of [`Diagnostics`].
pub struct DiagnosticsView {
    pub failure: usize,
    pub mapped_memory: usize,
}

impl DiagnosticsView {
    /// Whether a failure to set the length of the file is on record.
    pub open spec fn truncate_failed(self) -> bool {
        self.failure & MASK_TRUNCATE != 0
    }

    /// Whether a failure to map a part of the file is on record.
    pub open spec fn mmap_failed(self) -> bool {
        self.failure & MASK_MMAP != 0
    }

    /// The record with a failure to set the length of the file.
    pub open spec fn with_truncate_failed(self) -> DiagnosticsView {
        DiagnosticsView { failure: self.failure | MASK_TRUNCATE, ..self }
    }

    /// The record with a failure to map a part of the file.
    pub open spec fn with_mmap_failed(self) -> DiagnosticsView {
        DiagnosticsView { failure: self.failure | MASK_MMAP, ..self }
    }

    /// The record of an arena that has made no calls.
    pub open spec fn empty() -> DiagnosticsView {
        DiagnosticsView { failure: 0, mapped_memory: 0 }
    }
}

/// A record of failures, and a count of the bytes that are mapped.
pub struct Diagnostics {
    failure: usize,
    mapped_memory: usize,
}

impl View for Diagnostics {
    type V = DiagnosticsView;

    closed spec fn view(&self) -> DiagnosticsView {
        DiagnosticsView { failure: self.failure, mapped_memory: self.mapped_memory }
    }
}

impl Default for Diagnostics {
    fn default() -> (diagnostics: Diagnostics)
        ensures
            diagnostics@ == DiagnosticsView::empty(),
    {
        Diagnostics { failure: 0, mapped_memory: 0 }
    }
}

impl Diagnostics {
    /// Forgets all failures and all mapped bytes.
    pub fn reset(&mut self)
        ensures
            final(self)@ == DiagnosticsView::empty(),
    {
        self.failure = 0;
        self.mapped_memory = 0;
    }

    /// Counts `len` more bytes as mapped. The count wraps around.
    pub fn mapped_memory(&mut self, len: usize)
        ensures
            final(self)@.failure == old(self)@.failure,
            final(self)@.mapped_memory == old(self)@.mapped_memory.wrapping_add(len),
    {
        self.mapped_memory = self.mapped_memory.wrapping_add(len);
    }

    /// Records that the file could not be given its length.
    pub fn truncate_failed(&mut self, _requested_len: usize)
        ensures
            final(self)@ == old(self)@.with_truncate_failed(),
    {
        self.failure = self.failure | MASK_TRUNCATE;
    }

    /// Records that a part of the file could not be mapped.
    pub fn mmap_failed(&mut self)
        ensures
            final(self)@ == old(self)@.with_mmap_failed(),
    {
        self.failure = self.failure | MASK_MMAP;
    }

    /// The number of bytes that are counted as mapped.
    pub fn get_mapped_memory(&self) -> (mapped: usize)
        ensures
            mapped == self@.mapped_memory,
    {
        self.mapped_memory
    }

    /// The failures on record, one bit for each kind.
    pub fn get_failure_value(&self) -> (failure: usize)
        ensures
            failure == self@.failure,
    {
        self.failure
    }
}

/// The two kinds of failure are recorded independently, and each is kept once it is recorded.
pub proof fn law_failures_are_independent(record: DiagnosticsView)
    ensures
        record.with_truncate_failed().truncate_failed(),
        record.with_mmap_failed().mmap_failed(),
        record.with_truncate_failed().mmap_failed() == record.mmap_failed(),
        record.with_mmap_failed().truncate_failed() == record.truncate_failed(),
        record.with_truncate_failed().mapped_memory == record.mapped_memory,
        record.with_mmap_failed().mapped_memory == record.mapped_memory,
        !DiagnosticsView::empty().truncate_failed(),
        !DiagnosticsView::empty().mmap_failed(),
{
    let failure = record.failure;
    assert((failure | 1) & 1 != 0) by (bit_vector);
    assert((failure | 2) & 2 != 0) by (bit_vector);
    assert((failure | 1) & 2 == failure & 2) by (bit_vector);
    assert((failure | 2) & 1 == failure & 1) by (bit_vector);
    assert(0usize & 1 == 0) by (bit_vector);
    assert(0usize & 2 == 0) by (bit_vector);
}

} // verus!
