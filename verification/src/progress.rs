//! What a walk reports besides its tree: how much it has seen, and what it
//! could not read.

use vstd::prelude::*;
use crate::node::clamped;

verus! {

/// Why an entry could not be walked.
#[derive(Clone, Copy, Debug, PartialEq, Eq, Structural)]
pub enum FailureReason {
    /// The entry may not be read.
    PermissionDenied,
    /// The entry is not there, or no longer there.
    NotFound,
    /// The metadata of the entry could not be read.
    Unreadable,
    /// The entry is a directory that the walk has entered before.
    Cycle,
}

/// One entry that a walk could not read, with the reason.
#[derive(Clone, Debug, PartialEq, Eq)]
pub struct WalkError {
    pub path: String,
    pub reason: FailureReason,
}

/// A recorded failure as a mathematical value.
pub ghost struct ErrorView {
    pub path: Seq<char>,
    pub reason: FailureReason,
}

impl View for WalkError {
    type V = ErrorView;

    open spec fn view(&self) -> ErrorView {
        ErrorView { path: self.path@, reason: self.reason }
    }
}

/// The failures of a walk, in the order in which they were recorded. Records
/// are only ever added.
#[derive(Debug, PartialEq, Eq)]
pub struct RuntimeErrors {
    pub records: Vec<WalkError>,
}

impl View for RuntimeErrors {
    type V = Seq<ErrorView>;

    open spec fn view(&self) -> Seq<ErrorView> {
        self.records@.map_values(|e: WalkError| e@)
    }
}

impl RuntimeErrors {
    /// No failure yet.
    pub fn new() -> (errors: RuntimeErrors)
        ensures
            errors@ == Seq::<ErrorView>::empty(),
    {
        let errors = RuntimeErrors { records: Vec::new() };
        assert(errors@ =~= Seq::<ErrorView>::empty());
        errors
    }

    /// Adds the failure of the entry at `path`.
    pub fn record(&mut self, path: String, reason: FailureReason)
        ensures
            final(self)@ == old(self)@.push(ErrorView { path: path@, reason }),
    {
        self.records.push(WalkError { path, reason });
        assert(self@ =~= old(self)@.push(ErrorView { path: path@, reason }));
    }

    /// The number of failures recorded.
    pub fn len(&self) -> (n: usize)
        ensures
            n == self@.len(),
    {
        self.records.len()
    }

    /// Whether no failure is recorded.
    pub fn is_empty(&self) -> (r: bool)
        ensures
            r == (self@.len() == 0),
    {
        self.records.len() == 0
    }
}

/// The running tally of a walk and its failures. One tracker is handed to
/// every step of a walk.
#[derive(Debug, PartialEq, Eq)]
pub struct ProgressTracker {
    /// The number of files seen, held at the largest count.
    pub num_files: u64,
    /// The sum of their sizes, held at the largest size.
    pub total_file_size: u64,
    /// What could not be read.
    pub errors: RuntimeErrors,
}

/// A tracker as a mathematical value.
pub ghost struct TrackerView {
    pub num_files: nat,
    pub total_file_size: nat,
    pub errors: Seq<ErrorView>,
}

impl TrackerView {
    /// The tracker after `files` more files of `bytes` bytes in all and the
    /// failures `errors`.
    pub open spec fn advanced(self, files: nat, bytes: nat, errors: Seq<ErrorView>) -> TrackerView {
        TrackerView {
            num_files: clamped(self.num_files + files),
            total_file_size: clamped(self.total_file_size + bytes),
            errors: self.errors + errors,
        }
    }
}

impl View for ProgressTracker {
    type V = TrackerView;

    open spec fn view(&self) -> TrackerView {
        TrackerView {
            num_files: self.num_files as nat,
            total_file_size: self.total_file_size as nat,
            errors: self.errors@,
        }
    }
}

impl ProgressTracker {
    /// A tracker that has seen nothing.
    pub fn new() -> (tracker: ProgressTracker)
        ensures
            tracker@ == (TrackerView { num_files: 0, total_file_size: 0, errors: Seq::empty() }),
    {
        ProgressTracker { num_files: 0, total_file_size: 0, errors: RuntimeErrors::new() }
    }

    /// Counts one more file of `size`.
    pub fn record_file(&mut self, size: u64)
        ensures
            final(self)@ == old(self)@.advanced(1, size as nat, Seq::empty()),
    {
        self.num_files = self.num_files.saturating_add(1);
        self.total_file_size = self.total_file_size.saturating_add(size);
        assert(self@.errors =~= old(self)@.errors + Seq::<ErrorView>::empty());
    }

    /// Adds the failure of the entry at `path`.
    pub fn record_error(&mut self, path: String, reason: FailureReason)
        ensures
            final(self)@ == old(self)@.advanced(0, 0, seq![ErrorView { path: path@, reason }]),
    {
        self.errors.record(path, reason);
        assert(self@.errors =~= old(self)@.errors + seq![ErrorView { path: path@, reason }]);
    }
}

/// Advancing a tracker in two steps is advancing it by both at once.
pub proof fn lemma_advanced_twice(
    start: TrackerView,
    files: nat,
    bytes: nat,
    errors: Seq<ErrorView>,
    more_files: nat,
    more_bytes: nat,
    more_errors: Seq<ErrorView>,
)
    requires
        start.num_files <= u64::MAX,
        start.total_file_size <= u64::MAX,
    ensures
        start.advanced(files, bytes, errors).advanced(more_files, more_bytes, more_errors)
            == start.advanced(files + more_files, bytes + more_bytes, errors + more_errors),
{
    assert((start.errors + errors) + more_errors =~= start.errors + (errors + more_errors));
}

} // verus!
