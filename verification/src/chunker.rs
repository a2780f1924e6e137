//! Which records of the input go into the windows.

use vstd::prelude::*;
use crate::cli::KDParams;
use crate::record::{entry_is_filtered, entry_size, VariantRecord};

verus! {

/// A record is kept unless it is filtered while only passing records are
/// wanted, or its size lies outside the wanted range.
pub open spec fn keeps_entry(entry: VariantRecord, params: KDParams) -> bool {
    &&& !(params.passonly && entry.filtered)
    &&& params.sizemin <= entry.magnitude() <= params.sizemax
}

/// Returns true if entry should be kept.
pub fn filter_entry(entry: &VariantRecord, params: &KDParams) -> (r: bool)
    ensures
        r == keeps_entry(*entry, *params),
{
    if params.passonly && entry_is_filtered(entry) {
        return false;
    }
    let size = entry_size(entry);
    if params.sizemin > size || params.sizemax < size {
        return false;
    }
    true
}

/// A record lies apart from a window on the chromosome `chrom` that ends at
/// `end`: it lies on another chromosome, or it starts at least
/// `params.chunksize` positions behind the end. Such a record begins a window
/// of its own, with a graph that is independent of the one before.
pub open spec fn lies_apart(chrom: Seq<char>, end: u64, entry: VariantRecord, params: KDParams) -> bool {
    entry.chrom@ != chrom || entry.start >= end + params.chunksize
}

/// Whether the record begins a new window.
pub fn starts_new_chunk(chrom: &String, end: u64, entry: &VariantRecord, params: &KDParams) -> (r:
    bool)
    ensures
        r == lies_apart(chrom@, end, *entry, *params),
{
    if !(entry.chrom == *chrom) {
        return true;
    }
    match end.checked_add(params.chunksize) {
        Some(limit) => entry.start >= limit,
        None => false,
    }
}

/// What an attempt to read the next record gave.
#[derive(Debug)]
pub enum ReadEvent {
    /// The input has ended.
    End,
    /// The input could not be read, or held no record.
    Failed,
    /// A record was read.
    Record(VariantRecord),
}

/// What to do after an attempt to read.
#[derive(Debug)]
pub enum ReadStep {
    /// No record follows.
    Stop,
    /// Hand the record on.
    Yield(VariantRecord),
    /// Read again.
    Skip,
}

/// The step that follows an event: a record is handed on if it is to be kept
/// and passed over if not. A failure to read ends the stream just as the end
/// of the input does, so input that breaks off is used up to the break.
pub open spec fn step_after(event: ReadEvent, params: KDParams) -> ReadStep {
    match event {
        ReadEvent::End => ReadStep::Stop,
        ReadEvent::Failed => ReadStep::Stop,
        ReadEvent::Record(entry) => if keeps_entry(entry, params) {
            ReadStep::Yield(entry)
        } else {
            ReadStep::Skip
        },
    }
}

/// Decides what follows an attempt to read the next record.
pub fn next_step(event: ReadEvent, params: &KDParams) -> (r: ReadStep)
    ensures
        r == step_after(event, *params),
{
    match event {
        ReadEvent::End => ReadStep::Stop,
        ReadEvent::Failed => ReadStep::Stop,
        ReadEvent::Record(entry) => {
            if filter_entry(&entry, params) {
                ReadStep::Yield(entry)
            } else {
                ReadStep::Skip
            }
        },
    }
}

} // verus!
