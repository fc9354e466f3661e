//! Finds duplicate files in a directory tree.
//!
//! The pipeline narrows the set of candidate files in stages: files are
//! bucketed by exact size, each surviving file is sampled (its first and last
//! kibibyte), the sample is digested, and files sharing both digest and size
//! form a duplicate group. Reading the file system is left to the caller; this
//! crate holds every decision the pipeline makes.

pub mod digest;
pub mod group;
pub mod records;
pub mod report;
pub mod sample;

use vstd::prelude::*;
use crate::digest::ContentKey;
use crate::group::{duplicate_model, lemma_duplicate_groups_narrow, total_paths};
use crate::records::{lemma_size_stage_narrows, size_candidates_of, FileRecord};

verus! {

/// Each stage keeps at most the files it was given: the duplicate groups
/// hold no more paths than the hash stage received, which, as the sampler
/// only drops unreadable files, is at most what the size stage kept, itself
/// at most what the traversal found.
pub proof fn lemma_each_stage_narrows(files: Seq<FileRecord>, entries: Seq<(ContentKey, String)>)
    requires
        entries.len() <= size_candidates_of(files).len(),
    ensures
        total_paths(duplicate_model(entries)) <= entries.len(),
        entries.len() <= size_candidates_of(files).len() <= files.len(),
{
    lemma_duplicate_groups_narrow(entries);
    lemma_size_stage_narrows(files);
}

} // verus!
