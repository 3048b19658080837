//! Offline import and indexing pipeline for large 3-D point scans.
//!
//! The library converts a raw point stream into a persisted level-of-detail
//! octree index: a streaming segmenter partitions the stream into per-tree
//! segments, a local-geometry pass derives normals, sizes and curvature per
//! point and a trunk/crown height split per segment, and an octree builder
//! merges the computed points into a bounded-fan-out hierarchy that is
//! flattened into a compact container. Positions are carried as fixed-point
//! integer coordinates (thousandths of a meter), so every stage is plain
//! integer arithmetic with exact contracts.

use vstd::prelude::*;

pub mod cache;
pub mod clock;
pub mod calculations;
pub mod codec;
pub mod geom;
pub mod input;
pub mod neighbors;
pub mod point;
pub mod project;
pub mod segmenter;
pub mod tree;

pub use geom::Vec3;

verus! {

/// Number of fixed-point coordinate units per meter.
pub const UNITS_PER_METER: i64 = 1000;

/// Largest accepted distance parameter, in fixed-point units.
pub const MAX_DISTANCE_UNITS: i64 = 1_000_000;

/// Hard cap on the neighbor count of the local-geometry search.
pub const MAX_NEIGHBORS: usize = 63;

/// Import failures. Each aborts the whole run: there is no partial-result
/// mode and no retry.
#[derive(Clone, Copy, PartialEq, Eq, Structural, Debug)]
pub enum Error {
    /// No input file was given or selected.
    NoInputFile,
    /// No output folder was given or selected.
    NoOutputFolder,
    /// The input file could not be read.
    InvalidFile,
    /// The input file decoded to malformed data.
    CorruptFile,
    /// The compressed input stream could not be decoded.
    LasZipError,
    /// The output path exists and is a file.
    OutputFolderIsFile,
    /// The output path exists and is a directory that is not empty.
    OutputFolderIsNotEmpty,
    /// Fewer than two worker threads were requested.
    NotEnoughThreads,
}

impl Error {
    /// The failure reason, reported once to the invoking context.
    pub fn message(&self) -> (r: &'static str)
        ensures
            r@.len() > 0,
    {
        let r: &'static str = match self {
            Error::NoInputFile => "No input file",
            Error::NoOutputFolder => "No output folder",
            Error::InvalidFile => "Invalid file",
            Error::CorruptFile => "Corrupt file",
            Error::LasZipError => "Corrupt compressed file",
            Error::OutputFolderIsFile => "Output folder is file",
            Error::OutputFolderIsNotEmpty => "Output folder is not empty",
            Error::NotEnoughThreads => "Atleast two Threads are required",
        };
        proof {
            reveal_strlit("No input file");
            reveal_strlit("No output folder");
            reveal_strlit("Invalid file");
            reveal_strlit("Corrupt file");
            reveal_strlit("Corrupt compressed file");
            reveal_strlit("Output folder is file");
            reveal_strlit("Output folder is not empty");
            reveal_strlit("Atleast two Threads are required");
        }
        r
    }
}

/// Import settings. Distances and widths are in fixed-point units; the
/// level-of-detail size scale is in thousandths.
#[derive(Clone, Copy, PartialEq, Eq, Structural, Debug)]
pub struct Settings {
    /// Minimum size for segments. Segments with less points are removed.
    pub min_segment_size: usize,
    /// Width of the horizontal segmenting slice.
    pub segmenting_slice_width: i64,
    /// Distance within which points combine into one segment.
    pub segmenting_max_distance: i64,
    /// Maximum count for the neighbors search.
    pub neighbors_count: usize,
    /// Maximum distance for the neighbors search.
    pub neighbors_max_distance: i64,
    /// Scale for the size of the combined level-of-detail point.
    pub lod_size_scale: u32,
}

impl Settings {
    /// The accepted parameter ranges.
    pub open spec fn wf(self) -> bool {
        &&& 1 <= self.min_segment_size
        &&& 1 <= self.segmenting_slice_width <= MAX_DISTANCE_UNITS
        &&& 1 <= self.segmenting_max_distance <= MAX_DISTANCE_UNITS
        &&& 2 <= self.neighbors_count <= MAX_NEIGHBORS
        &&& 1 <= self.neighbors_max_distance <= MAX_DISTANCE_UNITS
        &&& self.lod_size_scale <= 1000
    }
}

impl Default for Settings {
    /// The default import parameters: slices and combine distances of one
    /// meter, segments of at least a hundred points, at most thirty-one
    /// neighbors within one meter, and a level-of-detail scale of 0.95.
    fn default() -> (r: Settings)
        ensures
            r == (Settings {
                min_segment_size: 100,
                segmenting_slice_width: 1000,
                segmenting_max_distance: 1000,
                neighbors_count: 31,
                neighbors_max_distance: 1000,
                lod_size_scale: 950,
            }),
            r.wf(),
    {
        Settings {
            min_segment_size: 100,
            segmenting_slice_width: 1000,
            segmenting_max_distance: 1000,
            neighbors_count: 31,
            neighbors_max_distance: 1000,
            lod_size_scale: 950,
        }
    }
}

/// Rejects a requested worker-thread count that cannot drive the pipeline:
/// it needs at least one reader and one consumer, so exactly one thread is
/// refused; zero asks for all logical cores.
pub fn check_thread_count(max_threads: usize) -> (r: Result<(), Error>)
    ensures
        r == (if max_threads == 1 {
            Err::<(), Error>(Error::NotEnoughThreads)
        } else {
            Ok::<(), Error>(())
        }),
{
    if max_threads == 1 {
        Err(Error::NotEnoughThreads)
    } else {
        Ok(())
    }
}

} // verus!
