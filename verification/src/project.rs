//! The persisted project aggregate: the octree topology, the property
//! descriptor table, and the per-segment metadata consumed by a viewer.

use crate::geom::Vec3;
use vstd::prelude::*;
use vstd::string::StringExecFns;

verus! {

/// Largest number of points a leaf may hold before it splits.
pub const MAX_LEAF_SIZE: usize = 32768;

/// Topology of one persisted node: a branch with up to eight children, or
/// a leaf with the identifiers of the segments whose points it holds.
pub enum IndexData {
    Branch { children: Vec<Option<IndexNode>> },
    Leaf { segments: Vec<u32> },
}

/// One persisted node: its topology, cube corner, edge length, and the
/// stable index used as its on-disk handle.
pub struct IndexNode {
    pub data: IndexData,
    pub position: Vec3,
    pub size: i64,
    pub index: u32,
}

/// One packed render record of the per-node data files: position and
/// normal in fixed-point coordinates, and the point size.
#[derive(Clone, Copy, PartialEq, Eq, Structural, Debug)]
pub struct Point {
    pub position: Vec3,
    pub normal: Vec3,
    pub size: i64,
}

/// A per-segment metadata value: a segment index, a percentage in
/// millionths, or an absolute height with its share of the total.
#[derive(Clone, Copy, PartialEq, Eq, Structural, Debug)]
pub enum Value {
    Index(u32),
    Percent(u32),
    RelativeHeight { absolute: i64, percent: u32 },
}

/// The persisted aggregate: name, depth, root topology, the property
/// descriptor table (key, display label, value cardinality), the segment
/// metadata labels, and the flattened segment-value table indexed as
/// segment-major.
pub struct Project {
    pub name: String,
    pub depth: u32,
    pub root: IndexNode,
    pub properties: Vec<(String, String, u32)>,
    pub segment_information: Vec<String>,
    pub segment_values: Vec<Value>,
}

impl Project {
    /// The placeholder project shown before any container is loaded.
    pub fn empty() -> (r: Project)
        ensures
            r.depth == 0,
            r.root.index == 0,
            r.root.size == 0,
            r.segment_information@.len() == 0,
            r.segment_values@.len() == 0,
            r.properties@.len() == 1,
    {
        Project {
            name: String::from_str("No Project loaded"),
            depth: 0,
            root: IndexNode {
                data: IndexData::Leaf { segments: Vec::new() },
                position: Vec3 { x: 0, y: 0, z: 0 },
                size: 0,
                index: 0,
            },
            properties: vec![
                (String::from_str("None"), String::from_str("None"), 1u32),
            ],
            segment_information: Vec::new(),
            segment_values: Vec::new(),
        }
    }

    /// The metadata values of one segment: the row of the segment-major
    /// value table selected by the one-based segment index.
    pub fn segment(&self, index: u32) -> (r: Vec<Value>)
        requires
            index >= 1,
            (index as int) * self.segment_information@.len() <= self.segment_values@.len(),
        ensures
            r@ == self.segment_values@.subrange(
                (index - 1) * self.segment_information@.len(),
                (index as int) * self.segment_information@.len(),
            ),
    {
        let width: usize = self.segment_information.len();
        let total: usize = self.segment_values.len();
        proof {
            assert((index - 1) * width as int + width == (index as int) * width) by (nonlinear_arith);
            assert((index - 1) * width as int >= 0) by (nonlinear_arith)
                requires index >= 1, width >= 0;
            assert((index as int) * width <= total);
        }
        let offset: usize = (index as usize - 1) * width;
        let mut r: Vec<Value> = Vec::new();
        let mut i: usize = 0;
        while i < width
            invariant
                i <= width,
                width == self.segment_information@.len(),
                offset == (index - 1) * width as int,
                total == self.segment_values@.len(),
                offset + width <= total,
                r@ == self.segment_values@.subrange(offset as int, offset + i),
            decreases width - i,
        {
            r.push(self.segment_values[offset + i]);
            proof {
                assert(r@ =~= self.segment_values@.subrange(offset as int, offset + i + 1));
            }
            i = i + 1;
        }
        proof {
            assert(r@ =~= self.segment_values@.subrange(
                (index - 1) * self.segment_information@.len(),
                (index as int) * self.segment_information@.len(),
            ));
        }
        r
    }
}

} // verus!
