use vstd::prelude::*;

verus! {

/// The kind of a muscle, as stored in a model file.
#[derive(Debug, Clone, Copy, PartialEq, Eq)]
pub enum SpringActuatorDataType {
    Classic,
    Relaxation,
}

/// The kind of a bladder, as stored in a model file.
#[derive(Debug, Clone, Copy, PartialEq, Eq)]
pub enum MassActuatorDataType {
    Balloon,
    Tank,
}

/// A collision layer, as stored in a model file: the indices of its masses
/// and of its springs.
#[derive(Debug, Clone, PartialEq, Eq)]
pub struct CollisionLayerData {
    pub masses: Vec<usize>,
    pub springs: Vec<usize>,
}

/// Who made a model file, and when.
#[derive(Debug, Clone, PartialEq, Eq)]
pub struct MetaData {
    pub name: String,
    pub creator: String,
    pub created: String,
}

} // verus!
