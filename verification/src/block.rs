//! Block values and their material classes.
use vstd::prelude::*;

verus! {

/// The kinds of block a grid cell can hold.
#[derive(Clone, Copy, PartialEq, Eq, Structural, Debug)]
pub enum BlockType {
    Air,
    Grass,
    Dirt,
    Sand,
    Water,
    Leaves,
}

/// The material class of a block; each class is drawn in a pass of its own.
#[derive(Clone, Copy, PartialEq, Eq, Structural, Debug)]
pub enum ChunkDataType {
    Opaque,
    Transluscent,
    SemiTransluscent,
}

/// One cell of the voxel grid. A block has no identity beyond its position.
#[derive(Clone, Copy, PartialEq, Eq, Structural, Debug)]
pub struct Block {
    pub block_type: BlockType,
}

impl BlockType {
    /// The material class of a block of this kind; air has none.
    pub open spec fn spec_data_type(self) -> Option<ChunkDataType> {
        match self {
            BlockType::Air => None,
            BlockType::Grass => Some(ChunkDataType::Opaque),
            BlockType::Dirt => Some(ChunkDataType::Opaque),
            BlockType::Sand => Some(ChunkDataType::Opaque),
            BlockType::Water => Some(ChunkDataType::Transluscent),
            BlockType::Leaves => Some(ChunkDataType::SemiTransluscent),
        }
    }

    /// A solid block is any block but air.
    pub open spec fn spec_is_solid(self) -> bool {
        self != BlockType::Air
    }

    /// An opaque block hides whatever lies behind it completely.
    pub open spec fn spec_is_opaque(self) -> bool {
        self.spec_data_type() == Some(ChunkDataType::Opaque)
    }

    /// The material class of a block of this kind; air has none.
    #[verifier::when_used_as_spec(spec_data_type)]
    pub fn data_type(self) -> (class: Option<ChunkDataType>)
        ensures
            class == self.spec_data_type(),
    {
        match self {
            BlockType::Air => None,
            BlockType::Grass => Some(ChunkDataType::Opaque),
            BlockType::Dirt => Some(ChunkDataType::Opaque),
            BlockType::Sand => Some(ChunkDataType::Opaque),
            BlockType::Water => Some(ChunkDataType::Transluscent),
            BlockType::Leaves => Some(ChunkDataType::SemiTransluscent),
        }
    }

    /// Whether a block of this kind is anything but air.
    #[verifier::when_used_as_spec(spec_is_solid)]
    pub fn is_solid(self) -> (solid: bool)
        ensures
            solid == self.spec_is_solid(),
    {
        match self {
            BlockType::Air => false,
            _ => true,
        }
    }

    /// Whether a block of this kind hides what lies behind it.
    #[verifier::when_used_as_spec(spec_is_opaque)]
    pub fn is_opaque(self) -> (opaque: bool)
        ensures
            opaque == self.spec_is_opaque(),
    {
        match self {
            BlockType::Grass => true,
            BlockType::Dirt => true,
            BlockType::Sand => true,
            _ => false,
        }
    }
}

impl Block {
    /// A block of the given kind.
    pub fn new(block_type: BlockType) -> (block: Block)
        ensures
            block.block_type == block_type,
    {
        Block { block_type }
    }
}

impl Default for Block {
    /// The default block is air.
    fn default() -> (block: Block)
        ensures
            block.block_type == BlockType::Air,
    {
        Block { block_type: BlockType::Air }
    }
}

} // verus!
