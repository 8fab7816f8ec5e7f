//! Texture atlas packing: a slot table with reverse lookup, a flat pixel
//! memory, and a Bottom-Left placement controller behind one facade.

pub mod types;
pub mod key_table;
pub mod elem;
pub mod container;
pub mod bl;
pub mod memory;
pub mod control;
pub mod type_atlas;
pub mod atlas;

pub use atlas::Atlas;
pub use bl::{BLInsertError, BLInserter, BLInserterInitializer, BLRemoveError};
pub use container::AtlasElemMem;
pub use elem::{AtlasElem, AtlasMemParam};
pub use memory::AtlasMem;
pub use types::{SqPos, SqSize};
pub use control::{Latch, RevCtrl, RevMode, SceneIdent, SceneIdentMaster, Trigger};
pub use type_atlas::{TypeAtlasInsertError, TypeAtlasRemoveError};
