//! Voxel-world core: block definitions, chunk storage, world editing with
//! light propagation and water flow, save-file format, chunk assembly for
//! terrain generation and the integer rules of the chunk mesher.

pub mod blocks;
pub mod noise;
pub mod chunk;
pub mod measure;
pub mod world;
pub mod gen;
pub mod storage;
pub mod mesh;
pub mod stream;
pub mod spawn;
pub mod wav;
