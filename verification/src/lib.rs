//! A verified core of the Isotope game engine: its entity component system,
//! its shared-resource vault, the Wavefront model and material readers, the
//! CPU side of meshes, lights, layouts and instancer bindings, and its
//! utilities.
pub mod storage;
pub mod compound;
pub mod utils;
pub mod matter;
pub mod instancer;
pub mod collider;
pub mod lexing;
pub mod obj;
pub mod mtl;
pub mod mesh;
pub mod lights;
pub mod layouts;
