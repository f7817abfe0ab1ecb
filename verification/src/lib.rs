//! Verified core of the kdr demo viewer and its resource server: resource
//! naming, search and packing, map entities, world geometry, textures,
//! the lightmap atlas, post processing passes and input state.

pub mod text;
pub mod naming;
pub mod search;
pub mod keys;
pub mod texture;
pub mod world;
pub mod entities;
pub mod resources;
pub mod lightmap;
pub mod session;
pub mod archive;
pub mod server;
pub mod texture_arrays;
pub mod post_process;
