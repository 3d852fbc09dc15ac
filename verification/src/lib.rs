//! Rendering engine for a legacy world-server's static map data: it
//! reads the object-type catalog and the per-sector map files, sorts
//! each floor's tile stacks into paint order, classifies every stack
//! into the five draw layers, and composites zoomable 256x256 RGBA
//! tiles through a thread-safe sprite cache, with exact integer
//! source-over blending. Auxiliary overlay data (monster spawns, NPC
//! locations, quest chests) and the flat minimap palette are parsed
//! here too. All I/O, serialization, and the parallel fan-out live in
//! the command-line front end around this crate.

pub mod bytes;
pub mod floors;
pub mod layers;
pub mod monsters;
pub mod npcs;
pub mod objects;
pub mod palette;
pub mod quests;
pub mod raster;
pub mod render;
pub mod sectors;
pub mod sprites;
