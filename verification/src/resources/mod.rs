pub mod font;
pub mod id;
pub mod image;
pub mod resources_map;
