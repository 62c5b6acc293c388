pub mod bitmap;
pub mod components;
pub mod entity_data;
pub mod errors;
pub mod world;
