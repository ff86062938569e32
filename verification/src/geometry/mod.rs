pub mod path;
pub mod plan;
pub mod point;
pub mod stroke;
pub mod stroke_types;
pub mod types;
