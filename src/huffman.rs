pub mod builder;
pub mod frequency;
pub mod shape;
pub mod symbol;
pub mod tree;
