//! Reading order for the content objects of a document page: which objects share a line,
//! in what order lines and images follow each other, and which text belongs to an image.

pub mod extract;
pub mod lines;
pub mod object;
pub mod order;
pub mod page;
pub mod platform;
pub mod text;
