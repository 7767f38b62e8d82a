pub mod text;
pub mod highlight;
pub mod chunking;
pub mod export;
pub mod render;
pub mod circuit;
pub mod fusion;
pub mod documents;
pub mod embedding;
pub mod metadata;
