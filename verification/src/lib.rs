pub mod element;
pub mod history;
pub mod mesh;
pub mod faces;
pub mod graph;
pub mod codec;
pub mod layers;
pub mod sync;
pub mod construct;
pub mod copies;
pub mod removal;
pub mod merging;
pub mod refine;
pub mod inset;
pub mod svg;
pub mod path;
pub mod import;
pub mod toolbar;
pub mod settings;
pub mod selection;
pub mod transform;
pub mod chains;
pub mod planar;
pub mod input;
pub mod reversal;
pub mod loops;
pub mod images;
