//! The disk explorer's own logic: how a disk is scanned, what the tree shows, and the texts it
//! shows it with.
pub mod children;
pub mod collection;
pub mod decimal;
pub mod explorer;
pub mod labels;
pub mod laws;
pub mod listing;
pub mod order;
pub mod path;
pub mod render;
pub mod replay;
pub mod report;
pub mod scan;
pub mod screen;
pub mod size;
pub mod totals;
pub mod tree;
pub mod walk;

