//! A retained-mode scene graph: an arena of views laid out by docking, and the
//! windows that show them.

pub mod geometry;
pub mod dock;
pub mod layout;
pub mod view;
pub mod window;
pub mod application;
