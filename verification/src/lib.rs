//! Terminal user interface toolkit: geometry, text measuring and wrapping,
//! single-line text editing, layout arithmetic and visual-tree navigation.
pub mod geom;
pub mod text;
pub mod line_edit;
pub mod text_renderer;
pub mod layout;
pub mod components;
pub mod tree;
pub mod input;
pub mod render;
pub mod layout_pass;
pub mod template;
