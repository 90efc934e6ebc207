//! The parts of a terminal markdown reader that do not touch the terminal:
//! styled lines, wrapping, tables, images, navigation.

pub mod app;
pub mod browse;
pub mod document;
pub mod editor;
pub mod events;
pub mod images;
pub mod input;
pub mod kitty;
pub mod laws;
pub mod markdown;
pub mod page;
pub mod paths;
pub mod placing;
pub mod session;
pub mod style;
pub mod sums;
pub mod table;
pub mod text;
pub mod ui;
pub mod width;
pub mod wrap;
