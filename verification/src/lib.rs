pub mod css;
pub mod dom;
pub mod error;
pub mod html;
pub mod javascript;
pub mod layout;
pub mod render;
pub mod renderer;
pub mod string_map;
pub mod style;
pub mod text;
