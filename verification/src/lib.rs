pub mod text;
pub mod hb_html;
pub mod hb_css;
pub mod styling;
pub mod hb_core;
pub mod hb_net;
pub mod hb_graphics;
pub mod hb_compositor;
pub mod hb_layout;
