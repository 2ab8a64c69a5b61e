pub mod error;
pub mod net_types;
pub mod dom_types;
pub mod float_text;
pub mod layout_types;
