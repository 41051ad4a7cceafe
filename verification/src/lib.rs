pub mod object;
pub mod dict;
pub mod document;
pub mod text;
pub mod layout;
pub mod fields;
pub mod collect;
pub mod names;
pub mod structure;
pub mod appearance;
pub mod fill;
pub mod strip;
pub mod laws;
pub mod ready;
pub mod laws_widgets;
pub mod json;
pub mod laws_text;
