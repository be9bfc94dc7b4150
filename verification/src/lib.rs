//! Update store: tracks over-the-air update descriptors, persists their
//! state as structured text, and plans download / extraction work.

pub mod archive;
pub mod chars;
pub mod codec;
pub mod descriptor;
pub mod errors;
pub mod laws;
pub mod settings;
pub mod store;
