//! Repairs stale numeric parameter-index attributes in an audio
//! application's XML session files.  Plugin control ports are identified
//! by position, so a saved index goes stale when the plugin's port layout
//! changes; the fix is to resolve each reference by its stable symbolic
//! name and rewrite only the numeric text that changed, leaving every
//! other byte of the document untouched.

pub mod args;
pub mod bytes;
pub mod decimal;
pub mod diag;
pub mod lv2;
pub mod patch;
pub mod session;
pub mod xml;
