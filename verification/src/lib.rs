//! Readers, writers and transformations for Vocaloid voicebank containers:
//! the DDI index file, the DDB sample database and the pieces derived from them.

pub mod bytes;
pub mod cursor;
pub mod text;
pub mod ddi;
pub mod search;
pub mod ordmap;
pub mod model;
pub mod format;
pub mod parse;
pub mod dict;
pub mod mixins;
pub mod pack;
pub mod names;
pub mod wav;
pub mod segment;
pub mod frm2;
pub mod gui;
