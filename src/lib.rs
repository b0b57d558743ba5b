//! Directory reconnaissance core: timestamp codec, query templating,
//! result rendering and batch assembly.
pub mod adtime;
pub mod template;
pub mod render;
pub mod run;
