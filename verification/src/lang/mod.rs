//! Expression languages that templates can be written in.

pub mod lang;
pub mod go;
pub mod js;
pub mod php;
pub mod rust;
pub mod python;
