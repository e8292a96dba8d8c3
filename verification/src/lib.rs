pub mod canvas;
pub mod convert;
pub mod paint;
pub mod protocol;
pub mod strings;
