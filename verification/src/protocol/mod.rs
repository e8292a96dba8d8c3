pub mod serialization;
pub mod message;
pub mod textfmt;
pub mod base64;
pub mod pieces;
pub mod textmessage;
pub mod textform;
pub mod msgtext;
pub mod writer;
pub mod reading;
