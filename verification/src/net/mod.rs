pub mod consts;
pub mod encoding;
pub mod boundary;
pub mod chunk;
pub mod message;
pub mod output;
pub mod input;
pub mod laws;
