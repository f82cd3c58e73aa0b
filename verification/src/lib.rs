pub mod decode;
pub mod fetch;
