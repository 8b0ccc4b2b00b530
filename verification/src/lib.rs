pub mod api;
pub mod chat;
pub mod codec;
pub mod storage;
