//! Rules of a small file and wallet service: which wallet addresses are
//! accepted, what the wallet table holds, how uploaded files are named, and
//! what each request is answered with.

pub mod response;
pub mod service;
pub mod storage;
pub mod text;
pub mod upload;
pub mod wallet;
