//! A minimal authenticated tabular store: a global interning dictionary,
//! a table catalog with fixed-stride row storage, a length-prefixed frame
//! codec, and the request dispatcher that ties them together.
pub mod auth;
pub mod dict;
pub mod dispatch;
pub mod frame;
pub mod persist;
pub mod storage;
pub mod strutil;
