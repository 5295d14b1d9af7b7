//! The object porter: wire format of requests exchanged between porters, object headers,
//! bookkeeping of objects in transit, and error/status codes.

pub mod errors;
pub mod header;
pub mod ids;
pub mod request;
pub mod status_codes;
pub mod server;
