//! A fixed-window request rate limiter together with the small HTTP header
//! type it needs to describe its rejection response.

pub mod header;
pub mod ratelimit;

pub use header::{headers_to_string, Header};
pub use ratelimit::{client_key, LimiterState, RateLimiter, Response};
