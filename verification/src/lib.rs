//! Local anonymising proxy for AI APIs: the verified core.
pub mod text;
pub mod token;
pub mod token_map;
pub mod pattern;
pub mod anonymise;
pub mod json;
pub mod proxy;
pub mod server;
pub mod tls;
pub mod round_trip;
