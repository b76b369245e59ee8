//! Request classification for an HTTP gateway: route patterns matched against
//! request paths, and proxy authorization of presented credentials.
//!
//! Both halves share one shape: inspect the input, record facts in the
//! request's [`context::Extensions`] on success, and leave nothing behind on
//! failure.

pub mod text;
pub mod percent;
pub mod params;
pub mod path;
pub mod credentials;
pub mod username;
pub mod context;
pub mod authority;
