//! Extraction of a GPIO signal map from a device-tree binary blob.
//!
//! The interesting content of such a blob is a table of GPIO records that
//! sits at a fixed distance past the second 4-byte-aligned occurrence of the
//! tag `"GPIO"`.  This crate locates that table ([`scan`]), decodes its
//! records ([`decode`]), sorts them by GPIO number ([`order`]) and renders
//! them as device-tree source fragments ([`render`]).  [`extract`] ties the
//! steps together.

pub mod decode;
pub mod extract;
pub mod order;
pub mod render;
pub mod scan;
pub mod text;
