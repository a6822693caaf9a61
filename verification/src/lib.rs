//! A container of beans: services that are registered under a type and a name, may refer
//! to one another before they exist, and are handed out once all of them have been
//! constructed.
#![allow(unused_imports)]
pub mod bean_ref;
pub mod cells;
pub mod context;
pub mod depend;
pub mod erased;
pub mod error;
pub mod event;
pub mod holder;
pub mod initialize;
pub mod laws;
pub mod lifecycle;
pub mod metadata;
pub mod operations;
pub mod record;
pub mod wrapper;
