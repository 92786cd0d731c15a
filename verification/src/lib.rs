//! Strata's Trail model: locations, Trails (tabs) and the rules that keep them consistent.

pub mod path;
pub mod text;
pub mod model;
pub mod trail;
pub mod services;
pub mod trails;
pub mod local_store;
pub mod tabs;
