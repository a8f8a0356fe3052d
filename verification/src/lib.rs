//! argus: a multi-layer key/value store and its time-sortable identifiers.
pub mod error;
pub mod layer;
pub mod lsm;
pub mod lsmt;
pub mod uid;
