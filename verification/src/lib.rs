//! Ground subsidence from stacks of Sentinel-1 acquisitions.
//!
//! The crate holds the rules of the service: how a request is routed and answered, how a date
//! range is put into the form that the scene catalogue wants, which acquisitions form
//! interferometric pairs, how their displacement grids are corrected, referenced and integrated
//! into a time series.
//!
//! Every operation on measured values goes through [`numerics::Numerics`], so that the
//! processing is proved for any number type and any arithmetic on it.
pub mod atmosphere;
pub mod calendar;
pub mod datetime;
pub mod exactness;
pub mod formula;
pub mod grid;
pub mod http_api;
pub mod insar;
pub mod numerics;
pub mod promises;
pub mod scenes;
pub mod sequences;
pub mod series;
pub mod shape;
pub mod signal;
pub mod sites;
pub mod text;
pub mod uniqueness;
pub mod worker;
