//! Core of an uptime monitor: a durable stream with consumer groups and acknowledgment,
//! the classification and planning of health-check ticks, and the dispatch of alerts.
use vstd::prelude::*;

pub mod dispatch;
pub mod laws;
pub mod mail;
pub mod point;
pub mod probe;
pub mod records;
pub mod stream;
pub mod text;

verus! {

} // verus!
