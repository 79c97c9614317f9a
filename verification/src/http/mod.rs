//! What the HTTP management interface answers.

pub mod dashboard;
pub mod handler;
