//! Verified core of the taktora medkit diagnostics gateway and the motion
//! control coupling layer.

pub mod assoc;
pub mod bitset;
pub mod model;
pub mod topology;
pub mod scale;
pub mod text;
pub mod auth;
pub mod locks;
pub mod manifest;
pub mod provider;
pub mod gateway;
pub mod view;
pub mod error;
pub mod cyclic;
pub mod triggers;
pub mod config;
pub mod routes;
pub mod motion;
pub mod fieldbus;
pub mod schedule;
pub mod sorted;
pub mod action;
pub mod diff;
pub mod civil;
pub mod nc;
