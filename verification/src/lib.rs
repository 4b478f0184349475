//! A minimal dynamic DNS updater: the formats and decisions behind resolving
//! the public addresses of a machine and upserting its DNS records.

pub mod addr;
pub mod provider;
pub mod req;
pub mod resolver;
pub mod update;
pub mod util;
