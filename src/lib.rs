//! A peer-to-peer catalog of content-addressed media references, partitioned by
//! calendar day and summarised by a three-tier (year, month, day) digest index.

pub mod opaque_date;
mod table;
pub mod byte_string;
pub mod local_storage;
pub mod catalog;
pub mod laws;
