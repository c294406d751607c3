//! Two-pass, time-windowed aggregation of web-server access logs.

pub mod cache;
pub mod count_table;
pub mod file_reader;
pub mod free_ip_api;
pub mod ip_info;
pub mod ip_location;
pub mod ip_map;
pub mod key_values;
pub mod keys;
pub mod log_entry;
pub mod log_processor;
pub mod printer;
pub mod rank;
pub mod slack_webhook;
pub mod text;
