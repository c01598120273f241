pub mod listing;
pub mod port;
pub mod scan;
pub mod service;
pub mod store;

pub use port::parse_port;
pub use scan::{Scan, Timestamp};
pub use service::{
    create_scan, delete_scan, get_all_scans, get_scan, refused, rocket, update_scan, Body, Reply, Service,
};
pub use store::{Store, StoreError};
