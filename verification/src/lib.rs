//! Archives footage from removable capture devices into a local staging
//! area and drains that staging area into one or more storage backends,
//! with content-addressed deduplication, bounded retries, and local
//! deletion only after every backend has confirmed durability.

pub mod device;
pub mod fingerprint;
pub mod hexstr;
pub mod mailer;
pub mod manifest;
pub mod messages;
pub mod pushover_notifier;
pub mod reporting;
pub mod staging;
pub mod storage;
pub mod web_context;
