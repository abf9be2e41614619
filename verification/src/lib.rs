//! An RFC 1035 DNS wire codec together with the pieces around it that a
//! cache-poisoning exercise needs: a query builder, a response builder, a
//! raw IPv4/UDP frame builder with one's-complement checksums, and the
//! decision logic of the flooding driver.

pub mod be_bytes;
pub mod checksum;
pub mod classes;
pub mod error;
pub mod header;
pub mod hostname;
pub mod kaminsky;
pub mod message;
pub mod packet;
pub mod query;
pub mod question;
pub mod resource_record;
pub mod response;
pub mod types;
