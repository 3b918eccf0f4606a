//! A Kafka client's logic without its sockets: record batches, consumer and
//! producer state, group assignment, authentication and routing decisions.
pub mod admin;
pub mod agreement;
pub mod assignor;
pub mod base64;
pub mod batch;
pub mod blobs;
pub mod buffer;
pub mod builder;
pub mod client;
pub mod codec;
pub mod consumer;
pub mod error;
pub mod fetching;
pub mod frames;
pub mod general;
pub mod group;
pub mod grouping;
pub mod layout;
pub mod lean;
pub mod login;
pub mod lookup;
pub mod membership;
pub mod metadata;
pub mod name_map;
pub mod names;
pub mod partitioner;
pub mod producer;
pub mod record_ref;
pub mod records;
pub mod retry;
pub mod routing;
pub mod sasl;
pub mod sender;
pub mod slots;
pub mod stability;
pub mod sticky;
pub mod text;
pub mod window;
pub mod wire;
pub mod workload;
