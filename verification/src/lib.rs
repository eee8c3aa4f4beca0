//! Verified core of a content-addressed, compressed page store.

pub mod adapter;
pub mod alike;
pub mod assembly;
pub mod blob;
pub mod builder;
pub mod bytes;
pub mod cache;
pub mod catalog;
pub mod codec;
pub mod collect;
pub mod digest;
pub mod directory;
pub mod domain;
pub mod draft;
pub mod driver;
pub mod entropy;
pub mod error;
pub mod estimate;
pub mod faults;
pub mod fetch;
pub mod format;
pub mod frame;
pub mod handle;
pub mod holdings;
pub mod index;
pub mod inventory;
pub mod keys;
pub mod maintenance_read;
pub mod manifest;
pub mod memory;
pub mod objects;
pub mod opening;
pub mod order;
pub mod pack;
pub mod pack_writer;
pub mod page;
pub mod pin;
pub mod pinned;
pub mod placement;
pub mod publication;
pub mod reading;
pub mod recency;
pub mod records;
pub mod relocate;
pub mod repack;
pub mod report;
pub mod resolve;
pub mod retention;
pub mod rewrite;
pub mod run;
pub mod run_codec;
pub mod samples;
pub mod seal;
pub mod segment;
pub mod slots;
pub mod sorting;
pub mod state;
pub mod statistics;
pub mod survey;
pub mod text;
pub mod trace;
pub mod validation;
pub mod view;
pub mod view_codec;
pub mod wire;
