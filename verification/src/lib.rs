//! Replicated search index for web applications on a content-addressed overlay.
//!
//! Every peer holds a catalog of the applications it knows, with attestations
//! and trust scores, and a family of full-text shards. Replicas converge by
//! exchanging Bloom summaries and the deltas that a summary shows to be
//! missing. The library holds the state machines and proves what they
//! promise; it performs no input or output, and every operation is a function
//! of its arguments. All arithmetic is on integers.
//!
//! The modules, from the leaves up:
//!
//! - [`bytes`], [`text`], [`sorting`], [`folding`], [`ordered_map`]: byte
//!   strings, characters, ordered lists, folds and the map in key order;
//! - [`hashing`], [`bloom`], [`identity`], [`antiflood`]: digests, the summary
//!   filter, Ed25519 keys and the proof of work;
//! - [`types`]: the data of catalog and shards and their values;
//! - [`catalog`], [`catalog_merge`], [`catalog_finalize`], [`catalog_sync`],
//!   [`catalog_contract`]: the catalog and its four operations;
//! - [`catalog_laws`], [`catalog_merge_laws`], [`catalog_merge_order`],
//!   [`catalog_convergence`]: what holds of every catalog;
//! - [`shard`], [`shard_contract`], [`shard_laws`], [`shard_convergence`]: a
//!   full-text shard, its operations and its laws;
//! - [`publication`]: the signed publication contract of a web container;
//! - [`web_container`], [`extraction`], [`normalization`], [`tokenization`],
//!   [`discovery`]: from the state of a web container to the metadata and the
//!   terms that are indexed;
//! - [`contribution`]: what a contributor submits for an application;
//! - [`scoring`], [`search`], [`presentation`]: scores, the results of a
//!   query and the look of a result;
//! - [`directory`], [`client`], [`node`]: the directory of the applications
//!   that a client has discovered, the state of its discovery and the
//!   connection to the node.

pub mod antiflood;
pub mod bloom;
pub mod bytes;
pub mod catalog;
pub mod catalog_contract;
pub mod catalog_convergence;
pub mod catalog_finalize;
pub mod catalog_laws;
pub mod catalog_merge;
pub mod catalog_merge_laws;
pub mod catalog_merge_order;
pub mod catalog_sync;
pub mod client;
pub mod contribution;
pub mod directory;
pub mod discovery;
pub mod extraction;
pub mod folding;
pub mod hashing;
pub mod identity;
pub mod node;
pub mod normalization;
pub mod ordered_map;
pub mod presentation;
pub mod publication;
pub mod scoring;
pub mod search;
pub mod shard;
pub mod shard_contract;
pub mod shard_convergence;
pub mod shard_laws;
pub mod sorting;
pub mod text;
pub mod tokenization;
pub mod types;
pub mod web_container;
