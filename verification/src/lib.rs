//! Control-plane logic for a cluster of replicated dataflow backends.
//!
//! The crate holds the decisions of a controller that fans commands out to the
//! replicas of compute instances, merges what they answer, keeps the minimal
//! command log from which a restarted backend is rehydrated, and names the
//! services that back each replica. Everything here is a function from plain
//! values to plain values; connections, timers and tasks live with the caller.
//!
//! - [`frontier`] has the frontiers of time and their lattice.
//! - [`command`], [`command_log`] and [`rehydration`] have the commands, the
//!   minimal log of what a backend must be told, and the state machine of
//!   the client that replays the log after a reconnect.
//! - [`instance`] and [`storage`] have the state of a compute instance and
//!   of the storage side, with [`instance_model`] as their mathematical
//!   model.
//! - [`controller`] has the owner of them all, with [`controller_model`] as
//!   its model, and [`response`] what backends answer.
//! - [`service_name`], [`services`] and [`replica`] have the names, the
//!   events and the configuration of the services that back replicas.
//! - [`func`], [`ordered_func`], [`table_func`] and [`repr`] have the
//!   aggregate and table functions, and the values and types that they
//!   work on.
//! - [`strategy`] and [`snapshot`] have building blocks for generators of
//!   test values and for snapshots of type definitions.

pub mod command;
pub mod command_log;
pub mod controller;
pub mod controller_model;
pub mod frontier;
pub mod func;
pub mod ids;
pub mod instance;
pub mod instance_model;
pub mod ordered_func;
pub mod rehydration;
pub mod replica;
pub mod repr;
pub mod response;
pub mod service_name;
pub mod services;
pub mod snapshot;
pub mod storage;
pub mod strategy;
pub mod table_func;
