//! A client of a simulated network of drones, clients and servers.
//!
//! The client explores the network by floods, finds routes through it, sends
//! messages as confirmed fragments, sends again by other ways what drones drop, and
//! puts the fragments of incoming messages together. It does no input or output: it
//! takes packets and commands, and hands out a list of [`Action`]s.
//!
//! - [`client`] holds the client, and [`state`] the model that its contracts speak of.
//! - [`routing`] finds shortest routes, [`trails`] all ways without a cycle.
//! - [`assembler`] puts fragments together.
//! - [`packet`] and [`messages`] hold what is exchanged, [`text`] the texts of notices.
//! - [`laws`] states what holds over several steps, [`outcomes`] what each step comes to.

pub mod assembler;
pub mod client;
pub mod ids;
pub mod laws;
pub mod messages;
pub mod outcomes;
pub mod packet;
pub mod routing;
pub mod state;
pub mod text;
pub mod trails;

pub use client::DronegowskiClient;
pub use messages::Action;
