//! A libp2p node behind a C interface, as the part of it that decides: which bytes travel, who may
//! send what, which node of a group is asked, and what the caller hears of it. The network itself
//! is outside; it is told what to do and reports what happened.

#![allow(non_camel_case_types)]

pub mod abi;
pub mod address_book;
pub mod bytes;
pub mod call;
pub mod conduct;
pub mod delegation;
pub mod events;
pub mod ffi;
pub mod fraction;
pub mod keys;
pub mod laws;
pub mod limits;
pub mod multiaddr;
pub mod natural;
pub mod node;
pub mod outside;
pub mod state;
pub mod steps;
pub mod table;
pub mod wire;
