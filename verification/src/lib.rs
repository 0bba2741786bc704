//! Market-board companion library: catalog search ranking, price-cache
//! bookkeeping, board configuration and the Universalis/XIVAPI data shaping
//! that sits between the network and the overlay window.

pub mod cache;
pub mod commands;
pub mod catalog;
pub mod config;
pub mod error;
pub mod search;
pub mod state;
pub mod text;
pub mod universalis;
pub mod xivapi_sync;
