//! Core logic of a climbing-board route editor: the compact `p<id>r<id>`
//! route-notation codec, the board reference data model, nearest-hold
//! picking, and the role-cycling state machine used while authoring routes.

pub mod decimal;
pub mod codec;
pub mod data;
pub mod picker;
pub mod authoring;
pub mod search;
pub mod session;
pub mod paste;
