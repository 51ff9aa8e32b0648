//! forkstify: the verified core of a music player that plays by branches.

pub mod text;
pub mod keys;
pub mod edit;
pub mod discography;
pub mod generate;
pub mod fork;
pub mod import;
pub mod learned;
pub mod library;
pub mod config;
pub mod catalog;
pub mod explore;
pub mod mediakeys;
pub mod listen;
pub mod engine;
pub mod home;
pub mod webapi;
pub mod session;
pub mod journey;
pub mod neighbors;
