//! Named `.localhost` addresses for local development servers: finding the
//! listening processes, naming them, and routing requests for
//! `name.localhost` to them through a small reverse proxy.
pub mod cli;
pub mod config;
pub mod ctl;
pub mod http;
pub mod names;
pub mod proxy;
pub mod scan;
pub mod status;
pub mod text;
