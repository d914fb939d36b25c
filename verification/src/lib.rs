pub mod text;
pub mod server;
pub mod paths;
pub mod html;
pub mod markdown;
pub mod builder;
pub mod archive;
pub mod api;
pub mod config;
