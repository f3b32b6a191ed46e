pub mod text;
pub mod transcript;
pub mod topic;
pub mod audio;
pub mod markdown;
pub mod api;
pub mod response;
pub mod context;
pub mod config;
pub mod daemon;
pub mod mobile;
pub mod ui;
pub mod capture;
pub mod schedule;
