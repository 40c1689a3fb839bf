pub mod account;
pub mod comparison;
pub mod digest;
pub mod fileinfo;
pub mod group;
pub mod membership;
pub mod params;
pub mod processor;
pub mod server;
pub mod stage;
pub mod store;
pub mod store_laws;
pub mod text;
