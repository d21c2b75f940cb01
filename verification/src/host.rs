//! The host ABI: the contracts a host and a script share.
pub mod ahs;
pub mod capability;
pub mod fault;
pub mod handle;
