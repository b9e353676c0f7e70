//! Background work of the service.
pub mod cleanup;
