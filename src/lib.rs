//! Verified core of a transactional database session manager, together with
//! the schema scanner and table-creation query builder of its code generator.
pub mod parse;
pub mod create;
pub mod error;
pub mod registry;
pub mod session;
pub mod projection;
pub mod generate;
