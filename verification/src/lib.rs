//! A small social-network backend: user profiles, posts and a follow graph,
//! each kept in durable byte tables together with the secondary indexes
//! that its queries need. Every operation is a single step from one
//! well-formed store to the next; the contracts say which.
pub mod codec;
pub mod error;
pub mod graph;
pub mod identity;
pub mod lists;
pub mod post;
pub mod table;
pub mod text;
pub mod timeline;
pub mod user;
