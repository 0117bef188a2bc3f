//! A small HTTP request-handling core: a request parser, a method-keyed
//! router with static-file and wildcard fallback, and a template engine that
//! substitutes evaluated expression tags.

pub mod request;
pub mod response;
pub mod router;
pub mod table;
pub mod template;
pub mod text;
