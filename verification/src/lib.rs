//! Query rewriting and root-search logic of a distributed search engine,
//! specified and verified with Verus.

pub mod text;
pub mod vec_util;
pub mod wildcard;
pub mod query_ast;
pub mod regex_merge;
pub mod root;
pub mod grpc;
pub mod wildcard_query;
