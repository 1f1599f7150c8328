//! Core of a tensor-graph compiler: partial tensor facts, a graph model that is
//! generic over its facts and operators, constraint propagation over the facts,
//! order-preserving translation between models, and transactional rewrites.
pub mod add_dims;
pub mod any_op;
pub mod compaction;
pub mod datum;
pub mod declutter;
pub mod elide;
pub mod error;
pub mod fact;
pub mod infer;
pub mod model;
pub mod ops;
pub mod order;
pub mod outlet;
pub mod patch;
pub mod rm_dims;
pub mod solver;
pub mod source;
pub mod tensor;
pub mod text;
pub mod tracking;
pub mod translator;
pub mod typed;
