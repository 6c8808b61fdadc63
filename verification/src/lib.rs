//! Readback of interaction nets: turns a net back into a term of the lambda calculus.
pub mod account;
pub mod binding;
pub mod book;
pub mod count;
pub mod diagnostics;
pub mod ending;
pub mod error;
pub mod follow;
pub mod fuel;
pub mod labels;
pub mod meaning;
pub mod model;
pub mod name;
pub mod namegen;
pub mod net;
pub mod nonlinear;
pub mod num;
pub mod placing;
pub mod portset;
pub mod reader;
pub mod scope;
pub mod shortcut;
pub mod sound;
pub mod split;
pub mod steps;
pub mod term;
pub mod tuple;
