//! A small grammar compiler for weighted rewrite rules: a tokeniser with
//! source positions, a recursive-descent parser that builds a rule table,
//! a depth-capped stochastic rewrite engine, and an expression serializer.

pub mod tokeniser;
pub mod parser;
pub mod generator;
pub mod serializer;
