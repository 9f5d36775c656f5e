//! Verified core of the CartoBoost forecasting and spatial feature toolkit.
pub mod error;
pub mod text;
pub mod order;
pub mod geo;
pub mod splitters;
pub mod stl;
pub mod mstl;
pub mod temporal_hierarchy;
pub mod objective;
pub mod objectives;
pub mod local;
pub mod rank_portfolio;
pub mod sequence;
pub mod schema;
pub mod lex;
pub mod oof;
pub mod serialize;
pub mod loss;
pub mod piecewise;
pub mod piecewise_layout;
pub mod piecewise_inputs;
pub mod stable;
pub mod result;
pub mod metrics;
pub mod registry;
