pub mod datatypes;
pub mod evaluation;
pub mod numbers;
pub mod parsing;
pub mod primitives;

pub use datatypes::LinslErr;
pub use datatypes::LinslExpr;
