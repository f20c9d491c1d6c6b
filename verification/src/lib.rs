//! A property-based testing engine.
pub mod abi;
pub mod alphabets;
pub mod bignum;
pub mod choices;
pub mod civil;
pub mod clock;
pub mod collections;
pub mod decimal;
pub mod drawing;
pub mod draws;
pub mod errors;
pub mod family;
pub mod float_categories;
pub mod float_draws;
pub mod float_grids;
pub mod float_order;
pub mod float_restriction;
pub mod float_rounding;
pub mod float_sampling;
pub mod float_weights;
pub mod floats;
pub mod integer_constants;
pub mod intervalsets;
pub mod labels;
pub mod laws;
pub mod once;
pub mod order;
pub mod recursion;
pub mod replay;
pub mod rng;
pub mod sampling;
pub mod sequence_sampling;
pub mod shrinker;
pub mod signed_bytes;
pub mod spans;
pub mod special;
pub mod structure;
pub mod test_case;
pub mod text;
pub mod text_constants;
pub mod variables;
