//! Inner product arguments over BLS12-381.
pub mod algebra;
pub mod binding;
pub mod blinders;
pub mod completeness;
pub mod crs;
pub mod encoding;
pub mod errors;
pub mod folding;
pub mod inner_product_argument;
pub mod msm_accumulator;
pub mod point;
pub mod protocol;
pub mod scalar;
pub mod transcript;
pub mod util;
