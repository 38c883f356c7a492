//! AMM simulators, one module per math family.
pub mod aerodrome;
pub mod balancer;
pub mod balancer_accuracy;
pub mod balancer_laws;
pub mod balancer_math;
pub mod curve;
pub mod curve_laws;
pub mod gas_laws;
pub mod natural_factors;
pub mod natural_logs;
pub mod natural_powers;
pub mod natural_series;
pub mod product_laws;
pub mod real_powers;
pub mod refusal_laws;
pub mod solidly;
pub mod solidly_laws;
pub mod tick_laws;
pub mod tick_math;
pub mod univ2;
pub mod univ3;
pub mod univ3_laws;
pub mod univ3_price_laws;
pub mod univ3_walk;
