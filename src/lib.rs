//! Flow-control-aware stream processing: credit-based admission, rate
//! limiting, a persistent operator pipeline with cancellable subscriptions,
//! and a binary wire codec for frames.
pub mod backpressure;
pub mod byob;
pub mod operators;
pub mod river;
pub mod serialization;
