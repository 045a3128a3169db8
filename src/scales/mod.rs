mod api;
mod band;
mod laws;
mod linear;
mod number;

pub use api::{decimal, digit_char, digits, DomainScale, Result, ScaleError};
pub use band::{
    enlarged_dimension, Band, BandIter, BandIterModel, BandModel, DEFAULT_ALIGN,
    DEFAULT_PADDING_INNER, DEFAULT_PADDING_OUTER, THOUSAND,
};
pub use laws::{
    lemma_interval_walk_ends, lemma_native_walk, lemma_reversal_mirrors, lemma_round_trip,
    lemma_round_trip_within_half_step,
};
pub use linear::{abs, round_div, trunc_div, DomainIter, IterableScale, Linear, LinearModel, WalkModel};
pub use number::{clamp, ScaleNumber};
