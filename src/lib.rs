mod continuous_mapper;
pub mod data_collections;
pub mod scales;

pub use continuous_mapper::{
    abs_diff, discrete_count, discrete_dimension_step, discrete_stride, discrete_value,
    lemma_discrete_values_stop_before_end, ScaledStep, ScaledSteps, ScaledStepsIter,
    ScaledStepsIterModel, ScaledStepsModel,
};
pub use scales::{
    Band, BandIter, DomainIter, DomainScale, IterableScale, Linear, Result, ScaleError,
    ScaleNumber,
};
