mod categorised_value;
mod segmented_value;

pub use categorised_value::CategorisedValue;
pub use segmented_value::{SegmentedValue, SegmentedValueModel};
