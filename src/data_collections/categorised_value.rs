use vstd::prelude::*;

verus! {

/// A value filed under a primary key and a secondary (segment) key.
#[derive(Default)]
pub struct CategorisedValue<PT, ST, VT> {
    pub primary_key: PT,
    pub secondary_key: ST,
    pub value: VT,
}

impl<PT, ST, VT> CategorisedValue<PT, ST, VT> {
    pub fn new(primary_key: PT, secondary_key: ST, value: VT) -> (r: Self)
        ensures
            r.primary_key == primary_key,
            r.secondary_key == secondary_key,
            r.value == value,
    {
        CategorisedValue { primary_key, secondary_key, value }
    }
}

} // verus!
