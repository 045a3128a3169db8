use vstd::prelude::*;

verus! {

/// Clamps `v` into `[lo, hi]`.
pub open spec fn clamp(v: int, lo: int, hi: int) -> int {
    if v < lo {
        lo
    } else if v > hi {
        hi
    } else {
        v
    }
}

/// The numeric capability table: what a scale needs to know about a domain type.
///
/// Every value of an implementing type is an integer (`as_int`). Scales do their
/// arithmetic exactly in `i128` and convert back with `from_wide`, which saturates
/// at the bounds of the type. `safe_min..=safe_max` is the part of the type that a
/// `Linear` scale accepts as its domain.
pub trait ScaleNumber: Copy + Sized {
    spec fn as_int(self) -> int;

    /// The value of the type that stands for `v`, where `v` is in the type's range.
    spec fn of_int(v: int) -> Self;

    spec fn type_min() -> int;

    spec fn type_max() -> int;

    spec fn spec_safe_min() -> int;

    spec fn spec_safe_max() -> int;

    proof fn lemma_bounds()
        ensures
            -0x8000_0000_0000_0000 <= Self::type_min() <= Self::spec_safe_min() <= 0,
            0 < Self::spec_safe_max() < Self::type_max() <= 0xffff_ffff_ffff_ffff,
            -0x20_0000_0000_0000 <= Self::spec_safe_min(),
            Self::spec_safe_max() < 0x20_0000_0000_0000,
            forall|v: int|
                Self::type_min() <= v <= Self::type_max() ==> #[trigger] Self::of_int(v).as_int()
                    == v,
            forall|a: Self| Self::type_min() <= #[trigger] a.as_int() <= Self::type_max(),
            forall|a: Self, b: Self| #[trigger] a.as_int() == #[trigger] b.as_int() ==> a == b,
    ;

    fn zero() -> (r: Self)
        ensures
            r.as_int() == 0,
    ;

    fn safe_min() -> (r: Self)
        ensures
            r.as_int() == Self::spec_safe_min(),
    ;

    fn safe_max() -> (r: Self)
        ensures
            r.as_int() == Self::spec_safe_max(),
    ;

    fn to_wide(self) -> (r: i128)
        ensures
            r == self.as_int(),
    ;

    fn from_wide(v: i128) -> (r: Self)
        ensures
            r == Self::of_int(clamp(v as int, Self::type_min(), Self::type_max())),
    ;
}

impl ScaleNumber for i64 {
    open spec fn as_int(self) -> int {
        self as int
    }

    open spec fn of_int(v: int) -> Self {
        v as i64
    }

    open spec fn type_min() -> int {
        i64::MIN as int
    }

    open spec fn type_max() -> int {
        i64::MAX as int
    }

    open spec fn spec_safe_min() -> int {
        -9_007_199_254_740_991
    }

    open spec fn spec_safe_max() -> int {
        9_007_199_254_740_990
    }

    proof fn lemma_bounds() {
    }

    fn zero() -> (r: Self) {
        0
    }

    fn safe_min() -> (r: Self) {
        -9_007_199_254_740_991
    }

    fn safe_max() -> (r: Self) {
        9_007_199_254_740_990
    }

    fn to_wide(self) -> (r: i128) {
        self as i128
    }

    fn from_wide(v: i128) -> (r: Self) {
        if v < i64::MIN as i128 {
            i64::MIN
        } else if v > i64::MAX as i128 {
            i64::MAX
        } else {
            v as i64
        }
    }
}


impl ScaleNumber for i32 {
    open spec fn as_int(self) -> int {
        self as int
    }

    open spec fn of_int(v: int) -> Self {
        v as i32
    }

    open spec fn type_min() -> int {
        i32::MIN as int
    }

    open spec fn type_max() -> int {
        i32::MAX as int
    }

    open spec fn spec_safe_min() -> int {
        i32::MIN as int
    }

    open spec fn spec_safe_max() -> int {
        (i32::MAX - 1) as int
    }

    proof fn lemma_bounds() {
    }

    fn zero() -> (r: Self) {
        0
    }

    fn safe_min() -> (r: Self) {
        i32::MIN
    }

    fn safe_max() -> (r: Self) {
        i32::MAX - 1
    }

    fn to_wide(self) -> (r: i128) {
        self as i128
    }

    fn from_wide(v: i128) -> (r: Self) {
        if v < i32::MIN as i128 {
            i32::MIN
        } else if v > i32::MAX as i128 {
            i32::MAX
        } else {
            v as i32
        }
    }
}

impl ScaleNumber for i16 {
    open spec fn as_int(self) -> int {
        self as int
    }

    open spec fn of_int(v: int) -> Self {
        v as i16
    }

    open spec fn type_min() -> int {
        i16::MIN as int
    }

    open spec fn type_max() -> int {
        i16::MAX as int
    }

    open spec fn spec_safe_min() -> int {
        i16::MIN as int
    }

    open spec fn spec_safe_max() -> int {
        (i16::MAX - 1) as int
    }

    proof fn lemma_bounds() {
    }

    fn zero() -> (r: Self) {
        0
    }

    fn safe_min() -> (r: Self) {
        i16::MIN
    }

    fn safe_max() -> (r: Self) {
        i16::MAX - 1
    }

    fn to_wide(self) -> (r: i128) {
        self as i128
    }

    fn from_wide(v: i128) -> (r: Self) {
        if v < i16::MIN as i128 {
            i16::MIN
        } else if v > i16::MAX as i128 {
            i16::MAX
        } else {
            v as i16
        }
    }
}

impl ScaleNumber for usize {
    open spec fn as_int(self) -> int {
        self as int
    }

    open spec fn of_int(v: int) -> Self {
        v as usize
    }

    open spec fn type_min() -> int {
        usize::MIN as int
    }

    open spec fn type_max() -> int {
        usize::MAX as int
    }

    open spec fn spec_safe_min() -> int {
        0
    }

    open spec fn spec_safe_max() -> int {
        if 9_007_199_254_740_990 < usize::MAX {
            9_007_199_254_740_990
        } else {
            usize::MAX - 1
        }
    }

    proof fn lemma_bounds() {
    }

    fn zero() -> (r: Self) {
        0
    }

    fn safe_min() -> (r: Self) {
        0
    }

    fn safe_max() -> (r: Self) {
        let bound: u64 = 9_007_199_254_740_990;
        if (bound as u128) < (usize::MAX as u128) {
            bound as usize
        } else {
            usize::MAX - 1
        }
    }

    fn to_wide(self) -> (r: i128) {
        self as i128
    }

    fn from_wide(v: i128) -> (r: Self) {
        if v < 0 {
            0
        } else if v > usize::MAX as i128 {
            usize::MAX
        } else {
            v as usize
        }
    }
}

impl ScaleNumber for u32 {
    open spec fn as_int(self) -> int {
        self as int
    }

    open spec fn of_int(v: int) -> Self {
        v as u32
    }

    open spec fn type_min() -> int {
        u32::MIN as int
    }

    open spec fn type_max() -> int {
        u32::MAX as int
    }

    open spec fn spec_safe_min() -> int {
        0
    }

    open spec fn spec_safe_max() -> int {
        (u32::MAX - 1) as int
    }

    proof fn lemma_bounds() {
    }

    fn zero() -> (r: Self) {
        0
    }

    fn safe_min() -> (r: Self) {
        0
    }

    fn safe_max() -> (r: Self) {
        u32::MAX - 1
    }

    fn to_wide(self) -> (r: i128) {
        self as i128
    }

    fn from_wide(v: i128) -> (r: Self) {
        if v < 0 {
            0
        } else if v > u32::MAX as i128 {
            u32::MAX
        } else {
            v as u32
        }
    }
}

impl ScaleNumber for u16 {
    open spec fn as_int(self) -> int {
        self as int
    }

    open spec fn of_int(v: int) -> Self {
        v as u16
    }

    open spec fn type_min() -> int {
        u16::MIN as int
    }

    open spec fn type_max() -> int {
        u16::MAX as int
    }

    open spec fn spec_safe_min() -> int {
        0
    }

    open spec fn spec_safe_max() -> int {
        (u16::MAX - 1) as int
    }

    proof fn lemma_bounds() {
    }

    fn zero() -> (r: Self) {
        0
    }

    fn safe_min() -> (r: Self) {
        0
    }

    fn safe_max() -> (r: Self) {
        u16::MAX - 1
    }

    fn to_wide(self) -> (r: i128) {
        self as i128
    }

    fn from_wide(v: i128) -> (r: Self) {
        if v < 0 {
            0
        } else if v > u16::MAX as i128 {
            u16::MAX
        } else {
            v as u16
        }
    }
}

} // verus!
