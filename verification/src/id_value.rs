//! The integer types that can number connections.
use vstd::prelude::*;
use crate::connection::ConnectionIdValue;

verus! {

impl ConnectionIdValue for i8 {
    open spec fn id_value(&self) -> int {
        *self as int
    }

    open spec fn max_id_value() -> int {
        i8::MAX as int
    }

    open spec fn min_id_value() -> int {
        i8::MIN as int
    }

    fn zero() -> (r: i8) {
        0
    }

    fn one() -> (r: i8) {
        1
    }

    fn incremented(self) -> (r: i8) {
        self + 1
    }

    fn plus(self, other: i8) -> (r: i8) {
        self + other
    }

    fn below_max(&self) -> (r: bool) {
        *self < i8::MAX
    }

    fn same_as(&self, other: &i8) -> (r: bool) {
        *self == *other
    }

    proof fn lemma_id_value_injective(a: i8, b: i8) {
    }

    proof fn lemma_max_id_value_positive() {
    }
}

impl ConnectionIdValue for i16 {
    open spec fn id_value(&self) -> int {
        *self as int
    }

    open spec fn max_id_value() -> int {
        i16::MAX as int
    }

    open spec fn min_id_value() -> int {
        i16::MIN as int
    }

    fn zero() -> (r: i16) {
        0
    }

    fn one() -> (r: i16) {
        1
    }

    fn incremented(self) -> (r: i16) {
        self + 1
    }

    fn plus(self, other: i16) -> (r: i16) {
        self + other
    }

    fn below_max(&self) -> (r: bool) {
        *self < i16::MAX
    }

    fn same_as(&self, other: &i16) -> (r: bool) {
        *self == *other
    }

    proof fn lemma_id_value_injective(a: i16, b: i16) {
    }

    proof fn lemma_max_id_value_positive() {
    }
}

impl ConnectionIdValue for i32 {
    open spec fn id_value(&self) -> int {
        *self as int
    }

    open spec fn max_id_value() -> int {
        i32::MAX as int
    }

    open spec fn min_id_value() -> int {
        i32::MIN as int
    }

    fn zero() -> (r: i32) {
        0
    }

    fn one() -> (r: i32) {
        1
    }

    fn incremented(self) -> (r: i32) {
        self + 1
    }

    fn plus(self, other: i32) -> (r: i32) {
        self + other
    }

    fn below_max(&self) -> (r: bool) {
        *self < i32::MAX
    }

    fn same_as(&self, other: &i32) -> (r: bool) {
        *self == *other
    }

    proof fn lemma_id_value_injective(a: i32, b: i32) {
    }

    proof fn lemma_max_id_value_positive() {
    }
}

impl ConnectionIdValue for i64 {
    open spec fn id_value(&self) -> int {
        *self as int
    }

    open spec fn max_id_value() -> int {
        i64::MAX as int
    }

    open spec fn min_id_value() -> int {
        i64::MIN as int
    }

    fn zero() -> (r: i64) {
        0
    }

    fn one() -> (r: i64) {
        1
    }

    fn incremented(self) -> (r: i64) {
        self + 1
    }

    fn plus(self, other: i64) -> (r: i64) {
        self + other
    }

    fn below_max(&self) -> (r: bool) {
        *self < i64::MAX
    }

    fn same_as(&self, other: &i64) -> (r: bool) {
        *self == *other
    }

    proof fn lemma_id_value_injective(a: i64, b: i64) {
    }

    proof fn lemma_max_id_value_positive() {
    }
}

impl ConnectionIdValue for i128 {
    open spec fn id_value(&self) -> int {
        *self as int
    }

    open spec fn max_id_value() -> int {
        i128::MAX as int
    }

    open spec fn min_id_value() -> int {
        i128::MIN as int
    }

    fn zero() -> (r: i128) {
        0
    }

    fn one() -> (r: i128) {
        1
    }

    fn incremented(self) -> (r: i128) {
        self + 1
    }

    fn plus(self, other: i128) -> (r: i128) {
        self + other
    }

    fn below_max(&self) -> (r: bool) {
        *self < i128::MAX
    }

    fn same_as(&self, other: &i128) -> (r: bool) {
        *self == *other
    }

    proof fn lemma_id_value_injective(a: i128, b: i128) {
    }

    proof fn lemma_max_id_value_positive() {
    }
}

impl ConnectionIdValue for isize {
    open spec fn id_value(&self) -> int {
        *self as int
    }

    open spec fn max_id_value() -> int {
        isize::MAX as int
    }

    open spec fn min_id_value() -> int {
        isize::MIN as int
    }

    fn zero() -> (r: isize) {
        0
    }

    fn one() -> (r: isize) {
        1
    }

    fn incremented(self) -> (r: isize) {
        self + 1
    }

    fn plus(self, other: isize) -> (r: isize) {
        self + other
    }

    fn below_max(&self) -> (r: bool) {
        *self < isize::MAX
    }

    fn same_as(&self, other: &isize) -> (r: bool) {
        *self == *other
    }

    proof fn lemma_id_value_injective(a: isize, b: isize) {
    }

    proof fn lemma_max_id_value_positive() {
    }
}

impl ConnectionIdValue for u8 {
    open spec fn id_value(&self) -> int {
        *self as int
    }

    open spec fn max_id_value() -> int {
        u8::MAX as int
    }

    open spec fn min_id_value() -> int {
        u8::MIN as int
    }

    fn zero() -> (r: u8) {
        0
    }

    fn one() -> (r: u8) {
        1
    }

    fn incremented(self) -> (r: u8) {
        self + 1
    }

    fn plus(self, other: u8) -> (r: u8) {
        self + other
    }

    fn below_max(&self) -> (r: bool) {
        *self < u8::MAX
    }

    fn same_as(&self, other: &u8) -> (r: bool) {
        *self == *other
    }

    proof fn lemma_id_value_injective(a: u8, b: u8) {
    }

    proof fn lemma_max_id_value_positive() {
    }
}

impl ConnectionIdValue for u16 {
    open spec fn id_value(&self) -> int {
        *self as int
    }

    open spec fn max_id_value() -> int {
        u16::MAX as int
    }

    open spec fn min_id_value() -> int {
        u16::MIN as int
    }

    fn zero() -> (r: u16) {
        0
    }

    fn one() -> (r: u16) {
        1
    }

    fn incremented(self) -> (r: u16) {
        self + 1
    }

    fn plus(self, other: u16) -> (r: u16) {
        self + other
    }

    fn below_max(&self) -> (r: bool) {
        *self < u16::MAX
    }

    fn same_as(&self, other: &u16) -> (r: bool) {
        *self == *other
    }

    proof fn lemma_id_value_injective(a: u16, b: u16) {
    }

    proof fn lemma_max_id_value_positive() {
    }
}

impl ConnectionIdValue for u32 {
    open spec fn id_value(&self) -> int {
        *self as int
    }

    open spec fn max_id_value() -> int {
        u32::MAX as int
    }

    open spec fn min_id_value() -> int {
        u32::MIN as int
    }

    fn zero() -> (r: u32) {
        0
    }

    fn one() -> (r: u32) {
        1
    }

    fn incremented(self) -> (r: u32) {
        self + 1
    }

    fn plus(self, other: u32) -> (r: u32) {
        self + other
    }

    fn below_max(&self) -> (r: bool) {
        *self < u32::MAX
    }

    fn same_as(&self, other: &u32) -> (r: bool) {
        *self == *other
    }

    proof fn lemma_id_value_injective(a: u32, b: u32) {
    }

    proof fn lemma_max_id_value_positive() {
    }
}

impl ConnectionIdValue for u64 {
    open spec fn id_value(&self) -> int {
        *self as int
    }

    open spec fn max_id_value() -> int {
        u64::MAX as int
    }

    open spec fn min_id_value() -> int {
        u64::MIN as int
    }

    fn zero() -> (r: u64) {
        0
    }

    fn one() -> (r: u64) {
        1
    }

    fn incremented(self) -> (r: u64) {
        self + 1
    }

    fn plus(self, other: u64) -> (r: u64) {
        self + other
    }

    fn below_max(&self) -> (r: bool) {
        *self < u64::MAX
    }

    fn same_as(&self, other: &u64) -> (r: bool) {
        *self == *other
    }

    proof fn lemma_id_value_injective(a: u64, b: u64) {
    }

    proof fn lemma_max_id_value_positive() {
    }
}

impl ConnectionIdValue for u128 {
    open spec fn id_value(&self) -> int {
        *self as int
    }

    open spec fn max_id_value() -> int {
        u128::MAX as int
    }

    open spec fn min_id_value() -> int {
        u128::MIN as int
    }

    fn zero() -> (r: u128) {
        0
    }

    fn one() -> (r: u128) {
        1
    }

    fn incremented(self) -> (r: u128) {
        self + 1
    }

    fn plus(self, other: u128) -> (r: u128) {
        self + other
    }

    fn below_max(&self) -> (r: bool) {
        *self < u128::MAX
    }

    fn same_as(&self, other: &u128) -> (r: bool) {
        *self == *other
    }

    proof fn lemma_id_value_injective(a: u128, b: u128) {
    }

    proof fn lemma_max_id_value_positive() {
    }
}

impl ConnectionIdValue for usize {
    open spec fn id_value(&self) -> int {
        *self as int
    }

    open spec fn max_id_value() -> int {
        usize::MAX as int
    }

    open spec fn min_id_value() -> int {
        usize::MIN as int
    }

    fn zero() -> (r: usize) {
        0
    }

    fn one() -> (r: usize) {
        1
    }

    fn incremented(self) -> (r: usize) {
        self + 1
    }

    fn plus(self, other: usize) -> (r: usize) {
        self + other
    }

    fn below_max(&self) -> (r: bool) {
        *self < usize::MAX
    }

    fn same_as(&self, other: &usize) -> (r: bool) {
        *self == *other
    }

    proof fn lemma_id_value_injective(a: usize, b: usize) {
    }

    proof fn lemma_max_id_value_positive() {
    }
}

} // verus!
