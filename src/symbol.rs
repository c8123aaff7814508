use vstd::prelude::*;

verus! {

/// An input symbol: a copyable value with a total order, used to test
/// whether a symbol falls inside an inclusive range.
pub trait Symbol: Copy {
    /// The order on symbols, as a mathematical relation.
    spec fn spec_le(&self, other: &Self) -> bool;

    /// Whether `self` comes at or before `other` in the order.
    fn sym_le(&self, other: &Self) -> (r: bool)
        ensures
            r == self.spec_le(other),
    ;

    /// Every symbol is at or before itself.
    proof fn lemma_le_reflexive(&self)
        ensures
            self.spec_le(self),
    ;

    /// Two symbols each at or before the other are the same symbol.
    proof fn lemma_le_antisymmetric(&self, other: &Self)
        requires
            self.spec_le(other),
            other.spec_le(self),
        ensures
            *self == *other,
    ;
}

impl Symbol for u8 {
    open spec fn spec_le(&self, other: &Self) -> bool {
        *self <= *other
    }

    fn sym_le(&self, other: &Self) -> (r: bool) {
        *self <= *other
    }

    proof fn lemma_le_reflexive(&self) {
    }

    proof fn lemma_le_antisymmetric(&self, other: &Self) {
    }
}

impl Symbol for u16 {
    open spec fn spec_le(&self, other: &Self) -> bool {
        *self <= *other
    }

    fn sym_le(&self, other: &Self) -> (r: bool) {
        *self <= *other
    }

    proof fn lemma_le_reflexive(&self) {
    }

    proof fn lemma_le_antisymmetric(&self, other: &Self) {
    }
}

impl Symbol for u32 {
    open spec fn spec_le(&self, other: &Self) -> bool {
        *self <= *other
    }

    fn sym_le(&self, other: &Self) -> (r: bool) {
        *self <= *other
    }

    proof fn lemma_le_reflexive(&self) {
    }

    proof fn lemma_le_antisymmetric(&self, other: &Self) {
    }
}

impl Symbol for char {
    open spec fn spec_le(&self, other: &Self) -> bool {
        (*self as u32) <= (*other as u32)
    }

    fn sym_le(&self, other: &Self) -> (r: bool) {
        (*self as u32) <= (*other as u32)
    }

    proof fn lemma_le_reflexive(&self) {
    }

    proof fn lemma_le_antisymmetric(&self, other: &Self) {
        vstd::utf8::char_u32_cast(*self, *self as u32);
        vstd::utf8::char_u32_cast(*other, *other as u32);
    }
}

/// Whether `s` lies in the inclusive range from `lo` to `hi`.
pub open spec fn in_range<Sym: Symbol>(lo: Sym, hi: Sym, s: Sym) -> bool {
    lo.spec_le(&s) && s.spec_le(&hi)
}

} // verus!
