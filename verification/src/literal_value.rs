use vstd::prelude::*;

verus! {

/// The value a variable takes inside a product term: a concrete truth value
/// or a placeholder meaning the variable is irrelevant for that term.
#[derive(Copy, Clone, PartialEq, Eq, Structural, Debug)]
pub enum LiteralValue {
    True,
    False,
    DontCare,
}

/// Whether the boolean value `b` of a variable is compatible with the
/// literal `l` recorded for it: a don't-care accepts both values.
pub open spec fn lit_sat(l: LiteralValue, b: bool) -> bool {
    l == LiteralValue::DontCare || (l == LiteralValue::True <==> b)
}

/// Whether the literal `general` admits every value that `special` admits:
/// either it is a don't-care, or the two are the same literal.
pub open spec fn lit_subsumes(general: LiteralValue, special: LiteralValue) -> bool {
    general == LiteralValue::DontCare || general == special
}

impl LiteralValue {
    /// A distinct, stable code for each of the three values, used by the
    /// order-independent hash of a product term.
    pub open spec fn spec_code(self) -> u64 {
        match self {
            LiteralValue::False => 0,
            LiteralValue::True => 1,
            LiteralValue::DontCare => 2,
        }
    }

    /// Executable twin of [`Self::spec_code`].
    pub fn code(self) -> (r: u64)
        ensures
            r == self.spec_code(),
    {
        match self {
            LiteralValue::False => 0,
            LiteralValue::True => 1,
            LiteralValue::DontCare => 2,
        }
    }
}

} // verus!
