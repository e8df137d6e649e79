//! How far a long operation has come.

use vstd::prelude::*;

verus! {

/// `done` of `total`.
#[derive(Debug, Clone, Copy, PartialEq, Eq, Structural)]
pub struct Fraction {
    pub done: u64,
    pub total: u64,
}

impl Fraction {
    /// A fraction from zero to one.
    pub open spec fn proper(self) -> bool {
        self.done <= self.total && self.total > 0
    }

    /// Whole percents.
    pub open spec fn percent(self) -> int {
        self.done * 100 / (self.total as int)
    }

    /// Whole percents, rounded down.
    pub fn whole_percent(self) -> (r: u8)
        requires
            self.proper(),
        ensures
            r == self.percent(),
            r <= 100,
            r == 100 <==> self.complete(),
    {
        let ghost (done, total) = (self.done as int, self.total as int);
        assert(0 <= done * 100 / total <= 100 && (done * 100 / total == 100 <==> done == total))
            by (nonlinear_arith)
            requires
                0 <= done <= total,
                total > 0,
        {
            vstd::arithmetic::div_mod::lemma_div_is_ordered(done * 100, total * 100, total);
            vstd::arithmetic::div_mod::lemma_div_multiples_vanish(100, total);
            vstd::arithmetic::div_mod::lemma_fundamental_div_mod(done * 100, total);
            vstd::arithmetic::div_mod::lemma_mod_bound(done * 100, total);
        }
        let wide: u128 = self.done as u128 * 100 / self.total as u128;
        wide as u8
    }

    /// All of it.
    pub open spec fn complete(self) -> bool {
        self.done == self.total && self.total > 0
    }
}

} // verus!
