//! Variables and literals.
//!
//! Both are thin wrappers over `u32`, numbered from zero inside the solver. The one-based signed
//! numbers of DIMACS appear only where text is read or written.

use vstd::prelude::*;

verus! {

/// A Boolean variable, identified by a zero-based index.
#[derive(Copy, Clone, Debug, PartialEq, Eq, PartialOrd, Ord, Hash, Structural)]
pub struct Var {
    /// The zero-based index.
    pub ix: u32,
}

impl Var {
    /// Largest representable variable index.
    ///
    /// Two bits of headroom are reserved below `u32::MAX`: one is consumed by the sign bit of
    /// [`Lit`], and one is kept spare so that a literal index plus a tag still fits in a word.
    pub const MAX_INDEX: usize = 0x3fff_ffff;

    /// The index as a mathematical integer.
    pub open spec fn vi(self) -> int {
        self.ix as int
    }

    /// Creates a variable from a zero-based index.
    pub fn from_index(index: usize) -> (v: Self)
        requires
            index <= Var::MAX_INDEX,
        ensures
            v.vi() == index,
    {
        Var { ix: index as u32 }
    }

    /// The zero-based index of this variable.
    pub fn index(self) -> (i: usize)
        ensures
            i == self.vi(),
    {
        self.ix as usize
    }

    /// The one-based, positive DIMACS number for this variable.
    pub fn to_dimacs(self) -> (n: i32)
        requires
            self.vi() < i32::MAX,
        ensures
            n == self.vi() + 1,
    {
        self.ix as i32 + 1
    }

    /// Builds a literal over this variable with the given polarity.
    pub fn lit(self, positive: bool) -> (l: Lit)
        requires
            self.vi() <= Var::MAX_INDEX,
        ensures
            l.vi() == self.vi(),
            l.pos() == positive,
            l == mk_lit(self.vi(), positive),
    {
        let negated: u32 = if positive {
            0
        } else {
            1
        };
        Lit { code: 2 * self.ix + negated }
    }

    /// The positive literal over this variable.
    pub fn positive(self) -> (l: Lit)
        requires
            self.vi() <= Var::MAX_INDEX,
        ensures
            l == mk_lit(self.vi(), true),
    {
        self.lit(true)
    }

    /// The negative literal over this variable.
    pub fn negative(self) -> (l: Lit)
        requires
            self.vi() <= Var::MAX_INDEX,
        ensures
            l == mk_lit(self.vi(), false),
    {
        self.lit(false)
    }
}

/// A literal: a variable together with a polarity.
///
/// Encoded as `2 * var + negated`. Negation flips one bit, and a literal doubles as an index into
/// a table of `2 * num_vars` slots, which is how occurrence lists are laid out.
#[derive(Copy, Clone, Debug, PartialEq, Eq, PartialOrd, Ord, Hash, Structural)]
pub struct Lit {
    /// `2 * var + negated`.
    pub code: u32,
}

/// The literal over variable `v` with the given polarity.
pub open spec fn mk_lit(v: int, positive: bool) -> Lit {
    Lit {
        code: (2 * v + if positive {
            0int
        } else {
            1int
        }) as u32,
    }
}

impl Lit {
    /// Index of the underlying variable.
    pub open spec fn vi(self) -> int {
        self.code as int / 2
    }

    /// Whether the literal is the variable itself.
    pub open spec fn pos(self) -> bool {
        self.code % 2 == 0
    }

    /// The literal with the opposite polarity.
    pub open spec fn neg(self) -> Lit {
        if self.code % 2 == 0 {
            Lit { code: (self.code + 1) as u32 }
        } else {
            Lit { code: (self.code - 1) as u32 }
        }
    }

    /// The signed DIMACS number as a mathematical integer.
    pub open spec fn dimacs(self) -> int {
        if self.pos() {
            self.vi() + 1
        } else {
            -(self.vi() + 1)
        }
    }

    /// Builds a literal from a variable and a polarity.
    pub fn new(var: Var, positive: bool) -> (l: Self)
        requires
            var.vi() <= Var::MAX_INDEX,
        ensures
            l.vi() == var.vi(),
            l.pos() == positive,
            l == mk_lit(var.vi(), positive),
    {
        var.lit(positive)
    }

    /// Builds a literal from a non-zero DIMACS number, its magnitude at most [`Var::MAX_INDEX`].
    pub fn from_dimacs(number: i32) -> (l: Self)
        requires
            number != 0,
            -Var::MAX_INDEX <= number <= Var::MAX_INDEX,
        ensures
            l.dimacs() == number,
            l.vi() == (if number > 0 {
                number - 1
            } else {
                -number - 1
            }),
            l.pos() == (number > 0),
    {
        if number > 0 {
            Var::from_index((number - 1) as usize).lit(true)
        } else {
            Var::from_index((-number - 1) as usize).lit(false)
        }
    }

    /// The signed DIMACS number for this literal.
    pub fn to_dimacs(self) -> (n: i32)
        requires
            self.vi() < i32::MAX,
        ensures
            n == self.dimacs(),
    {
        let var: i32 = (self.code / 2) as i32 + 1;
        if self.is_positive() {
            var
        } else {
            -var
        }
    }

    /// The variable underlying this literal.
    pub fn var(self) -> (v: Var)
        ensures
            v.vi() == self.vi(),
    {
        Var { ix: self.code / 2 }
    }

    /// Whether this literal is the variable rather than its negation.
    pub fn is_positive(self) -> (b: bool)
        ensures
            b == self.pos(),
    {
        self.code % 2 == 0
    }

    /// The literal with the opposite polarity.
    ///
    /// Negation is a single bit flip, which is the whole point of the encoding.
    pub fn negated(self) -> (l: Lit)
        ensures
            l == self.neg(),
    {
        let code: u32 = self.code;
        let flipped: u32 = code ^ 1;
        assert(code % 2 == 0 ==> flipped == code + 1) by (bit_vector)
            requires
                flipped == code ^ 1,
        ;
        assert(code % 2 == 1 ==> flipped + 1 == code) by (bit_vector)
            requires
                flipped == code ^ 1,
        ;
        Lit { code: flipped }
    }

    /// A dense index in `0..2 * num_vars`, suitable for array lookup.
    pub fn index(self) -> (i: usize)
        ensures
            i == self.code,
            i == 2 * self.vi() + (if self.pos() {
                0int
            } else {
                1int
            }),
    {
        self.code as usize
    }

    /// Reconstructs a literal from [`Lit::index`].
    pub fn from_index(index: usize) -> (l: Self)
        requires
            index <= u32::MAX,
        ensures
            l.code == index,
    {
        Lit { code: index as u32 }
    }
}

impl core::ops::Not for Lit {
    type Output = Lit;

    /// Written `!l`.
    fn not(self) -> (r: Lit) {
        self.negated()
    }
}

impl vstd::std_specs::ops::NotSpecImpl for Lit {
    open spec fn obeys_not_spec() -> bool {
        true
    }

    open spec fn not_req(self) -> bool {
        true
    }

    open spec fn not_spec(self) -> Lit {
        self.neg()
    }
}

/// Two literals are the same exactly when they agree on variable and polarity.
pub proof fn lemma_lit_ext(a: Lit, b: Lit)
    ensures
        a == b <==> (a.vi() == b.vi() && a.pos() == b.pos()),
{
}

/// Negation is its own inverse, keeps the variable and flips the polarity.
pub proof fn lemma_negation_is_involutive(l: Lit)
    ensures
        l.neg().neg() == l,
        l.neg() != l,
        l.neg().vi() == l.vi(),
        l.neg().pos() == !l.pos(),
{
}

/// Reading back the DIMACS number of a literal gives the literal, and the two directions agree on
/// every number in range.
pub proof fn lemma_dimacs_round_trip(a: Lit, b: Lit)
    ensures
        a.dimacs() != 0,
        a.dimacs() == b.dimacs() ==> a == b,
        a.neg().dimacs() == -a.dimacs(),
{
}

/// A literal is determined by its variable and polarity, and `mk_lit` builds it.
pub proof fn lemma_mk_lit(l: Lit)
    ensures
        mk_lit(l.vi(), l.pos()) == l,
        mk_lit(l.vi(), !l.pos()) == l.neg(),
{
}

} // verus!
