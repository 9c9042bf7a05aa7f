//! Four-state logic.

use std::ops::{BitAnd, BitOr, Not};
use std::str::FromStr;
use vstd::prelude::*;
use vstd::std_specs::convert::FromSpecImpl;
use vstd::std_specs::ops::{BitAndSpecImpl, BitOrSpecImpl, NotSpecImpl};

use crate::error::{Error, ErrorView};

verus! {

/// A four-state logic value.
#[derive(Debug, Clone, Copy, PartialEq, Eq, Structural)]
pub enum Logic {
    /// Logical zero
    False,
    /// Logical one
    True,
    /// Don't care
    X,
    /// High-impedance state
    Z,
}

impl Logic {
    /// Whether the value is a definite zero or one.
    pub open spec fn is_bool(self) -> bool {
        self == Logic::True || self == Logic::False
    }

    /// The definite value that stands for a boolean.
    pub open spec fn of_bool(b: bool) -> Logic {
        if b {
            Logic::True
        } else {
            Logic::False
        }
    }

    /// The literal that stands for the value in emitted text.
    pub open spec fn literal(self) -> Seq<char> {
        match self {
            Logic::True => "1'b1"@,
            Logic::False => "1'b0"@,
            Logic::X => "1'bx"@,
            Logic::Z => "1'bz"@,
        }
    }

    /// Conjunction. A zero on either side gives zero; two ones give one; anything else is
    /// not known.
    pub open spec fn and(self, rhs: Logic) -> Logic {
        if self == Logic::False || rhs == Logic::False {
            Logic::False
        } else if self == Logic::True && rhs == Logic::True {
            Logic::True
        } else {
            Logic::X
        }
    }

    /// Disjunction. A one on either side gives one; two zeros give zero; anything else is
    /// not known.
    pub open spec fn or(self, rhs: Logic) -> Logic {
        if self == Logic::True || rhs == Logic::True {
            Logic::True
        } else if self == Logic::False && rhs == Logic::False {
            Logic::False
        } else {
            Logic::X
        }
    }

    /// Negation. What is neither zero nor one stays not known.
    pub open spec fn negate(self) -> Logic {
        match self {
            Logic::False => Logic::True,
            Logic::True => Logic::False,
            _ => Logic::X,
        }
    }

    /// The value that a literal stands for, if the text is one of the eight literals. The
    /// base may be written `b` or `h`.
    pub open spec fn parse_spec(s: Seq<char>) -> Option<Logic> {
        if s == "1'b1"@ || s == "1'h1"@ {
            Some(Logic::True)
        } else if s == "1'b0"@ || s == "1'h0"@ {
            Some(Logic::False)
        } else if s == "1'bx"@ || s == "1'hx"@ {
            Some(Logic::X)
        } else if s == "1'bz"@ || s == "1'hz"@ {
            Some(Logic::Z)
        } else {
            None
        }
    }

    /// Get the logic as a bool. Only a definite value has one.
    pub fn unwrap(self) -> (r: bool)
        requires
            self.is_bool(),
        ensures
            r == (self == Logic::True),
    {
        match self {
            Logic::True => true,
            _ => false,
        }
    }

    /// Get the logic as a bool. Only a definite value has one; `msg` says what the caller
    /// expected.
    pub fn expect(self, msg: &str) -> (r: bool)
        requires
            self.is_bool(),
        ensures
            r == (self == Logic::True),
    {
        match self {
            Logic::True => true,
            _ => false,
        }
    }

    /// Returns true if the logic is a don't care.
    pub fn is_dont_care(&self) -> (r: bool)
        ensures
            r == (*self == Logic::X),
    {
        match self {
            Logic::X => true,
            _ => false,
        }
    }

    /// Returns the logic as a string.
    pub fn as_str(&self) -> (r: &'static str)
        ensures
            r@ == self.literal(),
    {
        match self {
            Logic::True => "1'b1",
            Logic::False => "1'b0",
            Logic::X => "1'bx",
            Logic::Z => "1'bz",
        }
    }

    /// Returns the logic as an owned string.
    pub fn to_string(&self) -> (r: String)
        ensures
            r@ == self.literal(),
    {
        self.as_str().to_owned()
    }

    /// Create a four-state logic element from a boolean.
    pub fn from_bool(b: bool) -> (r: Logic)
        ensures
            r == Logic::of_bool(b),
    {
        if b {
            Logic::True
        } else {
            Logic::False
        }
    }

    /// Reads a literal. Any text but the eight literals is a parse error that holds the
    /// text.
    pub fn parse(s: &str) -> (r: Result<Logic, Error>)
        ensures
            match Logic::parse_spec(s@) {
                Some(value) => r matches Ok(v) && v == value,
                None => r matches Err(e) && e@ == ErrorView::ParseError(s@),
            },
    {
        proof {
            reveal_strlit("1'b1");
            reveal_strlit("1'h1");
            reveal_strlit("1'b0");
            reveal_strlit("1'h0");
            reveal_strlit("1'bx");
            reveal_strlit("1'hx");
            reveal_strlit("1'bz");
            reveal_strlit("1'hz");
        }
        if s.unicode_len() == 4 {
            let c0 = s.get_char(0);
            let c1 = s.get_char(1);
            let c2 = s.get_char(2);
            let c3 = s.get_char(3);
            if c0 == '1' && c1 == '\'' && (c2 == 'b' || c2 == 'h') {
                if c3 == '1' {
                    assert(s@ =~= "1'b1"@ || s@ =~= "1'h1"@);
                    return Ok(Logic::True);
                } else if c3 == '0' {
                    assert(s@ =~= "1'b0"@ || s@ =~= "1'h0"@);
                    return Ok(Logic::False);
                } else if c3 == 'x' {
                    assert(s@ =~= "1'bx"@ || s@ =~= "1'hx"@);
                    return Ok(Logic::X);
                } else if c3 == 'z' {
                    assert(s@ =~= "1'bz"@ || s@ =~= "1'hz"@);
                    return Ok(Logic::Z);
                }
            }
        }
        Err(Error::ParseError(s.to_owned()))
    }
}

impl BitAnd for Logic {
    type Output = Logic;

    fn bitand(self, rhs: Logic) -> (r: Logic) {
        match (self, rhs) {
            (Logic::False, _) | (_, Logic::False) => Logic::False,
            (Logic::True, Logic::True) => Logic::True,
            _ => Logic::X,
        }
    }
}

impl BitAndSpecImpl for Logic {
    open spec fn obeys_bitand_spec() -> bool {
        true
    }

    open spec fn bitand_req(self, rhs: Logic) -> bool {
        true
    }

    open spec fn bitand_spec(self, rhs: Logic) -> Logic {
        self.and(rhs)
    }
}

impl BitOr for Logic {
    type Output = Logic;

    fn bitor(self, rhs: Logic) -> (r: Logic) {
        match (self, rhs) {
            (Logic::True, _) | (_, Logic::True) => Logic::True,
            (Logic::False, Logic::False) => Logic::False,
            _ => Logic::X,
        }
    }
}

impl BitOrSpecImpl for Logic {
    open spec fn obeys_bitor_spec() -> bool {
        true
    }

    open spec fn bitor_req(self, rhs: Logic) -> bool {
        true
    }

    open spec fn bitor_spec(self, rhs: Logic) -> Logic {
        self.or(rhs)
    }
}

impl Not for Logic {
    type Output = Logic;

    fn not(self) -> (r: Logic) {
        match self {
            Logic::False => Logic::True,
            Logic::True => Logic::False,
            _ => Logic::X,
        }
    }
}

impl NotSpecImpl for Logic {
    open spec fn obeys_not_spec() -> bool {
        true
    }

    open spec fn not_req(self) -> bool {
        true
    }

    open spec fn not_spec(self) -> Logic {
        self.negate()
    }
}

impl From<bool> for Logic {
    fn from(value: bool) -> (r: Logic) {
        Logic::from_bool(value)
    }
}

impl FromSpecImpl<bool> for Logic {
    open spec fn obeys_from_spec() -> bool {
        true
    }

    open spec fn from_spec(value: bool) -> Logic {
        Logic::of_bool(value)
    }
}

impl FromStr for Logic {
    type Err = Error;

    /// Reads a literal as `parse` does.
    fn from_str(s: &str) -> (r: Result<Logic, Error>)
        ensures
            match Logic::parse_spec(s@) {
                Some(value) => r matches Ok(v) && v == value,
                None => r matches Err(e) && e@ == ErrorView::ParseError(s@),
            },
    {
        Logic::parse(s)
    }
}

/// Create a [Logic::True] instance.
pub fn one() -> (r: Logic)
    ensures
        r == Logic::True,
{
    Logic::True
}

/// Create a [Logic::False] instance.
pub fn zero() -> (r: Logic)
    ensures
        r == Logic::False,
{
    Logic::False
}

/// Create a don't care instance.
pub fn dont_care() -> (r: Logic)
    ensures
        r == Logic::X,
{
    Logic::X
}

/// Create a high-impedance instance.
pub fn high_z() -> (r: Logic)
    ensures
        r == Logic::Z,
{
    Logic::Z
}

/// What is not known spreads: an operand that is not definite makes a conjunction or a
/// disjunction not known, unless the other operand decides the result alone, as zero does
/// for a conjunction and one for a disjunction. The negation of what is not definite is
/// not known. On definite values the three operators are those of the booleans.
pub proof fn lemma_dont_care_propagation(a: Logic, b: Logic)
    ensures
        !a.is_bool() || !b.is_bool() ==> a.and(b) == (if a == Logic::False || b == Logic::False {
            Logic::False
        } else {
            Logic::X
        }),
        !a.is_bool() || !b.is_bool() ==> a.or(b) == (if a == Logic::True || b == Logic::True {
            Logic::True
        } else {
            Logic::X
        }),
        !a.is_bool() ==> a.negate() == Logic::X,
        a.is_bool() && b.is_bool() ==> a.and(b) == Logic::of_bool(
            a == Logic::True && b == Logic::True,
        ),
        a.is_bool() && b.is_bool() ==> a.or(b) == Logic::of_bool(
            a == Logic::True || b == Logic::True,
        ),
        a.is_bool() ==> a.negate() == Logic::of_bool(a == Logic::False),
{
}

} // verus!
