//! Production rules and their structural classification.

use vstd::prelude::*;
use crate::symbols::{all_terminal, is_nonterminal, is_upper, scan, Extent};

verus! {

/// The mathematical content of a rule: `lhs -> rhs`.
pub struct Production {
    pub lhs: char,
    pub rhs: Seq<char>,
}

impl Production {
    /// The left-hand side is a non-terminal.
    pub open spec fn well_formed(self) -> bool {
        is_upper(self.lhs)
    }

    /// The right-hand side is a non-empty string of terminals.
    pub open spec fn terminal_only(self) -> bool {
        self.rhs.len() > 0 && all_terminal(self.rhs)
    }

    /// The right-hand side is a non-empty string of terminals, or a
    /// non-empty string of terminals followed by one non-terminal.
    pub open spec fn right_regular(self) -> bool {
        ||| self.terminal_only()
        ||| {
            &&& self.rhs.len() >= 2
            &&& is_upper(self.rhs.last())
            &&& all_terminal(self.rhs.drop_last())
        }
    }

    /// The right-hand side is a non-empty string of terminals, or one
    /// non-terminal followed by a non-empty string of terminals.
    pub open spec fn left_regular(self) -> bool {
        ||| self.terminal_only()
        ||| {
            &&& self.rhs.len() >= 2
            &&& is_upper(self.rhs.first())
            &&& all_terminal(self.rhs.drop_first())
        }
    }

    /// The right-hand side is exactly one terminal followed by one
    /// non-terminal.
    pub open spec fn strict_right(self) -> bool {
        self.rhs.len() == 2 && !is_upper(self.rhs[0]) && is_upper(self.rhs[1])
    }

    /// The right-hand side is exactly one non-terminal followed by one
    /// terminal.
    pub open spec fn strict_left(self) -> bool {
        self.rhs.len() == 2 && is_upper(self.rhs[0]) && !is_upper(self.rhs[1])
    }
}

/// One production of a grammar.
#[derive(Debug)]
pub struct Rule {
    lhs: char,
    rhs: String,
}

impl View for Rule {
    type V = Production;

    closed spec fn view(&self) -> Production {
        Production { lhs: self.lhs, rhs: self.rhs@ }
    }
}

impl Clone for Rule {
    fn clone(&self) -> (r: Self)
        ensures
            r@ == self@,
    {
        Rule { lhs: self.lhs, rhs: self.rhs.clone() }
    }
}

impl Rule {
    /// Builds the rule `lhs -> rhs`. Nothing is checked here: the
    /// classification queries judge the rule afterwards.
    pub fn new(lhs: char, rhs: &str) -> (r: Self)
        ensures
            r@ == (Production { lhs, rhs: rhs@ }),
    {
        Rule { lhs, rhs: rhs.to_owned() }
    }

    /// The left-hand side.
    pub fn lhs(&self) -> (c: char)
        ensures
            c == self@.lhs,
    {
        self.lhs
    }

    /// The right-hand side.
    pub fn rhs(&self) -> (s: &str)
        ensures
            s@ == self@.rhs,
    {
        self.rhs.as_str()
    }

    /// Whether the left-hand side is a non-terminal. The right-hand side is
    /// not looked at.
    pub fn is_valid(&self) -> (b: bool)
        ensures
            b == self@.well_formed(),
    {
        is_nonterminal(self.lhs)
    }

    /// Whether the rule has the right-regular shape: terminals only, or
    /// terminals followed by a single non-terminal. An empty right-hand side
    /// is never accepted.
    pub fn is_right_regular(&self) -> (b: bool)
        ensures
            b == self@.right_regular(),
    {
        let e: Extent = scan(self.rhs.as_str());
        let b = e.len > 0 && match e.first {
            None => true,
            Some(f) => e.len >= 2 && f == e.len - 1,
        };
        proof {
            let s = self@.rhs;
            let butlast = s.drop_last();
            if e.len > 0 {
                assert(forall|j: int| 0 <= j < butlast.len() ==> butlast[j] == s[j]);
                if let Some(f) = e.first {
                    if self@.right_regular() && f < e.len - 1 {
                        assert(butlast[f as int] == s[f as int]);
                    }
                }
            }
        }
        b
    }

    /// Whether the rule has the left-regular shape: terminals only, or a
    /// single non-terminal followed by terminals. An empty right-hand side is
    /// never accepted.
    pub fn is_left_regular(&self) -> (b: bool)
        ensures
            b == self@.left_regular(),
    {
        let e: Extent = scan(self.rhs.as_str());
        let b = e.len > 0 && match e.last {
            None => true,
            Some(l) => e.len >= 2 && l == 0,
        };
        proof {
            let s = self@.rhs;
            let tail = s.drop_first();
            if e.len > 0 {
                assert(forall|j: int| 0 <= j < tail.len() ==> tail[j] == s[j + 1]);
                if let Some(l) = e.last {
                    if self@.left_regular() && l > 0 {
                        assert(tail[l - 1] == s[l as int]);
                    }
                }
            }
        }
        b
    }

    /// Whether the right-hand side is exactly a terminal followed by a
    /// non-terminal.
    pub fn is_strict_right(&self) -> (b: bool)
        ensures
            b == self@.strict_right(),
    {
        let e: Extent = scan(self.rhs.as_str());
        e.len == 2 && e.first == Some(1)
    }

    /// Whether the right-hand side is exactly a non-terminal followed by a
    /// terminal.
    pub fn is_strict_left(&self) -> (b: bool)
        ensures
            b == self@.strict_left(),
    {
        let e: Extent = scan(self.rhs.as_str());
        e.len == 2 && e.last == Some(0)
    }
}

/// A rule whose right-hand side is a non-empty string of terminals is both
/// right-regular and left-regular.
pub proof fn lemma_terminal_only_is_both(p: Production)
    requires
        p.well_formed(),
        p.terminal_only(),
    ensures
        p.right_regular(),
        p.left_regular(),
{
}

/// A rule of the exact shape terminal-then-non-terminal is right-regular and
/// not left-regular.
pub proof fn lemma_strict_right_is_right_only(p: Production)
    requires
        p.strict_right(),
    ensures
        p.right_regular(),
        !p.left_regular(),
{
    assert(is_upper(p.rhs[1]));
    assert(p.rhs.drop_first()[0] == p.rhs[1]);
    assert(p.rhs.drop_last()[0] == p.rhs[0]);
}

/// A rule of the exact shape non-terminal-then-terminal is left-regular and
/// not right-regular.
pub proof fn lemma_strict_left_is_left_only(p: Production)
    requires
        p.strict_left(),
    ensures
        p.left_regular(),
        !p.right_regular(),
{
    assert(is_upper(p.rhs[0]));
    assert(p.rhs.drop_first()[0] == p.rhs[1]);
    assert(p.rhs.drop_last()[0] == p.rhs[0]);
}

} // verus!
