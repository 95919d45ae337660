//! Sentential forms and the leftmost rewrite step.

use vstd::prelude::*;
use crate::grammar::Grammar;
use crate::rule::Production;
use crate::symbols::{
    all_terminal, leftmost, leftmost_at, lemma_leftmost, lemma_leftmost_unique, scan, Extent,
};

verus! {

/// Why a rewrite step was refused.
#[derive(Debug, Clone, Copy, PartialEq, Eq)]
pub enum SententialError {
    /// The form holds no non-terminal: there is nothing left to rewrite.
    NoNonTerminal,
    /// There is no rule at the given index, or its left-hand side is not the
    /// leftmost non-terminal of the form.
    RuleMismatch,
}

/// `form` with the character at position `at` replaced by `rhs`.
pub open spec fn rewrite(form: Seq<char>, at: int, rhs: Seq<char>) -> Seq<char> {
    form.subrange(0, at) + rhs + form.subrange(at + 1, form.len() as int)
}

/// What rewriting the leftmost non-terminal of `form` by rule `ridx` of `g`
/// gives: the new form, or the reason why the rule cannot be applied.
pub open spec fn rewrite_outcome(g: Seq<Production>, form: Seq<char>, ridx: int) -> Result<
    Seq<char>,
    SententialError,
> {
    match leftmost(form) {
        None => Err(SententialError::NoNonTerminal),
        Some(at) => if 0 <= ridx < g.len() && g[ridx].lhs == form[at] {
            Ok(rewrite(form, at, g[ridx].rhs))
        } else {
            Err(SententialError::RuleMismatch)
        },
    }
}

/// Rule `ridx` of `g` can rewrite the leftmost non-terminal of `form`.
pub open spec fn applicable(g: Seq<Production>, form: Seq<char>, ridx: int) -> bool {
    rewrite_outcome(g, form, ridx) is Ok
}

/// A rewrite step replaces one character by the right-hand side of the rule:
/// the new form is as long as the old one, less one, plus that right-hand
/// side.
pub proof fn lemma_rewrite_len(g: Seq<Production>, form: Seq<char>, ridx: int)
    requires
        applicable(g, form, ridx),
    ensures
        rewrite_outcome(g, form, ridx)->Ok_0.len() == form.len() - 1 + g[ridx].rhs.len(),
{
    lemma_leftmost(form);
}

/// A form without a non-terminal admits no rewrite step.
pub proof fn lemma_complete_is_final(g: Seq<Production>, form: Seq<char>, ridx: int)
    requires
        all_terminal(form),
    ensures
        rewrite_outcome(g, form, ridx) == Err::<Seq<char>, SententialError>(
            SententialError::NoNonTerminal,
        ),
{
}

/// A string of one character.
///
/// Wraps `char::to_string` of std, which gives the string that displays the
/// character: the character itself and nothing else.
#[verifier::external_body]
fn char_to_string(c: char) -> (s: String)
    ensures
        s@ == seq![c],
{
    c.to_string()
}

/// A snapshot of a partially derived string. Its view is the string; the
/// position of its leftmost non-terminal is kept beside it.
#[derive(Debug)]
pub struct Sentential {
    form: String,
    first_nt: Option<usize>,
}

impl View for Sentential {
    type V = Seq<char>;

    closed spec fn view(&self) -> Seq<char> {
        self.form@
    }
}

impl Clone for Sentential {
    fn clone(&self) -> (r: Self)
        ensures
            r@ == self@,
    {
        proof {
            use_type_invariant(self);
        }
        Sentential { form: self.form.clone(), first_nt: self.first_nt }
    }
}

impl Sentential {
    #[verifier::type_invariant]
    spec fn inv(&self) -> bool {
        match self.first_nt {
            Some(i) => leftmost_at(self.form@, i as int),
            None => all_terminal(self.form@),
        }
    }

    /// The form that a derivation starts from: the start symbol alone.
    pub fn new_init(grammar: &Grammar) -> (s: Self)
        ensures
            grammar@.len() > 0,
            s@ == seq![grammar@[0].lhs],
    {
        let form = char_to_string(grammar.start());
        let e: Extent = scan(form.as_str());
        Sentential { form, first_nt: e.first }
    }

    /// Replaces the leftmost non-terminal by the right-hand side of rule
    /// `ridx`. Fails when the form holds no non-terminal, and when the rule
    /// does not exist or rewrites another symbol.
    pub fn new_next(&self, grammar: &Grammar, ridx: usize) -> (r: Result<Self, SententialError>)
        ensures
            match r {
                Ok(next) => rewrite_outcome(grammar@, self@, ridx as int) == Ok::<
                    Seq<char>,
                    SententialError,
                >(next@),
                Err(e) => rewrite_outcome(grammar@, self@, ridx as int) == Err::<
                    Seq<char>,
                    SententialError,
                >(e),
            },
            r matches Ok(next) ==> next@.len() == self@.len() - 1 + grammar@[ridx as int].rhs.len(),
    {
        proof {
            use_type_invariant(self);
            lemma_leftmost(self.form@);
        }
        let pos: usize = match self.first_nt {
            Some(p) => p,
            None => {
                return Err(SententialError::NoNonTerminal);
            },
        };
        proof {
            lemma_leftmost_unique(self.form@, pos as int);
        }
        let nt = self.form.as_str().get_char(pos);
        let rule = match grammar.rule(ridx) {
            Some(rule) => rule,
            None => {
                return Err(SententialError::RuleMismatch);
            },
        };
        if rule.lhs() != nt {
            return Err(SententialError::RuleMismatch);
        }
        let len: usize = self.form.as_str().unicode_len();
        let mut next = String::new();
        next.append(self.form.as_str().substring_char(0, pos));
        next.append(rule.rhs());
        next.append(self.form.as_str().substring_char(pos + 1, len));
        let e: Extent = scan(next.as_str());
        Ok(Sentential { form: next, first_nt: e.first })
    }

    /// Whether no non-terminal is left.
    pub fn is_complete(&self) -> (b: bool)
        ensures
            b == all_terminal(self@),
    {
        proof {
            use_type_invariant(self);
            if let Some(i) = self.first_nt {
                lemma_leftmost_unique(self.form@, i as int);
            }
        }
        self.first_nt.is_none()
    }

    /// The position of the leftmost non-terminal, if there is one.
    pub fn leftmost_index(&self) -> (i: Option<usize>)
        ensures
            match i {
                Some(i) => leftmost(self@) == Some(i as int),
                None => leftmost(self@) is None,
            },
    {
        proof {
            use_type_invariant(self);
            if let Some(i) = self.first_nt {
                lemma_leftmost_unique(self.form@, i as int);
            }
        }
        self.first_nt
    }

    /// The string of the form.
    pub fn form(&self) -> (s: &str)
        ensures
            s@ == self@,
    {
        self.form.as_str()
    }
}

} // verus!
