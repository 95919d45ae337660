//! Leftmost derivations: a growing list of sentential forms, driven step by
//! step, by a list of rule indices, or at random.

use vstd::prelude::*;
use rand::rngs::ThreadRng;
use crate::grammar::{as_ints, indices_for, lemma_indices_for, Grammar};
use crate::rule::Production;
use crate::sampling::{choose_rule, restricted, total, weight_at};
use crate::sentential::{rewrite_outcome, Sentential, SententialError};
use crate::symbols::{all_terminal, is_upper, leftmost_symbol, lemma_leftmost};

verus! {

/// Why a derivation did not go on.
#[derive(Debug, Clone, Copy, PartialEq, Eq)]
pub enum DerivationError {
    /// A rewrite step was refused.
    SententialErr(SententialError),
    /// The step limit was reached before the derivation was complete.
    StepLimitExceeded,
    /// No rule rewrites the leftmost non-terminal.
    DeadNonTerminal,
}

/// One entry of a derivation: the rule that was applied, if any, and the form
/// that it gave.
pub struct Step {
    pub rule: Option<usize>,
    pub form: Seq<char>,
}

/// The form that the derivation `d` has reached.
pub open spec fn current(d: Seq<Step>) -> Seq<char> {
    d.last().form
}

/// The derivation `d` has reached a form without non-terminals.
pub open spec fn complete(d: Seq<Step>) -> bool {
    all_terminal(current(d))
}

/// The single entry that every derivation of `g` starts with: no rule, and
/// the start symbol alone.
pub open spec fn initial(g: Seq<Production>) -> Step {
    Step { rule: None, form: seq![g[0].lhs] }
}

/// `next` comes from `prev` by one leftmost rewrite with a rule of `g`.
pub open spec fn follows(g: Seq<Production>, prev: Step, next: Step) -> bool {
    next.rule matches Some(r) && rewrite_outcome(g, prev.form, r as int) == Ok::<
        Seq<char>,
        SententialError,
    >(next.form)
}

/// `to` continues `from` by leftmost rewrites with rules of `g`.
pub open spec fn extends(g: Seq<Production>, from: Seq<Step>, to: Seq<Step>) -> bool {
    &&& from.len() <= to.len()
    &&& to.take(from.len() as int) == from
    &&& forall|i: int| from.len() <= i < to.len() && i > 0 ==> follows(g, to[i - 1], #[trigger] to[i])
}

/// `d` is a leftmost derivation of `g` from its start symbol.
pub open spec fn derives(g: Seq<Production>, d: Seq<Step>) -> bool {
    &&& d.len() > 0
    &&& d[0] == initial(g)
    &&& forall|i: int| 1 <= i < d.len() ==> follows(g, d[i - 1], #[trigger] d[i])
}

/// The derivation `d` with one more step: rule `ridx`, which gave `form`.
pub open spec fn stepped(d: Seq<Step>, ridx: usize, form: Seq<char>) -> Seq<Step> {
    d.push(Step { rule: Some(ridx), form })
}

/// The leftmost non-terminal of `form` has no rule in `g`.
pub open spec fn dead_end(g: Seq<Production>, form: Seq<char>) -> bool {
    leftmost_symbol(form) matches Some(nt) && indices_for(g, nt).len() == 0
}

/// What applying the rule indices `seq` in turn does to the derivation `d`:
/// the derivation that results and how the run ended. The run stops, without
/// an error, once the derivation is complete, and with an error at the first
/// rule that cannot be applied.
pub open spec fn run(g: Seq<Production>, d: Seq<Step>, seq: Seq<usize>) -> (
    Seq<Step>,
    Result<(), DerivationError>,
)
    decreases seq.len(),
{
    if seq.len() == 0 || complete(d) {
        (d, Ok(()))
    } else {
        match rewrite_outcome(g, current(d), seq[0] as int) {
            Ok(form) => run(g, stepped(d, seq[0], form), seq.drop_first()),
            Err(e) => (d, Err(DerivationError::SententialErr(e))),
        }
    }
}

/// The largest number of steps that a random derivation may take: the limit,
/// or, without one, as many as can be counted.
pub open spec fn step_bound(limit: Option<usize>) -> int {
    match limit {
        Some(l) => l as int,
        None => usize::MAX as int,
    }
}

/// Rule `ridx` is one that the weights allow for `form`: where the weights of
/// the rules for the leftmost non-terminal have a positive sum that fits in
/// `u64`, the rule has a positive weight.
pub open spec fn favoured(g: Seq<Production>, weights: Seq<u64>, form: Seq<char>, ridx: int) -> bool {
    leftmost_symbol(form) matches Some(nt) ==> (0 < total(restricted(indices_for(g, nt), weights))
        <= u64::MAX ==> weight_at(weights, ridx) > 0)
}

/// The step `next` applies to `prev` a rule that the weights allow.
pub open spec fn allowed(g: Seq<Production>, weights: Seq<u64>, prev: Step, next: Step) -> bool {
    next.rule matches Some(r) && favoured(g, weights, prev.form, r as int)
}

/// Every step of `to` after the first `from` steps applies a rule that the
/// weights allow.
pub open spec fn weighted(g: Seq<Production>, weights: Seq<u64>, from: int, to: Seq<Step>) -> bool {
    forall|i: int|
        from <= i < to.len() && i > 0 ==> allowed(g, weights, to[i - 1], #[trigger] to[i])
}

/// What holds of a random derivation `d` of at most `bound` steps and of its
/// result `r`: `d` is a derivation of `g`; a word is the form of a complete
/// derivation; the step limit is reported on an incomplete derivation of
/// exactly `bound` steps; a dead non-terminal is reported on a shorter one
/// whose leftmost non-terminal has no rule; no other error comes.
pub open spec fn random_outcome(
    g: Seq<Production>,
    bound: int,
    d: Seq<Step>,
    r: Result<Seq<char>, DerivationError>,
) -> bool {
    &&& derives(g, d)
    &&& d.len() - 1 <= bound
    &&& match r {
        Ok(w) => complete(d) && w == current(d),
        Err(DerivationError::StepLimitExceeded) => !complete(d) && d.len() - 1 == bound,
        Err(DerivationError::DeadNonTerminal) => !complete(d) && d.len() - 1 < bound && dead_end(
            g,
            current(d),
        ),
        Err(DerivationError::SententialErr(_)) => false,
    }
}

/// The view of a result that holds a word.
pub open spec fn word_view(r: Result<String, DerivationError>) -> Result<Seq<char>, DerivationError> {
    match r {
        Ok(w) => Ok(w@),
        Err(e) => Err(e),
    }
}

/// A derivation: the forms reached so far, each with the rule that gave it.
/// Its view is the list of its steps, the first of which holds the start
/// symbol and no rule.
#[derive(Debug)]
pub struct Derivation {
    start: Sentential,
    steps: Vec<(usize, Sentential)>,
}

impl View for Derivation {
    type V = Seq<Step>;

    closed spec fn view(&self) -> Seq<Step> {
        Seq::new(
            self.steps@.len() + 1,
            |i: int|
                if i == 0 {
                    Step { rule: None, form: self.start@ }
                } else {
                    Step { rule: Some(self.steps@[i - 1].0), form: self.steps@[i - 1].1@ }
                },
        )
    }
}

impl Derivation {
    /// Starts a derivation of `grammar`: one entry, the start symbol.
    pub fn new(grammar: &Grammar) -> (d: Self)
        ensures
            grammar@.len() > 0,
            d@ == seq![initial(grammar@)],
            derives(grammar@, d@),
    {
        let d = Derivation { start: Sentential::new_init(grammar), steps: Vec::new() };
        proof {
            assert(d@ =~= seq![initial(grammar@)]);
        }
        d
    }

    /// A derivation always holds its first entry.
    pub proof fn lemma_nonempty(&self)
        ensures
            self@.len() > 0,
            self@[0].rule is None,
    {
    }

    /// The form reached so far.
    pub fn current(&self) -> (s: &Sentential)
        ensures
            self@.len() > 0,
            s@ == current(self@),
    {
        if self.steps.len() == 0 {
            &self.start
        } else {
            &self.steps[self.steps.len() - 1].1
        }
    }

    /// The number of rewrite steps taken so far.
    pub fn step_count(&self) -> (n: usize)
        ensures
            n == self@.len() - 1,
    {
        self.steps.len()
    }

    /// Rewrites the leftmost non-terminal by rule `ridx` and records the new
    /// form. On an error the derivation is left as it was.
    pub fn derive_leftmost(&mut self, grammar: &Grammar, ridx: usize) -> (r: Result<
        (),
        DerivationError,
    >)
        ensures
            match rewrite_outcome(grammar@, current(old(self)@), ridx as int) {
                Ok(form) => r is Ok && final(self)@ == stepped(old(self)@, ridx, form),
                Err(e) => r == Err::<(), DerivationError>(DerivationError::SententialErr(e))
                    && final(self)@ == old(self)@,
            },
    {
        let ghost before = self@;
        match self.current().new_next(grammar, ridx) {
            Ok(next) => {
                let ghost form = next@;
                self.steps.push((ridx, next));
                proof {
                    assert(self@ =~= stepped(before, ridx, form));
                }
                Ok(())
            },
            Err(e) => Err(DerivationError::SententialErr(e)),
        }
    }

    /// Whether the form reached so far holds terminals only.
    pub fn is_complete(&self) -> (b: bool)
        ensures
            b == complete(self@),
    {
        self.current().is_complete()
    }

    /// The finished word: the form reached, once it holds terminals only.
    pub fn word(&self) -> (w: Option<String>)
        ensures
            w is Some <==> complete(self@),
            w matches Some(s) ==> s@ == current(self@) && all_terminal(s@),
    {
        if self.is_complete() {
            Some(self.current().form().to_owned())
        } else {
            None
        }
    }

    /// The leftmost non-terminal of the form reached so far, or `None` once
    /// the derivation is complete.
    pub fn leftmost_nonterminal(&self) -> (c: Option<char>)
        ensures
            c == leftmost_symbol(current(self@)),
    {
        let s = self.current();
        match s.leftmost_index() {
            Some(i) => {
                proof {
                    lemma_leftmost(s@);
                }
                Some(s.form().get_char(i))
            },
            None => None,
        }
    }

    /// Applies the rules of `seq` in turn. Stops without an error once the
    /// derivation is complete, whatever is left of `seq`, and with an error at
    /// the first rule that does not rewrite the leftmost non-terminal; the
    /// steps taken before that stay.
    pub fn apply_sequence(&mut self, grammar: &Grammar, seq: &Vec<usize>) -> (r: Result<
        (),
        DerivationError,
    >)
        ensures
            (final(self)@, r) == run(grammar@, old(self)@, seq@),
    {
        let ghost before = self@;
        proof {
            assert(seq@.skip(0) =~= seq@);
        }
        let mut k: usize = 0;
        while k < seq.len()
            invariant
                k <= seq.len(),
                before == old(self)@,
                run(grammar@, before, seq@) == run(grammar@, self@, seq@.skip(k as int)),
            decreases seq.len() - k,
        {
            proof {
                assert(seq@.skip(k as int)[0] == seq@[k as int]);
                assert(seq@.skip(k as int).drop_first() =~= seq@.skip(k + 1));
            }
            if self.is_complete() {
                return Ok(());
            }
            self.derive_leftmost(grammar, seq[k])?;
            k = k + 1;
        }
        Ok(())
    }

    /// Derives a word at random from the start symbol of `grammar`, taking at
    /// most `step_limit` steps. Without weights every rule that applies is as
    /// likely as another; with weights a rule is picked as `choose_rule` says.
    /// The result is the word of a complete derivation, or the reason why
    /// none was reached.
    pub fn generate(grammar: &Grammar, step_limit: Option<usize>, weights: Option<&Vec<u64>>) -> (r:
        Result<String, DerivationError>)
        ensures
            exists|d: Seq<Step>|
                {
                    &&& #[trigger] random_outcome(
                        grammar@,
                        step_bound(step_limit),
                        d,
                        word_view(r),
                    )
                    &&& weights matches Some(w) ==> weighted(grammar@, w@, 1, d)
                },
            step_limit == Some(0usize) && is_upper(grammar@[0].lhs) ==> r == Err::<
                String,
                DerivationError,
            >(DerivationError::StepLimitExceeded),
            !is_upper(grammar@[0].lhs) ==> word_view(r) == Ok::<Seq<char>, DerivationError>(
                seq![grammar@[0].lhs],
            ),
    {
        let mut drv = Derivation::new(grammar);
        let ghost first = drv@;
        let mut rng = rand::thread_rng();
        let r = match drv.derive_random(grammar, &mut rng, step_limit, weights) {
            Ok(()) => Ok(drv.current().form().to_owned()),
            Err(e) => Err(e),
        };
        proof {
            lemma_extends_derives(grammar@, first, drv@);
            assert(random_outcome(grammar@, step_bound(step_limit), drv@, word_view(r)));
            if is_upper(grammar@[0].lhs) {
                if step_limit == Some(0usize) {
                    lemma_zero_bound(grammar@, drv@, word_view(r));
                }
            } else {
                lemma_terminal_start(grammar@, step_bound(step_limit), drv@, word_view(r));
            }
        }
        r
    }

    /// Derives a word at random, every rule that applies being as likely as
    /// another: `generate` without weights.
    pub fn print_random(grammar: &Grammar, step_limit: Option<usize>) -> (r: Result<
        String,
        DerivationError,
    >)
        ensures
            exists|d: Seq<Step>| #[trigger]
                random_outcome(grammar@, step_bound(step_limit), d, word_view(r)),
            step_limit == Some(0usize) && is_upper(grammar@[0].lhs) ==> r == Err::<
                String,
                DerivationError,
            >(DerivationError::StepLimitExceeded),
            !is_upper(grammar@[0].lhs) ==> word_view(r) == Ok::<Seq<char>, DerivationError>(
                seq![grammar@[0].lhs],
            ),
    {
        Derivation::generate(grammar, step_limit, None)
    }

    /// Drives the derivation by random choices until it is complete or has
    /// taken as many steps as `step_limit` allows. At each step one of the
    /// rules for the leftmost non-terminal is picked by `choose_rule`; where
    /// there is none, the derivation stops at the dead non-terminal. The steps
    /// taken stay whatever the result.
    pub fn derive_random(
        &mut self,
        grammar: &Grammar,
        rng: &mut ThreadRng,
        step_limit: Option<usize>,
        weights: Option<&Vec<u64>>,
    ) -> (r: Result<(), DerivationError>)
        ensures
            extends(grammar@, old(self)@, final(self)@),
            final(self)@.len() - old(self)@.len() <= step_bound(step_limit),
            weights matches Some(w) ==> weighted(
                grammar@,
                w@,
                old(self)@.len() as int,
                final(self)@,
            ),
            match r {
                Ok(()) => complete(final(self)@),
                Err(DerivationError::StepLimitExceeded) => {
                    &&& !complete(final(self)@)
                    &&& final(self)@.len() - old(self)@.len() == step_bound(step_limit)
                },
                Err(DerivationError::DeadNonTerminal) => {
                    &&& !complete(final(self)@)
                    &&& final(self)@.len() - old(self)@.len() < step_bound(step_limit)
                    &&& dead_end(grammar@, current(final(self)@))
                },
                Err(DerivationError::SententialErr(_)) => false,
            },
            complete(old(self)@) ==> r is Ok && final(self)@ == old(self)@,
            !complete(old(self)@) && step_limit == Some(0usize) ==> r == Err::<(), DerivationError>(
                DerivationError::StepLimitExceeded,
            ) && final(self)@ == old(self)@,
    {
        let ghost before = self@;
        proof {
            self.lemma_nonempty();
        }
        let bound: usize = match step_limit {
            Some(l) => l,
            None => usize::MAX,
        };
        let mut taken: usize = 0;
        proof {
            assert(before.take(before.len() as int) =~= before);
        }
        loop
            invariant
                before == old(self)@,
                bound == step_bound(step_limit),
                taken <= bound,
                before.len() > 0,
                self@.len() == before.len() + taken,
                extends(grammar@, before, self@),
                weights matches Some(w) ==> weighted(grammar@, w@, before.len() as int, self@),
            decreases bound - taken,
        {
            proof {
                lemma_leftmost(current(self@));
                lemma_extends_nowhere(grammar@, before, self@);
            }
            let nt: char = match self.leftmost_nonterminal() {
                Some(nt) => nt,
                None => {
                    return Ok(());
                },
            };
            if taken >= bound {
                return Err(DerivationError::StepLimitExceeded);
            }
            let choices = grammar.rule_idx_from_nt(nt);
            let ridx: usize = match choose_rule(rng, &choices, weights) {
                Some(ridx) => ridx,
                None => {
                    return Err(DerivationError::DeadNonTerminal);
                },
            };
            let ghost prev = self@;
            proof {
                lemma_leftmost(current(prev));
                lemma_indices_for(grammar@, nt);
                let k = choose|k: int| 0 <= k < choices@.len() && choices@[k] == ridx;
                assert(as_ints(choices@)[k] == ridx as int);
                assert(indices_for(grammar@, nt).contains(ridx as int));
            }
            self.derive_leftmost(grammar, ridx)?;
            proof {
                let now = self@;
                assert(now.take(prev.len() as int) =~= prev);
                assert(now.take(before.len() as int) =~= prev.take(before.len() as int));
                assert forall|i: int| before.len() <= i < now.len() && i > 0 implies follows(
                    grammar@,
                    now[i - 1],
                    #[trigger] now[i],
                ) by {
                    if i < prev.len() {
                        assert(now[i] == prev[i]);
                        assert(now[i - 1] == prev[i - 1]);
                    }
                }
                if let Some(w) = weights {
                    assert forall|i: int| before.len() <= i < now.len() && i > 0 implies allowed(
                        grammar@,
                        w@,
                        now[i - 1],
                        #[trigger] now[i],
                    ) by {
                        if i < prev.len() {
                            assert(now[i] == prev[i]);
                            assert(now[i - 1] == prev[i - 1]);
                        }
                    }
                }
            }
            taken = taken + 1;
        }
    }
}

/// A continuation of a derivation of `g` by leftmost rewrites is a derivation
/// of `g`.
pub proof fn lemma_extends_derives(g: Seq<Production>, from: Seq<Step>, to: Seq<Step>)
    requires
        derives(g, from),
        extends(g, from, to),
    ensures
        derives(g, to),
{
    assert(to.take(from.len() as int)[0] == to[0]);
    assert forall|i: int| 1 <= i < to.len() implies follows(g, to[i - 1], #[trigger] to[i]) by {
        if i < from.len() {
            assert(to.take(from.len() as int)[i] == to[i]);
            assert(to.take(from.len() as int)[i - 1] == to[i - 1]);
        }
    }
}

/// A derivation is continued by nothing but itself once it is complete, and
/// by nothing but itself in no step.
pub proof fn lemma_extends_nowhere(g: Seq<Production>, from: Seq<Step>, to: Seq<Step>)
    requires
        from.len() > 0,
        extends(g, from, to),
    ensures
        complete(from) ==> to == from,
        to.len() == from.len() ==> to == from,
{
    if complete(from) && to.len() > from.len() {
        let i = from.len() as int;
        assert(to.take(i)[i - 1] == to[i - 1]);
        assert(follows(g, to[i - 1], to[i]));
    }
    if to.len() == from.len() {
        assert(to.take(from.len() as int) =~= to);
    }
}

/// One more leftmost rewrite keeps a derivation of `g` a derivation of `g`.
pub proof fn lemma_step_derives(g: Seq<Production>, d: Seq<Step>, ridx: usize, form: Seq<char>)
    requires
        d.len() > 0,
        rewrite_outcome(g, current(d), ridx as int) == Ok::<Seq<char>, SententialError>(form),
    ensures
        extends(g, d, stepped(d, ridx, form)),
        derives(g, d) ==> derives(g, stepped(d, ridx, form)),
{
    let to = stepped(d, ridx, form);
    assert(to.take(d.len() as int) =~= d);
    assert(to[d.len() - 1] == d.last());
    if derives(g, d) {
        lemma_extends_derives(g, d, to);
    }
}

/// Applying a list of rule indices only appends leftmost rewrites: what was
/// derived before stays, and a derivation of `g` stays one.
pub proof fn lemma_run_extends(g: Seq<Production>, d: Seq<Step>, seq: Seq<usize>)
    requires
        d.len() > 0,
    ensures
        extends(g, d, run(g, d, seq).0),
        derives(g, d) ==> derives(g, run(g, d, seq).0),
    decreases seq.len(),
{
    if seq.len() == 0 || complete(d) {
        assert(d.take(d.len() as int) =~= d);
    } else {
        match rewrite_outcome(g, current(d), seq[0] as int) {
            Ok(form) => {
                let next = stepped(d, seq[0], form);
                let end = run(g, next, seq.drop_first()).0;
                lemma_run_extends(g, next, seq.drop_first());
                assert(end.take(d.len() as int) =~= end.take(next.len() as int).take(d.len() as int));
                assert(next.take(d.len() as int) =~= d);
                assert(next[d.len() - 1] == d.last());
                assert forall|i: int| d.len() <= i < end.len() && i > 0 implies follows(
                    g,
                    end[i - 1],
                    #[trigger] end[i],
                ) by {
                    if i == d.len() {
                        assert(end.take(next.len() as int)[i] == end[i]);
                        assert(end.take(next.len() as int)[i - 1] == end[i - 1]);
                    }
                }
                if derives(g, d) {
                    lemma_extends_derives(g, d, end);
                }
            },
            Err(_) => {
                assert(d.take(d.len() as int) =~= d);
            },
        }
    }
}

/// A random derivation that may take no step produces no word and reports
/// the step limit, whenever the start symbol is a non-terminal.
pub proof fn lemma_zero_bound(g: Seq<Production>, d: Seq<Step>, r: Result<Seq<char>, DerivationError>)
    requires
        random_outcome(g, 0, d, r),
        is_upper(g[0].lhs),
    ensures
        r == Err::<Seq<char>, DerivationError>(DerivationError::StepLimitExceeded),
{
    let form = seq![g[0].lhs];
    assert(current(d) == form);
    assert(form[0] == g[0].lhs);
}

/// Where the start symbol is a terminal, a random derivation takes no step
/// and gives the start symbol as its word, whatever the bound.
pub proof fn lemma_terminal_start(
    g: Seq<Production>,
    bound: int,
    d: Seq<Step>,
    r: Result<Seq<char>, DerivationError>,
)
    requires
        random_outcome(g, bound, d, r),
        !is_upper(g[0].lhs),
    ensures
        d == seq![initial(g)],
        r == Ok::<Seq<char>, DerivationError>(seq![g[0].lhs]),
{
    let first = seq![initial(g)];
    assert(complete(first)) by {
        assert(current(first) =~= seq![g[0].lhs]);
    }
    assert(extends(g, first, d)) by {
        assert(d.take(1) =~= first);
    }
    lemma_extends_nowhere(g, first, d);
}

} // verus!
