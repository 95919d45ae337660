//! Grammars: an ordered list of rules, the alphabets that the rules mention,
//! and a start symbol.

use vstd::prelude::*;
use crate::alphabet::{
    gather, lemma_alphabets, lemma_noted_all_concat, lists, nonterminal_list, nonterminal_stream,
    nonterminal_symbols, nonterminals_of, terminal_list, terminal_stream, terminal_symbols,
    terminals_of,
};
use crate::rule::{Production, Rule};
use crate::symbols::is_upper;

verus! {

/// Every rule has a non-terminal on its left-hand side.
pub open spec fn well_formed(g: Seq<Production>) -> bool {
    forall|i: int| 0 <= i < g.len() ==> (#[trigger] g[i]).well_formed()
}

/// Every rule is right-regular.
pub open spec fn all_right_regular(g: Seq<Production>) -> bool {
    forall|i: int| 0 <= i < g.len() ==> (#[trigger] g[i]).right_regular()
}

/// Every rule is left-regular.
pub open spec fn all_left_regular(g: Seq<Production>) -> bool {
    forall|i: int| 0 <= i < g.len() ==> (#[trigger] g[i]).left_regular()
}

/// Some rule has the exact shape terminal-then-non-terminal.
pub open spec fn any_strict_right(g: Seq<Production>) -> bool {
    exists|i: int| 0 <= i < g.len() && (#[trigger] g[i]).strict_right()
}

/// Some rule has the exact shape non-terminal-then-terminal.
pub open spec fn any_strict_left(g: Seq<Production>) -> bool {
    exists|i: int| 0 <= i < g.len() && (#[trigger] g[i]).strict_left()
}

/// A rule list is regular when all of its rules are right-regular and none is
/// strictly left-regular, or all are left-regular and none is strictly
/// right-regular.
pub open spec fn regular(g: Seq<Production>) -> bool {
    ||| all_right_regular(g) && !any_strict_left(g)
    ||| all_left_regular(g) && !any_strict_right(g)
}

/// The indices `0, 1, ..` below `n`.
pub open spec fn indices(n: nat) -> Seq<int> {
    Seq::new(n, |i: int| i)
}

/// The indices, in ascending order, of the rules whose left-hand side is `nt`.
pub open spec fn indices_for(g: Seq<Production>, nt: char) -> Seq<int> {
    indices(g.len()).filter(|i: int| g[i].lhs == nt)
}

/// A list of rule indices as mathematical integers.
pub open spec fn as_ints(v: Seq<usize>) -> Seq<int> {
    v.map_values(|i: usize| i as int)
}

/// The views of a list of rules, in order.
pub open spec fn productions(rules: Seq<Rule>) -> Seq<Production> {
    Seq::new(rules.len(), |i: int| rules[i]@)
}

/// A context-free grammar. Its view is the list of its productions; the rule
/// at index 0 gives the start symbol.
#[derive(Debug)]
pub struct Grammar {
    nonterminals: Vec<char>,
    terminals: Vec<char>,
    rules: Vec<Rule>,
    start: char,
}

impl View for Grammar {
    type V = Seq<Production>;

    closed spec fn view(&self) -> Seq<Production> {
        productions(self.rules@)
    }
}

impl Grammar {
    #[verifier::type_invariant]
    spec fn inv(&self) -> bool {
        &&& self.rules@.len() > 0
        &&& self.start == self.rules@[0]@.lhs
        &&& self.nonterminals@ == nonterminal_list(productions(self.rules@))
        &&& self.terminals@ == terminal_list(productions(self.rules@))
    }

    /// Builds a grammar from a non-empty list of rules, which it keeps in
    /// their order. The left-hand side of the first rule becomes the start
    /// symbol, and the two alphabets are gathered from the rules: `start`,
    /// `nonterminals` and `terminals` say what they hold.
    pub fn from_rules(rules: &[Rule]) -> (g: Self)
        requires
            rules@.len() > 0,
        ensures
            g@ == productions(rules@),
    {
        let start = rules[0].lhs();
        let mut nts: Vec<char> = Vec::new();
        let mut ts: Vec<char> = Vec::new();
        let mut kept: Vec<Rule> = Vec::new();
        let ghost all = productions(rules@);

        let mut i: usize = 0;
        while i < rules.len()
            invariant
                i <= rules.len(),
                all == productions(rules@),
                kept@.len() == i,
                forall|k: int| 0 <= k < i ==> (#[trigger] kept@[k])@ == rules@[k]@,
                nts@ == nonterminal_list(all.take(i as int)),
                ts@ == terminal_list(all.take(i as int)),
            decreases rules.len() - i,
        {
            let r = &rules[i];
            gather(&mut nts, &mut ts, r);
            proof {
                let seen = all.take(i as int);
                let more = all.take(i + 1);
                assert(more.drop_last() =~= seen);
                assert(more.last() == r@);
                lemma_noted_all_concat(Seq::empty(), nonterminal_stream(seen), nonterminal_symbols(r@));
                lemma_noted_all_concat(Seq::empty(), terminal_stream(seen), terminal_symbols(r@));
            }
            kept.push(r.clone());
            i = i + 1;
        }
        proof {
            assert(all.take(i as int) =~= all);
            assert(productions(kept@) =~= all);
        }
        Grammar { nonterminals: nts, terminals: ts, rules: kept, start }
    }

    /// The start symbol: the left-hand side of the first rule.
    pub fn start(&self) -> (c: char)
        ensures
            self@.len() > 0,
            c == self@[0].lhs,
    {
        proof {
            use_type_invariant(self);
        }
        self.start
    }

    /// The number of rules, which is never zero.
    pub fn rule_count(&self) -> (n: usize)
        ensures
            n == self@.len(),
            n > 0,
    {
        proof {
            use_type_invariant(self);
        }
        self.rules.len()
    }

    /// The rule at index `i`, if there is one.
    pub fn rule(&self, i: usize) -> (r: Option<&Rule>)
        ensures
            match r {
                Some(rule) => i < self@.len() && rule@ == self@[i as int],
                None => i >= self@.len(),
            },
    {
        if i < self.rules.len() {
            Some(&self.rules[i])
        } else {
            None
        }
    }

    /// The non-terminals of the grammar, each listed once, in the order in
    /// which the rules first name them.
    pub fn nonterminals(&self) -> (v: &Vec<char>)
        ensures
            v@ == nonterminal_list(self@),
            lists(v@, nonterminals_of(self@)),
    {
        proof {
            use_type_invariant(self);
            lemma_alphabets(self@);
        }
        &self.nonterminals
    }

    /// The terminals of the grammar, each listed once, in the order in which
    /// the rules first name them.
    pub fn terminals(&self) -> (v: &Vec<char>)
        ensures
            v@ == terminal_list(self@),
            lists(v@, terminals_of(self@)),
    {
        proof {
            use_type_invariant(self);
            lemma_alphabets(self@);
        }
        &self.terminals
    }

    /// Whether every rule has a non-terminal on its left-hand side.
    pub fn is_valid(&self) -> (b: bool)
        ensures
            b == well_formed(self@),
    {
        let mut i: usize = 0;
        while i < self.rules.len()
            invariant
                i <= self.rules.len(),
                forall|k: int| 0 <= k < i ==> (#[trigger] self@[k]).well_formed(),
            decreases self.rules.len() - i,
        {
            if !self.rules[i].is_valid() {
                assert(!self@[i as int].well_formed());
                return false;
            }
            i = i + 1;
        }
        true
    }

    /// Whether the grammar is regular: consistently right-regular or
    /// consistently left-regular, without a strict rule of the other side.
    pub fn is_regular(&self) -> (b: bool)
        ensures
            b == regular(self@),
    {
        let mut all_right: bool = true;
        let mut all_left: bool = true;
        let mut any_right_strict: bool = false;
        let mut any_left_strict: bool = false;
        let mut i: usize = 0;
        while i < self.rules.len()
            invariant
                i <= self.rules.len(),
                all_right == all_right_regular(self@.take(i as int)),
                all_left == all_left_regular(self@.take(i as int)),
                any_right_strict == any_strict_right(self@.take(i as int)),
                any_left_strict == any_strict_left(self@.take(i as int)),
            decreases self.rules.len() - i,
        {
            let r = &self.rules[i];
            proof {
                lemma_shapes_grow(self@, i as int);
            }
            all_right = all_right && r.is_right_regular();
            all_left = all_left && r.is_left_regular();
            any_right_strict = any_right_strict || r.is_strict_right();
            any_left_strict = any_left_strict || r.is_strict_left();
            i = i + 1;
        }
        proof {
            assert(self@.take(i as int) =~= self@);
        }
        (all_right && !any_left_strict) || (all_left && !any_right_strict)
    }

    /// The indices, in rule order, of the rules whose left-hand side is `nt`.
    pub fn rule_idx_from_nt(&self, nt: char) -> (v: Vec<usize>)
        ensures
            as_ints(v@) == indices_for(self@, nt),
    {
        let mut v: Vec<usize> = Vec::new();
        let ghost keep = |i: int| self@[i].lhs == nt;
        let mut i: usize = 0;
        while i < self.rules.len()
            invariant
                i <= self.rules.len(),
                keep == |i: int| self@[i].lhs == nt,
                as_ints(v@) == indices(i as nat).filter(keep),
            decreases self.rules.len() - i,
        {
            let ghost upto = indices(i as nat);
            let ghost next = indices((i + 1) as nat);
            let ghost before = as_ints(v@);
            proof {
                reveal(Seq::filter);
                assert(next.drop_last() =~= upto);
                assert(next.last() == i);
            }
            if self.rules[i].lhs() == nt {
                v.push(i);
                proof {
                    assert(as_ints(v@) =~= before.push(i as int));
                }
            }
            i = i + 1;
        }
        v
    }
}

/// How the four shape summaries of the first `i + 1` rules follow from those
/// of the first `i` rules and from rule `i`.
proof fn lemma_shapes_grow(g: Seq<Production>, i: int)
    requires
        0 <= i < g.len(),
    ensures
        all_right_regular(g.take(i + 1)) == (all_right_regular(g.take(i)) && g[i].right_regular()),
        all_left_regular(g.take(i + 1)) == (all_left_regular(g.take(i)) && g[i].left_regular()),
        any_strict_right(g.take(i + 1)) == (any_strict_right(g.take(i)) || g[i].strict_right()),
        any_strict_left(g.take(i + 1)) == (any_strict_left(g.take(i)) || g[i].strict_left()),
{
    let a = g.take(i);
    let b = g.take(i + 1);
    assert(b[i] == g[i]);
    assert(forall|j: int| 0 <= j < i ==> a[j] == b[j]);
    if all_right_regular(a) && g[i].right_regular() {
        assert forall|j: int| 0 <= j < b.len() implies (#[trigger] b[j]).right_regular() by {
            if j < i {
                assert(a[j] == b[j]);
            }
        }
    }
    if all_right_regular(b) {
        assert forall|j: int| 0 <= j < a.len() implies (#[trigger] a[j]).right_regular() by {
            assert(a[j] == b[j]);
        }
    }
    if all_left_regular(a) && g[i].left_regular() {
        assert forall|j: int| 0 <= j < b.len() implies (#[trigger] b[j]).left_regular() by {
            if j < i {
                assert(a[j] == b[j]);
            }
        }
    }
    if all_left_regular(b) {
        assert forall|j: int| 0 <= j < a.len() implies (#[trigger] a[j]).left_regular() by {
            assert(a[j] == b[j]);
        }
    }
    if any_strict_right(a) {
        let j = choose|j: int| 0 <= j < a.len() && (#[trigger] a[j]).strict_right();
        assert(b[j] == a[j]);
    }
    if any_strict_right(b) {
        let j = choose|j: int| 0 <= j < b.len() && (#[trigger] b[j]).strict_right();
        if j < i {
            assert(a[j] == b[j]);
        }
    }
    if any_strict_left(a) {
        let j = choose|j: int| 0 <= j < a.len() && (#[trigger] a[j]).strict_left();
        assert(b[j] == a[j]);
    }
    if any_strict_left(b) {
        let j = choose|j: int| 0 <= j < b.len() && (#[trigger] b[j]).strict_left();
        if j < i {
            assert(a[j] == b[j]);
        }
    }
}

/// A rule list that holds both a strictly right-regular rule and a strictly
/// left-regular rule is not regular.
pub proof fn lemma_mixed_strict_not_regular(g: Seq<Production>)
    requires
        any_strict_right(g),
        any_strict_left(g),
    ensures
        !regular(g),
{
}

/// A rule list whose rules all rewrite a non-terminal to a non-empty string of
/// terminals is well-formed and regular.
pub proof fn lemma_terminal_only_is_regular(g: Seq<Production>)
    requires
        forall|i: int| 0 <= i < g.len() ==> (#[trigger] g[i]).well_formed() && g[i].terminal_only(),
    ensures
        well_formed(g),
        regular(g),
{
    assert forall|i: int| 0 <= i < g.len() implies !(#[trigger] g[i]).strict_left() by {
        if g[i].strict_left() {
            assert(is_upper(g[i].rhs[0]));
        }
    }
}

/// `indices_for` holds exactly the indices of the rules whose left-hand side is
/// `nt`.
pub proof fn lemma_indices_for(g: Seq<Production>, nt: char)
    ensures
        forall|i: int| indices_for(g, nt).contains(i) <==> 0 <= i < g.len() && g[i].lhs == nt,
{
    let all = indices(g.len());
    let keep = |i: int| g[i].lhs == nt;
    assert forall|i: int| indices_for(g, nt).contains(i) <==> 0 <= i < g.len() && g[i].lhs
        == nt by {
        if indices_for(g, nt).contains(i) {
            let k = choose|k: int| 0 <= k < all.filter(keep).len() && all.filter(keep)[k] == i;
            all.lemma_filter_pred(keep, k);
            all.lemma_filter_contains_rev(keep, i);
            let j = choose|j: int| 0 <= j < all.len() && all[j] == i;
        }
        if 0 <= i < g.len() && g[i].lhs == nt {
            assert(all[i] == i);
            all.lemma_filter_contains(keep, i);
        }
    }
}

/// The indices below `n` that pass a filter stay below `n` and in ascending
/// order.
proof fn lemma_filtered_indices(n: nat, keep: spec_fn(int) -> bool)
    ensures
        forall|k: int|
            0 <= k < indices(n).filter(keep).len() ==> 0 <= #[trigger] indices(n).filter(keep)[k] < n,
        forall|j: int, k: int|
            0 <= j < k < indices(n).filter(keep).len() ==> #[trigger] indices(n).filter(keep)[j]
                < #[trigger] indices(n).filter(keep)[k],
    decreases n,
{
    reveal(Seq::filter);
    let now = indices(n).filter(keep);
    if n > 0 {
        let before = indices((n - 1) as nat).filter(keep);
        assert(indices(n).drop_last() =~= indices((n - 1) as nat));
        assert(indices(n).last() == n - 1);
        lemma_filtered_indices((n - 1) as nat, keep);
        assert(now == if keep(n - 1) {
            before.push(n - 1)
        } else {
            before
        });
        assert forall|k: int| 0 <= k < now.len() implies 0 <= #[trigger] now[k] < n by {
            if k < before.len() {
                assert(now[k] == before[k]);
            }
        }
        assert forall|j: int, k: int| 0 <= j < k < now.len() implies #[trigger] now[j]
            < #[trigger] now[k] by {
            assert(now[j] == before[j]);
            if k < before.len() {
                assert(now[k] == before[k]);
            }
        }
    } else {
        assert(now.len() == 0);
    }
}

/// `indices_for` lists its indices in ascending order.
pub proof fn lemma_indices_ascend(g: Seq<Production>, nt: char)
    ensures
        forall|j: int, k: int|
            0 <= j < k < indices_for(g, nt).len() ==> indices_for(g, nt)[j] < indices_for(g, nt)[k],
{
    lemma_filtered_indices(g.len(), |i: int| g[i].lhs == nt);
}

} // verus!
