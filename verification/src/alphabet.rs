//! The two alphabets of a rule list: its non-terminals and its terminals, as
//! sets and in the order in which a scan of the rules first meets them.

use vstd::prelude::*;
use crate::rule::{Production, Rule};
use crate::symbols::{is_nonterminal, is_upper};

verus! {

/// `c` counts as a non-terminal of the production `p`: it is its left-hand
/// side, or an uppercase character of its right-hand side.
pub open spec fn names_nonterminal(p: Production, c: char) -> bool {
    p.lhs == c || (is_upper(c) && p.rhs.contains(c))
}

/// `c` is a terminal of the production `p`: a character of its right-hand
/// side that is not uppercase.
pub open spec fn names_terminal(p: Production, c: char) -> bool {
    !is_upper(c) && p.rhs.contains(c)
}

/// The non-terminals of a rule list: every left-hand side and every uppercase
/// character of a right-hand side.
pub open spec fn nonterminals_of(g: Seq<Production>) -> Set<char> {
    Set::new(|c: char| exists|i: int| 0 <= i < g.len() && names_nonterminal(#[trigger] g[i], c))
}

/// The terminals of a rule list: every other character of a right-hand side.
pub open spec fn terminals_of(g: Seq<Production>) -> Set<char> {
    Set::new(|c: char| exists|i: int| 0 <= i < g.len() && names_terminal(#[trigger] g[i], c))
}

/// The list `v` holds the members of the set `s`, each once.
pub open spec fn lists(v: Seq<char>, s: Set<char>) -> bool {
    v.no_duplicates() && forall|c: char| #[trigger] v.contains(c) <==> s.contains(c)
}

/// `v` with `c` at its end, unless `v` holds `c` already.
pub open spec fn noted(v: Seq<char>, c: char) -> Seq<char> {
    if v.contains(c) {
        v
    } else {
        v.push(c)
    }
}

/// `v` after each character of `s` was noted in turn.
pub open spec fn noted_all(v: Seq<char>, s: Seq<char>) -> Seq<char>
    decreases s.len(),
{
    if s.len() == 0 {
        v
    } else {
        noted(noted_all(v, s.drop_last()), s.last())
    }
}

/// The characters of `s`, each once, in the order in which they first occur.
pub open spec fn distinct(s: Seq<char>) -> Seq<char> {
    noted_all(Seq::empty(), s)
}

/// The characters of `p` that count as non-terminals, in the order in which a
/// scan meets them: the left-hand side, then the uppercase characters of the
/// right-hand side.
pub open spec fn nonterminal_symbols(p: Production) -> Seq<char> {
    seq![p.lhs] + p.rhs.filter(|c: char| is_upper(c))
}

/// The terminals of `p` in the order in which a scan meets them.
pub open spec fn terminal_symbols(p: Production) -> Seq<char> {
    p.rhs.filter(|c: char| !is_upper(c))
}

/// The non-terminal symbols of all rules of `g`, rule after rule.
pub open spec fn nonterminal_stream(g: Seq<Production>) -> Seq<char>
    decreases g.len(),
{
    if g.len() == 0 {
        Seq::empty()
    } else {
        nonterminal_stream(g.drop_last()) + nonterminal_symbols(g.last())
    }
}

/// The terminal symbols of all rules of `g`, rule after rule.
pub open spec fn terminal_stream(g: Seq<Production>) -> Seq<char>
    decreases g.len(),
{
    if g.len() == 0 {
        Seq::empty()
    } else {
        terminal_stream(g.drop_last()) + terminal_symbols(g.last())
    }
}

/// The non-terminals of `g`, each once, in the order of their first
/// occurrence.
pub open spec fn nonterminal_list(g: Seq<Production>) -> Seq<char> {
    distinct(nonterminal_stream(g))
}

/// The terminals of `g`, each once, in the order of their first occurrence.
pub open spec fn terminal_list(g: Seq<Production>) -> Seq<char> {
    distinct(terminal_stream(g))
}

/// Whether `v` holds `c`.
fn holds(v: &Vec<char>, c: char) -> (b: bool)
    ensures
        b == v@.contains(c),
{
    let mut i: usize = 0;
    while i < v.len()
        invariant
            i <= v.len(),
            forall|j: int| 0 <= j < i ==> v@[j] != c,
        decreases v.len() - i,
    {
        if v[i] == c {
            return true;
        }
        i = i + 1;
    }
    false
}

/// Appends `c` to `v` unless `v` holds it already.
fn note(v: &mut Vec<char>, c: char)
    ensures
        final(v)@ == noted(old(v)@, c),
{
    if !holds(v, c) {
        v.push(c);
    }
}

/// Adds to `nts` and `ts` the non-terminals and terminals that `r` names, in
/// the order in which they stand in `r`.
pub(crate) fn gather(nts: &mut Vec<char>, ts: &mut Vec<char>, r: &Rule)
    ensures
        final(nts)@ == noted_all(old(nts)@, nonterminal_symbols(r@)),
        final(ts)@ == noted_all(old(ts)@, terminal_symbols(r@)),
{
    let ghost p = r@;
    let ghost nts0 = nts@;
    let ghost ts0 = ts@;
    let ghost upper = |c: char| is_upper(c);
    let ghost lower = |c: char| !is_upper(c);
    note(nts, r.lhs());
    proof {
        reveal(Seq::filter);
        let none = Seq::<char>::empty();
        let one = seq![p.lhs];
        assert(p.rhs.take(0) =~= none);
        assert(none.filter(upper) =~= none);
        assert(none.filter(lower) =~= none);
        assert(one + none =~= one);
        assert(one.drop_last() =~= none);
        assert(one.last() == p.lhs);
        assert(noted_all(nts0, none) == nts0);
        assert(noted_all(nts0, one) == noted(nts0, p.lhs));
    }
    for c in it: r.rhs().chars()
        invariant
            it.seq() == p.rhs,
            upper == |c: char| is_upper(c),
            lower == |c: char| !is_upper(c),
            nts@ == noted_all(nts0, seq![p.lhs] + p.rhs.take(it.index()).filter(upper)),
            ts@ == noted_all(ts0, p.rhs.take(it.index()).filter(lower)),
    {
        proof {
            let k = it.index();
            let seen = p.rhs.take(k);
            let next = p.rhs.take(k + 1);
            reveal(Seq::filter);
            assert(next.drop_last() =~= seen);
            assert(next.last() == c);
            if is_upper(c) {
                let more = seq![p.lhs] + seen.filter(upper).push(c);
                assert(more.drop_last() =~= seq![p.lhs] + seen.filter(upper));
            } else {
                assert(seen.filter(lower).push(c).drop_last() =~= seen.filter(lower));
            }
        }
        if is_nonterminal(c) {
            note(nts, c);
        } else {
            note(ts, c);
        }
    }
    proof {
        assert(p.rhs.take(p.rhs.len() as int) =~= p.rhs);
    }
}

/// Noting one list and then another is noting the two in a row.
pub proof fn lemma_noted_all_concat(v: Seq<char>, a: Seq<char>, b: Seq<char>)
    ensures
        noted_all(v, a + b) == noted_all(noted_all(v, a), b),
    decreases b.len(),
{
    if b.len() == 0 {
        assert(a + b =~= a);
    } else {
        assert((a + b).drop_last() =~= a + b.drop_last());
        lemma_noted_all_concat(v, a, b.drop_last());
    }
}

/// Noting adds exactly the characters noted and repeats none.
pub proof fn lemma_noted_all(v: Seq<char>, s: Seq<char>)
    ensures
        v.no_duplicates() ==> noted_all(v, s).no_duplicates(),
        forall|c: char| #[trigger] noted_all(v, s).contains(c) <==> v.contains(c) || s.contains(c),
    decreases s.len(),
{
    if s.len() > 0 {
        let rest = s.drop_last();
        let before = noted_all(v, rest);
        let after = noted_all(v, s);
        lemma_noted_all(v, rest);
        assert forall|c: char| #[trigger] after.contains(c) <==> v.contains(c) || s.contains(c) by {
            if s.contains(c) {
                let j = choose|j: int| 0 <= j < s.len() && s[j] == c;
                if j < rest.len() {
                    assert(rest[j] == c);
                }
            }
            if rest.contains(c) {
                let j = choose|j: int| 0 <= j < rest.len() && rest[j] == c;
                assert(s[j] == c);
            }
            assert(s[s.len() - 1] == s.last());
            if before.contains(c) {
                let j = choose|j: int| 0 <= j < before.len() && before[j] == c;
                assert(after[j] == c);
            }
            if after.contains(c) && !before.contains(c) {
                let j = choose|j: int| 0 <= j < after.len() && after[j] == c;
                if j < before.len() {
                    assert(before[j] == c);
                }
            }
            if c == s.last() && !before.contains(c) {
                assert(after[before.len() as int] == c);
            }
        }
    }
}

/// The symbols that a scan of a production meets are the characters that the
/// production names.
pub proof fn lemma_symbols(p: Production)
    ensures
        forall|c: char| #[trigger] nonterminal_symbols(p).contains(c) <==> names_nonterminal(p, c),
        forall|c: char| #[trigger] terminal_symbols(p).contains(c) <==> names_terminal(p, c),
{
    let upper = |c: char| is_upper(c);
    let lower = |c: char| !is_upper(c);
    let ups = p.rhs.filter(upper);
    let lows = p.rhs.filter(lower);
    assert forall|c: char| #[trigger] ups.contains(c) <==> is_upper(c) && p.rhs.contains(c) by {
        lemma_filter_holds(p.rhs, upper, c);
    }
    assert forall|c: char| #[trigger] lows.contains(c) <==> !is_upper(c) && p.rhs.contains(c) by {
        lemma_filter_holds(p.rhs, lower, c);
    }
    let nts = nonterminal_symbols(p);
    assert forall|c: char| #[trigger] nts.contains(c) <==> names_nonterminal(p, c) by {
        lemma_concat_holds(seq![p.lhs], ups, c);
        assert(seq![p.lhs][0] == p.lhs);
    }
}

/// A filtered list holds the members of the list that pass the filter.
proof fn lemma_filter_holds(s: Seq<char>, keep: spec_fn(char) -> bool, c: char)
    ensures
        s.filter(keep).contains(c) <==> keep(c) && s.contains(c),
{
    if s.filter(keep).contains(c) {
        let k = choose|k: int| 0 <= k < s.filter(keep).len() && s.filter(keep)[k] == c;
        s.lemma_filter_pred(keep, k);
        s.lemma_filter_contains_rev(keep, c);
    }
    if keep(c) && s.contains(c) {
        let j = choose|j: int| 0 <= j < s.len() && s[j] == c;
        s.lemma_filter_contains(keep, j);
    }
}

/// Two lists in a row hold what either holds.
proof fn lemma_concat_holds(a: Seq<char>, b: Seq<char>, c: char)
    ensures
        (a + b).contains(c) <==> a.contains(c) || b.contains(c),
{
    if a.contains(c) {
        let j = choose|j: int| 0 <= j < a.len() && a[j] == c;
        assert((a + b)[j] == c);
    }
    if b.contains(c) {
        let j = choose|j: int| 0 <= j < b.len() && b[j] == c;
        assert((a + b)[a.len() + j] == c);
    }
    if (a + b).contains(c) {
        let j = choose|j: int| 0 <= j < (a + b).len() && (a + b)[j] == c;
        if j < a.len() {
            assert(a[j] == c);
        } else {
            assert(b[j - a.len()] == c);
        }
    }
}

/// The streams of a rule list hold the characters of its two alphabets.
pub proof fn lemma_streams(g: Seq<Production>)
    ensures
        forall|c: char| #[trigger] nonterminal_stream(g).contains(c) <==> nonterminals_of(g).contains(c),
        forall|c: char| #[trigger] terminal_stream(g).contains(c) <==> terminals_of(g).contains(c),
    decreases g.len(),
{
    if g.len() > 0 {
        let rest = g.drop_last();
        let p = g.last();
        lemma_streams(rest);
        lemma_symbols(p);
        assert forall|c: char| #[trigger]
            nonterminal_stream(g).contains(c) <==> nonterminals_of(g).contains(c) by {
            lemma_concat_holds(nonterminal_stream(rest), nonterminal_symbols(p), c);
            assert(nonterminal_stream(rest).contains(c) <==> nonterminals_of(rest).contains(c));
            if nonterminals_of(rest).contains(c) {
                let j = choose|j: int| 0 <= j < rest.len() && names_nonterminal(#[trigger] rest[j], c);
                assert(g[j] == rest[j]);
            }
            if names_nonterminal(p, c) {
                assert(g[g.len() - 1] == p);
            }
            if nonterminals_of(g).contains(c) {
                let j = choose|j: int| 0 <= j < g.len() && names_nonterminal(#[trigger] g[j], c);
                if j < rest.len() {
                    assert(rest[j] == g[j]);
                }
            }
        }
        assert forall|c: char| #[trigger]
            terminal_stream(g).contains(c) <==> terminals_of(g).contains(c) by {
            lemma_concat_holds(terminal_stream(rest), terminal_symbols(p), c);
            assert(terminal_stream(rest).contains(c) <==> terminals_of(rest).contains(c));
            if terminals_of(rest).contains(c) {
                let j = choose|j: int| 0 <= j < rest.len() && names_terminal(#[trigger] rest[j], c);
                assert(g[j] == rest[j]);
            }
            if names_terminal(p, c) {
                assert(g[g.len() - 1] == p);
            }
            if terminals_of(g).contains(c) {
                let j = choose|j: int| 0 <= j < g.len() && names_terminal(#[trigger] g[j], c);
                if j < rest.len() {
                    assert(rest[j] == g[j]);
                }
            }
        }
    }
}

/// The two lists of a rule list hold its two alphabets, each member once.
pub proof fn lemma_alphabets(g: Seq<Production>)
    ensures
        lists(nonterminal_list(g), nonterminals_of(g)),
        lists(terminal_list(g), terminals_of(g)),
{
    lemma_streams(g);
    lemma_noted_all(Seq::empty(), nonterminal_stream(g));
    lemma_noted_all(Seq::empty(), terminal_stream(g));
    assert forall|c: char| #[trigger]
        nonterminal_list(g).contains(c) <==> nonterminals_of(g).contains(c) by {
        assert(nonterminal_stream(g).contains(c) <==> nonterminals_of(g).contains(c));
    }
    assert forall|c: char| #[trigger] terminal_list(g).contains(c) <==> terminals_of(g).contains(c) by {
        assert(terminal_stream(g).contains(c) <==> terminals_of(g).contains(c));
    }
}

} // verus!
