//! The alphabet convention: a character is a non-terminal exactly when it is an
//! uppercase ASCII letter; every other character is a terminal.

use vstd::prelude::*;

verus! {

/// A character is a non-terminal exactly when it is an uppercase ASCII letter.
pub open spec fn is_upper(c: char) -> bool {
    'A' <= c && c <= 'Z'
}

/// No character of `s` is a non-terminal.
pub open spec fn all_terminal(s: Seq<char>) -> bool {
    forall|i: int| 0 <= i < s.len() ==> !is_upper(#[trigger] s[i])
}

/// `i` is the position of the first non-terminal of `s`.
pub open spec fn leftmost_at(s: Seq<char>, i: int) -> bool {
    &&& 0 <= i < s.len()
    &&& is_upper(s[i])
    &&& forall|j: int| 0 <= j < i ==> !is_upper(#[trigger] s[j])
}

/// `i` is the position of the last non-terminal of `s`.
pub open spec fn rightmost_at(s: Seq<char>, i: int) -> bool {
    &&& 0 <= i < s.len()
    &&& is_upper(s[i])
    &&& forall|j: int| i < j < s.len() ==> !is_upper(#[trigger] s[j])
}

/// The position of the first non-terminal of `s`, or `None` when `s` holds
/// terminals only.
pub open spec fn leftmost(s: Seq<char>) -> Option<int> {
    if all_terminal(s) {
        None
    } else {
        Some(choose|i: int| leftmost_at(s, i))
    }
}

/// The first non-terminal of `s`, or `None` when `s` holds terminals only.
pub open spec fn leftmost_symbol(s: Seq<char>) -> Option<char> {
    match leftmost(s) {
        Some(i) => Some(s[i]),
        None => None,
    }
}

/// A sequence has at most one first non-terminal: a position that is one is
/// the value of `leftmost`.
pub proof fn lemma_leftmost_unique(s: Seq<char>, i: int)
    requires
        leftmost_at(s, i),
    ensures
        leftmost(s) == Some(i),
        leftmost_symbol(s) == Some(s[i]),
        !all_terminal(s),
{
    assert(is_upper(s[i]));
    let j = choose|j: int| leftmost_at(s, j);
    assert(leftmost_at(s, j));
    if j < i {
        assert(!is_upper(s[j]));
    }
    if i < j {
        assert(!is_upper(s[i]));
    }
}

/// Below any non-terminal of `s` there is a first one.
proof fn lemma_leftmost_below(s: Seq<char>, k: int)
    requires
        0 <= k < s.len(),
        is_upper(s[k]),
    ensures
        exists|i: int| leftmost_at(s, i),
    decreases k,
{
    if exists|j: int| 0 <= j < k && is_upper(s[j]) {
        let j = choose|j: int| 0 <= j < k && is_upper(s[j]);
        lemma_leftmost_below(s, j);
    } else {
        assert(leftmost_at(s, k));
    }
}

/// `leftmost` is `None` exactly on sequences of terminals, and otherwise names
/// the position of the first non-terminal.
pub proof fn lemma_leftmost(s: Seq<char>)
    ensures
        leftmost(s) is None <==> all_terminal(s),
        leftmost(s) matches Some(i) ==> leftmost_at(s, i),
{
    if !all_terminal(s) {
        let k = choose|k: int| 0 <= k < s.len() && is_upper(#[trigger] s[k]);
        lemma_leftmost_below(s, k);
    }
}

/// Tests whether a character is a non-terminal.
pub fn is_nonterminal(c: char) -> (r: bool)
    ensures
        r == is_upper(c),
{
    'A' <= c && c <= 'Z'
}

/// The length of a string in characters and the positions of its first and
/// last non-terminal.
pub struct Extent {
    pub len: usize,
    pub first: Option<usize>,
    pub last: Option<usize>,
}

impl Extent {
    /// The extent describes the sequence `s`.
    pub open spec fn describes(self, s: Seq<char>) -> bool {
        &&& self.len == s.len()
        &&& match self.first {
            Some(f) => leftmost_at(s, f as int),
            None => all_terminal(s),
        }
        &&& match self.last {
            Some(l) => rightmost_at(s, l as int),
            None => all_terminal(s),
        }
    }
}

/// Scans `s`, counting its characters and recording where its first and its
/// last non-terminal stand.
pub fn scan(s: &str) -> (e: Extent)
    ensures
        e.describes(s@),
{
    let total: usize = s.unicode_len();
    let mut len: usize = 0;
    let mut first: Option<usize> = None;
    let mut last: Option<usize> = None;
    for c in it: s.chars()
        invariant
            it.seq() == s@,
            total == s@.len(),
            len == it.index(),
            (Extent { len, first, last }).describes(s@.take(it.index())),
    {
        proof {
            let before = s@.take(len as int);
            let after = s@.take(len + 1);
            assert(forall|j: int| 0 <= j < len ==> before[j] == after[j]);
            assert(after[len as int] == c);
        }
        if is_nonterminal(c) {
            if first.is_none() {
                first = Some(len);
            }
            last = Some(len);
        }
        len = len + 1;
    }
    proof {
        assert(s@.take(len as int) =~= s@);
    }
    Extent { len, first, last }
}

} // verus!
