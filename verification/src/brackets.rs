use vstd::prelude::*;

use std::collections::HashMap;

use crate::errors::BfError;
use crate::token::{Token, Tokens};

verus! {

/// The forward bracket map: the position of each loop-open instruction maps
/// to the position of its matching loop-close. The reverse map, from close
/// to open, has the same type.
pub type BracketMap = HashMap<usize, usize>;

/// Net bracket depth of the prefix `s[0..i)`: the number of loop-opens minus
/// the number of loop-closes in it.
pub open spec fn depth_at(s: Seq<Token>, i: int) -> int
    decreases i,
{
    if i <= 0 {
        0
    } else {
        depth_at(s, i - 1) + (if s[i - 1] is Open {
            1int
        } else if s[i - 1] is Close {
            -1int
        } else {
            0int
        })
    }
}

/// The loop-close at `j` matches the loop-open at `i`: the close is the
/// first position after the open where the nesting depth returns to the
/// open's depth. This is the standard stack-matching discipline, strictly by
/// nesting depth, innermost first.
pub open spec fn is_match(s: Seq<Token>, i: int, j: int) -> bool {
    &&& 0 <= i < j < s.len()
    &&& s[i] is Open
    &&& s[j] is Close
    &&& depth_at(s, j) == depth_at(s, i) + 1
    &&& forall|k: int| i < k <= j ==> depth_at(s, k) > depth_at(s, i)
}

/// Every loop-close has an unmatched loop-open before it and every loop-open
/// is closed: the depth never goes below zero and ends at zero.
pub open spec fn balanced(s: Seq<Token>) -> bool {
    &&& forall|i: int| 0 <= i <= s.len() ==> #[trigger] depth_at(s, i) >= 0
    &&& depth_at(s, s.len() as int) == 0
}

/// An orphan loop-close: a close with no unmatched open before it, where
/// the nesting depth would go below zero.
pub open spec fn orphan_close_at(s: Seq<Token>, c: int) -> bool {
    &&& 0 <= c < s.len()
    &&& s[c] is Close
    &&& depth_at(s, c) == 0
}

/// The earliest orphan loop-close, where a single left-to-right pass fails.
pub open spec fn first_orphan_close_at(s: Seq<Token>, c: int) -> bool {
    &&& orphan_close_at(s, c)
    &&& forall|k: int| 0 <= k < c ==> !orphan_close_at(s, k)
}

/// Some close in the sequence is an orphan.
pub open spec fn has_orphan_close(s: Seq<Token>) -> bool {
    exists|c: int| orphan_close_at(s, c)
}

/// A loop-open with no matching loop-close anywhere after it.
pub open spec fn unmatched_open_at(s: Seq<Token>, p: int) -> bool {
    &&& 0 <= p < s.len()
    &&& s[p] is Open
    &&& forall|j: int| !is_match(s, p, j)
}

/// The earliest unmatched loop-open.
pub open spec fn first_unmatched_open_at(s: Seq<Token>, p: int) -> bool {
    &&& unmatched_open_at(s, p)
    &&& forall|k: int| 0 <= k < p ==> !unmatched_open_at(s, k)
}

/// The forward bracket map of a token sequence, as a mathematical map: each
/// open position with a match maps to its unique matching close position.
pub open spec fn spec_bracket_map(s: Seq<Token>) -> Map<usize, usize> {
    Map::new(
        |o: usize| exists|c: int| is_match(s, o as int, c),
        |o: usize| (choose|c: int| is_match(s, o as int, c)) as usize,
    )
}

/// A loop-open has at most one matching close: a second, later close would
/// sit at a depth the definition of a match forbids.
pub proof fn lemma_open_match_unique(s: Seq<Token>, p: int, j1: int, j2: int)
    requires
        is_match(s, p, j1),
        is_match(s, p, j2),
    ensures
        j1 == j2,
{
    if j1 < j2 {
        assert(depth_at(s, j1 + 1) == depth_at(s, j1) - 1);
        assert(p < j1 + 1 <= j2);
        assert(false);
    } else if j2 < j1 {
        assert(depth_at(s, j2 + 1) == depth_at(s, j2) - 1);
        assert(p < j2 + 1 <= j1);
        assert(false);
    }
}

/// A loop-close has at most one matching open.
pub proof fn lemma_close_match_unique(s: Seq<Token>, a: int, p: int, j: int)
    requires
        is_match(s, a, j),
        is_match(s, p, j),
    ensures
        a == p,
{
    if a < p {
        assert(depth_at(s, a) == depth_at(s, p));
        assert(a < p <= j);
        assert(false);
    } else if p < a {
        assert(depth_at(s, a) == depth_at(s, p));
        assert(p < a <= j);
        assert(false);
    }
}

/// A prefix free of orphan closes keeps the depth at or above zero.
pub proof fn lemma_no_orphan_nonneg(s: Seq<Token>, n: int)
    requires
        0 <= n <= s.len(),
        forall|k: int| 0 <= k < n ==> !orphan_close_at(s, k),
    ensures
        forall|k: int| 0 <= k <= n ==> #[trigger] depth_at(s, k) >= 0,
    decreases n,
{
    if n > 0 {
        lemma_no_orphan_nonneg(s, n - 1);
        assert(depth_at(s, n - 1) >= 0);
        if s[n - 1] is Close {
            assert(!orphan_close_at(s, n - 1));
            assert(depth_at(s, n - 1) != 0);
        }
        assert(depth_at(s, n) >= 0);
    }
}

/// The forward bracket map never sends two opens to one close, and its
/// entries stay inside the token sequence.
pub proof fn lemma_spec_bracket_map_wf(s: Seq<Token>)
    requires
        s.len() <= usize::MAX,
    ensures
        spec_bracket_map(s).is_injective(),
        forall|o: usize| #[trigger] spec_bracket_map(s).contains_key(o) ==> o < s.len()
            && spec_bracket_map(s)[o] < s.len() && is_match(s, o as int, spec_bracket_map(s)[o] as int),
{
    let m = spec_bracket_map(s);
    assert forall|o: usize| #[trigger] m.contains_key(o) implies o < s.len() && m[o] < s.len()
        && is_match(s, o as int, m[o] as int) by {
        let c = choose|c: int| is_match(s, o as int, c);
        assert(is_match(s, o as int, c));
    }
    assert forall|x: usize, y: usize|
        x != y && m.dom().contains(x) && m.dom().contains(y) implies #[trigger] m[x] != #[trigger] m[y] by {
        if m[x] == m[y] {
            lemma_close_match_unique(s, x as int, y as int, m[x] as int);
        }
    }
}

/// For a well-formed bracket sequence, the two maps list exactly the matched
/// pairs: the forward map sends every open to its matching close, the
/// reverse map sends every close back to its open, and both maps hold the
/// same number of entries — one open and one close per pair.
///
/// The maps are the resolver's forward map and its inverse, as the machine
/// derives it; a map view taken from a hash map always has a finite domain.
pub proof fn lemma_bracket_maps_list_all_pairs(
    s: Seq<Token>,
    fwd: Map<usize, usize>,
    rev: Map<usize, usize>,
)
    requires
        balanced(s),
        s.len() <= usize::MAX,
        fwd == spec_bracket_map(s),
        rev == fwd.invert(),
        fwd.dom().finite(),
    ensures
        forall|o: int, c: int|
            #[trigger] is_match(s, o, c) ==> fwd.contains_key(o as usize) && fwd[o as usize]
                == c as usize && rev.contains_key(c as usize) && rev[c as usize] == o as usize,
        fwd.dom().len() == rev.dom().len(),
{
    lemma_spec_bracket_map_wf(s);
    assert forall|o: int, c: int| #[trigger] is_match(s, o, c) implies fwd.contains_key(o as usize)
        && fwd[o as usize] == c as usize && rev.contains_key(c as usize) && rev[c as usize]
        == o as usize by {
        assert(is_match(s, (o as usize) as int, c));
        assert(fwd.contains_key(o as usize));
        lemma_open_match_unique(s, o, fwd[o as usize] as int, c);
        assert(fwd[o as usize] == c as usize);
        assert(fwd.dom().contains(o as usize) && fwd[o as usize] == c as usize);
        assert(fwd.contains_value(c as usize));
        assert(rev.contains_key(c as usize));
        let cu = c as usize;
        let k = choose|k: usize| fwd.contains_pair(k, cu);
        assert(fwd.contains_pair(o as usize, cu));
        assert(rev[cu] == k);
        assert(is_match(s, k as int, fwd[k] as int));
        lemma_close_match_unique(s, k as int, o, c);
    }
    fwd.lemma_injective_values_len();
    assert(rev.dom() =~= fwd.values());
}

/// Resolve the bracket pairs of a token sequence in one left-to-right pass.
///
/// On a balanced sequence the result is exactly the matching map: every
/// open position maps to its unique matching close. On an unbalanced
/// sequence the pass fails at the first orphan close, or, when every close
/// is matched, at the first unmatched open; it fails with no other error
/// and succeeds exactly on balanced sequences.
pub fn build_bracket_map(tokens: &Tokens) -> (r: Result<BracketMap, BfError>)
    ensures
        match r {
            Ok(m) => balanced(tokens@) && m@ == spec_bracket_map(tokens@),
            Err(e) => {
                &&& !balanced(tokens@)
                &&& e matches BfError::InvalidBracketPair(p) && (if has_orphan_close(tokens@) {
                    first_orphan_close_at(tokens@, p as int)
                } else {
                    first_unmatched_open_at(tokens@, p as int)
                })
            },
        },
{
    broadcast use vstd::std_specs::hash::group_hash_axioms;

    let ghost s = tokens@;
    let mut pairs: BracketMap = HashMap::new();
    let mut stack: Vec<usize> = Vec::new();
    let n = tokens.len();
    let mut i: usize = 0;
    while i < n
        invariant
            n == s.len(),
            s == tokens@,
            i <= n,
            stack@.len() == depth_at(s, i as int),
            forall|k: int| 0 <= k < i ==> !orphan_close_at(s, k),
            forall|d: int|
                0 <= d < stack@.len() ==> {
                    &&& (#[trigger] stack@[d]) < i
                    &&& s[stack@[d] as int] is Open
                    &&& depth_at(s, stack@[d] as int) == d
                    &&& forall|k: int| stack@[d] < k <= i ==> depth_at(s, k) > d
                },
            forall|a: usize|
                #[trigger] pairs@.contains_key(a) ==> is_match(s, a as int, pairs@[a] as int)
                    && pairs@[a] < i,
            forall|a: int, b: int|
                #[trigger] is_match(s, a, b) && b < i ==> pairs@.contains_key(a as usize)
                    && pairs@[a as usize] == b as usize,
            forall|a: int|
                0 <= a < i && s[a] is Open ==> pairs@.contains_key(a as usize)
                    || stack@.contains(a as usize),
        decreases n - i,
    {
        let ghost depth = stack@.len() as int;
        let ghost stack0 = stack@;
        let ghost pairs0 = pairs@;
        match tokens[i] {
            Token::Open => {
                stack.push(i);
                assert(depth_at(s, i + 1) == depth + 1);
                assert forall|a: int| 0 <= a < i + 1 && s[a] is Open implies
                    pairs@.contains_key(a as usize) || stack@.contains(a as usize) by {
                    if a == i {
                        assert(stack@[depth] == i as usize);
                    } else if stack0.contains(a as usize) {
                        let d = choose|d: int| 0 <= d < stack0.len() && stack0[d] == a as usize;
                        assert(stack@[d] == a as usize);
                    }
                }
            },
            Token::Close => {
                assert(depth_at(s, i + 1) == depth - 1);
                match stack.pop() {
                    Some(open_pos) => {
                        proof {
                            assert(open_pos == stack0[depth - 1]);
                            assert(depth_at(s, open_pos as int) == depth - 1);
                            assert(depth_at(s, i as int) == depth);
                            assert(is_match(s, open_pos as int, i as int));
                            if pairs0.contains_key(open_pos) {
                                lemma_open_match_unique(
                                    s,
                                    open_pos as int,
                                    pairs0[open_pos] as int,
                                    i as int,
                                );
                                assert(false);
                            }
                        }
                        pairs.insert(open_pos, i);
                        proof {
                            assert forall|a: int, b: int|
                                #[trigger] is_match(s, a, b) && b < i + 1 implies
                                pairs@.contains_key(a as usize) && pairs@[a as usize]
                                    == b as usize by {
                                if b == i {
                                    lemma_close_match_unique(s, a, open_pos as int, i as int);
                                } else {
                                    assert(pairs0.contains_key(a as usize));
                                }
                            }
                            assert forall|a: usize| #[trigger] pairs@.contains_key(a) implies
                                is_match(s, a as int, pairs@[a] as int) && pairs@[a] < i + 1 by {
                                if a != open_pos {
                                    assert(pairs0.contains_key(a));
                                }
                            }
                            assert forall|a: int| 0 <= a < i + 1 && s[a] is Open implies
                                pairs@.contains_key(a as usize) || stack@.contains(
                                a as usize,
                            ) by {
                                if 0 <= a < i && s[a] is Open && stack0.contains(a as usize) {
                                    let d = choose|d: int|
                                        0 <= d < stack0.len() && stack0[d] == a as usize;
                                    if d < stack0.len() - 1 {
                                        assert(stack@[d] == a as usize);
                                    } else {
                                        assert(a as usize == open_pos);
                                    }
                                }
                            }
                        }
                    },
                    None => {
                        proof {
                            assert(orphan_close_at(s, i as int));
                            assert(depth_at(s, i + 1) == -1);
                            assert(!balanced(s)) by {
                                assert(0 <= i + 1 <= s.len());
                            }
                        }
                        return Err(BfError::InvalidBracketPair(i));
                    },
                }
            },
            _ => {
                assert(depth_at(s, i + 1) == depth);
            },
        }
        i = i + 1;
    }
    if stack.len() > 0 {
        let p = stack[0];
        proof {
            assert(depth_at(s, p as int) == 0);
            assert forall|j: int| !is_match(s, p as int, j) by {
                if is_match(s, p as int, j) {
                    assert(depth_at(s, j + 1) == depth_at(s, j) - 1);
                    assert(p < j + 1 <= n);
                }
            }
            assert(unmatched_open_at(s, p as int));
            assert forall|k: int| 0 <= k < p implies !unmatched_open_at(s, k) by {
                if s[k] is Open {
                    if stack@.contains(k as usize) {
                        let d = choose|d: int|
                            0 <= d < stack@.len() && stack@[d] == k as usize;
                        assert(depth_at(s, p as int) > d);
                        assert(false);
                    }
                    assert(pairs@.contains_key(k as usize));
                    let b = pairs@[k as usize];
                    assert(is_match(s, k, b as int));
                }
            }
            assert(depth_at(s, n as int) == stack@.len() > 0);
            assert(!balanced(s));
            assert(!has_orphan_close(s)) by {
                if exists|c: int| orphan_close_at(s, c) {
                    let c = choose|c: int| orphan_close_at(s, c);
                    assert(!orphan_close_at(s, c));
                }
            }
        }
        return Err(BfError::InvalidBracketPair(p));
    }
    proof {
        lemma_no_orphan_nonneg(s, n as int);
        assert(balanced(s));
        lemma_spec_bracket_map_wf(s);
        assert forall|o: usize| #[trigger] spec_bracket_map(s).contains_key(o) implies
            pairs@.contains_key(o) && pairs@[o] == spec_bracket_map(s)[o] by {
            let c = choose|c: int| is_match(s, o as int, c);
            assert(is_match(s, o as int, c));
            assert(pairs@.contains_key(o) && pairs@[o] == c as usize);
        }
        assert forall|o: usize| #[trigger] pairs@.contains_key(o) implies
            spec_bracket_map(s).contains_key(o) by {
            assert(is_match(s, o as int, pairs@[o] as int));
        }
        assert(pairs@ =~= spec_bracket_map(s));
    }
    Ok(pairs)
}

} // verus!
