//! Stable ordering of the token table.
//!
//! Tokens decoded from JSON may arrive out of generated-position order;
//! lookup needs them sorted, and several tokens may legitimately share one
//! generated position, in which case their original relative order must be
//! kept (the first of such a run wins a lookup). The sort is an insertion
//! sort that swaps only strictly misordered neighbours, so equal positions
//! are never reordered.

use vstd::prelude::*;

use crate::document::{key_le, key_lt, same_key, Token};

verus! {

/// `p` maps positions of `b` back to positions of `a`: `b` is `a`
/// rearranged, in generated-position order, with the original order kept
/// inside every run of equal positions.
pub open spec fn stable_perm(a: Seq<Token>, b: Seq<Token>, p: Seq<int>) -> bool {
    &&& p.len() == a.len()
    &&& b.len() == a.len()
    &&& forall|k: int| 0 <= k < p.len() ==> 0 <= #[trigger] p[k] < a.len() && b[k] == a[p[k]]
    &&& forall|k1: int, k2: int| 0 <= k1 < k2 < p.len() ==> #[trigger] p[k1] != #[trigger] p[k2]
    &&& forall|k1: int, k2: int|
        0 <= k1 < k2 < b.len() ==> key_le(#[trigger] b[k1], #[trigger] b[k2])
    &&& forall|k1: int, k2: int|
        0 <= k1 < k2 < b.len() && same_key(b[k1], b[k2]) ==> #[trigger] p[k1] < #[trigger] p[k2]
}

/// `b` is the stable generated-position sort of `a`.
pub open spec fn stable_sorted(a: Seq<Token>, b: Seq<Token>) -> bool {
    exists|p: Seq<int>| stable_perm(a, b, p)
}

/// Sorts the tokens by generated position, keeping the original relative
/// order of tokens that share one.
#[verifier::rlimit(60)]
pub fn stable_sort(tokens: Vec<Token>) -> (r: Vec<Token>)
    ensures
        stable_sorted(tokens@, r@),
{
    let ghost orig = tokens@;
    let mut v = tokens;
    let n = v.len();
    let ghost mut p: Seq<int> = Seq::new(n as nat, |k: int| k);
    let mut i: usize = 1;
    proof {
        assert(forall|k: int| 0 <= k < n ==> p[k] == k);
    }
    if n == 0 {
        proof {
            assert(stable_perm(orig, v@, p));
        }
        return v;
    }
    while i < n
        invariant
            1 <= i <= n == v@.len() == orig.len(),
            p.len() == n,
            forall|k: int| 0 <= k < n ==> 0 <= #[trigger] p[k] < n && v@[k] == orig[p[k]],
            forall|k1: int, k2: int| 0 <= k1 < k2 < n ==> #[trigger] p[k1] != #[trigger] p[k2],
            forall|k1: int, k2: int|
                0 <= k1 < k2 < n && same_key(v@[k1], v@[k2]) ==> #[trigger] p[k1] < #[trigger] p[k2],
            forall|k1: int, k2: int|
                0 <= k1 < k2 < i ==> key_le(#[trigger] v@[k1], #[trigger] v@[k2]),
        decreases n - i,
    {
        let mut j: usize = i;
        while j > 0 && key_lt_exec(v[j], v[j - 1])
            invariant
                0 <= j <= i < n == v@.len() == orig.len(),
                p.len() == n,
                forall|k: int| 0 <= k < n ==> 0 <= #[trigger] p[k] < n && v@[k] == orig[p[k]],
                forall|k1: int, k2: int| 0 <= k1 < k2 < n ==> #[trigger] p[k1] != #[trigger] p[k2],
                forall|k1: int, k2: int|
                    0 <= k1 < k2 < n && same_key(v@[k1], v@[k2]) ==> #[trigger] p[k1]
                        < #[trigger] p[k2],
                forall|k1: int, k2: int|
                    0 <= k1 < k2 <= i && k1 != j && k2 != j ==> key_le(
                        #[trigger] v@[k1],
                        #[trigger] v@[k2],
                    ),
                forall|k: int| j < k <= i ==> key_lt(v@[j as int], #[trigger] v@[k]),
            decreases j,
        {
            let ghost v_old = v@;
            let ghost p_old = p;
            let a = v[j - 1];
            let b = v[j];
            v.set(j - 1, b);
            v.set(j, a);
            proof {
                p = p.update(j - 1, p_old[j as int]).update(j as int, p_old[j - 1]);
                assert(key_lt(v_old[j as int], v_old[j - 1]));
                assert(!same_key(v_old[j as int], v_old[j - 1]));
                assert(forall|k: int|
                    0 <= k < n && k != j - 1 && k != j ==> v@[k] == v_old[k] && p[k] == p_old[k]);
                assert(v@[j - 1] == v_old[j as int] && p[j - 1] == p_old[j as int]);
                assert(v@[j as int] == v_old[j - 1] && p[j as int] == p_old[j - 1]);
            }
            j = j - 1;
        }
        proof {
            // the whole prefix [0, i] is now in order
            assert forall|k1: int, k2: int| 0 <= k1 < k2 <= i implies key_le(
                #[trigger] v@[k1],
                #[trigger] v@[k2],
            ) by {
                if k2 == j {
                    if j > 0 {
                        assert(key_le(v@[j - 1], v@[j as int]));
                        if k1 < j - 1 {
                            assert(key_le(v@[k1], v@[j - 1]));
                        }
                    }
                } else if k1 == j {
                    if j < k2 {
                        assert(key_lt(v@[j as int], v@[k2]));
                    }
                }
            }
        }
        i = i + 1;
    }
    proof {
        assert(stable_perm(orig, v@, p));
    }
    v
}

/// Strict generated-position order, as run time code.
fn key_lt_exec(a: Token, b: Token) -> (r: bool)
    ensures
        r == key_lt(a, b),
{
    a.gen_line < b.gen_line || (a.gen_line == b.gen_line && a.gen_col < b.gen_col)
}

} // verus!
