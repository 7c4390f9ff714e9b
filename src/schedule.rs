//! The order in which the passes visit pairs of bodies: every pair is named by
//! the indices of its two bodies in the registry, and pairs come in insertion
//! order, that is lexicographically by those indices.
use vstd::prelude::*;

verus! {

/// `p` comes strictly before `q` in lexicographic order.
pub open spec fn lex_lt(p: (usize, usize), q: (usize, usize)) -> bool {
    p.0 < q.0 || (p.0 == q.0 && p.1 < q.1)
}

/// The pairs of a sequence come in strictly increasing lexicographic order,
/// so no pair occurs twice.
pub open spec fn strictly_sorted(s: Seq<(usize, usize)>) -> bool {
    forall|a: int, b: int| 0 <= a < b < s.len() ==> lex_lt(#[trigger] s[a], #[trigger] s[b])
}

/// The unordered pairs whose lower index is `i`: `(i, i + 1)` up to
/// `(i, n - 1)`.
pub open spec fn pairs_from(n: nat, i: nat) -> Seq<(usize, usize)> {
    Seq::new((n - i - 1) as nat, |k: int| (i as usize, (i + 1 + k) as usize))
}

/// The unordered pairs of `n` bodies whose lower index is below `rows`.
pub open spec fn unordered_prefix(n: nat, rows: nat) -> Seq<(usize, usize)>
    decreases rows,
{
    if rows == 0 {
        Seq::empty()
    } else {
        unordered_prefix(n, (rows - 1) as nat) + pairs_from(n, (rows - 1) as nat)
    }
}

/// Every unordered pair `(i, j)` with `i < j < n`, in insertion order.
pub open spec fn unordered_schedule(n: nat) -> Seq<(usize, usize)> {
    unordered_prefix(n, n)
}

/// The pairs in which body `i` is pulled: `(i, j)` for every `j < n` but
/// `i` itself, in increasing order of `j`.
pub open spec fn pulls_on(n: nat, i: nat) -> Seq<(usize, usize)> {
    Seq::new((n - 1) as nat, |k: int| (i as usize, (if k < i { k } else { k + 1 }) as usize))
}

/// The ordered pairs of `n` bodies whose first index is below `rows`.
pub open spec fn ordered_prefix(n: nat, rows: nat) -> Seq<(usize, usize)>
    decreases rows,
{
    if rows == 0 {
        Seq::empty()
    } else {
        ordered_prefix(n, (rows - 1) as nat) + pulls_on(n, (rows - 1) as nat)
    }
}

/// Every ordered pair `(i, j)` of distinct indices below `n`, in insertion
/// order.
pub open spec fn ordered_schedule(n: nat) -> Seq<(usize, usize)> {
    ordered_prefix(n, n)
}

/// Lists the unordered pairs of `n` bodies, each once, in insertion order.
pub fn unordered_pairs(n: usize) -> (r: Vec<(usize, usize)>)
    ensures
        r@ == unordered_schedule(n as nat),
{
    let mut r: Vec<(usize, usize)> = Vec::new();
    let mut i: usize = 0;
    while i < n
        invariant
            i <= n,
            r@ == unordered_prefix(n as nat, i as nat),
        decreases n - i,
    {
        let ghost row = pairs_from(n as nat, i as nat);
        let mut j: usize = i + 1;
        while j < n
            invariant
                i < n,
                i + 1 <= j <= n,
                row == pairs_from(n as nat, i as nat),
                r@ == unordered_prefix(n as nat, i as nat) + row.take(j - i - 1),
            decreases n - j,
        {
            r.push((i, j));
            proof {
                assert(row[j - i - 1] == (i, j));
                assert(row.take(j - i) =~= row.take(j - i - 1).push((i, j)));
            }
            j += 1;
        }
        proof {
            assert(row.take(n - i - 1) =~= row);
        }
        i += 1;
    }
    r
}

/// Lists the ordered pairs of distinct indices below `n`, grouped by their
/// first index, in insertion order.
pub fn ordered_pairs(n: usize) -> (r: Vec<(usize, usize)>)
    ensures
        r@ == ordered_schedule(n as nat),
{
    let mut r: Vec<(usize, usize)> = Vec::new();
    let mut i: usize = 0;
    while i < n
        invariant
            i <= n,
            r@ == ordered_prefix(n as nat, i as nat),
        decreases n - i,
    {
        let ghost row = pulls_on(n as nat, i as nat);
        let mut j: usize = 0;
        while j < n
            invariant
                i < n,
                j <= n,
                row == pulls_on(n as nat, i as nat),
                r@ == ordered_prefix(n as nat, i as nat) + row.take(if j <= i { j as int } else { j - 1 }),
            decreases n - j,
        {
            if j != i {
                r.push((i, j));
                proof {
                    let t: int = if j < i { j as int } else { j - 1 };
                    assert(row[t] == (i, j));
                    assert(row.take(t + 1) =~= row.take(t).push((i, j)));
                }
            }
            j += 1;
        }
        proof {
            assert(row.take(n - 1) =~= row);
        }
        i += 1;
    }
    r
}

proof fn lemma_unordered_prefix(n: usize, rows: nat)
    requires
        rows <= n,
    ensures
        strictly_sorted(unordered_prefix(n as nat, rows)),
        forall|k: int|
            0 <= k < unordered_prefix(n as nat, rows).len() ==> {
                let p = #[trigger] unordered_prefix(n as nat, rows)[k];
                p.0 < rows && p.0 < p.1 < n
            },
        forall|i: usize, j: usize|
            i < rows && i < j < n ==> #[trigger] unordered_prefix(n as nat, rows).contains((i, j)),
    decreases rows,
{
    if rows > 0 {
        let r = (rows - 1) as nat;
        lemma_unordered_prefix(n, r);
        let p = unordered_prefix(n as nat, r);
        let row = pairs_from(n as nat, r);
        let s = unordered_prefix(n as nat, rows);
        assert(s == p + row);
        assert forall|a: int, b: int| 0 <= a < b < s.len() implies lex_lt(#[trigger] s[a], #[trigger] s[b]) by {
            if b < p.len() {
                assert(s[a] == p[a] && s[b] == p[b]);
            } else if a < p.len() {
                assert(s[a] == p[a]);
                assert(s[b] == row[b - p.len()]);
            } else {
                assert(s[a] == row[a - p.len()]);
                assert(s[b] == row[b - p.len()]);
            }
        }
        assert forall|k: int| 0 <= k < s.len() implies {
            let q = #[trigger] s[k];
            q.0 < rows && q.0 < q.1 < n
        } by {
            if k < p.len() {
                assert(s[k] == p[k]);
            } else {
                assert(s[k] == row[k - p.len()]);
            }
        }
        assert forall|i: usize, j: usize| i < rows && i < j < n implies #[trigger] s.contains((i, j)) by {
            if i < r {
                assert(p.contains((i, j)));
                let k = choose|k: int| 0 <= k < p.len() && p[k] == (i, j);
                assert(s[k] == (i, j));
            } else {
                let k = p.len() + (j - i - 1);
                assert(s[k] == row[j - i - 1]);
                assert(s[k] == (i, j));
            }
        }
    }
}

/// The unordered schedule of `n` bodies holds each pair `(i, j)` with
/// `i < j < n` exactly once and nothing else, in insertion order.
pub proof fn lemma_unordered_schedule(n: usize)
    ensures
        strictly_sorted(unordered_schedule(n as nat)),
        forall|i: usize, j: usize| #[trigger] unordered_schedule(n as nat).contains((i, j)) <==> i < j < n,
{
    lemma_unordered_prefix(n, n as nat);
    let s = unordered_schedule(n as nat);
    assert forall|i: usize, j: usize| #[trigger] s.contains((i, j)) implies i < j < n by {
        let k = choose|k: int| 0 <= k < s.len() && s[k] == (i, j);
        assert(s[k].0 < s[k].1 < n);
    }
}

proof fn lemma_ordered_prefix(n: usize, rows: nat)
    requires
        rows <= n,
    ensures
        strictly_sorted(ordered_prefix(n as nat, rows)),
        forall|k: int|
            0 <= k < ordered_prefix(n as nat, rows).len() ==> {
                let p = #[trigger] ordered_prefix(n as nat, rows)[k];
                p.0 < rows && p.1 < n && p.0 != p.1
            },
        forall|i: usize, j: usize|
            i < rows && j < n && i != j ==> #[trigger] ordered_prefix(n as nat, rows).contains((i, j)),
    decreases rows,
{
    if rows > 0 {
        let r = (rows - 1) as nat;
        lemma_ordered_prefix(n, r);
        let p = ordered_prefix(n as nat, r);
        let row = pulls_on(n as nat, r);
        let s = ordered_prefix(n as nat, rows);
        assert(s == p + row);
        assert forall|a: int, b: int| 0 <= a < b < s.len() implies lex_lt(#[trigger] s[a], #[trigger] s[b]) by {
            if b < p.len() {
                assert(s[a] == p[a] && s[b] == p[b]);
            } else if a < p.len() {
                assert(s[a] == p[a]);
                assert(s[b] == row[b - p.len()]);
            } else {
                assert(s[a] == row[a - p.len()]);
                assert(s[b] == row[b - p.len()]);
            }
        }
        assert forall|k: int| 0 <= k < s.len() implies {
            let q = #[trigger] s[k];
            q.0 < rows && q.1 < n && q.0 != q.1
        } by {
            if k < p.len() {
                assert(s[k] == p[k]);
            } else {
                assert(s[k] == row[k - p.len()]);
            }
        }
        assert forall|i: usize, j: usize| i < rows && j < n && i != j implies #[trigger] s.contains((i, j)) by {
            if i < r {
                assert(p.contains((i, j)));
                let k = choose|k: int| 0 <= k < p.len() && p[k] == (i, j);
                assert(s[k] == (i, j));
            } else {
                let t: int = if j < i { j as int } else { j - 1 };
                let k = p.len() + t;
                assert(s[k] == row[t]);
                assert(s[k] == (i, j));
            }
        }
    }
}

/// The ordered schedule of `n` bodies holds each pair `(i, j)` of distinct
/// indices below `n` exactly once and nothing else, in insertion order.
pub proof fn lemma_ordered_schedule(n: usize)
    ensures
        strictly_sorted(ordered_schedule(n as nat)),
        forall|i: usize, j: usize|
            #[trigger] ordered_schedule(n as nat).contains((i, j)) <==> i < n && j < n && i != j,
{
    lemma_ordered_prefix(n, n as nat);
    let s = ordered_schedule(n as nat);
    assert forall|i: usize, j: usize| #[trigger] s.contains((i, j)) implies i < n && j < n && i != j by {
        let k = choose|k: int| 0 <= k < s.len() && s[k] == (i, j);
        assert(s[k].1 < n && s[k].0 != s[k].1);
    }
}

} // verus!
