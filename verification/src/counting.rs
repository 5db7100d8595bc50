//! Counting how many entries of a sequence, or of a grid of sequences,
//! satisfy a predicate, together with the lemmas the engine needs about
//! such counts.

use vstd::prelude::*;

verus! {

/// Number of elements of `s` satisfying `p`.
pub open spec fn row_count<A>(s: Seq<A>, p: spec_fn(A) -> bool) -> int
    decreases s.len(),
{
    if s.len() <= 0 {
        0
    } else {
        row_count(s.drop_last(), p) + if p(s.last()) {
            1int
        } else {
            0int
        }
    }
}

/// Number of cells of the grid `g` (a sequence of rows) satisfying `p`.
pub open spec fn grid_count<A>(g: Seq<Seq<A>>, p: spec_fn(A) -> bool) -> int
    decreases g.len(),
{
    if g.len() <= 0 {
        0
    } else {
        grid_count(g.drop_last(), p) + row_count(g.last(), p)
    }
}

pub proof fn lemma_row_count_bounds<A>(s: Seq<A>, p: spec_fn(A) -> bool)
    ensures
        0 <= row_count(s, p) <= s.len(),
    decreases s.len(),
{
    if s.len() > 0 {
        lemma_row_count_bounds(s.drop_last(), p);
    }
}

/// Updating one element changes the count by the difference of the
/// indicators of the old and the new element.
pub proof fn lemma_row_count_update<A>(s: Seq<A>, p: spec_fn(A) -> bool, i: int, v: A)
    requires
        0 <= i < s.len(),
    ensures
        row_count(s.update(i, v), p) == row_count(s, p) - (if p(s[i]) {
            1int
        } else {
            0int
        }) + (if p(v) {
            1int
        } else {
            0int
        }),
    decreases s.len(),
{
    let t = s.update(i, v);
    assert(t.len() == s.len());
    if i == s.len() - 1 {
        assert(t.drop_last() =~= s.drop_last());
        assert(t.last() == v);
    } else {
        assert(t.drop_last() =~= s.drop_last().update(i, v));
        assert(t.last() == s.last());
        lemma_row_count_update(s.drop_last(), p, i, v);
    }
}

pub proof fn lemma_row_count_none<A>(s: Seq<A>, p: spec_fn(A) -> bool)
    requires
        forall|i: int| 0 <= i < s.len() ==> !p(#[trigger] s[i]),
    ensures
        row_count(s, p) == 0,
    decreases s.len(),
{
    if s.len() > 0 {
        let d = s.drop_last();
        assert forall|i: int| 0 <= i < d.len() implies !p(#[trigger] d[i]) by {
            assert(d[i] == s[i]);
        }
        lemma_row_count_none(d, p);
        assert(s.last() == s[s.len() - 1]);
    }
}

/// An element satisfying `p` makes the count positive.
pub proof fn lemma_row_count_pos<A>(s: Seq<A>, p: spec_fn(A) -> bool, i: int)
    requires
        0 <= i < s.len(),
        p(s[i]),
    ensures
        row_count(s, p) >= 1,
    decreases s.len(),
{
    if i == s.len() - 1 {
        assert(p(s.last()));
        lemma_row_count_bounds(s.drop_last(), p);
    } else {
        let d = s.drop_last();
        assert(d[i] == s[i]);
        lemma_row_count_pos(d, p, i);
    }
}

/// The `p`-count and the count of the pointwise negation of `p` add up
/// to the length.
pub proof fn lemma_row_count_complement<A>(
    s: Seq<A>,
    p: spec_fn(A) -> bool,
    q: spec_fn(A) -> bool,
)
    requires
        forall|i: int| 0 <= i < s.len() ==> (q(#[trigger] s[i]) <==> !p(s[i])),
    ensures
        row_count(s, p) + row_count(s, q) == s.len(),
    decreases s.len(),
{
    if s.len() > 0 {
        let d = s.drop_last();
        assert forall|i: int| 0 <= i < d.len() implies (q(#[trigger] d[i]) <==> !p(d[i])) by {
            assert(d[i] == s[i]);
        }
        lemma_row_count_complement(d, p, q);
        assert(s.last() == s[s.len() - 1]);
    }
}

/// Number of integers `i` with `a <= i < a + 3` and `0 <= i < k`.
pub open spec fn window3(a: int, k: int) -> int {
    let lo: int = if a > 0 {
        a
    } else {
        0
    };
    let hi: int = if k < a + 3 {
        k
    } else {
        a + 3
    };
    if hi > lo {
        hi - lo
    } else {
        0
    }
}

/// A predicate that holds only on three consecutive indices counts at
/// most `window3(a, s.len() as int)`, which is at most three.
pub proof fn lemma_row_count_window3<A>(s: Seq<A>, p: spec_fn(A) -> bool, a: int)
    requires
        forall|i: int| 0 <= i < s.len() && p(#[trigger] s[i]) ==> a <= i < a + 3,
    ensures
        row_count(s, p) <= window3(a, s.len() as int),
        row_count(s, p) <= 3,
    decreases s.len(),
{
    if s.len() > 0 {
        let d = s.drop_last();
        assert forall|i: int| 0 <= i < d.len() && p(#[trigger] d[i]) implies a <= i < a + 3 by {
            assert(d[i] == s[i]);
        }
        lemma_row_count_window3(d, p, a);
        assert(s.last() == s[s.len() - 1]);
    }
}

/// One as an `int` when the condition holds, zero otherwise.
pub open spec fn ind(b: bool) -> int {
    if b {
        1
    } else {
        0
    }
}

/// Updating one cell of a grid changes the count by the difference of the
/// indicators of the old and the new cell.
pub proof fn lemma_grid_cell_update<A>(
    g: Seq<Seq<A>>,
    p: spec_fn(A) -> bool,
    r: int,
    c: int,
    v: A,
)
    requires
        0 <= r < g.len(),
        0 <= c < g[r].len(),
    ensures
        grid_count(g.update(r, g[r].update(c, v)), p) == grid_count(g, p) - ind(p(g[r][c])) + ind(
            p(v),
        ),
{
    lemma_row_count_update(g[r], p, c, v);
    lemma_grid_count_update(g, p, r, g[r].update(c, v));
}

/// A predicate that holds on at most one index counts at most one.
pub proof fn lemma_row_count_single<A>(s: Seq<A>, p: spec_fn(A) -> bool, j: int)
    requires
        forall|i: int| 0 <= i < s.len() && p(#[trigger] s[i]) ==> i == j,
    ensures
        row_count(s, p) <= 1,
    decreases s.len(),
{
    if s.len() > 0 {
        let d = s.drop_last();
        assert forall|i: int| 0 <= i < d.len() && p(#[trigger] d[i]) implies i == j by {
            assert(d[i] == s[i]);
        }
        lemma_row_count_single(d, p, j);
        assert(s.last() == s[s.len() - 1]);
        if p(s.last()) {
            assert forall|i: int| 0 <= i < d.len() implies !p(#[trigger] d[i]) by {
                assert(d[i] == s[i]);
            }
            lemma_row_count_none(d, p);
        }
    }
}

/// A predicate that holds on at most one grid position counts at most one
/// cell.
pub proof fn lemma_grid_count_single<A>(g: Seq<Seq<A>>, p: spec_fn(A) -> bool, r0: int, c0: int)
    requires
        forall|r: int, c: int|
            0 <= r < g.len() && 0 <= c < (#[trigger] g[r]).len() && p(#[trigger] g[r][c]) ==> r
                == r0 && c == c0,
    ensures
        grid_count(g, p) <= 1,
    decreases g.len(),
{
    if g.len() > 0 {
        let d = g.drop_last();
        assert forall|r: int, c: int|
            0 <= r < d.len() && 0 <= c < (#[trigger] d[r]).len() && p(
                #[trigger] d[r][c],
            ) implies r == r0 && c == c0 by {
            assert(d[r] == g[r]);
        }
        lemma_grid_count_single(d, p, r0, c0);
        let last = g.last();
        let rl: int = g.len() - 1;
        assert(last == g[rl]);
        if rl == r0 {
            assert forall|c: int| 0 <= c < last.len() && p(#[trigger] last[c]) implies c == c0 by {
                assert(last[c] == g[rl][c]);
            }
            lemma_row_count_single(last, p, c0);
            if row_count(last, p) == 1 {
                assert forall|r: int, c: int|
                    0 <= r < d.len() && 0 <= c < (#[trigger] d[r]).len() implies !p(
                    #[trigger] d[r][c],
                ) by {
                    assert(d[r] == g[r]);
                }
                lemma_grid_count_none(d, p);
            }
        } else {
            assert forall|c: int| 0 <= c < last.len() implies !p(#[trigger] last[c]) by {
                assert(last[c] == g[rl][c]);
            }
            lemma_row_count_none(last, p);
        }
    }
}

pub proof fn lemma_grid_count_update<A>(g: Seq<Seq<A>>, p: spec_fn(A) -> bool, r: int, row: Seq<A>)
    requires
        0 <= r < g.len(),
    ensures
        grid_count(g.update(r, row), p) == grid_count(g, p) - row_count(g[r], p) + row_count(
            row,
            p,
        ),
    decreases g.len(),
{
    let t = g.update(r, row);
    assert(t.len() == g.len());
    if r == g.len() - 1 {
        assert(t.drop_last() =~= g.drop_last());
        assert(t.last() == row);
    } else {
        assert(t.drop_last() =~= g.drop_last().update(r, row));
        assert(t.last() == g.last());
        lemma_grid_count_update(g.drop_last(), p, r, row);
    }
}

pub proof fn lemma_grid_count_none<A>(g: Seq<Seq<A>>, p: spec_fn(A) -> bool)
    requires
        forall|r: int, c: int|
            0 <= r < g.len() && 0 <= c < (#[trigger] g[r]).len() ==> !p(#[trigger] g[r][c]),
    ensures
        grid_count(g, p) == 0,
    decreases g.len(),
{
    if g.len() > 0 {
        let d = g.drop_last();
        assert forall|r: int, c: int|
            0 <= r < d.len() && 0 <= c < (#[trigger] d[r]).len() implies !p(
            #[trigger] d[r][c],
        ) by {
            assert(d[r] == g[r]);
        }
        lemma_grid_count_none(d, p);
        let last = g.last();
        assert(last == g[g.len() - 1]);
        assert forall|c: int| 0 <= c < last.len() implies !p(#[trigger] last[c]) by {
            assert(last[c] == g[g.len() - 1][c]);
        }
        lemma_row_count_none(last, p);
    }
}

pub proof fn lemma_grid_count_pos<A>(g: Seq<Seq<A>>, p: spec_fn(A) -> bool, r: int, c: int)
    requires
        0 <= r < g.len(),
        0 <= c < g[r].len(),
        p(g[r][c]),
    ensures
        grid_count(g, p) >= 1,
    decreases g.len(),
{
    lemma_grid_count_bounds_weak(g, p);
    if r == g.len() - 1 {
        lemma_row_count_pos(g.last(), p, c);
        lemma_grid_count_bounds_weak(g.drop_last(), p);
    } else {
        let d = g.drop_last();
        assert(d[r] == g[r]);
        lemma_grid_count_pos(d, p, r, c);
        lemma_row_count_bounds(g.last(), p);
    }
}

/// Every grid count is non-negative.
pub proof fn lemma_grid_count_bounds_weak<A>(g: Seq<Seq<A>>, p: spec_fn(A) -> bool)
    ensures
        grid_count(g, p) >= 0,
    decreases g.len(),
{
    if g.len() > 0 {
        lemma_grid_count_bounds_weak(g.drop_last(), p);
        lemma_row_count_bounds(g.last(), p);
    }
}

/// For a grid whose rows all have length `m`, the count lies between
/// zero and the number of cells.
pub proof fn lemma_grid_count_bounds<A>(g: Seq<Seq<A>>, p: spec_fn(A) -> bool, m: int)
    requires
        forall|r: int| 0 <= r < g.len() ==> (#[trigger] g[r]).len() == m,
    ensures
        0 <= grid_count(g, p) <= g.len() * m,
    decreases g.len(),
{
    if g.len() <= 0 {
        assert(g.len() * m == 0) by (nonlinear_arith)
            requires
                g.len() <= 0,
                g.len() >= 0,
        ;
    } else {
        let d = g.drop_last();
        assert forall|r: int| 0 <= r < d.len() implies (#[trigger] d[r]).len() == m by {
            assert(d[r] == g[r]);
        }
        lemma_grid_count_bounds(d, p, m);
        assert(g.last() == g[g.len() - 1]);
        lemma_row_count_bounds(g.last(), p);
        assert(d.len() * m + m == g.len() * m) by (nonlinear_arith)
            requires
                d.len() == g.len() - 1,
        ;
    }
}

pub proof fn lemma_grid_count_complement<A>(
    g: Seq<Seq<A>>,
    p: spec_fn(A) -> bool,
    q: spec_fn(A) -> bool,
    m: int,
)
    requires
        forall|r: int| 0 <= r < g.len() ==> (#[trigger] g[r]).len() == m,
        forall|r: int, c: int|
            0 <= r < g.len() && 0 <= c < (#[trigger] g[r]).len() ==> (q(#[trigger] g[r][c]) <==> !p(
                g[r][c],
            )),
    ensures
        grid_count(g, p) + grid_count(g, q) == g.len() * m,
    decreases g.len(),
{
    if g.len() <= 0 {
        assert(g.len() * m == 0) by (nonlinear_arith)
            requires
                g.len() <= 0,
                g.len() >= 0,
        ;
    } else {
        let d = g.drop_last();
        assert forall|r: int| 0 <= r < d.len() implies (#[trigger] d[r]).len() == m by {
            assert(d[r] == g[r]);
        }
        assert forall|r: int, c: int|
            0 <= r < d.len() && 0 <= c < (#[trigger] d[r]).len() implies (q(
            #[trigger] d[r][c],
        ) <==> !p(d[r][c])) by {
            assert(d[r] == g[r]);
        }
        lemma_grid_count_complement(d, p, q, m);
        let last = g.last();
        assert(last == g[g.len() - 1]);
        assert forall|c: int| 0 <= c < last.len() implies (q(#[trigger] last[c]) <==> !p(
            last[c],
        )) by {
            assert(last[c] == g[g.len() - 1][c]);
        }
        lemma_row_count_complement(last, p, q);
        assert(d.len() * m + m == g.len() * m) by (nonlinear_arith)
            requires
                d.len() == g.len() - 1,
        ;
    }
}

/// A predicate that holds only inside the three-by-three neighborhood of
/// `(r0, c0)` counts at most nine cells over the whole grid.
pub proof fn lemma_grid_count_window9<A>(
    g: Seq<Seq<A>>,
    p: spec_fn(A) -> bool,
    r0: int,
    c0: int,
)
    requires
        forall|r: int, c: int|
            0 <= r < g.len() && 0 <= c < (#[trigger] g[r]).len() && p(#[trigger] g[r][c])
                ==> crate::within_one(r, r0) && crate::within_one(c, c0),
    ensures
        grid_count(g, p) <= 3 * window3(r0 - 1, g.len() as int),
        grid_count(g, p) <= 9,
    decreases g.len(),
{
    if g.len() <= 0 {
    } else {
        let d = g.drop_last();
        assert forall|r: int, c: int|
            0 <= r < d.len() && 0 <= c < (#[trigger] d[r]).len() && p(
                #[trigger] d[r][c],
            ) implies crate::within_one(r, r0) && crate::within_one(c, c0) by {
            assert(d[r] == g[r]);
        }
        lemma_grid_count_window9(d, p, r0, c0);
        let last = g.last();
        let rl: int = g.len() - 1;
        assert(last == g[rl]);
        if crate::within_one(rl, r0) {
            assert forall|c: int| 0 <= c < last.len() && p(#[trigger] last[c]) implies c0 - 1 <= c
                < c0 - 1 + 3 by {
                assert(last[c] == g[rl][c]);
            }
            lemma_row_count_window3(last, p, c0 - 1);
        } else {
            assert forall|c: int| 0 <= c < last.len() implies !p(#[trigger] last[c]) by {
                assert(last[c] == g[rl][c]);
            }
            lemma_row_count_none(last, p);
        }
    }
}

} // verus!
