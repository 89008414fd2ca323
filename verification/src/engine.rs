//! The backtracking engine: an iterative depth-first search over the free
//! cells, driven by an explicit stack of candidate indices instead of
//! recursion.

use vstd::prelude::*;
use crate::board::{Board, block_scan_ord, cell_at, cell_index, grid_wf};
use crate::candidates::{base_digits, build_candidate_table, lemma_row_has_digit};
use crate::validator::{grid_valid, lemma_subgrid_valid};

verus! {

/// How a search run ended: the grid was completed, or every candidate
/// assignment was tried and none works. `iterations` counts the engine's
/// loop steps (saturating); `max_depth` is the deepest level the search
/// descended to before giving up.
#[derive(Clone, Copy, PartialEq, Eq, Structural, Debug)]
pub enum SolveOutcome {
    Solved { iterations: u64 },
    Exhausted { iterations: u64, max_depth: usize },
}

/// `f` lists exactly the blank cells of grid `g`, without repetition, in
/// strictly increasing block-major order. This is what
/// `Board::get_empty_cells` returns for `g`.
pub open spec fn lists_free_cells(g: Seq<Option<u8>>, f: Seq<(usize, usize)>) -> bool {
    &&& forall|i: int|
        0 <= i < f.len() ==> (#[trigger] f[i]).0 < 9 && f[i].1 < 9 && cell_at(
            g,
            f[i].0 as int,
            f[i].1 as int,
        ) is None
    &&& forall|i: int, j: int|
        0 <= i < j < f.len() ==> block_scan_ord(f[i].0 as int, f[i].1 as int) < block_scan_ord(
            f[j].0 as int,
            f[j].1 as int,
        )
    &&& forall|x: usize, y: usize|
        x < 9 && y < 9 && cell_at(g, x as int, y as int) is None ==> f.contains((x, y))
    &&& forall|i: int, j: int| 0 <= i < j < f.len() ==> f[i] != f[j]
}

/// Each of the `n` rows of the candidate order table is a permutation of
/// the digits 1..=9.
pub open spec fn table_wf(t: Seq<Vec<u8>>, n: int) -> bool {
    &&& t.len() == n
    &&& forall|r: int| 0 <= r < n ==> (#[trigger] t[r])@.len() == 9
    &&& forall|r: int, i: int| 0 <= r < n && 0 <= i < 9 ==> 1 <= #[trigger] t[r]@[i] <= 9
    &&& forall|r: int|
        0 <= r < n ==> (#[trigger] t[r])@.to_multiset() == base_digits().to_multiset()
}

/// `s` is a complete valid grid that keeps every given digit of `g`.
pub open spec fn is_solution(g: Seq<Option<u8>>, s: Seq<Option<u8>>) -> bool {
    &&& s.len() == 81
    &&& grid_wf(s)
    &&& grid_valid(s)
    &&& forall|i: int| 0 <= i < 81 ==> (#[trigger] s[i]) is Some
    &&& forall|i: int| 0 <= i < 81 && (#[trigger] g[i]) is Some ==> s[i] == g[i]
}

/// Some complete valid grid extends `g`.
pub open spec fn solvable(g: Seq<Option<u8>>) -> bool {
    exists|s: Seq<Option<u8>>| is_solution(g, s)
}

/// Grid `p` witnesses that the first `j` free cells of `f` admit a
/// consistent assignment: it is valid, keeps the givens of `g`, and fills
/// at least those cells.
pub open spec fn depth_witness(
    g: Seq<Option<u8>>,
    f: Seq<(usize, usize)>,
    j: int,
    p: Seq<Option<u8>>,
) -> bool {
    &&& p.len() == 81
    &&& grid_wf(p)
    &&& grid_valid(p)
    &&& forall|i: int| 0 <= i < 81 && (#[trigger] g[i]) is Some ==> p[i] == g[i]
    &&& forall|i: int|
        0 <= i < j && i < f.len() ==> cell_at(p, (#[trigger] f[i]).0 as int, f[i].1 as int) is Some
}

/// The first `j` free cells of `f` admit a consistent assignment over `g`.
pub open spec fn depth_reachable(g: Seq<Option<u8>>, f: Seq<(usize, usize)>, j: int) -> bool {
    exists|p: Seq<Option<u8>>| depth_witness(g, f, j, p)
}

/// Grid `sol` picks candidate `c` at level `i`: its digit at free cell `i`
/// is the `c`-th entry of that level's candidate row.
spec fn picks(
    sol: Seq<Option<u8>>,
    f: Seq<(usize, usize)>,
    t: Seq<Vec<u8>>,
    i: int,
    c: int,
) -> bool {
    cell_at(sol, f[i].0 as int, f[i].1 as int) == Some(t[i]@[c])
}

/// Grid `sol` picks, at level `i`, exactly the candidate the stack has
/// committed there.
spec fn picks_committed(
    sol: Seq<Option<u8>>,
    f: Seq<(usize, usize)>,
    t: Seq<Vec<u8>>,
    st: Seq<i8>,
    i: int,
) -> bool {
    picks(sol, f, t, i, st[i] as int)
}

/// Grid `sol` agrees with every committed level below `j`.
spec fn prefix_picks(
    sol: Seq<Option<u8>>,
    f: Seq<(usize, usize)>,
    t: Seq<Vec<u8>>,
    st: Seq<i8>,
    j: int,
) -> bool {
    forall|i: int| 0 <= i < j ==> #[trigger] picks_committed(sol, f, t, st, i)
}

/// The largest candidate index at level `j` that the search has left
/// behind: at the top level the index being tried, below it everything
/// before the committed index.
spec fn ruled_bound(st: Seq<i8>, j: int) -> int {
    if j == st.len() - 1 {
        st[j] as int
    } else {
        st[j] as int - 1
    }
}

/// The search has already moved past `sol` at level `j`.
spec fn passed_at(
    sol: Seq<Option<u8>>,
    f: Seq<(usize, usize)>,
    t: Seq<Vec<u8>>,
    st: Seq<i8>,
    j: int,
) -> bool {
    exists|c: int| 0 <= c <= ruled_bound(st, j) && #[trigger] picks(sol, f, t, j, c)
}

/// The search has not skipped `sol`: wherever `sol` agrees with the whole
/// committed prefix, its candidate at the next level still lies ahead.
/// This is the completeness invariant of the backtracking loop.
spec fn none_skipped(
    sol: Seq<Option<u8>>,
    f: Seq<(usize, usize)>,
    t: Seq<Vec<u8>>,
    st: Seq<i8>,
) -> bool {
    forall|j: int|
        0 <= j < st.len() ==> !(#[trigger] prefix_picks(sol, f, t, st, j) && passed_at(
            sol,
            f,
            t,
            st,
            j,
        ))
}

/// Some level `m` below depth `j` already lies behind the search frontier
/// for grid `p`: `p` agrees with every commitment below `m` and its
/// candidate at `m` has been left behind.
spec fn passed_partial(
    p: Seq<Option<u8>>,
    f: Seq<(usize, usize)>,
    t: Seq<Vec<u8>>,
    st: Seq<i8>,
    j: int,
) -> bool {
    exists|m: int|
        0 <= m < st.len() && m < j && #[trigger] prefix_picks(p, f, t, st, m) && passed_at(
            p,
            f,
            t,
            st,
            m,
        )
}

/// Any grid that keeps the givens, agrees with every committed candidate,
/// and picks candidate `c` at the top level contains the whole working
/// grid: every filled cell of `cur` is filled the same way in `q`.
proof fn lemma_grid_in_extension(
    g0: Seq<Option<u8>>,
    f: Seq<(usize, usize)>,
    t: Seq<Vec<u8>>,
    s0: Seq<i8>,
    g_prev: Seq<Option<u8>>,
    cur: Seq<Option<u8>>,
    q: Seq<Option<u8>>,
    c: int,
)
    requires
        lists_free_cells(g0, f),
        1 <= s0.len() <= f.len(),
        forall|i: int| 0 <= i < s0.len() && #[trigger] s0[i] == -1 ==> i == s0.len() - 1,
        forall|i: int|
            0 <= i < s0.len() && #[trigger] s0[i] != -1 ==> cell_at(
                g_prev,
                f[i].0 as int,
                f[i].1 as int,
            ) == Some(t[i]@[s0[i] as int]),
        forall|i: int|
            s0.len() <= i < f.len() ==> cell_at(
                g_prev,
                (#[trigger] f[i]).0 as int,
                f[i].1 as int,
            ) is None,
        forall|x: int, y: int|
            0 <= x < 9 && 0 <= y < 9 && cell_at(g0, x, y) is Some ==> cell_at(g_prev, x, y)
                == cell_at(g0, x, y),
        g_prev.len() == 81,
        q.len() == 81,
        cur == g_prev.update(
            cell_index(f[s0.len() - 1].0 as int, f[s0.len() - 1].1 as int),
            Some(t[s0.len() - 1]@[c]),
        ),
        0 <= c < 9,
        forall|i: int| 0 <= i < 81 && (#[trigger] g0[i]) is Some ==> q[i] == g0[i],
        prefix_picks(q, f, t, s0, s0.len() - 1),
        picks(q, f, t, s0.len() - 1, c),
    ensures
        forall|i: int| 0 <= i < 81 && (#[trigger] cur[i]) is Some ==> q[i] == cur[i],
{
    let li = s0.len() - 1;
    let pos = f[li];
    let pi = cell_index(pos.0 as int, pos.1 as int);
    assert forall|i2: int| 0 <= i2 < 81 && (#[trigger] cur[i2]) is Some implies q[i2]
        == cur[i2] by {
        vstd::arithmetic::div_mod::lemma_fundamental_div_mod(i2, 9);
        let x = i2 % 9;
        let y = i2 / 9;
        assert(cell_index(x, y) == i2);
        if i2 == pi {
            assert(cell_at(q, pos.0 as int, pos.1 as int) == Some(t[li]@[c]));
        } else {
            assert(cur[i2] == g_prev[i2]);
            if g0[i2] is Some {
                assert(cell_at(g_prev, x, y) == cell_at(g0, x, y));
                assert(q[i2] == g0[i2]);
            } else {
                assert(cell_at(g0, ((i2 % 9) as usize) as int, ((i2 / 9) as usize) as int)
                    is None);
                assert(f.contains(((i2 % 9) as usize, (i2 / 9) as usize)));
                let k = choose|k: int|
                    0 <= k < f.len() && f[k] == ((i2 % 9) as usize, (i2 / 9) as usize);
                if k >= s0.len() {
                    assert(cell_at(g_prev, f[k].0 as int, f[k].1 as int) is None);
                    assert(false);
                } else if k == li {
                    assert(cell_index(f[k].0 as int, f[k].1 as int) == pi);
                    assert(false);
                } else {
                    assert(s0[k] != -1);
                    assert(cell_at(g_prev, f[k].0 as int, f[k].1 as int) == Some(
                        t[k]@[s0[k] as int],
                    ));
                    assert(picks_committed(q, f, t, s0, k));
                    assert(q[i2] == Some(t[k]@[s0[k] as int]));
                }
            }
        }
    }
}


/// One invariant-maintenance step: bumping the top-level candidate index
/// after an invalid placement skips no solution and no reachable prefix.
#[verifier::rlimit(100)]
proof fn lemma_frontier_advance(
    g0: Seq<Option<u8>>,
    f: Seq<(usize, usize)>,
    t: Seq<Vec<u8>>,
    s0: Seq<i8>,
    g_prev: Seq<Option<u8>>,
    cur: Seq<Option<u8>>,
    idx: i8,
    n: int,
    md: int,
)
    requires
        lists_free_cells(g0, f),
        f.len() == n,
        1 <= s0.len() <= n,
        -1 <= idx <= 7,
        idx == s0[s0.len() - 1],
        forall|i: int| 0 <= i < s0.len() ==> -1 <= #[trigger] s0[i] <= 8,
        forall|i: int| 0 <= i < s0.len() && #[trigger] s0[i] == -1 ==> i == s0.len() - 1,
        forall|i: int|
            0 <= i < s0.len() && #[trigger] s0[i] != -1 ==> cell_at(
                g_prev,
                f[i].0 as int,
                f[i].1 as int,
            ) == Some(t[i]@[s0[i] as int]),
        forall|i: int|
            s0.len() <= i < n ==> cell_at(
                g_prev,
                (#[trigger] f[i]).0 as int,
                f[i].1 as int,
            ) is None,
        forall|x: int, y: int|
            0 <= x < 9 && 0 <= y < 9 && cell_at(g0, x, y) is Some ==> cell_at(g_prev, x, y)
                == cell_at(g0, x, y),
        g_prev.len() == 81,
        cur == g_prev.update(
            cell_index(f[s0.len() - 1].0 as int, f[s0.len() - 1].1 as int),
            Some(t[s0.len() - 1]@[idx + 1]),
        ),
        !grid_valid(cur),
        forall|sol: Seq<Option<u8>>|
            #[trigger] is_solution(g0, sol) ==> none_skipped(sol, f, t, s0),
        forall|p: Seq<Option<u8>>, j: int|
            0 <= j <= n && #[trigger] depth_witness(g0, f, j, p) && passed_partial(p, f, t, s0, j)
                ==> j <= md,
    ensures
        forall|sol: Seq<Option<u8>>|
            #[trigger] is_solution(g0, sol) ==> none_skipped(
                sol,
                f,
                t,
                s0.update(s0.len() - 1, (idx + 1) as i8),
            ),
        forall|p: Seq<Option<u8>>, j: int|
            0 <= j <= n && #[trigger] depth_witness(g0, f, j, p) && passed_partial(
                p,
                f,
                t,
                s0.update(s0.len() - 1, (idx + 1) as i8),
                j,
            ) ==> j <= md,
{
    let li = s0.len() - 1;
    let s1 = s0.update(li, (idx + 1) as i8);
    assert forall|sol: Seq<Option<u8>>| #[trigger] is_solution(g0, sol) implies none_skipped(
        sol,
        f,
        t,
        s1,
    ) by {
        assert(none_skipped(sol, f, t, s0));
        assert forall|j: int|
            0 <= j < s1.len() && #[trigger] prefix_picks(sol, f, t, s1, j) implies !passed_at(
            sol,
            f,
            t,
            s1,
            j,
        ) by {
            assert forall|i: int| 0 <= i < j implies #[trigger] picks_committed(
                sol,
                f,
                t,
                s0,
                i,
            ) by {
                assert(picks_committed(sol, f, t, s1, i));
                assert(s1[i] == s0[i]);
            }
            assert(prefix_picks(sol, f, t, s0, j));
            if passed_at(sol, f, t, s1, j) {
                let c = choose|c: int|
                    0 <= c <= ruled_bound(s1, j) && #[trigger] picks(sol, f, t, j, c);
                if j < li {
                    assert(ruled_bound(s1, j) == ruled_bound(s0, j));
                    assert(passed_at(sol, f, t, s0, j));
                } else if c <= idx as int {
                    assert(ruled_bound(s0, li) == idx as int);
                    assert(passed_at(sol, f, t, s0, li));
                } else {
                    assert(c == idx + 1);
                    lemma_grid_in_extension(g0, f, t, s0, g_prev, cur, sol, idx + 1);
                    lemma_subgrid_valid(cur, sol);
                    assert(false);
                }
            }
        }
    }
    assert forall|p: Seq<Option<u8>>, j: int|
        0 <= j <= n && #[trigger] depth_witness(g0, f, j, p) && passed_partial(
            p,
            f,
            t,
            s1,
            j,
        ) implies j <= md by {
        let m = choose|m: int|
            0 <= m < s1.len() && m < j && #[trigger] prefix_picks(p, f, t, s1, m) && passed_at(
                p,
                f,
                t,
                s1,
                m,
            );
        assert forall|i: int| 0 <= i < m implies #[trigger] picks_committed(p, f, t, s0, i) by {
            assert(picks_committed(p, f, t, s1, i));
            assert(s1[i] == s0[i]);
        }
        assert(prefix_picks(p, f, t, s0, m));
        let c = choose|c: int| 0 <= c <= ruled_bound(s1, m) && #[trigger] picks(p, f, t, m, c);
        if m < li {
            assert(ruled_bound(s1, m) == ruled_bound(s0, m));
            assert(passed_at(p, f, t, s0, m));
            assert(passed_partial(p, f, t, s0, j));
        } else if c <= idx as int {
            assert(ruled_bound(s0, li) == idx as int);
            assert(passed_at(p, f, t, s0, li));
            assert(passed_partial(p, f, t, s0, j));
        } else {
            assert(c == idx + 1);
            lemma_grid_in_extension(g0, f, t, s0, g_prev, cur, p, idx + 1);
            lemma_subgrid_valid(cur, p);
            assert(false);
        }
    }
}

/// One invariant-maintenance step: committing the top-level candidate and
/// opening a fresh level skips no solution and no reachable prefix.
#[verifier::rlimit(100)]
proof fn lemma_frontier_descend(
    g0: Seq<Option<u8>>,
    f: Seq<(usize, usize)>,
    t: Seq<Vec<u8>>,
    s0: Seq<i8>,
    idx: i8,
    n: int,
    md: int,
)
    requires
        1 <= s0.len() <= n,
        -1 <= idx <= 7,
        idx == s0[s0.len() - 1],
        forall|sol: Seq<Option<u8>>|
            #[trigger] is_solution(g0, sol) ==> none_skipped(sol, f, t, s0),
        forall|p: Seq<Option<u8>>, j: int|
            0 <= j <= n && #[trigger] depth_witness(g0, f, j, p) && passed_partial(p, f, t, s0, j)
                ==> j <= md,
    ensures
        forall|sol: Seq<Option<u8>>|
            #[trigger] is_solution(g0, sol) ==> none_skipped(
                sol,
                f,
                t,
                s0.update(s0.len() - 1, (idx + 1) as i8).push(-1i8),
            ),
        forall|p: Seq<Option<u8>>, j: int|
            0 <= j <= n && #[trigger] depth_witness(g0, f, j, p) && passed_partial(
                p,
                f,
                t,
                s0.update(s0.len() - 1, (idx + 1) as i8).push(-1i8),
                j,
            ) ==> j <= md,
{
    let li = s0.len() - 1;
    let s2 = s0.update(li, (idx + 1) as i8).push(-1i8);
    assert forall|sol: Seq<Option<u8>>| #[trigger] is_solution(g0, sol) implies none_skipped(
        sol,
        f,
        t,
        s2,
    ) by {
        assert(none_skipped(sol, f, t, s0));
        assert forall|j: int|
            0 <= j < s2.len() && #[trigger] prefix_picks(sol, f, t, s2, j) implies !passed_at(
            sol,
            f,
            t,
            s2,
            j,
        ) by {
            if j == s2.len() - 1 {
                if passed_at(sol, f, t, s2, j) {
                    let c = choose|c: int|
                        0 <= c <= ruled_bound(s2, j) && #[trigger] picks(sol, f, t, j, c);
                    assert(s2[j] == -1);
                }
            } else {
                assert forall|i: int| 0 <= i < j implies #[trigger] picks_committed(
                    sol,
                    f,
                    t,
                    s0,
                    i,
                ) by {
                    assert(picks_committed(sol, f, t, s2, i));
                    assert(s2[i] == s0[i]);
                }
                assert(prefix_picks(sol, f, t, s0, j));
                if passed_at(sol, f, t, s2, j) {
                    let c = choose|c: int|
                        0 <= c <= ruled_bound(s2, j) && #[trigger] picks(sol, f, t, j, c);
                    if j < li {
                        assert(s2[j] == s0[j]);
                        assert(c <= ruled_bound(s0, j));
                    } else {
                        assert(j == li);
                        assert(s2[li] == idx + 1);
                        assert(ruled_bound(s0, li) == idx as int);
                        assert(c <= idx as int);
                    }
                    assert(passed_at(sol, f, t, s0, j));
                }
            }
        }
    }
    assert forall|p: Seq<Option<u8>>, j: int|
        0 <= j <= n && #[trigger] depth_witness(g0, f, j, p) && passed_partial(
            p,
            f,
            t,
            s2,
            j,
        ) implies j <= md by {
        let m = choose|m: int|
            0 <= m < s2.len() && m < j && #[trigger] prefix_picks(p, f, t, s2, m) && passed_at(
                p,
                f,
                t,
                s2,
                m,
            );
        let c = choose|c: int| 0 <= c <= ruled_bound(s2, m) && #[trigger] picks(p, f, t, m, c);
        if m == s2.len() - 1 {
            assert(s2[m] == -1);
            assert(false);
        } else {
            assert forall|i: int| 0 <= i < m implies #[trigger] picks_committed(
                p,
                f,
                t,
                s0,
                i,
            ) by {
                assert(picks_committed(p, f, t, s2, i));
                assert(s2[i] == s0[i]);
            }
            assert(prefix_picks(p, f, t, s0, m));
            if m < li {
                assert(s2[m] == s0[m]);
                assert(c <= ruled_bound(s0, m));
            } else {
                assert(m == li);
                assert(s2[li] == idx + 1);
                assert(ruled_bound(s0, li) == idx as int);
                assert(c <= idx as int);
            }
            assert(passed_at(p, f, t, s0, m));
            assert(passed_partial(p, f, t, s0, j));
        }
    }
}

/// One invariant-maintenance step: giving up an exhausted level skips no
/// solution and no reachable prefix, because its nine candidates cover
/// every digit.
#[verifier::rlimit(100)]
proof fn lemma_frontier_backtrack(
    g0: Seq<Option<u8>>,
    f: Seq<(usize, usize)>,
    t: Seq<Vec<u8>>,
    s0: Seq<i8>,
    n: int,
    md: int,
)
    requires
        lists_free_cells(g0, f),
        table_wf(t, n),
        f.len() == n,
        2 <= s0.len() <= n,
        s0[s0.len() - 1] == 8,
        md >= s0.len() - 1,
        forall|sol: Seq<Option<u8>>|
            #[trigger] is_solution(g0, sol) ==> none_skipped(sol, f, t, s0),
        forall|p: Seq<Option<u8>>, j: int|
            0 <= j <= n && #[trigger] depth_witness(g0, f, j, p) && passed_partial(p, f, t, s0, j)
                ==> j <= md,
    ensures
        forall|sol: Seq<Option<u8>>|
            #[trigger] is_solution(g0, sol) ==> none_skipped(sol, f, t, s0.drop_last()),
        forall|p: Seq<Option<u8>>, j: int|
            0 <= j <= n && #[trigger] depth_witness(g0, f, j, p) && passed_partial(
                p,
                f,
                t,
                s0.drop_last(),
                j,
            ) ==> j <= md,
{
    let li = s0.len() - 1;
    let sp = s0.drop_last();
    assert forall|sol: Seq<Option<u8>>| #[trigger] is_solution(g0, sol) implies none_skipped(
        sol,
        f,
        t,
        sp,
    ) by {
        assert(none_skipped(sol, f, t, s0));
        assert forall|j: int|
            0 <= j < sp.len() && #[trigger] prefix_picks(sol, f, t, sp, j) implies !passed_at(
            sol,
            f,
            t,
            sp,
            j,
        ) by {
            assert forall|i: int| 0 <= i < j implies #[trigger] picks_committed(
                sol,
                f,
                t,
                s0,
                i,
            ) by {
                assert(picks_committed(sol, f, t, sp, i));
                assert(sp[i] == s0[i]);
            }
            assert(prefix_picks(sol, f, t, s0, j));
            if passed_at(sol, f, t, sp, j) {
                let c = choose|c: int|
                    0 <= c <= ruled_bound(sp, j) && #[trigger] picks(sol, f, t, j, c);
                if j < sp.len() - 1 {
                    assert(ruled_bound(sp, j) == ruled_bound(s0, j));
                    assert(passed_at(sol, f, t, s0, j));
                } else if c < s0[j] as int {
                    assert(ruled_bound(s0, j) == s0[j] - 1);
                    assert(passed_at(sol, f, t, s0, j));
                } else {
                    assert(c == s0[j] as int);
                    assert(picks_committed(sol, f, t, s0, j));
                    assert forall|i: int| 0 <= i < li implies #[trigger] picks_committed(
                        sol,
                        f,
                        t,
                        s0,
                        i,
                    ) by {
                        if i < j {
                        } else {
                            assert(i == j);
                        }
                    }
                    assert(prefix_picks(sol, f, t, s0, li));
                    let ci = cell_index(f[li].0 as int, f[li].1 as int);
                    assert(0 <= ci < 81);
                    assert(sol[ci] is Some);
                    let dv = sol[ci]->Some_0;
                    assert(1 <= dv <= 9);
                    lemma_row_has_digit(t[li]@, dv);
                    let c2 = choose|c2: int| 0 <= c2 < 9 && t[li]@[c2] == dv;
                    assert(picks(sol, f, t, li, c2));
                    assert(ruled_bound(s0, li) == 8);
                    assert(passed_at(sol, f, t, s0, li));
                    assert(false);
                }
            }
        }
    }
    assert forall|p: Seq<Option<u8>>, j: int|
        0 <= j <= n && #[trigger] depth_witness(g0, f, j, p) && passed_partial(
            p,
            f,
            t,
            sp,
            j,
        ) implies j <= md by {
        let m = choose|m: int|
            0 <= m < sp.len() && m < j && #[trigger] prefix_picks(p, f, t, sp, m) && passed_at(
                p,
                f,
                t,
                sp,
                m,
            );
        assert forall|i: int| 0 <= i < m implies #[trigger] picks_committed(p, f, t, s0, i) by {
            assert(picks_committed(p, f, t, sp, i));
            assert(sp[i] == s0[i]);
        }
        assert(prefix_picks(p, f, t, s0, m));
        let c = choose|c: int| 0 <= c <= ruled_bound(sp, m) && #[trigger] picks(p, f, t, m, c);
        if m < sp.len() - 1 {
            assert(ruled_bound(sp, m) == ruled_bound(s0, m));
            assert(passed_at(p, f, t, s0, m));
            assert(passed_partial(p, f, t, s0, j));
        } else if c < s0[m] as int {
            assert(ruled_bound(s0, m) == s0[m] - 1);
            assert(passed_at(p, f, t, s0, m));
            assert(passed_partial(p, f, t, s0, j));
        } else {
            assert(c == s0[m] as int);
            assert(picks_committed(p, f, t, s0, m));
            assert forall|i: int| 0 <= i < li implies #[trigger] picks_committed(
                p,
                f,
                t,
                s0,
                i,
            ) by {
                if i < m {
                } else {
                    assert(i == m);
                }
            }
            assert(prefix_picks(p, f, t, s0, li));
            if j <= li {
                assert(j <= md);
            } else {
                let ci = cell_index(f[li].0 as int, f[li].1 as int);
                assert(0 <= ci < 81);
                assert(cell_at(p, f[li].0 as int, f[li].1 as int) is Some);
                let dv = p[ci]->Some_0;
                assert(1 <= dv <= 9);
                lemma_row_has_digit(t[li]@, dv);
                let c2 = choose|c2: int| 0 <= c2 < 9 && t[li]@[c2] == dv;
                assert(picks(p, f, t, li, c2));
                assert(ruled_bound(s0, li) == 8);
                assert(passed_at(p, f, t, s0, li));
                assert(passed_partial(p, f, t, s0, j));
            }
        }
    }
}

/// When the root level is exhausted nothing was skipped anywhere, so no
/// solution exists and no deeper prefix was reachable.
#[verifier::rlimit(100)]
proof fn lemma_frontier_exhausted(
    g0: Seq<Option<u8>>,
    f: Seq<(usize, usize)>,
    t: Seq<Vec<u8>>,
    s0: Seq<i8>,
    n: int,
    md: int,
)
    requires
        lists_free_cells(g0, f),
        table_wf(t, n),
        f.len() == n,
        n >= 1,
        s0.len() == 1,
        s0[0] == 8,
        0 <= md < n,
        forall|sol: Seq<Option<u8>>|
            #[trigger] is_solution(g0, sol) ==> none_skipped(sol, f, t, s0),
        forall|p: Seq<Option<u8>>, j: int|
            0 <= j <= n && #[trigger] depth_witness(g0, f, j, p) && passed_partial(p, f, t, s0, j)
                ==> j <= md,
    ensures
        !solvable(g0),
        !depth_reachable(g0, f, md + 1),
{
    assert forall|sol: Seq<Option<u8>>| !(#[trigger] is_solution(g0, sol)) by {
        if is_solution(g0, sol) {
            assert(none_skipped(sol, f, t, s0));
            assert(prefix_picks(sol, f, t, s0, 0));
            let ci = cell_index(f[0].0 as int, f[0].1 as int);
            assert(0 <= ci < 81);
            assert(sol[ci] is Some);
            let dv = sol[ci]->Some_0;
            assert(1 <= dv <= 9);
            lemma_row_has_digit(t[0]@, dv);
            let c2 = choose|c2: int| 0 <= c2 < 9 && t[0]@[c2] == dv;
            assert(picks(sol, f, t, 0, c2));
            assert(ruled_bound(s0, 0) == 8);
            assert(passed_at(sol, f, t, s0, 0));
            assert(false);
        }
    }
    assert(!solvable(g0));
    assert forall|p: Seq<Option<u8>>| !(#[trigger] depth_witness(g0, f, md + 1, p)) by {
        if depth_witness(g0, f, md + 1, p) {
            let ci = cell_index(f[0].0 as int, f[0].1 as int);
            assert(0 <= ci < 81);
            assert(cell_at(p, f[0].0 as int, f[0].1 as int) is Some);
            let dv = p[ci]->Some_0;
            assert(1 <= dv <= 9);
            lemma_row_has_digit(t[0]@, dv);
            let c2 = choose|c2: int| 0 <= c2 < 9 && t[0]@[c2] == dv;
            assert(picks(p, f, t, 0, c2));
            assert(ruled_bound(s0, 0) == 8);
            assert(passed_at(p, f, t, s0, 0));
            assert(prefix_picks(p, f, t, s0, 0));
            assert(passed_partial(p, f, t, s0, md + 1));
            assert(false);
        }
    }
    assert(!depth_reachable(g0, f, md + 1));
}

/// Ten to the power `k`.
spec fn pow10(k: nat) -> nat
    decreases k,
{
    if k == 0 {
        1
    } else {
        10 * pow10((k - 1) as nat)
    }
}

/// The candidate choices the stack still admits, weighted so that one step
/// at a shallow level outweighs every step below it. Together with the
/// stack length this strictly drops at each engine iteration, which is the
/// termination argument for the search.
spec fn stack_weight(s: Seq<i8>, n: int) -> int
    decreases s.len(),
{
    if s.len() == 0 {
        0
    } else {
        stack_weight(s.drop_last(), n) + (8 - s.last()) * pow10((n - s.len() + 1) as nat)
    }
}

/// The engine's termination measure.
spec fn engine_measure(s: Seq<i8>, n: int) -> int {
    stack_weight(s, n) + s.len()
}

proof fn lemma_pow10_pos(k: nat)
    ensures
        pow10(k) >= 1,
    decreases k,
{
    if k > 0 {
        lemma_pow10_pos((k - 1) as nat);
    }
}

proof fn lemma_stack_weight_nonneg(s: Seq<i8>, n: int)
    requires
        forall|i: int| 0 <= i < s.len() ==> #[trigger] s[i] <= 8,
    ensures
        stack_weight(s, n) >= 0,
    decreases s.len(),
{
    if s.len() > 0 {
        lemma_stack_weight_nonneg(s.drop_last(), n);
        lemma_pow10_pos((n - s.len() + 1) as nat);
        vstd::arithmetic::mul::lemma_mul_nonnegative(
            8 - s.last(),
            pow10((n - s.len() + 1) as nat) as int,
        );
    }
}

/// Bumping the candidate index at the top level lowers the weight by
/// exactly the level's unit.
proof fn lemma_weight_increment(s: Seq<i8>, v: i8, n: int)
    requires
        s.len() >= 1,
        -1 <= s.last() <= 7,
        v == s.last() + 1,
    ensures
        stack_weight(s.update(s.len() - 1, v), n) == stack_weight(s, n) - pow10(
            (n - s.len() + 1) as nat,
        ),
{
    let s1 = s.update(s.len() - 1, v);
    assert(s1.drop_last() =~= s.drop_last());
    assert(s1.last() == v);
    let p = pow10((n - s.len() + 1) as nat) as int;
    assert((8 - v) * p == (8 - s.last()) * p - p) by (nonlinear_arith)
        requires
            v == s.last() + 1,
    ;
}

/// Opening a fresh level adds nine units of the next-deeper weight.
proof fn lemma_weight_push(s: Seq<i8>, v: i8, n: int)
    ensures
        stack_weight(s.push(v), n) == stack_weight(s, n) + (8 - v) * pow10((n - s.len()) as nat),
{
    let s2 = s.push(v);
    assert(s2.drop_last() =~= s);
    assert(s2.last() == v);
}

/// Distinct cell positions occupy distinct flat indices.
proof fn lemma_cell_index_distinct(x1: int, y1: int, x2: int, y2: int)
    requires
        0 <= x1 < 9,
        0 <= y1 < 9,
        0 <= x2 < 9,
        0 <= y2 < 9,
        !(x1 == x2 && y1 == y2),
    ensures
        cell_index(x1, y1) != cell_index(x2, y2),
{
}

impl Board {
    /// The backtracking engine. `free` is the block-major list of the
    /// board's blank cells and `table` gives one candidate digit order per
    /// free cell; the engine tries candidates depth first, committing a
    /// digit when the whole grid stays valid and backtracking when a
    /// level's nine candidates are spent.
    ///
    /// On `Solved` the board holds a complete valid grid that keeps every
    /// given digit; on `Exhausted` the board is restored exactly to its
    /// initial contents. Exhaustion is conclusive: it is reported exactly
    /// when no complete valid grid extends the givens, and `max_depth` is
    /// then the greatest number of leading free cells that admit any
    /// consistent assignment. A board with no blank cells is reported
    /// solved at once when it is valid and exhausted at once when it is
    /// not.
    #[verifier::loop_isolation(false)]
    #[verifier::rlimit(100)]
    pub fn solve(&mut self, free: &Vec<(usize, usize)>, table: &Vec<Vec<u8>>) -> (r: SolveOutcome)
        requires
            old(self).wf(),
            lists_free_cells(old(self)@, free@),
            table_wf(table@, free@.len() as int),
        ensures
            final(self).wf(),
            r matches SolveOutcome::Solved { .. } ==> {
                &&& grid_valid(final(self)@)
                &&& forall|x: int, y: int|
                    0 <= x < 9 && 0 <= y < 9 ==> cell_at(final(self)@, x, y) is Some
                &&& forall|x: int, y: int|
                    0 <= x < 9 && 0 <= y < 9 && cell_at(old(self)@, x, y) is Some ==> cell_at(
                        final(self)@,
                        x,
                        y,
                    ) == cell_at(old(self)@, x, y)
                &&& solvable(old(self)@)
            },
            r matches SolveOutcome::Exhausted { max_depth, .. } ==> {
                &&& final(self)@ == old(self)@
                &&& max_depth <= free@.len()
                &&& !solvable(old(self)@)
                &&& (max_depth > 0 ==> depth_reachable(old(self)@, free@, max_depth as int))
                &&& !depth_reachable(old(self)@, free@, max_depth as int + 1)
            },
            free@.len() == 0 && grid_valid(old(self)@) ==> r == (SolveOutcome::Solved {
                iterations: 0,
            }),
            free@.len() == 0 && !grid_valid(old(self)@) ==> r == (SolveOutcome::Exhausted {
                iterations: 0,
                max_depth: 0,
            }),
    {
        let ghost g0 = self@;
        if free.len() == 0 {
            if self.is_valid() {
                proof {
                    assert forall|i: int| 0 <= i < 81 implies (#[trigger] g0[i]) is Some by {
                        vstd::arithmetic::div_mod::lemma_fundamental_div_mod(i, 9);
                        assert(cell_index(i % 9, i / 9) == i);
                        if g0[i] is None {
                            assert(cell_at(g0, ((i % 9) as usize) as int, ((i / 9) as usize) as int)
                                is None);
                            assert(free@.contains(((i % 9) as usize, (i / 9) as usize)));
                        }
                    }
                    assert(is_solution(g0, g0));
                }
                return SolveOutcome::Solved { iterations: 0 };
            } else {
                proof {
                    assert forall|sol: Seq<Option<u8>>| !(#[trigger] is_solution(g0, sol)) by {
                        if is_solution(g0, sol) {
                            lemma_subgrid_valid(g0, sol);
                        }
                    }
                    assert(!solvable(g0));
                    assert forall|p: Seq<Option<u8>>|
                        !(#[trigger] depth_witness(g0, free@, 1, p)) by {
                        if depth_witness(g0, free@, 1, p) {
                            lemma_subgrid_valid(g0, p);
                        }
                    }
                    assert(!depth_reachable(g0, free@, 1));
                }
                return SolveOutcome::Exhausted { iterations: 0, max_depth: 0 };
            }
        }
        let n = free.len();
        let mut stack: Vec<i8> = Vec::new();
        stack.push(-1);
        let mut max_depth: usize = 0;
        let mut iterations: u64 = 0;
        proof {
            assert forall|sol: Seq<Option<u8>>| #[trigger] is_solution(g0, sol) implies
                none_skipped(sol, free@, table@, stack@) by {
                assert forall|j: int|
                    0 <= j < stack@.len() && #[trigger] prefix_picks(sol, free@, table@, stack@, j)
                    implies !passed_at(sol, free@, table@, stack@, j) by {
                    if passed_at(sol, free@, table@, stack@, j) {
                        let c = choose|c: int|
                            0 <= c <= ruled_bound(stack@, j) && #[trigger] picks(
                                sol,
                                free@,
                                table@,
                                j,
                                c,
                            );
                        assert(stack@[0] == -1);
                    }
                }
            }
            assert forall|p: Seq<Option<u8>>, j: int|
                0 <= j <= n && #[trigger] depth_witness(g0, free@, j, p) && passed_partial(
                    p,
                    free@,
                    table@,
                    stack@,
                    j,
                ) implies j <= 0 by {
                let m = choose|m: int|
                    0 <= m < stack@.len() && m < j && #[trigger] prefix_picks(
                        p,
                        free@,
                        table@,
                        stack@,
                        m,
                    ) && passed_at(p, free@, table@, stack@, m);
                let c = choose|c: int|
                    0 <= c <= ruled_bound(stack@, m) && #[trigger] picks(p, free@, table@, m, c);
                assert(stack@[0] == -1);
                assert(false);
            }
        }
        loop
            invariant
                self.wf(),
                1 <= stack@.len() <= n,
                forall|i: int| 0 <= i < stack@.len() ==> -1 <= #[trigger] stack@[i] <= 8,
                forall|i: int|
                    0 <= i < stack@.len() && #[trigger] stack@[i] == -1 ==> i == stack@.len() - 1
                        && cell_at(self@, free@[i].0 as int, free@[i].1 as int) is None,
                forall|i: int|
                    0 <= i < stack@.len() && #[trigger] stack@[i] != -1 ==> cell_at(
                        self@,
                        free@[i].0 as int,
                        free@[i].1 as int,
                    ) == Some(table@[i]@[stack@[i] as int]),
                forall|i: int|
                    stack@.len() <= i < n ==> cell_at(
                        self@,
                        (#[trigger] free@[i]).0 as int,
                        free@[i].1 as int,
                    ) is None,
                forall|x: int, y: int|
                    0 <= x < 9 && 0 <= y < 9 && cell_at(g0, x, y) is Some ==> cell_at(self@, x, y)
                        == cell_at(g0, x, y),
                max_depth < n,
                forall|sol: Seq<Option<u8>>|
                    #[trigger] is_solution(g0, sol) ==> none_skipped(sol, free@, table@, stack@),
                max_depth > 0 ==> depth_reachable(g0, free@, max_depth as int),
                max_depth >= stack@.len() - 1,
                forall|p: Seq<Option<u8>>, j: int|
                    0 <= j <= n && #[trigger] depth_witness(g0, free@, j, p) && passed_partial(
                        p,
                        free@,
                        table@,
                        stack@,
                        j,
                    ) ==> j <= max_depth,
            decreases engine_measure(stack@, n as int),
        {
            let level = stack.len() - 1;
            let idx = stack[level];
            let ghost s0 = stack@;
            proof {
                lemma_stack_weight_nonneg(s0, n as int);
            }
            if idx < 8 {
                stack[level] = idx + 1;
                proof {
                    lemma_weight_increment(s0, (idx + 1) as i8, n as int);
                    lemma_stack_weight_nonneg(stack@, n as int);
                    lemma_pow10_pos((n - s0.len() + 1) as nat);
                }
                let pos = free[level];
                let digit = table[level][(idx + 1) as usize];
                let ghost g_prev = self@;
                self.set(pos.0, pos.1, Some(digit));
                proof {
                    assert forall|x: int, y: int|
                        0 <= x < 9 && 0 <= y < 9 && !(x == pos.0 as int && y
                            == pos.1 as int) implies cell_at(self@, x, y) == cell_at(
                        g_prev,
                        x,
                        y,
                    ) by {
                        lemma_cell_index_distinct(x, y, pos.0 as int, pos.1 as int);
                    }
                }
                let valid = self.is_valid();
                if valid {
                    if stack.len() == n {
                        proof {
                            assert forall|x: int, y: int|
                                0 <= x < 9 && 0 <= y < 9 implies cell_at(self@, x, y) is Some by {
                                if cell_at(g0, x, y) is None {
                                    assert(free@.contains((x as usize, y as usize)));
                                    let i = choose|i: int|
                                        0 <= i < free@.len() && free@[i] == (
                                        x as usize,
                                        y as usize,
                                        );
                                    assert(stack@[i] != -1);
                                }
                            }
                            assert forall|i: int| 0 <= i < 81 implies (#[trigger] self@[i])
                                is Some by {
                                vstd::arithmetic::div_mod::lemma_fundamental_div_mod(i, 9);
                                assert(cell_index(i % 9, i / 9) == i);
                                assert(cell_at(self@, i % 9, i / 9) is Some);
                            }
                            assert forall|i: int|
                                0 <= i < 81 && (#[trigger] g0[i]) is Some implies self@[i] == g0[i]
                                by {
                                vstd::arithmetic::div_mod::lemma_fundamental_div_mod(i, 9);
                                let x = i % 9;
                                let y = i / 9;
                                assert(cell_index(x, y) == i);
                                if x == pos.0 as int && y == pos.1 as int {
                                    assert(cell_at(g0, pos.0 as int, pos.1 as int) is None);
                                }
                                assert(cell_at(self@, x, y) == cell_at(g_prev, x, y));
                                assert(cell_at(g_prev, x, y) == cell_at(g0, x, y));
                            }
                            assert(is_solution(g0, self@));
                        }
                        return SolveOutcome::Solved { iterations };
                    } else {
                        let ghost md0 = max_depth;
                        if stack.len() > max_depth {
                            max_depth = stack.len();
                            proof {
                                let f = free@;
                                let t = table@;
                                let li = level as int;
                                assert forall|i: int|
                                    0 <= i < stack@.len() implies cell_at(
                                    self@,
                                    (#[trigger] f[i]).0 as int,
                                    f[i].1 as int,
                                ) is Some by {
                                    if i < li {
                                        assert(s0[i] != -1);
                                        assert(f[i] != f[li]);
                                        assert(cell_at(self@, f[i].0 as int, f[i].1 as int)
                                            == cell_at(g_prev, f[i].0 as int, f[i].1 as int));
                                        assert(cell_at(g_prev, f[i].0 as int, f[i].1 as int)
                                            == Some(t[i]@[s0[i] as int]));
                                    } else {
                                        assert(cell_at(self@, pos.0 as int, pos.1 as int) == Some(
                                            digit,
                                        ));
                                    }
                                }
                                assert forall|i: int|
                                    0 <= i < 81 && (#[trigger] g0[i]) is Some implies self@[i]
                                    == g0[i] by {
                                    vstd::arithmetic::div_mod::lemma_fundamental_div_mod(i, 9);
                                    let x = i % 9;
                                    let y = i / 9;
                                    assert(cell_index(x, y) == i);
                                    if x == pos.0 as int && y == pos.1 as int {
                                        assert(cell_at(g0, pos.0 as int, pos.1 as int) is None);
                                    }
                                    assert(cell_at(self@, x, y) == cell_at(g_prev, x, y));
                                    assert(cell_at(g_prev, x, y) == cell_at(g0, x, y));
                                }
                                assert(depth_witness(g0, f, max_depth as int, self@));
                                assert(depth_reachable(g0, f, max_depth as int));
                            }
                        }
                        let ghost s1 = stack@;
                        stack.push(-1);
                        proof {
                            lemma_weight_push(s1, -1i8, n as int);
                            lemma_pow10_pos((n - s1.len()) as nat);
                            lemma_stack_weight_nonneg(stack@, n as int);
                            lemma_frontier_descend(
                                g0,
                                free@,
                                table@,
                                s0,
                                idx,
                                n as int,
                                md0 as int,
                            );
                            assert(stack@ == s0.update(s0.len() - 1, (idx + 1) as i8).push(-1i8));
                        }
                    }
                } else {
                    proof {
                        lemma_frontier_advance(
                            g0,
                            free@,
                            table@,
                            s0,
                            g_prev,
                            self@,
                            idx,
                            n as int,
                            max_depth as int,
                        );
                        assert(stack@ == s0.update(s0.len() - 1, (idx + 1) as i8));
                    }
                }
            } else {
                let pos = free[level];
                let ghost g_prev = self@;
                self.set(pos.0, pos.1, None);
                proof {
                    assert forall|x: int, y: int|
                        0 <= x < 9 && 0 <= y < 9 && !(x == pos.0 as int && y
                            == pos.1 as int) implies cell_at(self@, x, y) == cell_at(
                        g_prev,
                        x,
                        y,
                    ) by {
                        lemma_cell_index_distinct(x, y, pos.0 as int, pos.1 as int);
                    }
                }
                if stack.len() > 1 {
                    let _ = stack.pop();
                    proof {
                        lemma_stack_weight_nonneg(stack@, n as int);
                        lemma_frontier_backtrack(
                            g0,
                            free@,
                            table@,
                            s0,
                            n as int,
                            max_depth as int,
                        );
                        assert(stack@ == s0.drop_last());
                    }
                } else {
                    proof {
                        assert forall|i: int| 0 <= i < 81 implies self@[i] == g0[i] by {
                            vstd::arithmetic::div_mod::lemma_fundamental_div_mod(i, 9);
                            let x = i % 9;
                            let y = i / 9;
                            assert(cell_index(x, y) == i);
                            if cell_at(g0, x, y) is None {
                                assert(free@.contains((x as usize, y as usize)));
                                let j = choose|j: int|
                                    0 <= j < free@.len() && free@[j] == (x as usize, y as usize);
                                if j > 0 {
                                    assert(cell_at(g_prev, free@[j].0 as int, free@[j].1 as int)
                                        is None);
                                }
                                assert(cell_at(self@, x, y) is None);
                            }
                        }
                        assert(self@ =~= g0);
                        lemma_frontier_exhausted(
                            g0,
                            free@,
                            table@,
                            s0,
                            n as int,
                            max_depth as int,
                        );
                    }
                    return SolveOutcome::Exhausted { iterations, max_depth };
                }
            }
            iterations = if iterations < u64::MAX {
                iterations + 1
            } else {
                iterations
            };
        }
    }

    /// Run a whole search on this board: enumerate its blank cells, draw a
    /// fresh random candidate order for each, and hand both to the engine.
    pub fn solve_random(&mut self) -> (r: SolveOutcome)
        requires
            old(self).wf(),
        ensures
            final(self).wf(),
            r matches SolveOutcome::Solved { .. } ==> {
                &&& grid_valid(final(self)@)
                &&& forall|x: int, y: int|
                    0 <= x < 9 && 0 <= y < 9 ==> cell_at(final(self)@, x, y) is Some
                &&& forall|x: int, y: int|
                    0 <= x < 9 && 0 <= y < 9 && cell_at(old(self)@, x, y) is Some ==> cell_at(
                        final(self)@,
                        x,
                        y,
                    ) == cell_at(old(self)@, x, y)
                &&& solvable(old(self)@)
            },
            r matches SolveOutcome::Exhausted { .. } ==> final(self)@ == old(self)@
                && !solvable(old(self)@),
            (forall|x: int, y: int| 0 <= x < 9 && 0 <= y < 9 ==> cell_at(old(self)@, x, y) is Some)
                && grid_valid(old(self)@) ==> r == (SolveOutcome::Solved { iterations: 0 }),
    {
        let ghost g0 = self@;
        let free = self.get_empty_cells();
        let table = build_candidate_table(free.len());
        let r = self.solve(&free, &table);
        proof {
            if (forall|x: int, y: int| 0 <= x < 9 && 0 <= y < 9 ==> cell_at(g0, x, y) is Some)
                && free@.len() > 0 {
                assert(cell_at(g0, free@[0].0 as int, free@[0].1 as int) is None);
                assert(false);
            }
        }
        r
    }
}

} // verus!
