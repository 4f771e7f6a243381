use vstd::prelude::*;
use vstd::relations::injective_on;
use vstd::set_lib::{lemma_int_range, lemma_len_subset, lemma_map_size, set_int_range};

verus! {

/// `f` sends rows `start..` of `m` to distinct free columns below `cols`,
/// each to a column that the row accepts; `f[k]` serves row `start + k`.
pub open spec fn assigns_from(
    m: Seq<Seq<bool>>,
    cols: int,
    start: int,
    used: Seq<bool>,
    f: Seq<int>,
) -> bool {
    &&& f.len() == m.len() - start
    &&& forall|k: int|
        0 <= k < f.len() ==> 0 <= #[trigger] f[k] < cols && !used[f[k]] && m[start + k][f[k]]
    &&& forall|k1: int, k2: int| 0 <= k1 < f.len() && 0 <= k2 < f.len() && k1 != k2 ==> f[k1] != f[k2]
}

/// `cols` columns, none of them taken.
pub open spec fn all_free(cols: int) -> Seq<bool> {
    Seq::new(cols as nat, |k: int| false)
}

/// Every row of `m` can be given its own accepted column below `cols`.
pub open spec fn has_assignment(m: Seq<Seq<bool>>, cols: int) -> bool {
    exists|f: Seq<int>| #[trigger] assigns_from(m, cols, 0, all_free(cols), f)
}

/// The rows of a matrix held in vectors.
pub open spec fn rows_of(m: Seq<Vec<bool>>) -> Seq<Seq<bool>> {
    m.map_values(|row: Vec<bool>| row@)
}

/// Each row holds at most one column.
pub open spec fn one_each(owner: Seq<Option<usize>>) -> bool {
    forall|c1: int, c2: int|
        0 <= c1 < owner.len() && 0 <= c2 < owner.len() && owner[c1] is Some && #[trigger] owner[c1]
            == #[trigger] owner[c2] ==> c1 == c2
}

/// Every held column is accepted by the row that holds it.
pub open spec fn fits(m: Seq<Seq<bool>>, owner: Seq<Option<usize>>) -> bool {
    forall|c: int|
        0 <= c < owner.len() && #[trigger] owner[c] is Some ==> owner[c]->0 < m.len()
            && m[owner[c]->0 as int][c]
}

/// Row `x` holds column `c`.
pub open spec fn holds(owner: Seq<Option<usize>>, c: int, x: int) -> bool {
    0 <= c < owner.len() && owner[c] is Some && owner[c]->0 as int == x
}

/// Row `x` holds some column.
pub open spec fn matched(owner: Seq<Option<usize>>, x: int) -> bool {
    exists|c: int| #[trigger] holds(owner, c, x)
}

/// Every column that row `r` accepts has been visited.
pub open spec fn closed(m: Seq<Seq<bool>>, r: int, seen: Seq<bool>) -> bool {
    forall|c: int| 0 <= c < seen.len() && #[trigger] m[r][c] ==> seen[c]
}

/// Every column visited in `s1` is visited in `s2`.
pub open spec fn grows(s1: Seq<bool>, s2: Seq<bool>) -> bool {
    s1.len() == s2.len() && forall|i: int| 0 <= i < s1.len() && #[trigger] s1[i] ==> s2[i]
}

proof fn lemma_grows_trans(a: Seq<bool>, b: Seq<bool>, c: Seq<bool>)
    requires
        grows(a, b),
        grows(b, c),
    ensures
        grows(a, c),
{
    assert forall|i: int| 0 <= i < a.len() && #[trigger] a[i] implies c[i] by {
        assert(b[i]);
    }
}

proof fn lemma_closed_grows(m: Seq<Seq<bool>>, r: int, s1: Seq<bool>, s2: Seq<bool>)
    requires
        closed(m, r, s1),
        grows(s1, s2),
    ensures
        closed(m, r, s2),
{
    assert forall|c: int| 0 <= c < s2.len() && #[trigger] m[r][c] implies s2[c] by {
        assert(s1[c]);
    }
}

/// The number of columns not yet visited.
pub open spec fn unvisited(s: Seq<bool>) -> nat
    decreases s.len(),
{
    if s.len() == 0 {
        0
    } else {
        unvisited(s.drop_last()) + if s.last() {
            0nat
        } else {
            1nat
        }
    }
}

proof fn lemma_unvisited_grows(s1: Seq<bool>, s2: Seq<bool>)
    requires
        grows(s1, s2),
    ensures
        unvisited(s2) <= unvisited(s1),
    decreases s1.len(),
{
    if s1.len() > 0 {
        assert(grows(s1.drop_last(), s2.drop_last()));
        lemma_unvisited_grows(s1.drop_last(), s2.drop_last());
        assert(s1.last() ==> s2.last());
    }
}

proof fn lemma_unvisited_visit(s: Seq<bool>, i: int)
    requires
        0 <= i < s.len(),
        !s[i],
    ensures
        unvisited(s.update(i, true)) < unvisited(s),
    decreases s.len(),
{
    let t = s.update(i, true);
    if i == s.len() - 1 {
        assert(t.drop_last() =~= s.drop_last());
    } else {
        assert(t.drop_last() =~= s.drop_last().update(i, true));
        lemma_unvisited_visit(s.drop_last(), i);
    }
}

/// Once a row is stuck, some set of rows accepts fewer columns than it has
/// rows, so no assignment exists: the visited columns are held by distinct
/// rows that accept nothing else, and together with the stuck row they
/// outnumber those columns.
proof fn lemma_stuck(
    m: Seq<Seq<bool>>,
    cols: int,
    owner: Seq<Option<usize>>,
    seen: Seq<bool>,
    u: int,
)
    requires
        0 <= u < m.len(),
        forall|i: int| 0 <= i < m.len() ==> #[trigger] m[i].len() == cols,
        seen.len() == cols,
        owner.len() == cols,
        one_each(owner),
        fits(m, owner),
        !matched(owner, u),
        closed(m, u, seen),
        forall|c: int|
            0 <= c < cols && #[trigger] seen[c] ==> owner[c] is Some && closed(
                m,
                owner[c]->0 as int,
                seen,
            ),
    ensures
        !has_assignment(m, cols),
{
    let visited = Set::new(|c: int| 0 <= c < cols && seen[c]);
    lemma_int_range(0, cols);
    lemma_len_subset(visited, set_int_range(0, cols));
    let holder = |c: int| owner[c]->0 as int;
    assert(injective_on(holder, visited)) by {
        assert forall|c1: int, c2: int|
            visited.contains(c1) && visited.contains(c2) && #[trigger] holder(c1) == #[trigger] holder(
                c2,
            ) implies c1 == c2 by {
            assert(owner[c1] == owner[c2]);
        }
    }
    let holders = visited.map(holder);
    lemma_map_size(visited, holders, holder);
    if holders.contains(u) {
        let c = choose|c: int| visited.contains(c) && u == holder(c);
        assert(0 <= c < cols && seen[c]);
        assert(owner[c] is Some);
        assert(holds(owner, c, u));
        assert(matched(owner, u));
    }
    let group = holders.insert(u);
    assert(group.len() == visited.len() + 1);
    if has_assignment(m, cols) {
        let f = choose|f: Seq<int>| #[trigger] assigns_from(m, cols, 0, all_free(cols), f);
        let pick = |q: int| f[q];
        assert forall|q: int| #[trigger] group.contains(q) implies 0 <= q < m.len() && closed(
            m,
            q,
            seen,
        ) by {
            if q != u {
                let c = choose|c: int| visited.contains(c) && q == holder(c);
            }
        }
        assert(injective_on(pick, group)) by {
            assert forall|q1: int, q2: int|
                group.contains(q1) && group.contains(q2) && #[trigger] pick(q1) == #[trigger] pick(
                    q2,
                ) implies q1 == q2 by {
                assert(0 <= q1 < f.len() && 0 <= q2 < f.len());
            }
        }
        let picked = group.map(pick);
        lemma_map_size(group, picked, pick);
        assert forall|c: int| #[trigger] picked.contains(c) implies visited.contains(c) by {
            let q = choose|q: int| group.contains(q) && c == pick(q);
            assert(0 <= f[q] < cols && m[0 + q][f[q]]);
        }
        lemma_len_subset(picked, visited);
    }
}

/// Looks for an augmenting path from row `r`, which holds no column, over
/// columns not yet visited. On success every row that held a column still
/// holds one and `r` holds one too; on failure nothing changes, and every
/// column newly visited is held by a row whose accepted columns are all
/// visited, as are those of `r`.
fn augment(
    m: &Vec<Vec<bool>>,
    cols: usize,
    r: usize,
    seen: &mut Vec<bool>,
    owner: &mut Vec<Option<usize>>,
) -> (found: bool)
    requires
        r < m@.len(),
        forall|i: int| 0 <= i < m@.len() ==> #[trigger] m@[i]@.len() == cols,
        old(seen)@.len() == cols,
        old(owner)@.len() == cols,
        one_each(old(owner)@),
        fits(rows_of(m@), old(owner)@),
        !matched(old(owner)@, r as int),
    ensures
        final(seen)@.len() == cols,
        final(owner)@.len() == cols,
        grows(old(seen)@, final(seen)@),
        forall|c: int| 0 <= c < cols && old(seen)@[c] ==> #[trigger] final(owner)@[c] == old(owner)@[c],
        found ==> one_each(final(owner)@) && fits(rows_of(m@), final(owner)@) && forall|x: int|
            matched(final(owner)@, x) <==> (matched(old(owner)@, x) || x == r),
        !found ==> final(owner)@ == old(owner)@ && closed(rows_of(m@), r as int, final(seen)@)
            && forall|c: int|
            0 <= c < cols && #[trigger] final(seen)@[c] && !old(seen)@[c] ==> old(owner)@[c] is Some
                && closed(rows_of(m@), old(owner)@[c]->0 as int, final(seen)@),
    decreases unvisited(old(seen)@),
{
    let ghost mm = rows_of(m@);
    let ghost seen0 = seen@;
    let ghost owner0 = owner@;
    let mut c: usize = 0;
    while c < cols
        invariant
            c <= cols,
            mm == rows_of(m@),
            r < m@.len(),
            forall|i: int| 0 <= i < m@.len() ==> #[trigger] m@[i]@.len() == cols,
            seen0 == old(seen)@,
            owner0 == old(owner)@,
            seen0.len() == cols,
            owner0.len() == cols,
            one_each(owner0),
            fits(mm, owner0),
            !matched(owner0, r as int),
            seen@.len() == cols,
            owner@ == owner0,
            grows(seen0, seen@),
            unvisited(seen@) <= unvisited(seen0),
            forall|c2: int| 0 <= c2 < c && #[trigger] mm[r as int][c2] ==> seen@[c2],
            forall|x: int|
                0 <= x < cols && #[trigger] seen@[x] && !seen0[x] ==> owner0[x] is Some && closed(
                    mm,
                    owner0[x]->0 as int,
                    seen@,
                ),
        decreases cols - c,
    {
        assert(mm[r as int] == m@[r as int]@);
        if m[r][c] && !seen[c] {
            let ghost before = seen@;
            seen.set(c, true);
            proof {
                lemma_unvisited_visit(before, c as int);
            }
            match owner[c] {
                None => {
                    owner.set(c, Some(r));
                    proof {
                        assert forall|x: int|
                            matched(owner@, x) <==> (matched(owner0, x) || x == r) by {
                            if matched(owner@, x) {
                                let k = choose|k: int| #[trigger] holds(owner@, k, x);
                                if k != c {
                                    assert(holds(owner0, k, x));
                                }
                            }
                            if matched(owner0, x) {
                                let k = choose|k: int| #[trigger] holds(owner0, k, x);
                                assert(holds(owner@, k, x));
                            }
                            if x == r {
                                assert(holds(owner@, c as int, x));
                            }
                        }
                        assert(one_each(owner@)) by {
                            assert forall|c1: int, c2: int|
                                0 <= c1 < owner@.len() && 0 <= c2 < owner@.len() && owner@[c1] is Some
                                    && #[trigger] owner@[c1] == #[trigger] owner@[c2] implies c1 == c2 by {
                                if c1 == c && c2 != c {
                                    assert(holds(owner0, c2, r as int));
                                }
                                if c2 == c && c1 != c {
                                    assert(holds(owner0, c1, r as int));
                                }
                            }
                        }
                    }
                    return true;
                },
                Some(r2) => {
                    owner.set(c, Some(r));
                    let ghost tent = owner@;
                    let ghost marked = seen@;
                    proof {
                        assert(holds(owner0, c as int, r2 as int));
                        assert(one_each(tent)) by {
                            assert forall|c1: int, c2: int|
                                0 <= c1 < tent.len() && 0 <= c2 < tent.len() && tent[c1] is Some
                                    && #[trigger] tent[c1] == #[trigger] tent[c2] implies c1 == c2 by {
                                if c1 == c && c2 != c {
                                    assert(holds(owner0, c2, r as int));
                                }
                                if c2 == c && c1 != c {
                                    assert(holds(owner0, c1, r as int));
                                }
                            }
                        }
                        assert(!matched(tent, r2 as int)) by {
                            if matched(tent, r2 as int) {
                                let k = choose|k: int| #[trigger] holds(tent, k, r2 as int);
                                assert(owner0[k] == owner0[c as int]);
                            }
                        }
                    }
                    let ok = augment(m, cols, r2, seen, owner);
                    proof {
                        assert(grows(before, marked));
                        lemma_grows_trans(seen0, before, marked);
                        lemma_grows_trans(seen0, marked, seen@);
                        lemma_grows_trans(before, marked, seen@);
                    }
                    if ok {
                        proof {
                            assert forall|x: int|
                                matched(owner@, x) <==> (matched(owner0, x) || x == r) by {
                                if matched(tent, x) {
                                    let k = choose|k: int| #[trigger] holds(tent, k, x);
                                    if k != c {
                                        assert(holds(owner0, k, x));
                                    }
                                }
                                if matched(owner0, x) && x != r2 {
                                    let k = choose|k: int| #[trigger] holds(owner0, k, x);
                                    assert(k != c);
                                    assert(holds(tent, k, x));
                                }
                                if x == r {
                                    assert(holds(tent, c as int, x));
                                }
                            }
                        }
                        return true;
                    }
                    owner.set(c, Some(r2));
                    proof {
                        assert(owner@ =~= owner0);
                        lemma_unvisited_grows(marked, seen@);
                        assert forall|x: int|
                            0 <= x < cols && #[trigger] seen@[x] && !seen0[x] implies owner0[x] is Some
                            && closed(mm, owner0[x]->0 as int, seen@) by {
                            if x == c {
                            } else if before[x] {
                                lemma_closed_grows(mm, owner0[x]->0 as int, before, seen@);
                            } else {
                                assert(tent[x] == owner0[x]);
                            }
                        }
                    }
                },
            }
        }
        c = c + 1;
    }
    false
}

/// Whether every row of the matrix can be given its own accepted column.
/// `m[i][j]` says whether row `i` accepts column `j`. Rows are added one at
/// a time, each along an augmenting path.
pub fn assign_rows(m: &Vec<Vec<bool>>, cols: usize) -> (r: bool)
    requires
        forall|i: int| 0 <= i < m@.len() ==> #[trigger] m@[i]@.len() == cols,
    ensures
        r == has_assignment(m@.map_values(|row: Vec<bool>| row@), cols as int),
{
    let ghost mm = rows_of(m@);
    let mut owner: Vec<Option<usize>> = Vec::new();
    let mut k: usize = 0;
    while k < cols
        invariant
            k <= cols,
            owner@.len() == k,
            forall|c: int| 0 <= c < k ==> #[trigger] owner@[c] is None,
        decreases cols - k,
    {
        owner.push(None);
        k = k + 1;
    }
    let mut u: usize = 0;
    while u < m.len()
        invariant
            u <= m@.len(),
            mm == rows_of(m@),
            forall|i: int| 0 <= i < m@.len() ==> #[trigger] m@[i]@.len() == cols,
            owner@.len() == cols,
            one_each(owner@),
            fits(mm, owner@),
            forall|x: int| matched(owner@, x) <==> 0 <= x < u,
        decreases m@.len() - u,
    {
        let mut seen: Vec<bool> = Vec::new();
        let mut j: usize = 0;
        while j < cols
            invariant
                j <= cols,
                seen@.len() == j,
                forall|c: int| 0 <= c < j ==> !#[trigger] seen@[c],
            decreases cols - j,
        {
            seen.push(false);
            j = j + 1;
        }
        let ghost seen0 = seen@;
        let ok = augment(m, cols, u, &mut seen, &mut owner);
        if !ok {
            proof {
                assert forall|i: int| 0 <= i < mm.len() implies #[trigger] mm[i].len() == cols by {
                    assert(mm[i] == m@[i]@);
                }
                lemma_stuck(mm, cols as int, owner@, seen@, u as int);
            }
            return false;
        }
        u = u + 1;
    }
    proof {
        let n = mm.len() as int;
        let f = Seq::new(
            n as nat,
            |x: int| choose|c: int| #[trigger] holds(owner@, c, x),
        );
        assert forall|x: int| 0 <= x < f.len() implies #[trigger] holds(owner@, f[x], x) by {
            assert(matched(owner@, x));
        }
        assert forall|k1: int| 0 <= k1 < f.len() implies 0 <= #[trigger] f[k1] < cols && !all_free(
            cols as int,
        )[f[k1]] && mm[0 + k1][f[k1]] by {
            assert(holds(owner@, f[k1], k1));
        }
        assert forall|k1: int, k2: int|
            0 <= k1 < f.len() && 0 <= k2 < f.len() && k1 != k2 implies f[k1] != f[k2] by {
            assert(holds(owner@, f[k1], k1));
            assert(holds(owner@, f[k2], k2));
        }
        assert(assigns_from(mm, cols as int, 0, all_free(cols as int), f));
    }
    true
}

} // verus!
