//! Reordering a transform-order codeword into physical order in place, by
//! following the cycles of the index permutation.
use crate::codec::{count_true, lemma_count_all_false, lemma_count_le, lemma_count_update};
use crate::field::Ext;
use crate::layout::{l2p, lemma_layout_bijection, logical_to_physical, p2l};
use crate::profile::ExtProfile;
use vstd::prelude::*;

verus! {

/// The physical-position map is injective on `0..2k`.
pub proof fn lemma_l2p_injective(k: int, a: int, b: int)
    requires
        0 <= a < 2 * k,
        0 <= b < 2 * k,
        l2p(k, a) == l2p(k, b),
    ensures
        a == b,
{
    lemma_layout_bijection(k, a);
    lemma_layout_bijection(k, b);
}

/// Position `j` was written while following `path`.
pub open spec fn written(k: int, path: Seq<usize>, j: int) -> bool {
    exists|t: int| 0 <= t < path.len() && #[trigger] l2p(k, path[t] as int) == j
}

/// The flags are closed under the permutation, in both directions.
#[verifier::opaque]
pub open spec fn closed_under(k: int, m: int, v: Seq<bool>) -> bool {
    forall|i: int| 0 <= i < m ==> (#[trigger] v[i] <==> v[l2p(k, i)])
}

/// Flagged positions hold their preimage; the others are untouched.
#[verifier::opaque]
pub open spec fn agrees(k: int, m: int, v: Seq<bool>, cw: Seq<Ext>, old: Seq<Ext>) -> bool {
    forall|j: int| 0 <= j < m ==> #[trigger] cw[j] == if v[j] { old[p2l(k, j)] } else { old[j] }
}

/// `path` follows the permutation from `start`, through unflagged
/// positions, without repeating, and `current` is where it leads.
#[verifier::opaque]
pub open spec fn path_ok(k: int, m: int, start: usize, current: usize, path: Seq<usize>, vis0: Seq<bool>) -> bool {
    &&& path.len() == 0 ==> current == start
    &&& path.len() > 0 ==> path[0] == start && current as int == l2p(k, path.last() as int)
    &&& forall|t: int| 0 <= t < path.len() - 1 ==> path[t + 1] as int == #[trigger] l2p(k, path[t] as int)
    &&& forall|t: int| 0 <= t < path.len() ==> #[trigger] path[t] < m && !vis0[path[t] as int]
    &&& forall|t1: int, t2: int| 0 <= t1 < t2 < path.len() ==> path[t1] != path[t2]
}

/// The flags are the earlier flags plus the path.
#[verifier::opaque]
pub open spec fn visited_ok(m: int, visited: Seq<bool>, vis0: Seq<bool>, path: Seq<usize>) -> bool {
    forall|i: int| 0 <= i < m ==> (#[trigger] visited[i] <==> (vis0[i] || path.contains(i as usize)))
}

/// Positions of earlier cycles and positions written along the path hold
/// their preimage; the others are untouched.
#[verifier::opaque]
pub open spec fn written_ok(k: int, m: int, cw: Seq<Ext>, vis0: Seq<bool>, path: Seq<usize>, old: Seq<Ext>) -> bool {
    forall|j: int| 0 <= j < m ==> #[trigger] cw[j] == if vis0[j] || written(k, path, j) { old[p2l(k, j)] } else { old[j] }
}

/// The next position is unflagged and not yet written, so it still holds
/// its original symbol.
proof fn lemma_next_unwritten(k: int, m: int, start: usize, current: usize, path: Seq<usize>, vis0: Seq<bool>, cw: Seq<Ext>, old: Seq<Ext>)
    requires
        m == 2 * k,
        m <= usize::MAX,
        vis0.len() == m,
        closed_under(k, m, vis0),
        path_ok(k, m, start, current, path, vis0),
        written_ok(k, m, cw, vis0, path, old),
        current < m,
        !vis0[current as int],
        !path.contains(current),
    ensures
        0 <= l2p(k, current as int) < m,
        !vis0[l2p(k, current as int)],
        !written(k, path, l2p(k, current as int)),
        cw[l2p(k, current as int)] == old[l2p(k, current as int)],
{
    reveal(closed_under);
    reveal(written_ok);
    reveal(path_ok);
    lemma_layout_bijection(k, current as int);
    let next = l2p(k, current as int);
    assert(vis0[current as int] <==> vis0[next]);
    if written(k, path, next) {
        let t = choose|t: int| 0 <= t < path.len() && #[trigger] l2p(k, path[t] as int) == next;
        lemma_l2p_injective(k, path[t] as int, current as int);
        assert(path[t] == current);
    }
}

/// One step along the cycle keeps the loop's invariants.
proof fn lemma_step(
    k: int,
    m: int,
    start: usize,
    current: usize,
    path: Seq<usize>,
    vis0: Seq<bool>,
    visited: Seq<bool>,
    cw: Seq<Ext>,
    old: Seq<Ext>,
    carry: Ext,
)
    requires
        m == 2 * k,
        m <= usize::MAX,
        vis0.len() == m,
        visited.len() == m,
        cw.len() == m,
        closed_under(k, m, vis0),
        path_ok(k, m, start, current, path, vis0),
        visited_ok(m, visited, vis0, path),
        written_ok(k, m, cw, vis0, path, old),
        current < m,
        !vis0[current as int],
        !path.contains(current),
        carry == old[current as int],
    ensures
        path_ok(k, m, start, l2p(k, current as int) as usize, path.push(current), vis0),
        visited_ok(m, visited.update(current as int, true), vis0, path.push(current)),
        written_ok(k, m, cw.update(l2p(k, current as int), carry), vis0, path.push(current), old),
{
    reveal(path_ok);
    reveal(visited_ok);
    reveal(written_ok);
    lemma_layout_bijection(k, current as int);
    let next = l2p(k, current as int);
    let np = path.push(current);
    let v2 = visited.update(current as int, true);
    let cw2 = cw.update(next, carry);
    assert(np.last() == current);
    assert forall|t: int| 0 <= t < np.len() - 1 implies np[t + 1] as int == #[trigger] l2p(k, np[t] as int) by {
        if t + 1 < path.len() {
            assert(np[t + 1] == path[t + 1] && np[t] == path[t]);
        }
    }
    assert forall|t1: int, t2: int| 0 <= t1 < t2 < np.len() implies np[t1] != np[t2] by {
        if t2 == path.len() {
            assert(np[t1] == path[t1]);
            assert(path.contains(path[t1]));
        }
    }
    assert forall|i: int| 0 <= i < m implies (#[trigger] v2[i] <==> (vis0[i] || np.contains(i as usize))) by {
        if i == current {
            assert(np[np.len() - 1] == current);
        } else if path.contains(i as usize) {
            let t = path.index_of(i as usize);
            assert(np[t] == i);
        } else if np.contains(i as usize) {
            let t = np.index_of(i as usize);
            assert(path[t] == i);
        }
    }
    assert forall|j: int| 0 <= j < m implies (written(k, np, j) <==> written(k, path, j) || j == next) by {
        if written(k, np, j) {
            let t = choose|t: int| 0 <= t < np.len() && #[trigger] l2p(k, np[t] as int) == j;
            if t < path.len() {
                assert(path[t] == np[t]);
            }
        }
        if written(k, path, j) {
            let t = choose|t: int| 0 <= t < path.len() && #[trigger] l2p(k, path[t] as int) == j;
            assert(np[t] == path[t]);
        }
        if j == next {
            assert(l2p(k, np[np.len() - 1] as int) == j);
        }
    }
    assert forall|j: int| 0 <= j < m implies #[trigger] cw2[j] == if vis0[j] || written(k, np, j) { old[p2l(k, j)] } else { old[j] } by {
    }
}

/// After a step that did not return to the start, the new position is
/// fresh.
#[verifier::rlimit(40)]
proof fn lemma_fresh(k: int, m: int, start: usize, current: usize, path: Seq<usize>, vis0: Seq<bool>)
    requires
        m == 2 * k,
        m <= usize::MAX,
        vis0.len() == m,
        closed_under(k, m, vis0),
        path_ok(k, m, start, current, path, vis0),
        path.len() > 0,
        current != start,
    ensures
        current < m,
        !vis0[current as int],
        !path.contains(current),
{
    reveal(path_ok);
    reveal(closed_under);
    let last = path.last();
    lemma_layout_bijection(k, last as int);
    assert(vis0[last as int] <==> vis0[l2p(k, last as int)]);
    if path.contains(current) {
        let t = path.index_of(current);
        if t > 0 {
            assert(path[t] as int == l2p(k, path[t - 1] as int));
            lemma_l2p_injective(k, path[t - 1] as int, last as int);
        }
    }
}

/// On a path that returns to its start, the successor of a path position
/// is on the path.
proof fn lemma_cycle_succ(k: int, m: int, start: usize, path: Seq<usize>, vis0: Seq<bool>, t: int)
    requires
        m == 2 * k,
        m <= usize::MAX,
        path_ok(k, m, start, start, path, vis0),
        path.len() > 0,
        0 <= t < path.len(),
    ensures
        path.contains(l2p(k, path[t] as int) as usize),
{
    reveal(path_ok);
    if t < path.len() - 1 {
        assert(path[t + 1] as int == l2p(k, path[t] as int));
        assert(path.contains(path[t + 1]));
    } else {
        assert(path[0] as int == l2p(k, path[t] as int));
        assert(path.contains(path[0]));
    }
}

/// On a path that returns to its start, the predecessor of a path position
/// is on the path.
proof fn lemma_cycle_pred(k: int, m: int, start: usize, path: Seq<usize>, vis0: Seq<bool>, i: int)
    requires
        m == 2 * k,
        m <= usize::MAX,
        path_ok(k, m, start, start, path, vis0),
        path.len() > 0,
        0 <= i < m,
        path.contains(l2p(k, i) as usize),
    ensures
        path.contains(i as usize),
{
    reveal(path_ok);
    lemma_layout_bijection(k, i);
    let s = l2p(k, i);
    let t = path.index_of(s as usize);
    if t > 0 {
        assert(path[t] as int == l2p(k, path[t - 1] as int));
        lemma_l2p_injective(k, path[t - 1] as int, i);
        assert(path.contains(path[t - 1]));
    } else {
        lemma_l2p_injective(k, path.last() as int, i);
        assert(path.contains(path[path.len() - 1]));
    }
}

/// A path that returns to its start is a whole cycle, so adding it keeps
/// the flags closed.
proof fn lemma_cycle_closed(k: int, m: int, start: usize, path: Seq<usize>, vis0: Seq<bool>, visited: Seq<bool>)
    requires
        m == 2 * k,
        m <= usize::MAX,
        vis0.len() == m,
        visited.len() == m,
        closed_under(k, m, vis0),
        path_ok(k, m, start, start, path, vis0),
        path.len() > 0,
        visited_ok(m, visited, vis0, path),
    ensures
        closed_under(k, m, visited),
{
    assert forall|i: int| 0 <= i < m implies (#[trigger] visited[i] <==> visited[l2p(k, i)]) by {
        reveal(closed_under);
        reveal(visited_ok);
        lemma_layout_bijection(k, i);
        let s = l2p(k, i);
        assert(vis0[i] <==> vis0[s]);
        if path.contains(i as usize) {
            let t = path.index_of(i as usize);
            lemma_cycle_succ(k, m, start, path, vis0, t);
        }
        if path.contains(s as usize) {
            lemma_cycle_pred(k, m, start, path, vis0, i);
        }
    }
    reveal(closed_under);
}

/// After a whole cycle every flagged position holds its preimage.
#[verifier::rlimit(40)]
proof fn lemma_cycle_agrees(k: int, m: int, start: usize, path: Seq<usize>, vis0: Seq<bool>, visited: Seq<bool>, cw: Seq<Ext>, old: Seq<Ext>)
    requires
        m == 2 * k,
        m <= usize::MAX,
        vis0.len() == m,
        visited.len() == m,
        path_ok(k, m, start, start, path, vis0),
        path.len() > 0,
        visited_ok(m, visited, vis0, path),
        written_ok(k, m, cw, vis0, path, old),
    ensures
        agrees(k, m, visited, cw, old),
{
    reveal(agrees);
    reveal(path_ok);
    reveal(visited_ok);
    reveal(written_ok);
    assert forall|j: int| 0 <= j < m implies #[trigger] cw[j] == if visited[j] { old[p2l(k, j)] } else { old[j] } by {
        if path.contains(j as usize) {
            let t = path.index_of(j as usize);
            if t > 0 {
                assert(path[t] as int == l2p(k, path[t - 1] as int));
                assert(l2p(k, path[t - 1] as int) == j);
            } else {
                assert(l2p(k, path[path.len() - 1] as int) == j);
            }
            assert(written(k, path, j));
        } else if written(k, path, j) {
            let t = choose|t: int| 0 <= t < path.len() && #[trigger] l2p(k, path[t] as int) == j;
            if t < path.len() - 1 {
                assert(path[t + 1] as int == j);
                assert(path.contains(path[t + 1]));
            } else {
                assert(path[0] as int == j);
                assert(path.contains(path[0]));
            }
        }
    }
}

/// Moves the symbol at every transform position `i` to physical position
/// `l2p(i)`, in place, one permutation cycle at a time.
pub fn logical_to_physical_in_place(profile: ExtProfile, codeword: &mut Vec<Ext>)
    requires
        old(codeword).len() == profile.m,
        profile.m == 2 * profile.k,
    ensures
        final(codeword).len() == profile.m,
        forall|j: int| 0 <= j < profile.m ==> #[trigger] final(codeword)@[j] == old(codeword)@[p2l(profile.k as int, j)],
{
    let m = profile.m;
    let ghost k = profile.k as int;
    let ghost old_cw = codeword@;
    let mut visited: Vec<bool> = Vec::new();
    let mut i: usize = 0;
    while i < m
        invariant
            i <= m,
            visited.len() == i,
            forall|j: int| 0 <= j < i ==> !#[trigger] visited@[j],
        decreases m - i,
    {
        visited.push(false);
        i = i + 1;
    }
    proof {
        reveal(closed_under);
        reveal(agrees);
        assert forall|i: int| 0 <= i < m implies (#[trigger] visited@[i] <==> visited@[l2p(k, i)]) by {
            lemma_layout_bijection(k, i);
        }
    }
    let mut start: usize = 0;
    while start < m
        invariant
            m == profile.m,
            m == 2 * k,
            k == profile.k,
            start <= m,
            codeword.len() == m,
            visited.len() == m,
            old_cw.len() == m,
            closed_under(k, m as int, visited@),
            agrees(k, m as int, visited@, codeword@, old_cw),
            forall|i: int| 0 <= i < start ==> #[trigger] visited@[i],
        decreases m - start,
    {
        if !visited[start] {
            let ghost vis0 = visited@;
            let mut current: usize = start;
            let mut carry = codeword[current];
            let ghost mut path: Seq<usize> = seq![];
            proof {
                lemma_count_le(vis0);
                reveal(path_ok);
                reveal(visited_ok);
                reveal(written_ok);
                reveal(agrees);
                assert(visited_ok(m as int, visited@, vis0, path));
                assert(written_ok(k, m as int, codeword@, vis0, path, old_cw));
            }
            loop
                invariant_except_break
                    current != start || path.len() == 0,
                    !vis0[current as int],
                    !path.contains(current),
                    carry == old_cw[current as int],
                invariant
                    m == profile.m,
                    m == 2 * k,
                    k == profile.k,
                    start < m,
                    current < m,
                    codeword.len() == m,
                    visited.len() == m,
                    old_cw.len() == m,
                    vis0.len() == m,
                    closed_under(k, m as int, vis0),
                    forall|i: int| 0 <= i < start ==> #[trigger] vis0[i],
                    path_ok(k, m as int, start, current, path, vis0),
                    visited_ok(m as int, visited@, vis0, path),
                    written_ok(k, m as int, codeword@, vis0, path, old_cw),
                    count_true(visited@) == count_true(vis0) + path.len(),
                    count_true(vis0) + path.len() <= m,
                ensures
                    path.len() > 0,
                    current == start,
                decreases m - count_true(visited@),
            {
                proof {
                    reveal(visited_ok);
                    assert(!visited@[current as int]);
                    lemma_count_update(visited@, current as int);
                    lemma_count_le(visited@.update(current as int, true));
                    lemma_next_unwritten(k, m as int, start, current, path, vis0, codeword@, old_cw);
                    lemma_step(k, m as int, start, current, path, vis0, visited@, codeword@, old_cw, carry);
                    lemma_layout_bijection(k, current as int);
                }
                visited.set(current, true);
                let next = logical_to_physical(profile, current);
                let tmp = codeword[next];
                codeword.set(next, carry);
                carry = tmp;
                proof {
                    path = path.push(current);
                }
                current = next;
                if current == start {
                    break;
                }
                proof {
                    lemma_fresh(k, m as int, start, current, path, vis0);
                }
            }
            proof {
                lemma_cycle_closed(k, m as int, start, path, vis0, visited@);
                lemma_cycle_agrees(k, m as int, start, path, vis0, visited@, codeword@, old_cw);
            }
        }
        start = start + 1;
    }
    proof {
        reveal(agrees);
    }
}

} // verus!
