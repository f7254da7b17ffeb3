//! Reachability in the import graph: the depth-first walk that a scan makes from its
//! roots, and the proof that it visits exactly the files that the roots reach.
//!
//! A graph is given by keys (paths) and, for the key at index `i`, its edges `edges[i]`.
//! Paths are compared as `Path` compares them ([`same_path`]); a path's successors are the
//! edges of the first key that is the same path.
use vstd::prelude::*;

use crate::path::{all_wf, components, keyed_view, same_path, KeyedPath};

verus! {

broadcast use vstd::seq_lib::group_seq_properties;

/// Some element of `s` is the same path as `p`.
pub open spec fn covers(s: Seq<Seq<char>>, p: Seq<char>) -> bool {
    exists|i: int| 0 <= i < s.len() && same_path(#[trigger] s[i], p)
}

/// Index of the first key that is the same path as `p`.
pub open spec fn key_index(keys: Seq<Seq<char>>, p: Seq<char>) -> Option<int>
    decreases keys.len(),
{
    if keys.len() == 0 {
        None
    } else if same_path(keys[0], p) {
        Some(0)
    } else {
        match key_index(keys.drop_first(), p) {
            Some(i) => Some(i + 1),
            None => None,
        }
    }
}

/// The successors of `p`: the edges of the first key that is the same path, if any.
pub open spec fn successors(keys: Seq<Seq<char>>, edges: Seq<Seq<Seq<char>>>, p: Seq<char>) -> Seq<
    Seq<char>,
> {
    match key_index(keys, p) {
        Some(i) => if i < edges.len() {
            edges[i]
        } else {
            Seq::empty()
        },
        None => Seq::empty(),
    }
}

/// The state of the walk: the stack, and the paths visited so far in order.
pub type Walk = (Seq<Seq<char>>, Seq<Seq<char>>);

/// One step of the walk: pop the top of the stack; unless a visited path is the same path,
/// visit it and push its successors in order.
pub open spec fn walk_step(keys: Seq<Seq<char>>, edges: Seq<Seq<Seq<char>>>, w: Walk) -> Walk {
    if w.0.len() == 0 {
        w
    } else {
        let cur = w.0.last();
        if covers(w.1, cur) {
            (w.0.drop_last(), w.1)
        } else {
            (w.0.drop_last() + successors(keys, edges, cur), w.1.push(cur))
        }
    }
}

/// The walk after `n` steps.
pub open spec fn walk_run(keys: Seq<Seq<char>>, edges: Seq<Seq<Seq<char>>>, w: Walk, n: nat) -> Walk
    decreases n,
{
    if n == 0 {
        w
    } else {
        walk_run(keys, edges, walk_step(keys, edges, w), (n - 1) as nat)
    }
}

/// The walk that starts with the roots on the stack.
pub open spec fn walk_start(roots: Seq<Seq<char>>) -> Walk {
    (roots, Seq::empty())
}

/// After `n` steps from the roots the stack is empty.
pub open spec fn walk_done(
    keys: Seq<Seq<char>>,
    edges: Seq<Seq<Seq<char>>>,
    roots: Seq<Seq<char>>,
    n: nat,
) -> bool {
    walk_run(keys, edges, walk_start(roots), n).0.len() == 0
}

/// The paths that the walk from the roots visits, in the order of their visit.
pub open spec fn visit_order(
    keys: Seq<Seq<char>>,
    edges: Seq<Seq<Seq<char>>>,
    roots: Seq<Seq<char>>,
) -> Seq<Seq<char>> {
    walk_run(keys, edges, walk_start(roots), choose|n: nat| walk_done(keys, edges, roots, n)).1
}

/// `c` is a chain of imports: it starts at a root, and each path in it is the same path as
/// a successor of the one before.
pub open spec fn is_chain(
    keys: Seq<Seq<char>>,
    edges: Seq<Seq<Seq<char>>>,
    roots: Seq<Seq<char>>,
    c: Seq<Seq<char>>,
) -> bool {
    &&& c.len() > 0
    &&& covers(roots, c[0])
    &&& forall|i: int|
        0 <= i < c.len() - 1 ==> covers(successors(keys, edges, #[trigger] c[i]), c[i + 1])
}

/// `p` is reached from the roots: some chain ends at the same path as `p`.
pub open spec fn reachable(
    keys: Seq<Seq<char>>,
    edges: Seq<Seq<Seq<char>>>,
    roots: Seq<Seq<char>>,
    p: Seq<char>,
) -> bool {
    exists|c: Seq<Seq<char>>| is_chain(keys, edges, roots, c) && same_path(c.last(), p)
}

// ---------------------------------------------------------------------------------------
// Termination.
/// Every path that can ever stand on the stack.
pub open spec fn universe(roots: Seq<Seq<char>>, edges: Seq<Seq<Seq<char>>>) -> Seq<Seq<char>> {
    roots + edges.flatten()
}

pub open spec fn classes_of(s: Seq<Seq<char>>) -> Seq<Seq<Seq<char>>> {
    s.map_values(|x: Seq<char>| components(x))
}

pub open spec fn class_set(s: Seq<Seq<char>>) -> Set<Seq<Seq<char>>> {
    classes_of(s).to_set()
}

/// What holds of every state of the walk: the stack holds paths of the universe, and the
/// visited paths are of the universe and pairwise different paths.
pub open spec fn walk_inv(roots: Seq<Seq<char>>, edges: Seq<Seq<Seq<char>>>, w: Walk) -> bool {
    &&& forall|i: int| 0 <= i < w.0.len() ==> universe(roots, edges).contains(#[trigger] w.0[i])
    &&& forall|i: int|
        0 <= i < w.1.len() ==> universe(roots, edges).contains(#[trigger] w.1[i])
    &&& classes_of(w.1).no_duplicates()
}

pub open spec fn walk_measure(roots: Seq<Seq<char>>, edges: Seq<Seq<Seq<char>>>, w: Walk) -> int {
    class_set(universe(roots, edges)).len() - w.1.len()
}

proof fn lemma_flatten_contains(ss: Seq<Seq<Seq<char>>>, i: int, j: int)
    requires
        0 <= i < ss.len(),
        0 <= j < ss[i].len(),
    ensures
        ss.flatten().contains(ss[i][j]),
    decreases ss.len(),
{
    if i == 0 {
        assert(ss.flatten() == ss[0] + ss.drop_first().flatten());
        assert(ss.flatten()[j] == ss[0][j]);
    } else {
        lemma_flatten_contains(ss.drop_first(), i - 1, j);
        let k = choose|k: int|
            0 <= k < ss.drop_first().flatten().len() && ss.drop_first().flatten()[k] == ss[i][j];
        assert(ss.flatten() == ss[0] + ss.drop_first().flatten());
        assert(ss.flatten()[ss[0].len() + k] == ss[i][j]);
    }
}

pub proof fn lemma_key_index_bounds(keys: Seq<Seq<char>>, p: Seq<char>)
    ensures
        key_index(keys, p) matches Some(i) ==> 0 <= i < keys.len() && same_path(keys[i], p),
        key_index(keys, p) is None ==> !covers(keys, p),
    decreases keys.len(),
{
    if keys.len() > 0 {
        lemma_key_index_bounds(keys.drop_first(), p);
        if key_index(keys, p) is None {
            assert forall|i: int| 0 <= i < keys.len() implies !same_path(#[trigger] keys[i], p) by {
                if i > 0 {
                    assert(keys.drop_first()[i - 1] == keys[i]);
                }
            }
        }
    }
}

proof fn lemma_successors_in_universe(
    keys: Seq<Seq<char>>,
    edges: Seq<Seq<Seq<char>>>,
    roots: Seq<Seq<char>>,
    p: Seq<char>,
    j: int,
)
    requires
        0 <= j < successors(keys, edges, p).len(),
    ensures
        universe(roots, edges).contains(successors(keys, edges, p)[j]),
{
    let i = key_index(keys, p).unwrap();
    lemma_key_index_bounds(keys, p);
    lemma_flatten_contains(edges, i, j);
    let k = choose|k: int| 0 <= k < edges.flatten().len() && edges.flatten()[k] == edges[i][j];
    assert(universe(roots, edges)[roots.len() + k] == edges[i][j]);
}

proof fn lemma_contains_class(s: Seq<Seq<char>>, x: Seq<char>)
    requires
        s.contains(x),
    ensures
        class_set(s).contains(components(x)),
{
    let k = choose|k: int| 0 <= k < s.len() && s[k] == x;
    assert(classes_of(s)[k] == components(x));
}

/// A step keeps the invariant, and it lowers the measure or, keeping it, shortens the stack.
proof fn lemma_step_inv(
    keys: Seq<Seq<char>>,
    edges: Seq<Seq<Seq<char>>>,
    roots: Seq<Seq<char>>,
    w: Walk,
)
    requires
        walk_inv(roots, edges, w),
        w.0.len() > 0,
    ensures
        walk_inv(roots, edges, walk_step(keys, edges, w)),
        0 <= walk_measure(roots, edges, walk_step(keys, edges, w)),
        walk_measure(roots, edges, walk_step(keys, edges, w)) < walk_measure(roots, edges, w)
            || (walk_measure(roots, edges, walk_step(keys, edges, w)) == walk_measure(
            roots,
            edges,
            w,
        ) && walk_step(keys, edges, w).0.len() < w.0.len()),
{
    let u = universe(roots, edges);
    let w2 = walk_step(keys, edges, w);
    let cur = w.0.last();
    assert(u.contains(w.0[w.0.len() - 1]));
    lemma_seen_bound(roots, edges, w.1);
    if covers(w.1, cur) {
        assert forall|i: int| 0 <= i < w2.0.len() implies u.contains(#[trigger] w2.0[i]) by {
            assert(w2.0[i] == w.0[i]);
        }
    } else {
        let succ = successors(keys, edges, cur);
        assert forall|i: int| 0 <= i < w2.0.len() implies u.contains(#[trigger] w2.0[i]) by {
            if i < w.0.len() - 1 {
                assert(w2.0[i] == w.0[i]);
            } else {
                assert(w2.0[i] == succ[i - (w.0.len() - 1)]);
                lemma_successors_in_universe(keys, edges, roots, cur, i - (w.0.len() - 1));
            }
        }
        assert forall|i: int| 0 <= i < w2.1.len() implies u.contains(#[trigger] w2.1[i]) by {
            if i < w.1.len() {
                assert(w2.1[i] == w.1[i]);
            }
        }
        assert(classes_of(w2.1) =~= classes_of(w.1).push(components(cur)));
        assert forall|i: int, j: int|
            0 <= i < classes_of(w2.1).len() && 0 <= j < classes_of(w2.1).len() && i != j
                implies classes_of(w2.1)[i] != classes_of(w2.1)[j] by {
            if i == w.1.len() {
                assert(classes_of(w2.1)[j] == components(w.1[j]));
                assert(!same_path(w.1[j], cur));
            } else if j == w.1.len() {
                assert(classes_of(w2.1)[i] == components(w.1[i]));
                assert(!same_path(w.1[i], cur));
            } else {
                assert(classes_of(w2.1)[i] == classes_of(w.1)[i]);
                assert(classes_of(w2.1)[j] == classes_of(w.1)[j]);
            }
        }
        lemma_seen_bound(roots, edges, w2.1);
    }
}

/// The visited paths are at most as many as the classes of the universe.
proof fn lemma_seen_bound(roots: Seq<Seq<char>>, edges: Seq<Seq<Seq<char>>>, seen: Seq<Seq<char>>)
    requires
        forall|i: int|
            0 <= i < seen.len() ==> universe(roots, edges).contains(#[trigger] seen[i]),
        classes_of(seen).no_duplicates(),
    ensures
        seen.len() <= class_set(universe(roots, edges)).len(),
{
    let u = universe(roots, edges);
    classes_of(seen).unique_seq_to_set();
    assert forall|c: Seq<Seq<char>>| class_set(seen).contains(c) implies class_set(u).contains(
        c,
    ) by {
        let k = choose|k: int| 0 <= k < classes_of(seen).len() && classes_of(seen)[k] == c;
        assert(u.contains(seen[k]));
        lemma_contains_class(u, seen[k]);
    }
    vstd::seq_lib::seq_to_set_is_finite(classes_of(u));
    vstd::set_lib::lemma_len_subset(class_set(seen), class_set(u));
}

proof fn lemma_run_step_last(
    keys: Seq<Seq<char>>,
    edges: Seq<Seq<Seq<char>>>,
    w: Walk,
    n: nat,
)
    ensures
        walk_run(keys, edges, w, n + 1) == walk_step(keys, edges, walk_run(keys, edges, w, n)),
    decreases n,
{
    assert(walk_run(keys, edges, w, n + 1) == walk_run(
        keys,
        edges,
        walk_step(keys, edges, w),
        n,
    ));
    if n > 0 {
        lemma_run_step_last(keys, edges, walk_step(keys, edges, w), (n - 1) as nat);
        assert(walk_run(keys, edges, w, n) == walk_run(
            keys,
            edges,
            walk_step(keys, edges, w),
            (n - 1) as nat,
        ));
    } else {
        assert(walk_run(keys, edges, walk_step(keys, edges, w), 0) == walk_step(keys, edges, w));
    }
}

/// Once the stack is empty the walk stays as it is.
proof fn lemma_run_stable(
    keys: Seq<Seq<char>>,
    edges: Seq<Seq<Seq<char>>>,
    w: Walk,
    n: nat,
    m: nat,
)
    requires
        walk_run(keys, edges, w, n).0.len() == 0,
        n <= m,
    ensures
        walk_run(keys, edges, w, m) == walk_run(keys, edges, w, n),
    decreases m - n,
{
    if m > n {
        lemma_run_stable(keys, edges, w, n, (m - 1) as nat);
        lemma_run_step_last(keys, edges, w, (m - 1) as nat);
    }
}

proof fn lemma_terminates_from(
    keys: Seq<Seq<char>>,
    edges: Seq<Seq<Seq<char>>>,
    roots: Seq<Seq<char>>,
    w: Walk,
)
    requires
        walk_inv(roots, edges, w),
    ensures
        exists|n: nat| #[trigger] walk_run(keys, edges, w, n).0.len() == 0,
    decreases walk_measure(roots, edges, w), w.0.len(),
{
    lemma_seen_bound(roots, edges, w.1);
    if w.0.len() == 0 {
        assert(walk_run(keys, edges, w, 0).0.len() == 0);
    } else {
        lemma_step_inv(keys, edges, roots, w);
        let w2 = walk_step(keys, edges, w);
        lemma_terminates_from(keys, edges, roots, w2);
        let n = choose|n: nat| #[trigger] walk_run(keys, edges, w2, n).0.len() == 0;
        assert(walk_run(keys, edges, w, n + 1) == walk_run(keys, edges, w2, n));
    }
}

proof fn lemma_start_inv(roots: Seq<Seq<char>>, edges: Seq<Seq<Seq<char>>>)
    ensures
        walk_inv(roots, edges, walk_start(roots)),
{
    let u = universe(roots, edges);
    assert forall|i: int| 0 <= i < roots.len() implies u.contains(#[trigger] roots[i]) by {
        assert(u[i] == roots[i]);
    }
    assert(classes_of(Seq::<Seq<char>>::empty()) =~= Seq::<Seq<Seq<char>>>::empty());
}

/// The walk from the roots ends: after some number of steps its stack is empty.
pub proof fn lemma_walk_ends(
    keys: Seq<Seq<char>>,
    edges: Seq<Seq<Seq<char>>>,
    roots: Seq<Seq<char>>,
)
    ensures
        exists|n: nat| walk_done(keys, edges, roots, n),
{
    lemma_start_inv(roots, edges);
    lemma_terminates_from(keys, edges, roots, walk_start(roots));
    let n = choose|n: nat| #[trigger] walk_run(keys, edges, walk_start(roots), n).0.len() == 0;
    assert(walk_done(keys, edges, roots, n));
}

/// The visit order is what any finished run has visited.
proof fn lemma_visit_order_of_run(
    keys: Seq<Seq<char>>,
    edges: Seq<Seq<Seq<char>>>,
    roots: Seq<Seq<char>>,
    n: nat,
)
    requires
        walk_done(keys, edges, roots, n),
    ensures
        visit_order(keys, edges, roots) == walk_run(keys, edges, walk_start(roots), n).1,
{
    let m = choose|m: nat| walk_done(keys, edges, roots, m);
    if m <= n {
        lemma_run_stable(keys, edges, walk_start(roots), m, n);
    } else {
        lemma_run_stable(keys, edges, walk_start(roots), n, m);
    }
}


// ---------------------------------------------------------------------------------------
// What the walk visits.
pub proof fn lemma_key_index_same(keys: Seq<Seq<char>>, p: Seq<char>, q: Seq<char>)
    requires
        same_path(p, q),
    ensures
        key_index(keys, p) == key_index(keys, q),
    decreases keys.len(),
{
    if keys.len() > 0 {
        lemma_key_index_same(keys.drop_first(), p, q);
    }
}

proof fn lemma_reach_same(
    keys: Seq<Seq<char>>,
    edges: Seq<Seq<Seq<char>>>,
    roots: Seq<Seq<char>>,
    p: Seq<char>,
    q: Seq<char>,
)
    requires
        reachable(keys, edges, roots, p),
        same_path(p, q),
    ensures
        reachable(keys, edges, roots, q),
{
    let c = choose|c: Seq<Seq<char>>| is_chain(keys, edges, roots, c) && same_path(c.last(), p);
    assert(is_chain(keys, edges, roots, c) && same_path(c.last(), q));
}

/// A root is reached by the chain of itself alone.
proof fn lemma_root_reachable(
    keys: Seq<Seq<char>>,
    edges: Seq<Seq<Seq<char>>>,
    roots: Seq<Seq<char>>,
    i: int,
)
    requires
        0 <= i < roots.len(),
    ensures
        reachable(keys, edges, roots, roots[i]),
{
    let c = seq![roots[i]];
    assert(same_path(roots[i], c[0]));
    assert(is_chain(keys, edges, roots, c) && same_path(c.last(), roots[i]));
}

/// A successor of a reached path is reached.
proof fn lemma_successor_reachable(
    keys: Seq<Seq<char>>,
    edges: Seq<Seq<Seq<char>>>,
    roots: Seq<Seq<char>>,
    q: Seq<char>,
    j: int,
)
    requires
        reachable(keys, edges, roots, q),
        0 <= j < successors(keys, edges, q).len(),
    ensures
        reachable(keys, edges, roots, successors(keys, edges, q)[j]),
{
    let c = choose|c: Seq<Seq<char>>| is_chain(keys, edges, roots, c) && same_path(c.last(), q);
    let t = successors(keys, edges, q)[j];
    let c2 = c.push(t);
    lemma_key_index_same(keys, c.last(), q);
    assert(same_path(successors(keys, edges, c.last())[j], t));
    assert forall|i: int| 0 <= i < c2.len() - 1 implies covers(
        successors(keys, edges, #[trigger] c2[i]),
        c2[i + 1],
    ) by {
        if i < c.len() - 1 {
            assert(c2[i] == c[i] && c2[i + 1] == c[i + 1]);
        } else {
            assert(c2[i] == c.last() && c2[i + 1] == t);
        }
    }
    assert(c2[0] == c[0]);
    assert(is_chain(keys, edges, roots, c2) && same_path(c2.last(), t));
}

/// Every path on the stack or visited is reached from the roots.
pub open spec fn walk_sound(
    keys: Seq<Seq<char>>,
    edges: Seq<Seq<Seq<char>>>,
    roots: Seq<Seq<char>>,
    w: Walk,
) -> bool {
    &&& forall|i: int| 0 <= i < w.0.len() ==> reachable(keys, edges, roots, #[trigger] w.0[i])
    &&& forall|i: int| 0 <= i < w.1.len() ==> reachable(keys, edges, roots, #[trigger] w.1[i])
}

/// Every root, and every successor of a visited path, is visited or on the stack.
pub open spec fn walk_closed(
    keys: Seq<Seq<char>>,
    edges: Seq<Seq<Seq<char>>>,
    roots: Seq<Seq<char>>,
    w: Walk,
) -> bool {
    &&& forall|i: int|
        0 <= i < roots.len() ==> covers(w.1, #[trigger] roots[i]) || covers(w.0, roots[i])
    &&& forall|i: int, j: int|
        0 <= i < w.1.len() && 0 <= j < successors(keys, edges, w.1[i]).len() ==> covers(
            w.1,
            #[trigger] successors(keys, edges, w.1[i])[j],
        ) || covers(w.0, successors(keys, edges, w.1[i])[j])
}

/// What the stack or the visited paths cover, they still cover after a step.
proof fn lemma_step_keeps_cover(
    keys: Seq<Seq<char>>,
    edges: Seq<Seq<Seq<char>>>,
    w: Walk,
    x: Seq<char>,
)
    requires
        covers(w.1, x) || covers(w.0, x),
    ensures
        covers(walk_step(keys, edges, w).1, x) || covers(walk_step(keys, edges, w).0, x),
{
    if w.0.len() > 0 {
        let w2 = walk_step(keys, edges, w);
        let top = w.0.len() - 1;
        let cur = w.0[top];
        if covers(w.1, x) {
            let k = choose|k: int| 0 <= k < w.1.len() && same_path(#[trigger] w.1[k], x);
            assert(w2.1[k] == w.1[k]);
        } else {
            let k = choose|k: int| 0 <= k < w.0.len() && same_path(#[trigger] w.0[k], x);
            if k < top {
                assert(w2.0[k] == w.0[k]);
            } else if covers(w.1, cur) {
                let m = choose|m: int| 0 <= m < w.1.len() && same_path(#[trigger] w.1[m], cur);
                assert(w2.1[m] == w.1[m]);
                assert(same_path(w2.1[m], x));
            } else {
                assert(w2.1[w.1.len() as int] == cur);
            }
        }
    }
}

proof fn lemma_step_sound(
    keys: Seq<Seq<char>>,
    edges: Seq<Seq<Seq<char>>>,
    roots: Seq<Seq<char>>,
    w: Walk,
)
    requires
        walk_sound(keys, edges, roots, w),
    ensures
        walk_sound(keys, edges, roots, walk_step(keys, edges, w)),
{
    if w.0.len() > 0 {
        let w2 = walk_step(keys, edges, w);
        let top = w.0.len() - 1;
        let cur = w.0[top];
        assert(reachable(keys, edges, roots, cur));
        let succ = successors(keys, edges, cur);
        assert forall|i: int| 0 <= i < w2.0.len() implies reachable(
            keys,
            edges,
            roots,
            #[trigger] w2.0[i],
        ) by {
            if i < top {
                assert(w2.0[i] == w.0[i]);
            } else {
                assert(!covers(w.1, cur));
                assert(w2.0[i] == succ[i - top]);
                lemma_successor_reachable(keys, edges, roots, cur, i - top);
            }
        }
        assert forall|i: int| 0 <= i < w2.1.len() implies reachable(
            keys,
            edges,
            roots,
            #[trigger] w2.1[i],
        ) by {
            if i < w.1.len() {
                assert(w2.1[i] == w.1[i]);
            }
        }
    }
}

proof fn lemma_step_closed(
    keys: Seq<Seq<char>>,
    edges: Seq<Seq<Seq<char>>>,
    roots: Seq<Seq<char>>,
    w: Walk,
)
    requires
        walk_closed(keys, edges, roots, w),
    ensures
        walk_closed(keys, edges, roots, walk_step(keys, edges, w)),
{
    let w2 = walk_step(keys, edges, w);
    assert forall|i: int| 0 <= i < roots.len() implies covers(w2.1, #[trigger] roots[i])
        || covers(w2.0, roots[i]) by {
        lemma_step_keeps_cover(keys, edges, w, roots[i]);
    }
    assert forall|i: int, j: int|
        0 <= i < w2.1.len() && 0 <= j < successors(keys, edges, w2.1[i]).len() implies covers(
        w2.1,
        #[trigger] successors(keys, edges, w2.1[i])[j],
    ) || covers(w2.0, successors(keys, edges, w2.1[i])[j]) by {
        if i < w.1.len() {
            assert(w2.1[i] == w.1[i]);
            lemma_step_keeps_cover(keys, edges, w, successors(keys, edges, w.1[i])[j]);
        } else {
            let top = w.0.len() - 1;
            let cur = w.0[top];
            assert(w2.1[i] == cur);
            assert(w2.0[top + j] == successors(keys, edges, cur)[j]);
        }
    }
}

proof fn lemma_done_sound_closed(
    keys: Seq<Seq<char>>,
    edges: Seq<Seq<Seq<char>>>,
    roots: Seq<Seq<char>>,
    n: nat,
)
    ensures
        walk_sound(keys, edges, roots, walk_run(keys, edges, walk_start(roots), n)),
        walk_closed(keys, edges, roots, walk_run(keys, edges, walk_start(roots), n)),
        walk_inv(roots, edges, walk_run(keys, edges, walk_start(roots), n)),
    decreases n,
{
    let w0 = walk_start(roots);
    if n == 0 {
        assert forall|i: int| 0 <= i < roots.len() implies reachable(
            keys,
            edges,
            roots,
            #[trigger] roots[i],
        ) by {
            lemma_root_reachable(keys, edges, roots, i);
        }
        assert forall|i: int| 0 <= i < roots.len() implies covers(w0.0, #[trigger] roots[i]) by {
            assert(same_path(w0.0[i], roots[i]));
        }
        lemma_start_inv(roots, edges);
    } else {
        lemma_done_sound_closed(keys, edges, roots, (n - 1) as nat);
        lemma_run_step_last(keys, edges, w0, (n - 1) as nat);
        let w = walk_run(keys, edges, w0, (n - 1) as nat);
        lemma_step_sound(keys, edges, roots, w);
        lemma_step_closed(keys, edges, roots, w);
        if w.0.len() > 0 {
            lemma_step_inv(keys, edges, roots, w);
        }
    }
}

/// Law: the walk visits a path, up to `Path` equality, exactly when the roots reach it by
/// following the graph's edges.
pub proof fn law_visits_exactly_reachable(
    keys: Seq<Seq<char>>,
    edges: Seq<Seq<Seq<char>>>,
    roots: Seq<Seq<char>>,
    p: Seq<char>,
)
    ensures
        covers(visit_order(keys, edges, roots), p) <==> reachable(keys, edges, roots, p),
{
    lemma_walk_ends(keys, edges, roots);
    let n = choose|n: nat| walk_done(keys, edges, roots, n);
    lemma_visit_order_of_run(keys, edges, roots, n);
    lemma_done_sound_closed(keys, edges, roots, n);
    let w = walk_run(keys, edges, walk_start(roots), n);
    let v = w.1;
    assert(w.0.len() == 0);
    if covers(v, p) {
        let i = choose|i: int| 0 <= i < v.len() && same_path(#[trigger] v[i], p);
        assert(reachable(keys, edges, roots, v[i]));
        lemma_reach_same(keys, edges, roots, v[i], p);
    }
    if reachable(keys, edges, roots, p) {
        let c = choose|c: Seq<Seq<char>>|
            is_chain(keys, edges, roots, c) && same_path(c.last(), p);
        lemma_chain_visited(keys, edges, roots, v, c, c.len() - 1);
        let k = choose|k: int| 0 <= k < v.len() && same_path(#[trigger] v[k], c.last());
        assert(same_path(v[k], p));
    }
}

proof fn lemma_chain_visited(
    keys: Seq<Seq<char>>,
    edges: Seq<Seq<Seq<char>>>,
    roots: Seq<Seq<char>>,
    v: Seq<Seq<char>>,
    c: Seq<Seq<char>>,
    i: int,
)
    requires
        walk_closed(keys, edges, roots, (Seq::empty(), v)),
        is_chain(keys, edges, roots, c),
        0 <= i < c.len(),
    ensures
        covers(v, c[i]),
    decreases i,
{
    let e: Seq<Seq<char>> = Seq::empty();
    if i == 0 {
        let r = choose|r: int| 0 <= r < roots.len() && same_path(#[trigger] roots[r], c[0]);
        assert(covers(v, roots[r]) || covers(e, roots[r]));
        let k = choose|k: int| 0 <= k < v.len() && same_path(#[trigger] v[k], roots[r]);
        assert(same_path(v[k], c[0]));
    } else {
        lemma_chain_visited(keys, edges, roots, v, c, i - 1);
        let q = c[i - 1];
        let k = choose|k: int| 0 <= k < v.len() && same_path(#[trigger] v[k], q);
        lemma_key_index_same(keys, v[k], q);
        let s = successors(keys, edges, q);
        assert(s == successors(keys, edges, v[k]));
        assert(covers(s, c[i]));
        let j = choose|j: int| 0 <= j < s.len() && same_path(#[trigger] s[j], c[i]);
        assert(successors(keys, edges, v[k])[j] == s[j]);
        assert(covers(v, s[j]) || covers(e, s[j]));
        let m = choose|m: int| 0 <= m < v.len() && same_path(#[trigger] v[m], s[j]);
        assert(same_path(v[m], c[i]));
    }
}

/// Law: the walk visits each path once: no two visited paths are the same path.
pub proof fn law_visits_each_path_once(
    keys: Seq<Seq<char>>,
    edges: Seq<Seq<Seq<char>>>,
    roots: Seq<Seq<char>>,
)
    ensures
        forall|i: int, j: int|
            0 <= i < j < visit_order(keys, edges, roots).len() ==> !same_path(
                #[trigger] visit_order(keys, edges, roots)[i],
                #[trigger] visit_order(keys, edges, roots)[j],
            ),
{
    lemma_walk_ends(keys, edges, roots);
    let n = choose|n: nat| walk_done(keys, edges, roots, n);
    lemma_visit_order_of_run(keys, edges, roots, n);
    lemma_done_sound_closed(keys, edges, roots, n);
    let v = visit_order(keys, edges, roots);
    assert forall|i: int, j: int| 0 <= i < j < v.len() implies !same_path(
        #[trigger] v[i],
        #[trigger] v[j],
    ) by {
        assert(classes_of(v)[i] == components(v[i]));
        assert(classes_of(v)[j] == components(v[j]));
    }
}


// ---------------------------------------------------------------------------------------
// The walk, executed.
pub open spec fn edges_view(e: Seq<Vec<KeyedPath>>) -> Seq<Seq<Seq<char>>> {
    e.map_values(|v: Vec<KeyedPath>| keyed_view(v@))
}

pub open spec fn edges_wf(e: Seq<Vec<KeyedPath>>) -> bool {
    forall|i: int| 0 <= i < e.len() ==> all_wf(#[trigger] e[i]@)
}

/// A copy of a keyed path.
pub fn copy_keyed(k: &KeyedPath) -> (r: KeyedPath)
    ensures
        r.wf(),
        r.path@ == k.path@,
{
    KeyedPath::new(k.path.clone())
}

/// Whether some path of `s` is the same path as `p`.
pub fn covers_exec(s: &Vec<KeyedPath>, p: &KeyedPath) -> (r: bool)
    requires
        all_wf(s@),
        p.wf(),
    ensures
        r == covers(keyed_view(s@), p.path@),
{
    let mut i: usize = 0;
    while i < s.len()
        invariant
            i <= s@.len(),
            all_wf(s@),
            p.wf(),
            forall|k: int| 0 <= k < i ==> !same_path(#[trigger] keyed_view(s@)[k], p.path@),
        decreases s@.len() - i,
    {
        if s[i].same(p) {
            assert(same_path(keyed_view(s@)[i as int], p.path@));
            return true;
        }
        i = i + 1;
    }
    false
}

/// Index of the first key that is the same path as `p`.
pub fn key_index_exec(keys: &Vec<KeyedPath>, p: &KeyedPath) -> (r: Option<usize>)
    requires
        all_wf(keys@),
        p.wf(),
    ensures
        r matches Some(i) ==> key_index(keyed_view(keys@), p.path@) == Some(i as int),
        r is None ==> key_index(keyed_view(keys@), p.path@) is None,
{
    let ghost kv = keyed_view(keys@);
    let mut i: usize = 0;
    proof {
        assert(kv.skip(0) =~= kv);
    }
    while i < keys.len()
        invariant
            i <= keys@.len(),
            all_wf(keys@),
            p.wf(),
            kv == keyed_view(keys@),
            key_index(kv, p.path@) == match key_index(kv.skip(i as int), p.path@) {
                Some(j) => Some(j + i),
                None => None::<int>,
            },
        decreases keys@.len() - i,
    {
        proof {
            assert(kv.skip(i as int)[0] == kv[i as int]);
            assert(kv.skip(i as int).drop_first() =~= kv.skip(i as int + 1));
        }
        if keys[i].same(p) {
            return Some(i);
        }
        i = i + 1;
    }
    proof {
        assert(kv.skip(i as int) =~= Seq::<Seq<char>>::empty());
    }
    None
}

/// The depth-first walk from the roots: the paths it visits, in order.
pub fn reachable_files(keys: &Vec<KeyedPath>, edges: &Vec<Vec<KeyedPath>>, roots: Vec<KeyedPath>) -> (r: Vec<
    KeyedPath,
>)
    requires
        all_wf(keys@),
        edges_wf(edges@),
        all_wf(roots@),
    ensures
        all_wf(r@),
        keyed_view(r@) == visit_order(keyed_view(keys@), edges_view(edges@), keyed_view(roots@)),
{
    let ghost kv = keyed_view(keys@);
    let ghost ev = edges_view(edges@);
    let ghost rv = keyed_view(roots@);
    let mut stack = roots;
    let mut seen: Vec<KeyedPath> = Vec::new();
    let ghost mut steps: nat = 0;
    proof {
        assert(keyed_view(seen@) =~= Seq::<Seq<char>>::empty());
        lemma_done_sound_closed(kv, ev, rv, 0);
    }
    while stack.len() > 0
        invariant
            all_wf(keys@),
            edges_wf(edges@),
            all_wf(stack@),
            all_wf(seen@),
            kv == keyed_view(keys@),
            ev == edges_view(edges@),
            (keyed_view(stack@), keyed_view(seen@)) == walk_run(kv, ev, walk_start(rv), steps),
            walk_inv(rv, ev, (keyed_view(stack@), keyed_view(seen@))),
        decreases walk_measure(rv, ev, (keyed_view(stack@), keyed_view(seen@))), stack@.len(),
    {
        let ghost w = (keyed_view(stack@), keyed_view(seen@));
        proof {
            lemma_step_inv(kv, ev, rv, w);
            lemma_run_step_last(kv, ev, walk_start(rv), steps);
            lemma_seen_bound(rv, ev, w.1);
        }
        let cur = stack.pop().unwrap();
        proof {
            assert(keyed_view(stack@) =~= w.0.drop_last());
            assert(cur.path@ == w.0.last());
        }
        if !covers_exec(&seen, &cur) {
            let ghost before = stack@;
            match key_index_exec(keys, &cur) {
                Some(i) => {
                    if i < edges.len() {
                        let es = &edges[i];
                        let mut j: usize = 0;
                        while j < es.len()
                            invariant
                                j <= es@.len(),
                                all_wf(es@),
                                all_wf(stack@),
                                keyed_view(stack@) == keyed_view(before) + keyed_view(es@).take(
                                    j as int,
                                ),
                            decreases es@.len() - j,
                        {
                            let t = copy_keyed(&es[j]);
                            let ghost sv = stack@;
                            stack.push(t);
                            proof {
                                assert(keyed_view(stack@) =~= keyed_view(sv).push(
                                    keyed_view(es@)[j as int],
                                ));
                                assert(keyed_view(es@).take(j as int + 1) =~= keyed_view(es@).take(
                                    j as int,
                                ).push(keyed_view(es@)[j as int]));
                            }
                            j = j + 1;
                        }
                        proof {
                            assert(keyed_view(es@).take(es@.len() as int) =~= keyed_view(es@));
                            assert(ev[i as int] == keyed_view(es@));
                        }
                    } else {
                        proof {
                            assert(keyed_view(stack@) =~= keyed_view(before) + Seq::<
                                Seq<char>,
                            >::empty());
                        }
                    }
                },
                None => {
                    proof {
                        assert(keyed_view(stack@) =~= keyed_view(before) + Seq::<
                            Seq<char>,
                        >::empty());
                    }
                },
            }
            let ghost sv = seen@;
            seen.push(cur);
            proof {
                assert(keyed_view(seen@) =~= keyed_view(sv).push(cur.path@));
            }
        }
        proof {
            steps = steps + 1;
        }
    }
    proof {
        assert(walk_done(kv, ev, rv, steps));
        lemma_visit_order_of_run(kv, ev, rv, steps);
    }
    seen
}

} // verus!
