use vstd::prelude::*;

use typed_index_collections::TiVec;

use crate::types::split::{arrow_get, arrow_len, valid};
use crate::types::terms::arena::Arena;
use crate::types::{Arrow, File, Type};

verus! {

// ------------------------------------------------------------------------
// Chains of links between function types
// ------------------------------------------------------------------------

/// The function type that `o` is linked to, if any.
pub open spec fn next(above: Seq<Option<Arrow>>, o: Option<nat>) -> Option<nat> {
    match o {
        Some(z) => if z < above.len() {
            match above[z as int] {
                Some(p) => Some(p.0 as nat),
                None => None,
            }
        } else {
            None
        },
        None => None,
    }
}

/// Where `k` steps along the links from `x` lead.
pub open spec fn link(above: Seq<Option<Arrow>>, x: Option<nat>, k: nat) -> Option<nat>
    decreases k,
{
    if k == 0 {
        x
    } else {
        next(above, link(above, x, (k - 1) as nat))
    }
}

/// The chain of links from `x` passes through `y`.
pub open spec fn reaches(above: Seq<Option<Arrow>>, x: nat, y: nat) -> bool {
    exists|k: nat| #[trigger] link(above, Some(x), k) == Some(y)
}

/// `depth` strictly decreases along every link, so that every chain ends.
pub open spec fn ranked(above: Seq<Option<Arrow>>, depth: Seq<nat>) -> bool {
    &&& depth.len() == above.len()
    &&& forall|x: int|
        0 <= x < above.len() ==> match #[trigger] above[x] {
            Some(p) => p.0 < above.len() && depth[p.0 as int] < depth[x],
            None => true,
        }
}

/// The links never close a cycle.
pub open spec fn acyclic(above: Seq<Option<Arrow>>) -> bool {
    exists|depth: Seq<nat>| ranked(above, depth)
}

// ------------------------------------------------------------------------
// Marking the edges that close a cycle
// ------------------------------------------------------------------------

/// The edge from the function type `k` to its side `child` (the result side
/// when `side`, else the argument side): an edge back up the chain of links
/// from `k` is marked; an edge to a function type without a link links it
/// to `k`.
pub open spec fn mark(
    state: (Seq<(bool, bool)>, Seq<Option<Arrow>>),
    k: nat,
    child: Type,
    side: bool,
) -> (Seq<(bool, bool)>, Seq<Option<Arrow>>) {
    let (g, above) = state;
    match child {
        Type::Arrow(c) => if reaches(above, k, c.0 as nat) {
            (
                g.update(
                    k as int,
                    if side {
                        (g[k as int].0, true)
                    } else {
                        (true, g[k as int].1)
                    },
                ),
                above,
            )
        } else if above[c.0 as int] is None {
            (g, above.update(c.0 as int, Some(Arrow(k as usize))))
        } else {
            (g, above)
        },
        Type::Basic(_) => (g, above),
    }
}

/// The marks and the links after the first `n` function types, each with
/// its argument side, then its result side.
pub open spec fn guards(arrows: Seq<(Type, Type)>, n: nat) -> (Seq<(bool, bool)>, Seq<Option<Arrow>>)
    decreases n,
{
    if n == 0 {
        (Seq::new(arrows.len(), |_i: int| (false, false)), Seq::new(arrows.len(), |_i: int| None))
    } else {
        let s = guards(arrows, (n - 1) as nat);
        let s = mark(s, (n - 1) as nat, arrows[n - 1].0, false);
        mark(s, (n - 1) as nat, arrows[n - 1].1, true)
    }
}

/// A name for the function type that each function type is linked to, if any, in the order of their positions.
pub uninterp spec fn links(t: TiVec<Arrow, Option<Arrow>>) -> Seq<Option<Arrow>>;

impl Arena<Option<Arrow>> for TiVec<Arrow, Option<Arrow>> {
    open spec fn view(&self) -> Seq<Option<Arrow>> {
        links(*self)
    }
}

/// `TiVec::new`: claimed to give an empty arena.
#[verifier::external_body]
pub(crate) fn links_new() -> (t: TiVec<Arrow, Option<Arrow>>)
    ensures
        links(t) == Seq::<Option<Arrow>>::empty(),
{
    TiVec::new()
}

/// `TiVec::push`: claimed to append the entry.
#[verifier::external_body]
pub(crate) fn links_push(t: &mut TiVec<Arrow, Option<Arrow>>, value: Option<Arrow>)
    ensures
        links(*final(t)) == links(*old(t)).push(value),
{
    t.push(value)
}

/// Indexing by a key: claimed to give the entry at that position.
#[verifier::external_body]
pub(crate) fn links_get(t: &TiVec<Arrow, Option<Arrow>>, k: Arrow) -> (v: Option<Arrow>)
    requires
        k.0 < links(*t).len(),
    ensures
        v == links(*t)[k.0 as int],
{
    t[k]
}

/// Assigning through `IndexMut` by a key: claimed to replace the entry at
/// that position and nothing else.
#[verifier::external_body]
pub(crate) fn links_set(t: &mut TiVec<Arrow, Option<Arrow>>, k: Arrow, value: Option<Arrow>)
    requires
        k.0 < links(*old(t)).len(),
    ensures
        links(*final(t)) == links(*old(t)).update(k.0 as int, value),
{
    t[k] = value;
}

/// A name for the entries of a table of marks.
pub uninterp spec fn marks(t: TiVec<Arrow, (bool, bool)>) -> Seq<(bool, bool)>;

/// `TiVec::from` a `Vec`: claimed to hold the entries of the vector in
/// their order.
#[verifier::external_body]
fn mark_table(v: Vec<(bool, bool)>) -> (t: TiVec<Arrow, (bool, bool)>)
    ensures
        marks(t) == v@,
{
    TiVec::from(v)
}

/// Indexing a table of marks by an `Arrow`: claimed to give the entry at
/// that position.
#[verifier::external_body]
pub(crate) fn mark_get(t: &TiVec<Arrow, (bool, bool)>, k: Arrow) -> (r: (bool, bool))
    requires
        k.0 < marks(*t).len(),
    ensures
        r == marks(*t)[k.0 as int],
{
    t[k]
}

/// For each function type, whether its argument side and its result side
/// close a cycle.
pub struct Guard {
    pub guard: TiVec<Arrow, (bool, bool)>,
}

proof fn lemma_link_shift(above: Seq<Option<Arrow>>, x: Option<nat>, k: nat)
    ensures
        link(above, x, k + 1) == link(above, next(above, x), k),
    decreases k,
{
    reveal_with_fuel(link, 2);
    if k > 0 {
        lemma_link_shift(above, x, (k - 1) as nat);
    }
}

/// Every function type among `arrows` points to function types among them.
pub open spec fn inside(arrows: Seq<(Type, Type)>) -> bool {
    forall|j: int|
        0 <= j < arrows.len() ==> (#[trigger] arrows[j].0 matches Type::Arrow(c) ==> c.0 < arrows.len())
            && (arrows[j].1 matches Type::Arrow(c) ==> c.0 < arrows.len())
}

/// The function types of a well-formed file point only at function types of
/// the file.
pub proof fn lemma_wf_inside(file: File)
    requires
        file.in_tables(),
    ensures
        inside(file.arrows()),
{
    let arrows = file.arrows();
    assert forall|j: int| 0 <= j < arrows.len() implies (#[trigger] arrows[j].0 matches Type::Arrow(c)
        ==> c.0 < arrows.len()) && (arrows[j].1 matches Type::Arrow(c) ==> c.0 < arrows.len()) by {
        assert(valid(file.basic_count(), arrows.len(), arrows[j].0));
    }
}

proof fn lemma_guards_len(arrows: Seq<(Type, Type)>, n: nat)
    requires
        n <= arrows.len(),
        inside(arrows),
    ensures
        guards(arrows, n).0.len() == arrows.len(),
        guards(arrows, n).1.len() == arrows.len(),
    decreases n,
{
    if n > 0 {
        lemma_guards_len(arrows, (n - 1) as nat);
    }
}

proof fn lemma_link_none(above: Seq<Option<Arrow>>, x: Option<nat>, k: nat, j: nat)
    requires
        link(above, x, k) is None,
        k <= j,
    ensures
        link(above, x, j) is None,
    decreases j,
{
    if k < j {
        lemma_link_none(above, x, k, (j - 1) as nat);
    }
}

/// A chain passes through `y` exactly when it starts there or the chain
/// from the next link does.
proof fn lemma_reaches_step(above: Seq<Option<Arrow>>, x: nat, y: nat)
    requires
        x < above.len(),
        above[x as int] is Some,
    ensures
        reaches(above, x, y) <==> x == y || reaches(above, above[x as int].unwrap().0 as nat, y),
{
    let p = above[x as int].unwrap().0 as nat;
    assert(next(above, Some(x)) == Some(p));
    if reaches(above, x, y) && x != y {
        let k = choose|k: nat| #[trigger] link(above, Some(x), k) == Some(y);
        assert(k > 0);
        lemma_link_shift(above, Some(x), (k - 1) as nat);
        assert(link(above, Some(p), (k - 1) as nat) == Some(y));
    }
    if reaches(above, p, y) {
        let k = choose|k: nat| #[trigger] link(above, Some(p), k) == Some(y);
        lemma_link_shift(above, Some(x), k);
        assert(link(above, Some(x), k + 1) == Some(y));
    }
    if x == y {
        assert(link(above, Some(x), 0) == Some(y));
    }
}

/// Linking `c`, which has no link, to `a`, whose chain does not pass
/// through `c`, keeps the links free of cycles.
proof fn lemma_relink(above: Seq<Option<Arrow>>, depth: Seq<nat>, a: Arrow, c: nat) -> (depth2: Seq<nat>)
    requires
        ranked(above, depth),
        a.0 < above.len(),
        c < above.len(),
        above[c as int] is None,
        !reaches(above, a.0 as nat, c),
    ensures
        ranked(above.update(c as int, Some(a)), depth2),
{
    let above2 = above.update(c as int, Some(a));
    let d2 = Seq::new(
        above.len(),
        |y: int|
            if reaches(above, y as nat, c) {
                depth[y] + depth[a.0 as int] + 1
            } else {
                depth[y]
            },
    );
    assert(link(above, Some(c), 0) == Some(c));
    assert forall|x: int| 0 <= x < above2.len() implies match #[trigger] above2[x] {
        Some(p) => p.0 < above2.len() && d2[p.0 as int] < d2[x],
        None => true,
    } by {
        if x != c {
            assert(above2[x] == above[x]);
            if let Some(p) = above[x] {
                lemma_reaches_step(above, x as nat, c);
            }
        }
    }
    d2
}

/// Marking one side keeps the links free of cycles.
proof fn lemma_mark_acyclic(
    state: (Seq<(bool, bool)>, Seq<Option<Arrow>>),
    k: nat,
    child: Type,
    side: bool,
)
    requires
        acyclic(state.1),
        k < state.1.len(),
        state.1.len() <= usize::MAX,
        child matches Type::Arrow(c) ==> c.0 < state.1.len(),
    ensures
        acyclic(mark(state, k, child, side).1),
        mark(state, k, child, side).1.len() == state.1.len(),
{
    let depth = choose|d: Seq<nat>| ranked(state.1, d);
    if let Type::Arrow(c) = child {
        if !reaches(state.1, k, c.0 as nat) && state.1[c.0 as int] is None {
            let d2 = lemma_relink(state.1, depth, Arrow(k as usize), c.0 as nat);
            assert(ranked(mark(state, k, child, side).1, d2));
        } else {
            assert(ranked(mark(state, k, child, side).1, depth));
        }
    } else {
        assert(ranked(mark(state, k, child, side).1, depth));
    }
}

/// The links that the marking lays never close a cycle: every chain of
/// links that a later step walks ends.
pub proof fn lemma_guards_acyclic(arrows: Seq<(Type, Type)>, n: nat)
    requires
        n <= arrows.len(),
        arrows.len() <= usize::MAX,
        inside(arrows),
    ensures
        acyclic(guards(arrows, n).1),
    decreases n,
{
    lemma_guards_len(arrows, n);
    if n == 0 {
        assert(ranked(guards(arrows, 0).1, Seq::new(arrows.len(), |_i: int| 0nat)));
    } else {
        lemma_guards_acyclic(arrows, (n - 1) as nat);
        lemma_guards_len(arrows, (n - 1) as nat);
        let s = guards(arrows, (n - 1) as nat);
        lemma_mark_acyclic(s, (n - 1) as nat, arrows[n - 1].0, false);
        let s1 = mark(s, (n - 1) as nat, arrows[n - 1].0, false);
        lemma_mark_acyclic(s1, (n - 1) as nat, arrows[n - 1].1, true);
    }
}

/// Every link is an edge of the graph of function types: a function type
/// linked to `p` is one of the sides of `p`.
pub open spec fn links_are_edges(arrows: Seq<(Type, Type)>, above: Seq<Option<Arrow>>) -> bool {
    forall|x: int|
        0 <= x < above.len() ==> (#[trigger] above[x] matches Some(p) ==> p.0 < arrows.len() && (
        arrows[p.0 as int].0 == Type::Arrow(Arrow(x as usize)) || arrows[p.0 as int].1 == Type::Arrow(
            Arrow(x as usize),
        )))
}

/// The side is a function type that the chain of links from `k` reaches.
pub open spec fn closes(above: Seq<Option<Arrow>>, k: nat, side: Type) -> bool {
    side matches Type::Arrow(c) && reaches(above, k, c.0 as nat)
}

/// Every marked side of a function type `k` is a function type `c` that the
/// chain of links from `k` reaches.
pub open spec fn marks_close(arrows: Seq<(Type, Type)>, g: Seq<(bool, bool)>, above: Seq<Option<Arrow>>) -> bool {
    forall|k: int|
        0 <= k < g.len() ==> ((#[trigger] g[k]).0 ==> closes(above, k as nat, arrows[k].0)) && (g[k].1
            ==> closes(above, k as nat, arrows[k].1))
}

/// `more` keeps every link of `above`.
pub open spec fn keeps_links(above: Seq<Option<Arrow>>, more: Seq<Option<Arrow>>) -> bool {
    &&& more.len() == above.len()
    &&& forall|z: int| 0 <= z < above.len() && (#[trigger] above[z]) is Some ==> more[z] == above[z]
}

proof fn lemma_link_kept(above: Seq<Option<Arrow>>, more: Seq<Option<Arrow>>, x: Option<nat>, k: nat)
    requires
        keeps_links(above, more),
        link(above, x, k) is Some,
    ensures
        link(more, x, k) == link(above, x, k),
    decreases k,
{
    if k > 0 {
        let prev = link(above, x, (k - 1) as nat);
        assert(prev is Some);
        lemma_link_kept(above, more, x, (k - 1) as nat);
        let z = prev.unwrap();
        assert(z < above.len() && above[z as int] is Some);
    }
}

proof fn lemma_reaches_kept(above: Seq<Option<Arrow>>, more: Seq<Option<Arrow>>, x: nat, y: nat)
    requires
        keeps_links(above, more),
        reaches(above, x, y),
    ensures
        reaches(more, x, y),
{
    let k = choose|k: nat| #[trigger] link(above, Some(x), k) == Some(y);
    lemma_link_kept(above, more, Some(x), k);
    assert(link(more, Some(x), k) == Some(y));
}

proof fn lemma_mark_closes(
    arrows: Seq<(Type, Type)>,
    state: (Seq<(bool, bool)>, Seq<Option<Arrow>>),
    k: nat,
    side: bool,
)
    requires
        k < arrows.len(),
        arrows.len() <= usize::MAX,
        state.0.len() == arrows.len(),
        state.1.len() == arrows.len(),
        inside(arrows),
        links_are_edges(arrows, state.1),
        marks_close(arrows, state.0, state.1),
    ensures
        ({
            let child = if side {
                arrows[k as int].1
            } else {
                arrows[k as int].0
            };
            let next = mark(state, k, child, side);
            &&& next.0.len() == arrows.len()
            &&& next.1.len() == arrows.len()
            &&& links_are_edges(arrows, next.1)
            &&& marks_close(arrows, next.0, next.1)
        }),
{
    let child = if side {
        arrows[k as int].1
    } else {
        arrows[k as int].0
    };
    let next = mark(state, k, child, side);
    let (g, above) = state;
    assert(keeps_links(above, next.1));
    assert forall|j: int| 0 <= j < next.0.len() implies ((#[trigger] next.0[j]).0 ==> closes(
        next.1,
        j as nat,
        arrows[j].0,
    )) && (next.0[j].1 ==> closes(next.1, j as nat, arrows[j].1)) by {
        if g[j].0 {
            if let Type::Arrow(c) = arrows[j].0 {
                lemma_reaches_kept(above, next.1, j as nat, c.0 as nat);
            }
        }
        if g[j].1 {
            if let Type::Arrow(c) = arrows[j].1 {
                lemma_reaches_kept(above, next.1, j as nat, c.0 as nat);
            }
        }
    }
    assert forall|x: int| 0 <= x < next.1.len() implies (#[trigger] next.1[x] matches Some(p) ==> p.0
        < arrows.len() && (arrows[p.0 as int].0 == Type::Arrow(Arrow(x as usize)) || arrows[p.0 as int].1
        == Type::Arrow(Arrow(x as usize)))) by {
        let changed = match child {
            Type::Arrow(c) => x == c.0 && !reaches(above, k, c.0 as nat) && above[x] is None,
            _ => false,
        };
        if changed {
            assert(next.1[x] == Some(Arrow(k as usize)));
            assert(child == Type::Arrow(Arrow(x as usize)));
        } else {
            assert(next.1[x] == above[x]);
            if let Some(p) = above[x] {
                assert(p.0 < arrows.len());
            }
        }
    }
}

/// Every side that the marking marks closes a cycle: it is a function type
/// `c` from which a path of sides leads back to the function type that it
/// belongs to, since every link is a side and the chain of links from that
/// function type reaches `c`.
pub proof fn lemma_marks_close_cycles(arrows: Seq<(Type, Type)>, n: nat)
    requires
        n <= arrows.len(),
        arrows.len() <= usize::MAX,
        inside(arrows),
    ensures
        links_are_edges(arrows, guards(arrows, n).1),
        marks_close(arrows, guards(arrows, n).0, guards(arrows, n).1),
    decreases n,
{
    lemma_guards_len(arrows, n);
    if n > 0 {
        lemma_marks_close_cycles(arrows, (n - 1) as nat);
        lemma_guards_len(arrows, (n - 1) as nat);
        let s = guards(arrows, (n - 1) as nat);
        lemma_mark_closes(arrows, s, (n - 1) as nat, false);
        let s1 = mark(s, (n - 1) as nat, arrows[n - 1].0, false);
        lemma_mark_closes(arrows, s1, (n - 1) as nat, true);
    }
}

/// Linking `c0`, which the chain from `k` does not reach, leaves that
/// chain as it was.
proof fn lemma_link_unmoved(above: Seq<Option<Arrow>>, k: nat, c0: nat, a: Arrow, j: nat)
    requires
        c0 < above.len(),
        !reaches(above, k, c0),
    ensures
        link(above.update(c0 as int, Some(a)), Some(k), j) == link(above, Some(k), j),
    decreases j,
{
    if j > 0 {
        lemma_link_unmoved(above, k, c0, a, (j - 1) as nat);
        let prev = link(above, Some(k), (j - 1) as nat);
        if let Some(z) = prev {
            if z == c0 {
                assert(reaches(above, k, c0));
            }
        }
    }
}

proof fn lemma_reaches_unmoved(above: Seq<Option<Arrow>>, k: nat, c0: nat, a: Arrow, y: nat)
    requires
        c0 < above.len(),
        !reaches(above, k, c0),
    ensures
        reaches(above.update(c0 as int, Some(a)), k, y) == reaches(above, k, y),
{
    let upd = above.update(c0 as int, Some(a));
    if reaches(upd, k, y) {
        let j = choose|j: nat| #[trigger] link(upd, Some(k), j) == Some(y);
        lemma_link_unmoved(above, k, c0, a, j);
        assert(link(above, Some(k), j) == Some(y));
    }
    if reaches(above, k, y) {
        let j = choose|j: nat| #[trigger] link(above, Some(k), j) == Some(y);
        lemma_link_unmoved(above, k, c0, a, j);
        assert(link(upd, Some(k), j) == Some(y));
    }
}

/// The marking marks exactly the sides that close a cycle: a side of the
/// function type `k` is marked if and only if it is a function type that the
/// chain of links laid before `k` leads to from `k`, for the argument side
/// and for the result side alike; no other side is marked.
pub proof fn lemma_marks_exact(arrows: Seq<(Type, Type)>, n: nat)
    requires
        n <= arrows.len(),
        arrows.len() <= usize::MAX,
        inside(arrows),
    ensures
        guards(arrows, n).0.len() == arrows.len(),
        forall|k: int|
            n <= k < arrows.len() ==> #[trigger] guards(arrows, n).0[k] == (false, false),
        forall|k: int|
            0 <= k < n ==> (#[trigger] guards(arrows, n).0[k]).0 == closes(
                guards(arrows, k as nat).1,
                k as nat,
                arrows[k].0,
            ) && guards(arrows, n).0[k].1 == closes(guards(arrows, k as nat).1, k as nat, arrows[k].1),
    decreases n,
{
    lemma_guards_len(arrows, n);
    if n > 0 {
        let k0 = (n - 1) as nat;
        lemma_marks_exact(arrows, k0);
        lemma_guards_len(arrows, k0);
        let s = guards(arrows, k0);
        let s1 = mark(s, k0, arrows[k0 as int].0, false);
        let s2 = mark(s1, k0, arrows[k0 as int].1, true);
        assert(s2 == guards(arrows, n));
        assert(s.0[k0 as int] == (false, false));
        assert(s1.0[k0 as int].0 == closes(s.1, k0, arrows[k0 as int].0));
        assert(s1.0[k0 as int].1 == false);
        if let Type::Arrow(c) = arrows[k0 as int].0 {
            if !reaches(s.1, k0, c.0 as nat) && s.1[c.0 as int] is None {
                assert(s1.1 == s.1.update(c.0 as int, Some(Arrow(k0 as usize))));
                if let Type::Arrow(d) = arrows[k0 as int].1 {
                    lemma_reaches_unmoved(s.1, k0, c.0 as nat, Arrow(k0 as usize), d.0 as nat);
                }
            }
        }
        assert(closes(s1.1, k0, arrows[k0 as int].1) == closes(s.1, k0, arrows[k0 as int].1));
        assert(s2.0[k0 as int].1 == closes(s1.1, k0, arrows[k0 as int].1));
        assert(s2.0[k0 as int].0 == s1.0[k0 as int].0);
        assert forall|k: int| 0 <= k < n implies (#[trigger] guards(arrows, n).0[k]).0 == closes(
            guards(arrows, k as nat).1,
            k as nat,
            arrows[k].0,
        ) && guards(arrows, n).0[k].1 == closes(guards(arrows, k as nat).1, k as nat, arrows[k].1) by {
            if k < k0 {
                assert(s2.0[k] == s.0[k]);
            }
        }
        assert forall|k: int| n <= k < arrows.len() implies #[trigger] guards(arrows, n).0[k] == (false, false) by {
            assert(s2.0[k] == s.0[k]);
        }
    }
}

/// Whether the chain of links from `from` passes through `target`.
fn walk(above: &TiVec<Arrow, Option<Arrow>>, from: Arrow, target: Arrow, Ghost(depth): Ghost<Seq<nat>>) -> (r:
    bool)
    requires
        ranked(above@, depth),
        from.0 < above@.len(),
    ensures
        r == reaches(above@, from.0 as nat, target.0 as nat),
{
    let mut data: Option<Arrow> = Some(from);
    let ghost mut k: nat = 0;
    loop
        invariant
            ranked(above@, depth),
            link(above@, Some(from.0 as nat), k) == match data {
                Some(a) => Some(a.0 as nat),
                None => None,
            },
            data matches Some(a) ==> a.0 < above@.len(),
            forall|j: nat| j < k ==> #[trigger] link(above@, Some(from.0 as nat), j) != Some(
                target.0 as nat,
            ),
        decreases
                match data {
                    Some(a) => depth[a.0 as int] + 1,
                    None => 0,
                },
    {
        match data {
            None => {
                proof {
                    assert forall|j: nat| #[trigger]
                        link(above@, Some(from.0 as nat), j) != Some(target.0 as nat) by {
                        if j >= k {
                            lemma_link_none(above@, Some(from.0 as nat), k, j);
                        }
                    }
                }
                return false;
            },
            Some(a) => {
                if a == target {
                    return true;
                }
                proof {
                    assert(link(above@, Some(from.0 as nat), k + 1) == next(
                        above@,
                        Some(a.0 as nat),
                    ));
                }
                data = links_get(above, a);
                proof {
                    k = k + 1;
                }
            },
        }
    }
}

impl Guard {
    /// Walks the function types in order and marks each side that points
    /// back up the chain of links from its function type; a side that
    /// points to a function type without a link links it to the current
    /// one.
    pub fn from(value: &File) -> (r: Guard)
        requires
            inside(value.arrows()),
        ensures
            marks(r.guard) == guards(value.arrows(), value.arrows().len()).0,
            marks(r.guard).len() == value.arrows().len(),
    {
        let ghost arrows = value.arrows();
        let n = arrow_len(&value.arrow);
        let mut guard: Vec<(bool, bool)> = Vec::new();
        let mut above = links_new();
        let mut i: usize = 0;
        while i < n
            invariant
                n == arrows.len(),
                i <= n,
                guard@ == Seq::new(i as nat, |_i: int| (false, false)),
                above@ == Seq::new(i as nat, |_i: int| None::<Arrow>),
            decreases n - i,
        {
            guard.push((false, false));
            links_push(&mut above, None);
            i = i + 1;
        }
        let ghost mut depth: Seq<nat> = Seq::new(n as nat, |_i: int| 0nat);
        let mut k: usize = 0;
        while k < n
            invariant
                arrows == value.arrows(),
                inside(arrows),
                n == arrows.len(),
                k <= n,
                guard@ == guards(arrows, k as nat).0,
                above@ == guards(arrows, k as nat).1,
                guard@.len() == n,
                ranked(above@, depth),
            decreases n - k,
        {
            let (lhs, rhs) = arrow_get(&value.arrow, Arrow(k));
            proof {
                lemma_guards_len(arrows, k as nat);
                assert(lhs == arrows[k as int].0 && rhs == arrows[k as int].1);
            }
            let ghost s0 = (guard@, above@);
            if let Type::Arrow(lhs) = lhs {
                if walk(&above, Arrow(k), lhs, Ghost(depth)) {
                    let past = guard[k];
                    guard.set(k, (true, past.1));
                } else if links_get(&above, lhs).is_none() {
                    proof {
                        depth = lemma_relink(above@, depth, Arrow(k), lhs.0 as nat);
                    }
                    links_set(&mut above, lhs, Some(Arrow(k)));
                }
            }
            assert((guard@, above@) == mark(s0, k as nat, lhs, false));
            let ghost s1 = (guard@, above@);
            if let Type::Arrow(rhs) = rhs {
                if walk(&above, Arrow(k), rhs, Ghost(depth)) {
                    let past = guard[k];
                    guard.set(k, (past.0, true));
                } else if links_get(&above, rhs).is_none() {
                    proof {
                        depth = lemma_relink(above@, depth, Arrow(k), rhs.0 as nat);
                    }
                    links_set(&mut above, rhs, Some(Arrow(k)));
                }
            }
            assert((guard@, above@) == mark(s1, k as nat, rhs, true));
            proof {
                lemma_guards_len(arrows, k as nat + 1);
            }
            k = k + 1;
        }
        Guard { guard: mark_table(guard) }
    }
}

} // verus!
