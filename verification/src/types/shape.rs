use vstd::prelude::*;

use typed_index_collections::TiVec;

use super::terms::arena::Arena;
use super::terms::graph::{graph_abstrs_get, graph_applys_get, graph_idents_get};
use super::terms::{app_count, graph, lam_count, Lambda, Sheaf, Term};

verus! {

/// A type variable: the position of a type in the table of types.
#[derive(Clone, Copy, Debug, PartialEq, Eq, Structural)]
pub struct Name(pub usize);

/// An entry of the table of types.
#[derive(Clone, Copy, Debug)]
pub enum Type {
    /// A type about which nothing is known yet.
    Basic(),
    /// The same type as the one named: the entry was merged into it.
    Clone(Name),
    /// The type of functions from the first named type to the second.
    Arrow(Name, Name),
}

impl From<usize> for Name {
    fn from(value: usize) -> (r: Name)
        ensures
            r.0 == value,
    {
        Name(value)
    }
}

impl vstd::std_specs::convert::FromSpecImpl<usize> for Name {
    open spec fn obeys_from_spec() -> bool {
        true
    }

    open spec fn from_spec(v: usize) -> Name {
        Name(v)
    }
}

impl From<Name> for usize {
    fn from(value: Name) -> (r: usize)
        ensures
            r == value.0,
    {
        value.0
    }
}

impl vstd::std_specs::convert::FromSpecImpl<Name> for usize {
    open spec fn obeys_from_spec() -> bool {
        true
    }

    open spec fn from_spec(v: Name) -> usize {
        v.0
    }
}

// ------------------------------------------------------------------------
// The table of types, a `TiVec` keyed by `Name`
// ------------------------------------------------------------------------

#[verifier::external_type_specification]
#[verifier::external_body]
#[verifier::reject_recursive_types(K)]
#[verifier::reject_recursive_types(V)]
pub struct ExTiVec<K, V>(TiVec<K, V>);

/// A name for the entries that a table of types holds, in the order of their
/// names.
pub uninterp spec fn table(types: TiVec<Name, Type>) -> Seq<Type>;

/// `TiVec::new`: claimed to give an empty table.
#[verifier::external_body]
fn table_new() -> (t: TiVec<Name, Type>)
    ensures
        table(t) == Seq::<Type>::empty(),
{
    TiVec::new()
}

/// `TiVec::len`: claimed to give the number of entries.
#[verifier::external_body]
pub(crate) fn table_len(t: &TiVec<Name, Type>) -> (n: usize)
    ensures
        n == table(*t).len(),
{
    t.len()
}

/// `TiVec::push_and_get_key`: claimed to append the entry and to return the
/// name of its position, the former number of entries.
#[verifier::external_body]
fn table_push(t: &mut TiVec<Name, Type>, value: Type) -> (k: Name)
    ensures
        table(*final(t)) == table(*old(t)).push(value),
        k.0 == table(*old(t)).len(),
{
    t.push_and_get_key(value)
}

/// Indexing a `TiVec` by a name: claimed to give the entry at that position.
#[verifier::external_body]
pub(crate) fn table_get(t: &TiVec<Name, Type>, k: Name) -> (v: Type)
    requires
        k.0 < table(*t).len(),
    ensures
        v == table(*t)[k.0 as int],
{
    t[k]
}

/// Assigning through `IndexMut` of a `TiVec`: claimed to replace the entry
/// at that position and nothing else.
#[verifier::external_body]
fn table_set(t: &mut TiVec<Name, Type>, k: Name, v: Type)
    requires
        k.0 < table(*old(t)).len(),
    ensures
        table(*final(t)) == table(*old(t)).update(k.0 as int, v),
{
    t[k] = v;
}

// ------------------------------------------------------------------------
// The union-find structure of the table
// ------------------------------------------------------------------------

/// Every name in the table points into the table.
pub open spec fn closed(types: Seq<Type>) -> bool {
    forall|i: int|
        0 <= i < types.len() ==> match #[trigger] types[i] {
            Type::Basic() => true,
            Type::Clone(p) => p.0 < types.len(),
            Type::Arrow(l, r) => l.0 < types.len() && r.0 < types.len(),
        }
}

/// `root[i]` is the entry that the chain of clones from `i` ends at, and
/// `depth` strictly decreases along each clone link.
pub open spec fn forest(types: Seq<Type>, root: Seq<nat>, depth: Seq<nat>) -> bool {
    &&& root.len() == types.len()
    &&& depth.len() == types.len()
    &&& forall|i: int|
        0 <= i < types.len() ==> {
            &&& #[trigger] root[i] < types.len()
            &&& !(types[root[i] as int] is Clone)
            &&& match types[i] {
                Type::Clone(p) => p.0 < types.len() && root[p.0 as int] == root[i] && depth[p.0 as int]
                    < depth[i],
                _ => root[i] == i,
            }
        }
}

/// The table is closed and its clone links end.
pub open spec fn well_formed(types: Seq<Type>) -> bool {
    &&& closed(types)
    &&& exists|root: Seq<nat>, depth: Seq<nat>| forest(types, root, depth)
}

/// The representative of each entry: where its chain of clones ends.
pub open spec fn roots(types: Seq<Type>) -> Seq<nat> {
    (choose|root: Seq<nat>, depth: Seq<nat>| forest(types, root, depth)).0
}

/// The entry `n` stands for a function type.
pub open spec fn arrow_rooted(types: Seq<Type>, n: nat) -> bool {
    types[roots(types)[n as int] as int] is Arrow
}

/// The sides of the function type that the name `n` stands for, if it
/// stands for one.
pub open spec fn sides(types: Seq<Type>, n: int) -> Option<(Name, Name)> {
    match types[roots(types)[n] as int] {
        Type::Arrow(l, r) => Some((l, r)),
        _ => None,
    }
}

/// The names `m` and `n` stand for the same type.
pub open spec fn same(types: Seq<Type>, m: int, n: int) -> bool {
    roots(types)[m] == roots(types)[n]
}

/// `next` keeps what `prev` says of its names: names that stood for the same
/// type still do, and a name that stood for a function type still does, with
/// sides that stand for the same types as before.
pub open spec fn refines(prev: Seq<Type>, next: Seq<Type>) -> bool {
    &&& prev.len() <= next.len()
    &&& forall|m: int, n: int|
        0 <= m < prev.len() && 0 <= n < prev.len() && #[trigger] same(prev, m, n) ==> #[trigger] same(
            next,
            m,
            n,
        )
    &&& forall|m: int|
        0 <= m < prev.len() && #[trigger] sides(prev, m) is Some ==> {
            let (l, r) = sides(prev, m).unwrap();
            &&& #[trigger] sides(next, m) is Some
            &&& same(next, sides(next, m).unwrap().0.0 as int, l.0 as int)
            &&& same(next, sides(next, m).unwrap().1.0 as int, r.0 as int)
        }
}

/// The name `n` can be asked for a function type without splitting its
/// class: it is its own representative, or it stands for a function type.
pub open spec fn proper(types: Seq<Type>, n: int) -> bool {
    roots(types)[n] == n || types[roots(types)[n] as int] is Arrow
}

proof fn lemma_refines_refl(types: Seq<Type>)
    requires
        well_formed(types),
    ensures
        refines(types, types),
{
    assert forall|m: int| 0 <= m < types.len() && #[trigger] sides(types, m) is Some implies {
        let (l, r) = sides(types, m).unwrap();
        &&& #[trigger] sides(types, m) is Some
        &&& same(types, sides(types, m).unwrap().0.0 as int, l.0 as int)
        &&& same(types, sides(types, m).unwrap().1.0 as int, r.0 as int)
    } by {}
}

proof fn lemma_refines_trans(t0: Seq<Type>, t1: Seq<Type>, t2: Seq<Type>)
    requires
        well_formed(t0),
        well_formed(t1),
        refines(t0, t1),
        refines(t1, t2),
    ensures
        refines(t0, t2),
{
    assert forall|m: int| 0 <= m < t0.len() && #[trigger] sides(t0, m) is Some implies {
        let (l, r) = sides(t0, m).unwrap();
        &&& #[trigger] sides(t2, m) is Some
        &&& same(t2, sides(t2, m).unwrap().0.0 as int, l.0 as int)
        &&& same(t2, sides(t2, m).unwrap().1.0 as int, r.0 as int)
    } by {
        let (l, r) = sides(t0, m).unwrap();
        lemma_sides_closed(t0, m);
        assert(sides(t1, m) is Some);
        lemma_sides_closed(t1, m);
        let (l1, r1) = sides(t1, m).unwrap();
        assert(same(t1, l1.0 as int, l.0 as int));
        assert(same(t1, r1.0 as int, r.0 as int));
        assert(sides(t2, m) is Some);
        assert(same(t2, l1.0 as int, l.0 as int));
        assert(same(t2, r1.0 as int, r.0 as int));
    }
    assert forall|m: int, n: int|
        0 <= m < t0.len() && 0 <= n < t0.len() && #[trigger] same(t0, m, n) implies #[trigger] same(
        t2,
        m,
        n,
    ) by {
        assert(same(t1, m, n));
    }
}

/// The sides of a function type lie in the table.
pub proof fn lemma_sides_closed(types: Seq<Type>, m: int)
    requires
        well_formed(types),
        0 <= m < types.len(),
    ensures
        sides(types, m) matches Some((l, r)) ==> l.0 < types.len() && r.0 < types.len(),
{
    lemma_roots_ok(types, m);
    assert(closed(types));
    let rt = roots(types)[m] as int;
    assert(match types[rt] {
        Type::Basic() => true,
        Type::Clone(p) => p.0 < types.len(),
        Type::Arrow(l, r) => l.0 < types.len() && r.0 < types.len(),
    });
}

/// Appending an entry that is no clone keeps what the table says.
proof fn lemma_refines_push(types: Seq<Type>, v: Type)
    requires
        well_formed(types),
        !(v is Clone),
        match v {
            Type::Arrow(l, r) => l.0 < types.len() && r.0 < types.len(),
            _ => true,
        },
    ensures
        refines(types, types.push(v)),
{
    lemma_push_forest(types, v);
    let t2 = types.push(v);
    assert forall|m: int| 0 <= m < types.len() && #[trigger] sides(types, m) is Some implies {
        let (l, r) = sides(types, m).unwrap();
        &&& #[trigger] sides(t2, m) is Some
        &&& same(t2, sides(t2, m).unwrap().0.0 as int, l.0 as int)
        &&& same(t2, sides(t2, m).unwrap().1.0 as int, r.0 as int)
    } by {
        lemma_roots_ok(types, m);
        lemma_sides_closed(types, m);
        assert(roots(t2)[m] == roots(types)[m]);
        assert(t2[roots(types)[m] as int] == types[roots(types)[m] as int]);
        let (l, r) = sides(types, m).unwrap();
        assert(roots(t2)[l.0 as int] == roots(types)[l.0 as int]);
        assert(roots(t2)[r.0 as int] == roots(types)[r.0 as int]);
    }
    assert forall|m: int, n: int|
        0 <= m < types.len() && 0 <= n < types.len() && #[trigger] same(types, m, n) implies #[trigger] same(
        t2,
        m,
        n,
    ) by {
        assert(roots(t2)[m] == roots(types)[m]);
        assert(roots(t2)[n] == roots(types)[n]);
    }
}

/// The number of entries that are not clones.
pub open spec fn root_count(types: Seq<Type>) -> nat
    decreases types.len(),
{
    if types.len() == 0 {
        0
    } else {
        root_count(types.drop_last()) + if types.last() is Clone {
            0nat
        } else {
            1nat
        }
    }
}

/// The table after asking for the function type that `name` stands for,
/// and the two sides of that type: where the representative of `name` is no
/// function type, two fresh entries are appended and `name` itself becomes
/// the function type between them.
pub open spec fn arrow_of(types: Seq<Type>, name: Name) -> (Seq<Type>, (Name, Name)) {
    match types[roots(types)[name.0 as int] as int] {
        Type::Arrow(l, r) => (types, (l, r)),
        _ => {
            let (l, r) = (Name(types.len() as usize), Name((types.len() + 1) as usize));
            (
                types.push(Type::Basic()).push(Type::Basic()).update(name.0 as int, Type::Arrow(l, r)),
                (l, r),
            )
        },
    }
}

/// The table after making `key` and `alt` stand for the same type, with at
/// most `fuel` nested merges: the representative of `alt` becomes a clone of
/// that of `key`; where both stand for function types, their sides are
/// merged in turn, argument sides first; where only `alt` did, the
/// representative of `key` takes over its sides.
pub open spec fn unified(types: Seq<Type>, key: Name, alt: Name, fuel: nat) -> Seq<Type>
    decreases fuel,
{
    if fuel == 0 {
        types
    } else {
        let k = roots(types)[key.0 as int];
        let a = roots(types)[alt.0 as int];
        if k == a {
            types
        } else {
            let t1 = types.update(a as int, Type::Clone(Name(k as usize)));
            match types[a as int] {
                Type::Arrow(al, ar) => match t1[k as int] {
                    Type::Arrow(kl, kr) => unified(
                        unified(t1, kl, al, (fuel - 1) as nat),
                        kr,
                        ar,
                        (fuel - 1) as nat,
                    ),
                    _ => t1.update(k as int, Type::Arrow(al, ar)),
                },
                _ => t1,
            }
        }
    }
}

/// The variables of the nodes: of the occurrences, of the abstractions and
/// of the applications.
pub type Vars = (Seq<Name>, Seq<Name>, Seq<Name>);

/// The variable of the node `term`.
pub open spec fn var_at(assoc: Vars, term: Term) -> Name {
    match term {
        Term::Ident(i) => assoc.0[i.0 as int],
        Term::Abstr(a) => assoc.1[a.0 as int],
        Term::Apply(p) => assoc.2[p.0 as int],
    }
}

/// The variables with `kind` for the node `term`.
pub open spec fn with_var(assoc: Vars, term: Term, kind: Name) -> Vars {
    match term {
        Term::Ident(i) => (assoc.0.update(i.0 as int, kind), assoc.1, assoc.2),
        Term::Abstr(a) => (assoc.0, assoc.1.update(a.0 as int, kind), assoc.2),
        Term::Apply(p) => (assoc.0, assoc.1, assoc.2.update(p.0 as int, kind)),
    }
}

/// The table and the variables after typing the node `term` for `t` of
/// `g` with `kind`: the node gets `kind`; an occurrence merges the argument
/// side of the function type of its binder with `kind`; an abstraction
/// types its body with the result side of the function type that `kind`
/// stands for; an application types its argument with a fresh variable,
/// then its function with a fresh function type from that variable to
/// `kind`.
pub open spec fn checked(g: graph::File, types: Seq<Type>, assoc: Vars, term: Term, kind: Name, t: Lambda) -> (
    Seq<Type>,
    Vars,
)
    decreases t,
{
    let assoc = with_var(assoc, term, kind);
    match (term, t) {
        (Term::Ident(idx), _) => {
            let binder = var_at(assoc, Term::Abstr(g.idents@[idx.0 as int]));
            let (t1, (lhs, _)) = arrow_of(types, binder);
            (unified(t1, lhs, kind, root_count(t1) + 1), assoc)
        },
        (Term::Abstr(idx), Lambda::Lam(b)) => {
            let (t1, (_, rhs)) = arrow_of(types, kind);
            checked(g, t1, assoc, g.abstrs@[idx.0 as int].1, rhs, *b)
        },
        (Term::Apply(idx), Lambda::App(f, x)) => {
            let (lhs, rhs) = g.applys@[idx.0 as int];
            let basic = Name(types.len() as usize);
            let (t2, a2) = checked(g, types.push(Type::Basic()), assoc, rhs, basic, *x);
            checked(g, t2.push(Type::Arrow(basic, kind)), a2, lhs, Name(t2.len() as usize), *f)
        },
        _ => (types, assoc),
    }
}

/// Typing the node `term` for `t` of `g` with `kind` asks, for some
/// abstraction, for the function type of a variable that is a clone of a
/// type that is not a function type: the variable then leaves its class.
pub open spec fn detaches(g: graph::File, types: Seq<Type>, assoc: Vars, term: Term, kind: Name, t: Lambda) -> bool
    decreases t,
{
    let assoc = with_var(assoc, term, kind);
    match (term, t) {
        (Term::Abstr(idx), Lambda::Lam(b)) => !proper(types, kind.0 as int) || {
            let (t1, (_, rhs)) = arrow_of(types, kind);
            detaches(g, t1, assoc, g.abstrs@[idx.0 as int].1, rhs, *b)
        },
        (Term::Apply(idx), Lambda::App(f, x)) => {
            let (lhs, rhs) = g.applys@[idx.0 as int];
            let basic = Name(types.len() as usize);
            let (t2, a2) = checked(g, types.push(Type::Basic()), assoc, rhs, basic, *x);
            detaches(g, types.push(Type::Basic()), assoc, rhs, basic, *x) || detaches(
                g,
                t2.push(Type::Arrow(basic, kind)),
                a2,
                lhs,
                Name(t2.len() as usize),
                *f,
            )
        },
        _ => false,
    }
}

/// Typing the term of `g` detaches a variable from its class somewhere.
///
/// That happens only where an abstraction is typed under a variable that is
/// a clone whose representative is a basic type: `arrow` then writes the
/// function type into the variable's own entry rather than into its
/// representative's. No term is known that does so; that none does is not
/// proved here.
pub open spec fn splits_a_class(g: graph::File) -> bool {
    detaches(
        g,
        seq![Type::Basic()],
        (
            Seq::new(g.idents@.len(), |_i: int| Name(usize::MAX)),
            Seq::new(g.abstrs@.len(), |_i: int| Name(usize::MAX)),
            Seq::new(g.applys@.len(), |_i: int| Name(usize::MAX)),
        ),
        g.origin,
        Name(0),
        g.lambda(),
    )
}

/// The table and the variables that typing the term of `g` gives: the table
/// starts with one basic type, the variable of the origin, and every node
/// starts without a variable.
pub open spec fn shape_of(g: graph::File) -> (Seq<Type>, Vars) {
    checked(
        g,
        seq![Type::Basic()],
        (
            Seq::new(g.idents@.len(), |_i: int| Name(usize::MAX)),
            Seq::new(g.abstrs@.len(), |_i: int| Name(usize::MAX)),
            Seq::new(g.applys@.len(), |_i: int| Name(usize::MAX)),
        ),
        g.origin,
        Name(0),
        g.lambda(),
    )
}

/// The chain of clones from `m` passes through `n`.
pub open spec fn below(types: Seq<Type>, depth: Seq<nat>, m: nat, n: nat) -> bool
    decreases depth[m as int],
{
    if m == n {
        true
    } else if m < types.len() && m < depth.len() {
        match types[m as int] {
            Type::Clone(p) => if p.0 < depth.len() && depth[p.0 as int] < depth[m as int] {
                below(types, depth, p.0 as nat, n)
            } else {
                false
            },
            _ => false,
        }
    } else {
        false
    }
}

proof fn lemma_forest_root_unique(
    types: Seq<Type>,
    r1: Seq<nat>,
    d1: Seq<nat>,
    r2: Seq<nat>,
    d2: Seq<nat>,
    i: int,
)
    requires
        forest(types, r1, d1),
        forest(types, r2, d2),
        0 <= i < types.len(),
    ensures
        r1[i] == r2[i],
    decreases d1[i],
{
    assert(r1[i] < types.len());
    assert(r2[i] < types.len());
    if let Type::Clone(p) = types[i] {
        lemma_forest_root_unique(types, r1, d1, r2, d2, p.0 as int);
    }
}

/// Any witness of the structure gives the representatives.
proof fn lemma_roots(types: Seq<Type>, root: Seq<nat>, depth: Seq<nat>)
    requires
        forest(types, root, depth),
    ensures
        roots(types) == root,
{
    let (r2, d2) = choose|r: Seq<nat>, d: Seq<nat>| forest(types, r, d);
    assert forall|i: int| 0 <= i < types.len() implies roots(types)[i] == root[i] by {
        lemma_forest_root_unique(types, root, depth, r2, d2, i);
    }
    assert(roots(types) =~= root);
}

proof fn lemma_below(types: Seq<Type>, root: Seq<nat>, depth: Seq<nat>, m: nat, n: nat)
    requires
        forest(types, root, depth),
        m < types.len(),
        n < types.len(),
        below(types, depth, m, n),
    ensures
        root[m as int] == root[n as int],
        depth[n as int] <= depth[m as int],
    decreases depth[m as int],
{
    if m != n {
        if let Type::Clone(p) = types[m as int] {
            lemma_below(types, root, depth, p.0 as nat, n);
        }
    }
}

proof fn lemma_below_root(types: Seq<Type>, root: Seq<nat>, depth: Seq<nat>, m: nat)
    requires
        forest(types, root, depth),
        m < types.len(),
    ensures
        below(types, depth, m, root[m as int]),
    decreases depth[m as int],
{
    assert(root[m as int] < types.len());
    if let Type::Clone(p) = types[m as int] {
        lemma_below_root(types, root, depth, p.0 as nat);
    }
}

proof fn lemma_root_count_update(types: Seq<Type>, i: int, v: Type)
    requires
        0 <= i < types.len(),
    ensures
        root_count(types.update(i, v)) + (if types[i] is Clone {
            0nat
        } else {
            1nat
        }) == root_count(types) + (if v is Clone {
            0nat
        } else {
            1nat
        }),
    decreases types.len(),
{
    if i < types.len() - 1 {
        lemma_root_count_update(types.drop_last(), i, v);
        assert(types.update(i, v).drop_last() =~= types.drop_last().update(i, v));
    } else {
        assert(types.update(i, v).drop_last() =~= types.drop_last());
    }
}

/// Each representative lies in the table, is no clone, and is its own
/// representative.
pub proof fn lemma_roots_ok(types: Seq<Type>, m: int)
    requires
        well_formed(types),
        0 <= m < types.len(),
    ensures
        roots(types)[m] < types.len(),
        !(types[roots(types)[m] as int] is Clone),
        roots(types)[roots(types)[m] as int] == roots(types)[m],
{
    let (root, depth) = choose|r: Seq<nat>, d: Seq<nat>| forest(types, r, d);
    lemma_roots(types, root, depth);
    assert(root[m] < types.len());
    assert(root[root[m] as int] < types.len());
}

/// The empty table is well formed.
proof fn lemma_empty_forest()
    ensures
        well_formed(Seq::<Type>::empty()),
{
    assert(forest(Seq::<Type>::empty(), Seq::<nat>::empty(), Seq::<nat>::empty()));
}

/// Appending a fresh entry keeps the structure: it is its own representative.
proof fn lemma_push_forest(types: Seq<Type>, v: Type)
    requires
        well_formed(types),
        !(v is Clone),
        match v {
            Type::Arrow(l, r) => l.0 < types.len() && r.0 < types.len(),
            _ => true,
        },
    ensures
        well_formed(types.push(v)),
        roots(types.push(v)) == roots(types).push(types.len() as nat),
{
    let (root, depth) = choose|r: Seq<nat>, d: Seq<nat>| forest(types, r, d);
    lemma_roots(types, root, depth);
    let t2 = types.push(v);
    let r2 = root.push(types.len() as nat);
    let d2 = depth.push(0);
    assert forall|i: int| 0 <= i < t2.len() implies {
        &&& #[trigger] r2[i] < t2.len()
        &&& !(t2[r2[i] as int] is Clone)
        &&& match t2[i] {
            Type::Clone(p) => p.0 < t2.len() && r2[p.0 as int] == r2[i] && d2[p.0 as int] < d2[i],
            _ => r2[i] == i,
        }
    } by {
        if i < types.len() {
            assert(t2[i] == types[i]);
            assert(r2[i] == root[i]);
            if let Type::Clone(p) = types[i] {
                assert(r2[p.0 as int] == root[p.0 as int]);
            }
        }
    }
    assert(forest(t2, r2, d2));
    lemma_roots(t2, r2, d2);
    assert forall|i: int| 0 <= i < t2.len() implies match #[trigger] t2[i] {
        Type::Basic() => true,
        Type::Clone(p) => p.0 < t2.len(),
        Type::Arrow(l, r) => l.0 < t2.len() && r.0 < t2.len(),
    } by {
        if i < types.len() {
            assert(t2[i] == types[i]);
        }
    }
}

// ------------------------------------------------------------------------
// The file of types
// ------------------------------------------------------------------------

/// The term, the table of types and the type variable of each node.
pub struct File {
    pub terms: graph::File,
    pub types: TiVec<Name, Type>,
    pub assoc: Sheaf<Name>,
}

impl File {
    /// The table is well formed and the sheaf has one variable per node.
    pub open spec fn wf(self) -> bool {
        &&& well_formed(table(self.types))
        &&& self.assoc.fits(self.terms)
    }

    /// The node `term` for `t` has its type variables in place: every node
    /// has a variable of the table, every abstraction's variable stands for
    /// a function type, and so does the variable of every function that is
    /// applied.
    pub open spec fn typed(self, term: Term, t: Lambda) -> bool
        decreases t,
    {
        let types = table(self.types);
        &&& self.assoc.has(term)
        &&& self.assoc.at(term).0 < types.len()
        &&& match t {
            Lambda::Var(_) => term is Ident,
            Lambda::Lam(b) => term matches Term::Abstr(a) && arrow_rooted(
                types,
                self.assoc.at(term).0 as nat,
            ) && a.0 < self.terms.abstrs@.len() && self.typed(
                self.terms.abstrs@[a.0 as int].1,
                *b,
            ),
            Lambda::App(f, x) => term matches Term::Apply(p) && p.0 < self.terms.applys@.len()
                && self.typed(self.terms.applys@[p.0 as int].0, *f) && self.typed(
                self.terms.applys@[p.0 as int].1,
                *x,
            ) && arrow_rooted(types, self.assoc.at(self.terms.applys@[p.0 as int].0).0 as nat),
        }
    }

    /// `next` keeps the type variables of the nodes of `term` for `t`, and
    /// every entry of the table that stood for a function still does.
    pub open spec fn keeps(
        self,
        next: File,
        term: Term,
        t: Lambda,
        lo_abs: nat,
        lo_app: nat,
    ) -> bool {
        &&& next.terms == self.terms
        &&& table(self.types).len() <= table(next.types).len()
        &&& well_formed(table(next.types))
        &&& forall|m: nat|
            m < table(self.types).len() && arrow_rooted(table(self.types), m) ==> #[trigger] arrow_rooted(
                table(next.types),
                m,
            )
        &&& next.assoc@.0.len() == self.assoc@.0.len()
        &&& next.assoc@.1.len() == self.assoc@.1.len()
        &&& next.assoc@.2.len() == self.assoc@.2.len()
        &&& forall|i: int|
            0 <= i < self.assoc@.0.len() && self.terms.uses(term, t, i) ==> #[trigger] next.assoc@.0[i]
                == self.assoc@.0[i]
        &&& forall|a: int|
            lo_abs <= a < lo_abs + lam_count(t) && a < self.assoc@.1.len() ==> #[trigger] next.assoc@.1[a]
                == self.assoc@.1[a]
        &&& forall|p: int|
            lo_app <= p < lo_app + app_count(t) && p < self.assoc@.2.len() ==> #[trigger] next.assoc@.2[p]
                == self.assoc@.2[p]
    }

    /// `next` has the same term, a table that extends this one in which
    /// every entry that stood for a function still does, and one variable
    /// per node.
    pub open spec fn grows(self, next: File) -> bool {
        &&& next.terms == self.terms
        &&& table(self.types).len() <= table(next.types).len()
        &&& forall|m: nat|
            m < table(self.types).len() && arrow_rooted(table(self.types), m) ==> #[trigger] arrow_rooted(
                table(next.types),
                m,
            )
        &&& next.assoc@.0.len() == self.assoc@.0.len()
        &&& next.assoc@.1.len() == self.assoc@.1.len()
        &&& next.assoc@.2.len() == self.assoc@.2.len()
    }

    /// `next` has the variables of this file on every node outside the node
    /// `term` for `t`.
    pub open spec fn kept_outside(
        self,
        next: File,
        term: Term,
        t: Lambda,
        lo_abs: nat,
        lo_app: nat,
    ) -> bool {
        &&& forall|i: int|
            0 <= i < self.assoc@.0.len() && !self.terms.uses(term, t, i) ==> #[trigger] next.assoc@.0[i]
                == self.assoc@.0[i]
        &&& forall|a: int|
            0 <= a < self.assoc@.1.len() && !(lo_abs <= a < lo_abs + lam_count(t)) ==> #[trigger] next.assoc@.1[a]
                == self.assoc@.1[a]
        &&& forall|p: int|
            0 <= p < self.assoc@.2.len() && !(lo_app <= p < lo_app + app_count(t)) ==> #[trigger] next.assoc@.2[p]
                == self.assoc@.2[p]
    }

    /// The occurrence at `i` has a variable of the table.
    pub open spec fn ident_typed(self, i: int) -> bool {
        &&& 0 <= i < self.assoc@.0.len()
        &&& self.assoc@.0[i].0 < table(self.types).len()
    }

    /// The abstraction at `k` has a variable of the table that stands for a
    /// function type.
    pub open spec fn abstr_typed(self, k: int) -> bool {
        &&& 0 <= k < self.assoc@.1.len()
        &&& self.assoc@.1[k].0 < table(self.types).len()
        &&& arrow_rooted(table(self.types), self.assoc@.1[k].0 as nat)
    }

    /// The application at `q` has a variable of the table, and the function
    /// that it applies has one that stands for a function type.
    pub open spec fn apply_typed(self, q: int) -> bool {
        &&& 0 <= q < self.assoc@.2.len()
        &&& self.assoc@.2[q].0 < table(self.types).len()
        &&& self.assoc.has(self.terms.applys@[q].0)
        &&& self.assoc.at(self.terms.applys@[q].0).0 < table(self.types).len()
        &&& arrow_rooted(table(self.types), self.assoc.at(self.terms.applys@[q].0).0 as nat)
    }

    /// Every node has a variable of the table.
    pub open spec fn names_in_range(self) -> bool {
        let n = table(self.types).len();
        &&& forall|i: int| 0 <= i < self.assoc@.0.len() ==> (#[trigger] self.assoc@.0[i]).0 < n
        &&& forall|i: int| 0 <= i < self.assoc@.1.len() ==> (#[trigger] self.assoc@.1[i]).0 < n
        &&& forall|i: int| 0 <= i < self.assoc@.2.len() ==> (#[trigger] self.assoc@.2[i]).0 < n
    }

    /// A settled file has every variable in the table.
    pub proof fn lemma_settled_in_range(self)
        requires
            self.settled(),
        ensures
            self.names_in_range(),
    {
        assert forall|i: int| 0 <= i < self.assoc@.0.len() implies (#[trigger] self.assoc@.0[i]).0 < table(
            self.types,
        ).len() by {
            assert(self.ident_typed(i));
        }
        assert forall|i: int| 0 <= i < self.assoc@.1.len() implies (#[trigger] self.assoc@.1[i]).0 < table(
            self.types,
        ).len() by {
            assert(self.abstr_typed(i));
        }
        assert forall|i: int| 0 <= i < self.assoc@.2.len() implies (#[trigger] self.assoc@.2[i]).0 < table(
            self.types,
        ).len() by {
            assert(self.apply_typed(i));
        }
    }

    /// Every node has a variable of the table, every abstraction stands for
    /// a function type, and so does every function that is applied.
    pub open spec fn settled(self) -> bool {
        &&& forall|i: int| 0 <= i < self.assoc@.0.len() ==> #[trigger] self.ident_typed(i)
        &&& forall|k: int| 0 <= k < self.assoc@.1.len() ==> #[trigger] self.abstr_typed(k)
        &&& forall|q: int| 0 <= q < self.assoc@.2.len() ==> #[trigger] self.apply_typed(q)
    }

    /// The typing facts of a node spread over all positions of its subterm.
    pub proof fn lemma_typed_ranges(
        self,
        term: Term,
        t: Lambda,
        env: Seq<nat>,
        lo_abs: nat,
        lo_app: nat,
    )
        requires
            self.wf(),
            self.typed(term, t),
            self.terms.represents(term, t, env, lo_abs, lo_app),
        ensures
            forall|i: int| #[trigger] self.terms.uses(term, t, i) ==> self.ident_typed(i),
            forall|k: int| lo_abs <= k < lo_abs + lam_count(t) ==> #[trigger] self.abstr_typed(k),
            forall|q: int| lo_app <= q < lo_app + app_count(t) ==> #[trigger] self.apply_typed(q),
        decreases t,
    {
        match t {
            Lambda::Var(_) => {},
            Lambda::Lam(b) => {
                if let Term::Abstr(a) = term {
                    let body = self.terms.abstrs@[a.0 as int].1;
                    self.lemma_typed_ranges(body, *b, env.push(a.0 as nat), lo_abs + 1, lo_app);
                    assert forall|i: int| #[trigger]
                        self.terms.uses(term, t, i) implies self.terms.uses(body, *b, i) by {}
                    assert(self.abstr_typed(lo_abs as int));
                }
            },
            Lambda::App(f, x) => {
                if let Term::Apply(p) = term {
                    let fl = self.terms.applys@[p.0 as int].0;
                    let xl = self.terms.applys@[p.0 as int].1;
                    self.lemma_typed_ranges(fl, *f, env, lo_abs, lo_app + 1);
                    self.lemma_typed_ranges(
                        xl,
                        *x,
                        env,
                        lo_abs + lam_count(*f),
                        lo_app + 1 + app_count(*f),
                    );
                    assert forall|i: int| #[trigger]
                        self.terms.uses(term, t, i) implies self.terms.uses(fl, *f, i)
                        || self.terms.uses(xl, *x, i) by {}
                    assert(self.apply_typed(lo_app as int)) by {
                        reveal_with_fuel(File::typed, 2);
                    }
                }
            },
        }
    }

    /// A node lies among the positions of its own subterm.
    pub proof fn lemma_node_kept(self, next: File, term: Term, t: Lambda, env: Seq<nat>, lo_abs: nat, lo_app: nat)
        requires
            self.wf(),
            self.terms.represents(term, t, env, lo_abs, lo_app),
            self.keeps(next, term, t, lo_abs, lo_app),
        ensures
            next.assoc.at(term) == self.assoc.at(term),
    {
        match t {
            Lambda::Var(_) => {
                if let Term::Ident(v) = term {
                    assert(self.terms.uses(term, t, v.0 as int));
                }
            },
            Lambda::Lam(_) => {},
            Lambda::App(_, _) => {},
        }
    }

    /// Typing facts survive whatever keeps the variables of their nodes.
    pub proof fn lemma_typed_kept(
        self,
        next: File,
        term: Term,
        t: Lambda,
        env: Seq<nat>,
        lo_abs: nat,
        lo_app: nat,
    )
        requires
            self.wf(),
            self.typed(term, t),
            self.terms.represents(term, t, env, lo_abs, lo_app),
            self.keeps(next, term, t, lo_abs, lo_app),
        ensures
            next.typed(term, t),
        decreases t,
    {
        self.lemma_node_kept(next, term, t, env, lo_abs, lo_app);
        match t {
            Lambda::Var(_) => {
                if let Term::Ident(v) = term {
                    assert(self.terms.uses(term, t, v.0 as int));
                }
                assert(next.typed(term, t));
            },
            Lambda::Lam(b) => {
                if let Term::Abstr(a) = term {
                    let body = self.terms.abstrs@[a.0 as int].1;
                    assert(self.keeps(next, body, *b, lo_abs + 1, lo_app)) by {
                        assert forall|i: int|
                            0 <= i < self.assoc@.0.len() && self.terms.uses(body, *b, i) implies #[trigger] next.assoc@.0[i]
                            == self.assoc@.0[i] by {
                            assert(self.terms.uses(term, t, i));
                        }
                    }
                    self.lemma_typed_kept(next, body, *b, env.push(a.0 as nat), lo_abs + 1, lo_app);
                    assert(next.assoc@.1[a.0 as int] == self.assoc@.1[a.0 as int]);
                    let v = self.assoc.at(term).0 as nat;
                    assert(arrow_rooted(table(self.types), v));
                    assert(arrow_rooted(table(next.types), v));
                    assert(next.typed(body, *b));
                    assert(next.typed(term, t));
                }
            },
            Lambda::App(f, x) => {
                if let Term::Apply(p) = term {
                    let fl = self.terms.applys@[p.0 as int].0;
                    let xl = self.terms.applys@[p.0 as int].1;
                    assert(self.keeps(next, fl, *f, lo_abs, lo_app + 1)) by {
                        assert forall|i: int|
                            0 <= i < self.assoc@.0.len() && self.terms.uses(fl, *f, i) implies #[trigger] next.assoc@.0[i]
                            == self.assoc@.0[i] by {
                            assert(self.terms.uses(term, t, i));
                        }
                    }
                    assert(self.keeps(
                        next,
                        xl,
                        *x,
                        lo_abs + lam_count(*f),
                        lo_app + 1 + app_count(*f),
                    )) by {
                        assert forall|i: int|
                            0 <= i < self.assoc@.0.len() && self.terms.uses(xl, *x, i) implies #[trigger] next.assoc@.0[i]
                            == self.assoc@.0[i] by {
                            assert(self.terms.uses(term, t, i));
                        }
                    }
                    self.lemma_typed_kept(next, fl, *f, env, lo_abs, lo_app + 1);
                    self.lemma_typed_kept(
                        next,
                        xl,
                        *x,
                        env,
                        lo_abs + lam_count(*f),
                        lo_app + 1 + app_count(*f),
                    );
                    assert(next.assoc@.2[p.0 as int] == self.assoc@.2[p.0 as int]);
                    self.lemma_node_kept(next, fl, *f, env, lo_abs, lo_app + 1);
                    assert(next.assoc.at(fl) == self.assoc.at(fl));
                    let v = self.assoc.at(fl).0 as nat;
                    assert(self.typed(fl, *f));
                    assert(v < table(self.types).len());
                    assert(arrow_rooted(table(self.types), v));
                    assert(arrow_rooted(table(next.types), v));
                    assert(next.typed(term, t));
                }
            },
        }
    }

    /// The variables of the node `term` for `t` and of the nodes below it
    /// obey the typing rules: an occurrence has the argument side of the
    /// function type of its binder, an abstraction a function type whose
    /// result side is the type of its body, and the function of an
    /// application a function type from the type of its argument to the type
    /// of the application.
    pub open spec fn sound(self, term: Term, t: Lambda) -> bool
        decreases t,
    {
        let types = table(self.types);
        match t {
            Lambda::Var(_) => term matches Term::Ident(i) && i.0 < self.terms.idents@.len() && {
                let binder = self.assoc.at(Term::Abstr(self.terms.idents@[i.0 as int]));
                sides(types, binder.0 as int) matches Some((l, _)) && same(
                    types,
                    l.0 as int,
                    self.assoc.at(term).0 as int,
                )
            },
            Lambda::Lam(b) => term matches Term::Abstr(a) && a.0 < self.terms.abstrs@.len() && {
                let body = self.terms.abstrs@[a.0 as int].1;
                &&& sides(types, self.assoc.at(term).0 as int) matches Some((_, r)) && same(
                    types,
                    r.0 as int,
                    self.assoc.at(body).0 as int,
                )
                &&& self.sound(body, *b)
            },
            Lambda::App(f, x) => term matches Term::Apply(p) && p.0 < self.terms.applys@.len() && {
                let (fl, xl) = self.terms.applys@[p.0 as int];
                &&& sides(types, self.assoc.at(fl).0 as int) matches Some((l, r)) && same(
                    types,
                    l.0 as int,
                    self.assoc.at(xl).0 as int,
                ) && same(types, r.0 as int, self.assoc.at(term).0 as int)
                &&& self.sound(fl, *f)
                &&& self.sound(xl, *x)
            },
        }
    }

    /// The typing rules keep holding wherever the variables of the nodes and
    /// of their binders are kept and the table keeps what it says.
    pub proof fn lemma_sound_kept(
        self,
        next: File,
        term: Term,
        t: Lambda,
        env: Seq<nat>,
        lo_abs: nat,
        lo_app: nat,
    )
        requires
            self.wf(),
            next.wf(),
            self.typed(term, t),
            self.sound(term, t),
            self.terms.represents(term, t, env, lo_abs, lo_app),
            self.keeps(next, term, t, lo_abs, lo_app),
            refines(table(self.types), table(next.types)),
            forall|q: int|
                0 <= q < env.len() ==> #[trigger] env[q] < self.assoc@.1.len() && next.assoc@.1[env[q] as int]
                    == self.assoc@.1[env[q] as int] && self.assoc@.1[env[q] as int].0 < table(
                    self.types,
                ).len(),
        ensures
            next.sound(term, t),
        decreases t,
    {
        let (t0, t1) = (table(self.types), table(next.types));
        self.lemma_node_kept(next, term, t, env, lo_abs, lo_app);
        match t {
            Lambda::Var(k) => {
                if let Term::Ident(v) = term {
                    let binder = self.assoc.at(Term::Abstr(self.terms.idents@[v.0 as int]));
                    assert(self.terms.idents@[v.0 as int].0 == env[env.len() - 1 - k]);
                    assert(next.assoc.at(Term::Abstr(self.terms.idents@[v.0 as int])) == binder);
                    lemma_sides_closed(t0, binder.0 as int);
                    let (l, _) = sides(t0, binder.0 as int).unwrap();
                    assert(same(t1, l.0 as int, self.assoc.at(term).0 as int));
                    assert(sides(t1, binder.0 as int) is Some);
                    assert(next.sound(term, t));
                }
            },
            Lambda::Lam(b) => {
                if let Term::Abstr(a) = term {
                    let body = self.terms.abstrs@[a.0 as int].1;
                    assert(self.keeps(next, body, *b, lo_abs + 1, lo_app)) by {
                        assert forall|i: int|
                            0 <= i < self.assoc@.0.len() && self.terms.uses(body, *b, i) implies #[trigger] next.assoc@.0[i]
                            == self.assoc@.0[i] by {
                            assert(self.terms.uses(term, t, i));
                        }
                    }
                    let env2 = env.push(a.0 as nat);
                    assert forall|q: int| 0 <= q < env2.len() implies #[trigger] env2[q] < self.assoc@.1.len()
                        && next.assoc@.1[env2[q] as int] == self.assoc@.1[env2[q] as int]
                        && self.assoc@.1[env2[q] as int].0 < t0.len() by {
                        if q < env.len() {
                            assert(env2[q] == env[q]);
                        }
                    }
                    self.lemma_sound_kept(next, body, *b, env2, lo_abs + 1, lo_app);
                    self.lemma_node_kept(next, body, *b, env2, lo_abs + 1, lo_app);
                    let kind = self.assoc.at(term).0 as int;
                    lemma_sides_closed(t0, kind);
                    let (_, r) = sides(t0, kind).unwrap();
                    assert(self.typed(body, *b));
                    assert(self.assoc.at(body).0 < t0.len());
                    assert(same(t0, r.0 as int, self.assoc.at(body).0 as int));
                    assert(same(t1, r.0 as int, self.assoc.at(body).0 as int));
                    assert(sides(t1, kind) is Some);
                    assert(next.sound(term, t));
                }
            },
            Lambda::App(f, x) => {
                if let Term::Apply(p) = term {
                    let fl = self.terms.applys@[p.0 as int].0;
                    let xl = self.terms.applys@[p.0 as int].1;
                    assert(self.keeps(next, fl, *f, lo_abs, lo_app + 1)) by {
                        assert forall|i: int|
                            0 <= i < self.assoc@.0.len() && self.terms.uses(fl, *f, i) implies #[trigger] next.assoc@.0[i]
                            == self.assoc@.0[i] by {
                            assert(self.terms.uses(term, t, i));
                        }
                    }
                    assert(self.keeps(
                        next,
                        xl,
                        *x,
                        lo_abs + lam_count(*f),
                        lo_app + 1 + app_count(*f),
                    )) by {
                        assert forall|i: int|
                            0 <= i < self.assoc@.0.len() && self.terms.uses(xl, *x, i) implies #[trigger] next.assoc@.0[i]
                            == self.assoc@.0[i] by {
                            assert(self.terms.uses(term, t, i));
                        }
                    }
                    self.lemma_sound_kept(next, fl, *f, env, lo_abs, lo_app + 1);
                    self.lemma_sound_kept(
                        next,
                        xl,
                        *x,
                        env,
                        lo_abs + lam_count(*f),
                        lo_app + 1 + app_count(*f),
                    );
                    self.lemma_node_kept(next, fl, *f, env, lo_abs, lo_app + 1);
                    self.lemma_node_kept(
                        next,
                        xl,
                        *x,
                        env,
                        lo_abs + lam_count(*f),
                        lo_app + 1 + app_count(*f),
                    );
                    let kf = self.assoc.at(fl).0 as int;
                    assert(self.typed(fl, *f));
                    assert(self.typed(xl, *x));
                    lemma_sides_closed(t0, kf);
                    let (l, r) = sides(t0, kf).unwrap();
                    assert(same(t1, l.0 as int, self.assoc.at(xl).0 as int));
                    assert(same(t1, r.0 as int, self.assoc.at(term).0 as int));
                    assert(sides(t1, kf) is Some);
                    assert(next.sound(term, t));
                }
            },
        }
    }

    /// Gives the node `term` for `t` the variable `kind` and types its
    /// subterms: an occurrence unifies its variable with the argument side
    /// of its binder, an abstraction passes the result side of its function
    /// type to its body, and an application types its argument with a fresh
    /// variable and its function with a fresh function type from there.
    fn check(
        &mut self,
        term: Term,
        kind: Name,
        Ghost(t): Ghost<Lambda>,
        Ghost(env): Ghost<Seq<nat>>,
        Ghost(lo_abs): Ghost<nat>,
        Ghost(lo_app): Ghost<nat>,
    )
        requires
            old(self).wf(),
            old(self).terms.represents(term, t, env, lo_abs, lo_app),
            kind.0 < table(old(self).types).len(),
            forall|q: int|
                0 <= q < env.len() ==> #[trigger] env[q] < lo_abs && env[q] < old(
                    self,
                ).terms.abstrs@.len() && old(self).assoc@.1[env[q] as int].0 < table(
                    old(self).types,
                ).len() && arrow_rooted(table(old(self).types), old(self).assoc@.1[env[q] as int].0 as nat),
        ensures
            final(self).wf(),
            old(self).grows(*final(self)),
            old(self).kept_outside(*final(self), term, t, lo_abs, lo_app),
            final(self).assoc.at(term) == kind,
            final(self).typed(term, t),
            (table(final(self).types), final(self).assoc@) == checked(
                old(self).terms,
                table(old(self).types),
                old(self).assoc@,
                term,
                kind,
                t,
            ),
            !detaches(old(self).terms, table(old(self).types), old(self).assoc@, term, kind, t) ==> refines(
                table(old(self).types),
                table(final(self).types),
            ) && final(self).sound(term, t),
        decreases t,
    {
        self.assoc.set(term, kind);
        match term {
            Term::Ident(idx) => {
                let abstr = Term::Abstr(graph_idents_get(&self.terms.idents, idx));
                proof {
                    if let Lambda::Var(k) = t {
                        assert(env[env.len() - 1 - k] < lo_abs);
                    }
                }
                let binder = *self.assoc.index(abstr);
                let ghost t0 = table(self.types);
                let (lhs, rhs) = self.arrow(binder);
                let ghost t1 = table(self.types);
                self.unify(lhs, kind);
                proof {
                    if let Lambda::Var(k) = t {
                        let q = env.len() - 1 - k;
                        assert(env[q] == self.terms.idents@[idx.0 as int].0);
                        assert(arrow_rooted(t0, binder.0 as nat));
                    }
                    let t2 = table(self.types);
                    lemma_refines_trans(t0, t1, t2);
                    assert(sides(t1, binder.0 as int) == Some((lhs, rhs)));
                    assert(sides(t2, binder.0 as int) is Some);
                    let (l2, _) = sides(t2, binder.0 as int).unwrap();
                    assert(same(t2, l2.0 as int, lhs.0 as int));
                    assert(same(t2, lhs.0 as int, kind.0 as int));
                    assert(self.assoc.at(Term::Abstr(self.terms.idents@[idx.0 as int])) == binder);
                }
            },
            Term::Abstr(idx) => {
                let ghost b = match t {
                    Lambda::Lam(b) => *b,
                    _ => t,
                };
                let ghost s1 = *self;
                let rec = graph_abstrs_get(&self.terms.abstrs, idx).1;
                let (lhs, rhs) = self.arrow(kind);
                let ghost s2 = *self;
                proof {
                    assert forall|q: int| 0 <= q < env.len() implies arrow_rooted(
                        table(s2.types),
                        s2.assoc@.1[env[q] as int].0 as nat,
                    ) by {
                        assert(env[q] < lo_abs);
                        assert(s2.assoc@.1[env[q] as int] == old(self).assoc@.1[env[q] as int]);
                    }
                    assert forall|q: int|
                        0 <= q < env.push(idx.0 as nat).len() implies #[trigger] env.push(
                            idx.0 as nat,
                        )[q] < lo_abs + 1 && env.push(idx.0 as nat)[q] < s2.terms.abstrs@.len()
                        && s2.assoc@.1[env.push(idx.0 as nat)[q] as int].0 < table(s2.types).len() by {
                        if q < env.len() {
                            assert(env.push(idx.0 as nat)[q] == env[q]);
                            assert(env[q] < lo_abs);
                        }
                    }
                }
                self.check(
                    rec,
                    rhs,
                    Ghost(b),
                    Ghost(env.push(idx.0 as nat)),
                    Ghost(lo_abs + 1),
                    Ghost(lo_app),
                );
                proof {
                    assert(self.assoc@.1[lo_abs as int] == s2.assoc@.1[lo_abs as int]);
                    assert(arrow_rooted(table(s2.types), kind.0 as nat));
                    if !detaches(old(self).terms, table(old(self).types), old(self).assoc@, term, kind, t) {
                        let (t0, t1, t2) = (table(old(self).types), table(s2.types), table(self.types));
                        assert(proper(t0, kind.0 as int));
                        lemma_refines_trans(t0, t1, t2);
                        assert(sides(t1, kind.0 as int) == Some((lhs, rhs)));
                        assert(sides(t2, kind.0 as int) is Some);
                        assert(self.assoc.at(rec) == rhs);
                        assert(self.assoc.at(term) == kind);
                    }
                    assert forall|i: int|
                        0 <= i < old(self).assoc@.0.len() && !old(self).terms.uses(term, t, i)
                        implies #[trigger] self.assoc@.0[i] == old(self).assoc@.0[i] by {
                        assert(!s2.terms.uses(rec, b, i));
                    }
                }
            },
            Term::Apply(idx) => {
                let ghost f = match t {
                    Lambda::App(f, _) => *f,
                    _ => t,
                };
                let ghost x = match t {
                    Lambda::App(_, x) => *x,
                    _ => t,
                };
                let (lhs, rhs) = graph_applys_get(&self.terms.applys, idx);
                let ghost t0 = table(self.types);
                let basic = table_push(&mut self.types, Type::Basic());
                proof {
                    lemma_push_forest(t0, Type::Basic());
                    assert forall|m: nat| m < t0.len() && arrow_rooted(t0, m) implies #[trigger] arrow_rooted(
                        table(self.types),
                        m,
                    ) by {
                        assert(roots(table(self.types))[m as int] == roots(t0)[m as int]);
                    }
                }
                let ghost s1 = *self;
                self.check(
                    rhs,
                    basic,
                    Ghost(x),
                    Ghost(env),
                    Ghost(lo_abs + lam_count(f)),
                    Ghost(lo_app + 1 + app_count(f)),
                );
                let ghost s2 = *self;
                let ghost t2 = table(self.types);
                let arrow = table_push(&mut self.types, Type::Arrow(basic, kind));
                proof {
                    lemma_push_forest(t2, Type::Arrow(basic, kind));
                    assert forall|m: nat| m < t2.len() && arrow_rooted(t2, m) implies #[trigger] arrow_rooted(
                        table(self.types),
                        m,
                    ) by {
                        assert(roots(table(self.types))[m as int] == roots(t2)[m as int]);
                    }
                    assert(arrow_rooted(table(self.types), arrow.0 as nat));
                }
                let ghost s3 = *self;
                self.check(lhs, arrow, Ghost(f), Ghost(env), Ghost(lo_abs), Ghost(lo_app + 1));
                proof {
                    assert(s2.keeps(*self, rhs, x, lo_abs + lam_count(f), lo_app + 1 + app_count(f))) by {
                        assert forall|i: int|
                            0 <= i < s2.assoc@.0.len() && s2.terms.uses(rhs, x, i) implies #[trigger] self.assoc@.0[i]
                            == s2.assoc@.0[i] by {
                            assert(!s2.terms.uses(lhs, f, i));
                        }
                    }
                    s2.lemma_typed_kept(*self, rhs, x, env, lo_abs + lam_count(f), lo_app + 1 + app_count(f));
                    assert forall|i: int|
                        0 <= i < old(self).assoc@.0.len() && !old(self).terms.uses(term, t, i)
                        implies #[trigger] self.assoc@.0[i] == old(self).assoc@.0[i] by {
                        assert(!s2.terms.uses(lhs, f, i));
                        assert(!s2.terms.uses(rhs, x, i));
                    }
                    assert(self.assoc@.2[lo_app as int] == s3.assoc@.2[lo_app as int]);
                    if !detaches(old(self).terms, table(old(self).types), old(self).assoc@, term, kind, t) {
                        let tf = table(self.types);
                        let t3 = table(s3.types);
                        lemma_refines_push(t0, Type::Basic());
                        lemma_refines_push(t2, Type::Arrow(basic, kind));
                        lemma_refines_trans(t0, table(s1.types), t2);
                        lemma_refines_trans(t2, t3, tf);
                        lemma_refines_trans(t0, t2, tf);
                        assert forall|q: int|
                            0 <= q < env.len() implies #[trigger] env[q] < s2.assoc@.1.len() && self.assoc@.1[env[q] as int]
                            == s2.assoc@.1[env[q] as int] && s2.assoc@.1[env[q] as int].0 < t2.len() by {
                            assert(env[q] < lo_abs);
                            assert(s2.assoc@.1[env[q] as int] == old(self).assoc@.1[env[q] as int]);
                        }
                        s2.lemma_sound_kept(*self, rhs, x, env, lo_abs + lam_count(f), lo_app + 1 + app_count(f));
                        s2.lemma_node_kept(*self, rhs, x, env, lo_abs + lam_count(f), lo_app + 1 + app_count(f));
                        assert(roots(t3)[arrow.0 as int] == arrow.0);
                        assert(sides(t3, arrow.0 as int) == Some((basic, kind)));
                        assert(sides(tf, arrow.0 as int) is Some);
                        assert(self.assoc.at(lhs) == arrow);
                        assert(self.assoc.at(rhs) == basic);
                        assert(self.assoc.at(term) == kind);
                    }
                }
            },
        }
    }

    /// Infers the types of the term: the origin gets the first variable of
    /// the table, and every node a variable of its own.
    pub fn from(value: graph::File) -> (r: File)
        requires
            value.wf(),
        ensures
            r.wf(),
            r.terms == value,
            r.typed(value.origin, value.lambda()),
            r.settled(),
            r.names_in_range(),
            r.assoc.at(value.origin) == Name(0),
            (table(r.types), r.assoc@) == shape_of(value),
            !splits_a_class(value) ==> r.sound(value.origin, value.lambda()),
    {
        let ghost lt = value.lambda();
        let sheaf = Sheaf::<Term>::from(&value);
        let unset = |_node: Term| -> (n: Name)
            ensures
                n == Name(usize::MAX),
            { Name::from(usize::MAX) };
        let assoc = sheaf.fmap(unset);
        proof {
            assert(assoc@.0 =~= Seq::new(value.idents@.len(), |_i: int| Name(usize::MAX)));
            assert(assoc@.1 =~= Seq::new(value.abstrs@.len(), |_i: int| Name(usize::MAX)));
            assert(assoc@.2 =~= Seq::new(value.applys@.len(), |_i: int| Name(usize::MAX)));
        }
        let mut outer = File { terms: value, types: table_new(), assoc };
        proof {
            lemma_empty_forest();
        }
        let ghost t0 = table(outer.types);
        let intro = table_push(&mut outer.types, Type::Basic());
        proof {
            lemma_push_forest(t0, Type::Basic());
            assert(table(outer.types) =~= seq![Type::Basic()]);
        }
        let origin = outer.terms.origin;
        outer.check(origin, intro, Ghost(lt), Ghost(Seq::empty()), Ghost(0), Ghost(0));
        proof {
            outer.lemma_typed_ranges(origin, lt, Seq::empty(), 0, 0);
            assert forall|i: int| 0 <= i < outer.assoc@.0.len() implies #[trigger] outer.ident_typed(i) by {
                assert(outer.terms.uses(outer.terms.origin, lt, i));
            }
            outer.lemma_settled_in_range();
        }
        outer
    }

    /// Follows the clone links from `name` to its representative.
    pub fn chase(&self, name: Name) -> (r: Name)
        requires
            well_formed(table(self.types)),
            name.0 < table(self.types).len(),
        ensures
            r.0 == roots(table(self.types))[name.0 as int],
            r.0 < table(self.types).len(),
            !(table(self.types)[r.0 as int] is Clone),
    {
        let ghost types = table(self.types);
        let ghost (root, depth) = choose|r: Seq<nat>, d: Seq<nat>| forest(types, r, d);
        proof {
            lemma_roots(types, root, depth);
        }
        let mut cur = name;
        loop
            invariant
                types == table(self.types),
                forest(types, root, depth),
                cur.0 < types.len(),
                root[cur.0 as int] == root[name.0 as int],
            ensures
                cur.0 < types.len(),
                root[cur.0 as int] == root[name.0 as int],
                !(types[cur.0 as int] is Clone),
            decreases depth[cur.0 as int],
        {
            match table_get(&self.types, cur) {
                Type::Clone(raw) => {
                    cur = raw;
                },
                _ => {
                    break ;
                },
            }
        }
        cur
    }

    /// The two sides of the function type that `name` stands for; a type
    /// that is not known yet becomes a function between two fresh types.
    fn arrow(&mut self, name: Name) -> (r: (Name, Name))
        requires
            old(self).wf(),
            name.0 < table(old(self).types).len(),
        ensures
            final(self).wf(),
            final(self).terms == old(self).terms,
            final(self).assoc == old(self).assoc,
            table(old(self).types).len() <= table(final(self).types).len(),
            forall|m: nat|
                m < table(old(self).types).len() && arrow_rooted(table(old(self).types), m)
                    ==> #[trigger] arrow_rooted(table(final(self).types), m),
            arrow_rooted(table(final(self).types), name.0 as nat),
            table(final(self).types)[roots(table(final(self).types))[name.0 as int] as int]
                == Type::Arrow(r.0, r.1),
            r.0.0 < table(final(self).types).len(),
            r.1.0 < table(final(self).types).len(),
            (table(final(self).types), r) == arrow_of(table(old(self).types), name),
            proper(table(old(self).types), name.0 as int) ==> refines(
                table(old(self).types),
                table(final(self).types),
            ),
    {
        let root = self.chase(name);
        match table_get(&self.types, root) {
            Type::Arrow(lhs, rhs) => {
                proof {
                    lemma_refines_refl(table(self.types));
                }
                (lhs, rhs)
            },
            _ => {
                let ghost t0 = table(self.types);
                let lhs = table_push(&mut self.types, Type::Basic());
                proof {
                    lemma_push_forest(t0, Type::Basic());
                }
                let ghost t_mid = table(self.types);
                let rhs = table_push(&mut self.types, Type::Basic());
                proof {
                    lemma_push_forest(t_mid, Type::Basic());
                }
                let ghost t1 = table(self.types);
                table_set(&mut self.types, name, Type::Arrow(lhs, rhs));
                proof {
                    if proper(t0, name.0 as int) {
                        lemma_refines_push(t0, Type::Basic());
                        lemma_refines_push(t_mid, Type::Basic());
                        lemma_refines_trans(t0, t_mid, t1);
                        lemma_roots_ok(t0, name.0 as int);
                        assert(roots(t1)[name.0 as int] == roots(t0)[name.0 as int]);
                        assert(t1[name.0 as int] == t0[name.0 as int]);
                        lemma_set_arrow_refines(t1, name.0 as int, Type::Arrow(lhs, rhs));
                        lemma_refines_trans(t0, t1, table(self.types));
                    }
                    let t2 = table(self.types);
                    let (root1, depth1) = choose|r: Seq<nat>, d: Seq<nat>| forest(t1, r, d);
                    lemma_roots(t1, root1, depth1);
                    let n = name.0 as nat;
                    let root2 = Seq::new(
                        t1.len(),
                        |m: int|
                            if below(t1, depth1, m as nat, n) {
                                n
                            } else {
                                root1[m]
                            },
                    );
                    let depth2 = Seq::new(
                        t1.len(),
                        |m: int|
                            if below(t1, depth1, m as nat, n) {
                                (depth1[m] - depth1[n as int]) as nat
                            } else {
                                depth1[m]
                            },
                    );
                    assert forall|i: int| 0 <= i < t2.len() implies {
                        &&& #[trigger] root2[i] < t2.len()
                        &&& !(t2[root2[i] as int] is Clone)
                        &&& match t2[i] {
                            Type::Clone(p) => p.0 < t2.len() && root2[p.0 as int] == root2[i] && depth2[p.0 as int]
                                < depth2[i],
                            _ => root2[i] == i,
                        }
                    } by {
                        if i != n {
                            assert(t2[i] == t1[i]);
                            if let Type::Clone(p) = t1[i] {
                                assert(below(t1, depth1, i as nat, n) == below(
                                    t1,
                                    depth1,
                                    p.0 as nat,
                                    n,
                                ));
                                if below(t1, depth1, p.0 as nat, n) {
                                    lemma_below(t1, root1, depth1, p.0 as nat, n);
                                }
                            }
                            if !below(t1, depth1, i as nat, n) {
                                lemma_below_root(t1, root1, depth1, i as nat);
                                assert(root1[i] != n);
                            }
                        }
                    }
                    assert(forest(t2, root2, depth2));
                    lemma_roots(t2, root2, depth2);
                    assert forall|i: int| 0 <= i < t2.len() implies match #[trigger] t2[i] {
                        Type::Basic() => true,
                        Type::Clone(p) => p.0 < t2.len(),
                        Type::Arrow(l, r) => l.0 < t2.len() && r.0 < t2.len(),
                    } by {
                        if i != n {
                            assert(t2[i] == t1[i]);
                        }
                    }
                    assert forall|m: nat|
                        m < t0.len() && arrow_rooted(t0, m) implies #[trigger] arrow_rooted(
                        table(self.types),
                        m,
                    ) by {
                        assert(roots(t1)[m as int] == roots(t0)[m as int]);
                        assert(t1[roots(t1)[m as int] as int] == t0[roots(t0)[m as int] as int]);
                        if below(t1, depth1, m, n) {
                            lemma_below(t1, root1, depth1, m, n);
                            assert(roots(t1)[n as int] == roots(t0)[n as int]);
                        } else {
                            lemma_below_root(t1, root1, depth1, m);
                        }
                    }
                    assert(below(t1, depth1, n, n));
                }
                (lhs, rhs)
            },
        }
    }

    /// Makes `key` and `alt` stand for the same type, merging their function
    /// types side by side.
    fn unify(&mut self, key: Name, alt: Name)
        requires
            old(self).wf(),
            key.0 < table(old(self).types).len(),
            alt.0 < table(old(self).types).len(),
        ensures
            final(self).wf(),
            final(self).terms == old(self).terms,
            final(self).assoc == old(self).assoc,
            table(final(self).types).len() == table(old(self).types).len(),
            roots(table(final(self).types))[key.0 as int] == roots(
                table(final(self).types),
            )[alt.0 as int],
            forall|m: int, n: int|
                0 <= m < table(old(self).types).len() && 0 <= n < table(old(self).types).len()
                    && roots(table(old(self).types))[m] == roots(table(old(self).types))[n]
                    ==> #[trigger] roots(table(final(self).types))[m] == #[trigger] roots(
                    table(final(self).types),
                )[n],
            forall|m: nat|
                m < table(old(self).types).len() && arrow_rooted(table(old(self).types), m)
                    ==> #[trigger] arrow_rooted(table(final(self).types), m),
            root_count(table(final(self).types)) <= root_count(table(old(self).types)),
            forall|f: nat|
                f > root_count(table(old(self).types)) ==> #[trigger] unified(
                    table(old(self).types),
                    key,
                    alt,
                    f,
                ) == table(final(self).types),
            refines(table(old(self).types), table(final(self).types)),
        decreases root_count(table(old(self).types)),
    {
        let ghost t0 = table(self.types);
        let ghost (key0, alt0) = (key, alt);
        let key = self.chase(key);
        let alt = self.chase(alt);
        if key != alt {
            let prev = table_get(&self.types, alt);
            table_set(&mut self.types, alt, Type::Clone(key));
            let ghost t1 = table(self.types);
            proof {
                lemma_merge(t0, key, alt.0 as int);
                assert(Name(key.0 as nat as usize) == key);
            }
            if let Type::Arrow(altl, altr) = prev {
                match table_get(&self.types, key) {
                    Type::Arrow(keyl, keyr) => {
                        self.unify(keyl, altl);
                        let ghost t2 = table(self.types);
                        self.unify(keyr, altr);
                        proof {
                            lemma_merge_both_refines(t0, key, alt.0 as int, t2, table(self.types));
                            assert forall|f: nat| f > root_count(t0) implies #[trigger] unified(
                                t0,
                                key0,
                                alt0,
                                f,
                            ) == table(self.types) by {
                                assert(unified(t1, keyl, altl, (f - 1) as nat) == t2);
                                assert(unified(t2, keyr, altr, (f - 1) as nat) == table(self.types));
                            }
                        }
                    },
                    _ => {
                        table_set(&mut self.types, key, Type::Arrow(altl, altr));
                        proof {
                            lemma_set_root(t1, key.0 as int, Type::Arrow(altl, altr));
                            lemma_merge_take_refines(t0, key, alt.0 as int);
                        }
                    },
                }
            } else {
                proof {
                    lemma_merge_refines(t0, key, alt.0 as int);
                }
            }
        } else {
            proof {
                lemma_refines_refl(t0);
            }
        }
    }
}

/// Turning the representative `a` into a clone of the representative `k`
/// merges the class of `a` into that of `k`.
proof fn lemma_merge(t0: Seq<Type>, k: Name, a: int)
    requires
        well_formed(t0),
        k.0 < t0.len(),
        0 <= a < t0.len(),
        k.0 != a,
        !(t0[k.0 as int] is Clone),
        !(t0[a] is Clone),
    ensures
        well_formed(t0.update(a, Type::Clone(k))),
        forall|m: int|
            0 <= m < t0.len() ==> #[trigger] roots(t0.update(a, Type::Clone(k)))[m] == if roots(
                t0,
            )[m] == a {
                k.0 as nat
            } else {
                roots(t0)[m]
            },
        root_count(t0.update(a, Type::Clone(k))) + 1 == root_count(t0),
{
    let t1 = t0.update(a, Type::Clone(k));
    let kk = k.0 as int;
    let (root0, depth0) = choose|r: Seq<nat>, d: Seq<nat>| forest(t0, r, d);
    lemma_roots(t0, root0, depth0);
    assert(root0[kk] < t0.len());
    assert(root0[a] < t0.len());
    let root1 = Seq::new(
        t0.len(),
        |m: int|
            if root0[m] == a {
                kk as nat
            } else {
                root0[m]
            },
    );
    let depth1 = Seq::new(
        t0.len(),
        |m: int|
            if root0[m] == a {
                depth0[m] + depth0[kk] + 1
            } else {
                depth0[m]
            },
    );
    assert forall|i: int| 0 <= i < t1.len() implies {
        &&& #[trigger] root1[i] < t1.len()
        &&& !(t1[root1[i] as int] is Clone)
        &&& match t1[i] {
            Type::Clone(p) => p.0 < t1.len() && root1[p.0 as int] == root1[i] && depth1[p.0 as int]
                < depth1[i],
            _ => root1[i] == i,
        }
    } by {
        assert(root0[i] < t0.len());
        if i != a {
            assert(t1[i] == t0[i]);
            if let Type::Clone(p) = t0[i] {
                assert(root0[p.0 as int] == root0[i]);
            }
            if root0[i] != a {
                assert(t1[root0[i] as int] == t0[root0[i] as int]);
            }
        } else {
            assert(root1[kk] == kk);
        }
    }
    assert(forest(t1, root1, depth1));
    lemma_roots(t1, root1, depth1);
    assert forall|i: int| 0 <= i < t1.len() implies match #[trigger] t1[i] {
        Type::Basic() => true,
        Type::Clone(p) => p.0 < t1.len(),
        Type::Arrow(l, r) => l.0 < t1.len() && r.0 < t1.len(),
    } by {
        if i != a {
            assert(t1[i] == t0[i]);
        }
    }
    lemma_root_count_update(t0, a, Type::Clone(k));
}

/// Merging the class of `a`, which stands for no function type, into that
/// of `k` keeps what the table says.
proof fn lemma_merge_refines(t0: Seq<Type>, k: Name, a: int)
    requires
        well_formed(t0),
        k.0 < t0.len(),
        0 <= a < t0.len(),
        k.0 != a,
        !(t0[k.0 as int] is Clone),
        t0[a] is Basic,
    ensures
        refines(t0, t0.update(a, Type::Clone(k))),
{
    lemma_merge(t0, k, a);
    let t1 = t0.update(a, Type::Clone(k));
    assert forall|m: int| 0 <= m < t0.len() && #[trigger] sides(t0, m) is Some implies {
        let (l, r) = sides(t0, m).unwrap();
        &&& #[trigger] sides(t1, m) is Some
        &&& same(t1, sides(t1, m).unwrap().0.0 as int, l.0 as int)
        &&& same(t1, sides(t1, m).unwrap().1.0 as int, r.0 as int)
    } by {
        lemma_roots_ok(t0, m);
        lemma_sides_closed(t0, m);
        assert(roots(t0)[m] != a);
        assert(roots(t1)[m] == roots(t0)[m]);
        let (l, r) = sides(t0, m).unwrap();
        assert(roots(t1)[l.0 as int] == if roots(t0)[l.0 as int] == a { k.0 as nat } else { roots(t0)[l.0 as int] });
        assert(roots(t1)[r.0 as int] == if roots(t0)[r.0 as int] == a { k.0 as nat } else { roots(t0)[r.0 as int] });
    }
    assert forall|m: int, n: int|
        0 <= m < t0.len() && 0 <= n < t0.len() && #[trigger] same(t0, m, n) implies #[trigger] same(
        t1,
        m,
        n,
    ) by {
        assert(roots(t1)[m] == if roots(t0)[m] == a { k.0 as nat } else { roots(t0)[m] });
        assert(roots(t1)[n] == if roots(t0)[n] == a { k.0 as nat } else { roots(t0)[n] });
    }
}

/// Merging the class of `a`, a function type, into that of `k`, which
/// stands for no function type, and handing its sides to `k` keeps what the
/// table says.
proof fn lemma_merge_take_refines(t0: Seq<Type>, k: Name, a: int)
    requires
        well_formed(t0),
        k.0 < t0.len(),
        0 <= a < t0.len(),
        k.0 != a,
        t0[k.0 as int] is Basic,
        t0[a] is Arrow,
    ensures
        refines(t0, t0.update(a, Type::Clone(k)).update(k.0 as int, t0[a])),
{
    lemma_merge(t0, k, a);
    let t1 = t0.update(a, Type::Clone(k));
    assert(closed(t0));
    assert(match t0[a] {
        Type::Basic() => true,
        Type::Clone(p) => p.0 < t0.len(),
        Type::Arrow(l, r) => l.0 < t0.len() && r.0 < t0.len(),
    });
    lemma_set_root(t1, k.0 as int, t0[a]);
    let t2 = t1.update(k.0 as int, t0[a]);
    assert forall|m: int| 0 <= m < t0.len() && #[trigger] sides(t0, m) is Some implies {
        let (l, r) = sides(t0, m).unwrap();
        &&& #[trigger] sides(t2, m) is Some
        &&& same(t2, sides(t2, m).unwrap().0.0 as int, l.0 as int)
        &&& same(t2, sides(t2, m).unwrap().1.0 as int, r.0 as int)
    } by {
        lemma_roots_ok(t0, m);
        lemma_sides_closed(t0, m);
        assert(roots(t2)[m] == roots(t1)[m]);
        let (l, r) = sides(t0, m).unwrap();
        if roots(t0)[m] == a {
            assert(roots(t2)[m] == k.0);
            assert(sides(t2, m) == sides(t0, m));
        } else {
            assert(roots(t0)[m] != k.0);
            assert(roots(t2)[m] == roots(t0)[m]);
        }
    }
    assert forall|m: int, n: int|
        0 <= m < t0.len() && 0 <= n < t0.len() && #[trigger] same(t0, m, n) implies #[trigger] same(
        t2,
        m,
        n,
    ) by {
        assert(roots(t1)[m] == if roots(t0)[m] == a { k.0 as nat } else { roots(t0)[m] });
        assert(roots(t1)[n] == if roots(t0)[n] == a { k.0 as nat } else { roots(t0)[n] });
    }
}

/// Merging two function types, then their argument sides and their result
/// sides, keeps what the table says.
proof fn lemma_merge_both_refines(t0: Seq<Type>, k: Name, a: int, t2: Seq<Type>, t3: Seq<Type>)
    requires
        well_formed(t0),
        k.0 < t0.len(),
        0 <= a < t0.len(),
        k.0 != a,
        t0[k.0 as int] is Arrow,
        t0[a] is Arrow,
        well_formed(t2),
        well_formed(t3),
        refines(t0.update(a, Type::Clone(k)), t2),
        refines(t2, t3),
        same(t2, t0[k.0 as int]->Arrow_0.0 as int, t0[a]->Arrow_0.0 as int),
        same(t3, t0[k.0 as int]->Arrow_1.0 as int, t0[a]->Arrow_1.0 as int),
    ensures
        refines(t0, t3),
{
    lemma_merge(t0, k, a);
    let t1 = t0.update(a, Type::Clone(k));
    lemma_refines_trans(t1, t2, t3);
    assert(closed(t0));
    assert(match t0[a] {
        Type::Basic() => true,
        Type::Clone(p) => p.0 < t0.len(),
        Type::Arrow(l, r) => l.0 < t0.len() && r.0 < t0.len(),
    });
    assert(match t0[k.0 as int] {
        Type::Basic() => true,
        Type::Clone(p) => p.0 < t0.len(),
        Type::Arrow(l, r) => l.0 < t0.len() && r.0 < t0.len(),
    });
    assert forall|m: int| 0 <= m < t0.len() && #[trigger] sides(t0, m) is Some implies {
        let (l, r) = sides(t0, m).unwrap();
        &&& #[trigger] sides(t3, m) is Some
        &&& same(t3, sides(t3, m).unwrap().0.0 as int, l.0 as int)
        &&& same(t3, sides(t3, m).unwrap().1.0 as int, r.0 as int)
    } by {
        lemma_roots_ok(t0, m);
        lemma_sides_closed(t0, m);
        let (l, r) = sides(t0, m).unwrap();
        if roots(t0)[m] == a {
            assert(roots(t1)[m] == k.0);
            assert(sides(t1, m) == Some((t0[k.0 as int]->Arrow_0, t0[k.0 as int]->Arrow_1)));
            assert(sides(t3, m) is Some);
            let (l3, r3) = sides(t3, m).unwrap();
            assert(same(t3, l3.0 as int, t0[k.0 as int]->Arrow_0.0 as int));
            assert(same(t3, t0[k.0 as int]->Arrow_0.0 as int, l.0 as int));
        } else {
            assert(roots(t1)[m] == roots(t0)[m]);
            assert(sides(t1, m) == sides(t0, m));
            assert(roots(t1)[l.0 as int] == if roots(t0)[l.0 as int] == a { k.0 as nat } else { roots(t0)[l.0 as int] });
            assert(roots(t1)[r.0 as int] == if roots(t0)[r.0 as int] == a { k.0 as nat } else { roots(t0)[r.0 as int] });
            assert(sides(t3, m) is Some);
        }
    }
    assert forall|m: int, n: int|
        0 <= m < t0.len() && 0 <= n < t0.len() && #[trigger] same(t0, m, n) implies #[trigger] same(
        t3,
        m,
        n,
    ) by {
        assert(roots(t1)[m] == if roots(t0)[m] == a { k.0 as nat } else { roots(t0)[m] });
        assert(roots(t1)[n] == if roots(t0)[n] == a { k.0 as nat } else { roots(t0)[n] });
        assert(same(t1, m, n));
    }
}

/// Turning a basic representative into a function type keeps what the
/// table says.
proof fn lemma_set_arrow_refines(t1: Seq<Type>, k: int, v: Type)
    requires
        well_formed(t1),
        0 <= k < t1.len(),
        t1[k] is Basic,
        v matches Type::Arrow(l, r) && l.0 < t1.len() && r.0 < t1.len(),
    ensures
        refines(t1, t1.update(k, v)),
{
    lemma_set_root(t1, k, v);
    let t2 = t1.update(k, v);
    assert forall|m: int| 0 <= m < t1.len() && #[trigger] sides(t1, m) is Some implies {
        let (l, r) = sides(t1, m).unwrap();
        &&& #[trigger] sides(t2, m) is Some
        &&& same(t2, sides(t2, m).unwrap().0.0 as int, l.0 as int)
        &&& same(t2, sides(t2, m).unwrap().1.0 as int, r.0 as int)
    } by {
        lemma_roots_ok(t1, m);
        assert(roots(t1)[m] != k);
    }
}

/// Replacing a representative by another type that is not a clone keeps
/// every representative.
proof fn lemma_set_root(t1: Seq<Type>, k: int, v: Type)
    requires
        well_formed(t1),
        0 <= k < t1.len(),
        !(t1[k] is Clone),
        !(v is Clone),
        match v {
            Type::Arrow(l, r) => l.0 < t1.len() && r.0 < t1.len(),
            _ => true,
        },
    ensures
        well_formed(t1.update(k, v)),
        roots(t1.update(k, v)) == roots(t1),
        root_count(t1.update(k, v)) == root_count(t1),
{
    let t2 = t1.update(k, v);
    let (root1, depth1) = choose|r: Seq<nat>, d: Seq<nat>| forest(t1, r, d);
    lemma_roots(t1, root1, depth1);
    assert forall|i: int| 0 <= i < t2.len() implies {
        &&& #[trigger] root1[i] < t2.len()
        &&& !(t2[root1[i] as int] is Clone)
        &&& match t2[i] {
            Type::Clone(p) => p.0 < t2.len() && root1[p.0 as int] == root1[i] && depth1[p.0 as int]
                < depth1[i],
            _ => root1[i] == i,
        }
    } by {
        assert(root1[i] < t1.len());
        if i != k {
            assert(t2[i] == t1[i]);
        }
    }
    assert(forest(t2, root1, depth1));
    lemma_roots(t2, root1, depth1);
    assert forall|i: int| 0 <= i < t2.len() implies match #[trigger] t2[i] {
        Type::Basic() => true,
        Type::Clone(p) => p.0 < t2.len(),
        Type::Arrow(l, r) => l.0 < t2.len() && r.0 < t2.len(),
    } by {
        if i != k {
            assert(t2[i] == t1[i]);
        }
    }
    lemma_root_count_update(t1, k, v);
}

} // verus!
