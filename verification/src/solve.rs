use vstd::prelude::*;

use typed_index_collections::TiVec;

use crate::guard::{mark_get, marks, Guard};
use crate::types::split::arrow_len;
use crate::types::terms::arena::Arena;
use crate::types::terms::graph::{
    graph_abstrs_get, graph_abstrs_len, graph_applys_get, graph_applys_len, graph_idents_get,
    graph_idents_len,
};
use crate::types::terms::{Abstr, Apply, Ident};
use crate::types::{self, Arrow, Sheaf, Term, Type};

verus! {

/// A variable of the linear problem: its position in the order in which
/// the variables are added.
#[derive(Clone, Copy, Debug, PartialEq, Eq, Structural)]
pub struct Variable(pub usize);

/// How the weighted sum of a row compares to zero.
#[derive(Clone, Copy, Debug, PartialEq, Eq, Structural)]
pub enum Comparison {
    /// The sum is at least zero.
    Ge,
    /// The sum is zero.
    Eq,
}

/// A constraint: the sum of the variables, each times its coefficient,
/// compared to zero.
pub struct Row {
    pub terms: Vec<(Variable, i8)>,
    pub op: Comparison,
}

/// A linear problem over variables that each have the objective coefficient
/// one, the given lower bound and no upper bound, to be minimised.
pub struct Problem {
    pub lower: Vec<usize>,
    pub rows: Vec<Row>,
}

/// The row as plain values: the variables with their coefficients, and the
/// comparison.
pub open spec fn row_view(r: Row) -> (Seq<(int, int)>, Comparison) {
    (Seq::new(r.terms@.len(), |j: int| (r.terms@[j].0.0 as int, r.terms@[j].1 as int)), r.op)
}

/// The number of nodes of the term.
pub open spec fn node_count(file: types::File) -> nat {
    file.terms.idents@.len() + file.terms.abstrs@.len() + file.terms.applys@.len()
}

/// The variable of a node: occurrences first, then abstractions, then
/// applications, each in the order of their positions.
pub open spec fn term_var(file: types::File, t: Term) -> int {
    let (ni, na) = (file.terms.idents@.len(), file.terms.abstrs@.len());
    match t {
        Term::Ident(i) => i.0 as int,
        Term::Abstr(a) => ni + a.0,
        Term::Apply(p) => ni + na + p.0,
    }
}

/// The variable of one side of the function type `k`, after those of the
/// nodes: the argument side, then the result side.
pub open spec fn side_var(file: types::File, k: nat, right: bool) -> int {
    node_count(file) + 2 * k + if right {
        1int
    } else {
        0int
    }
}

/// The position of a function type.
pub open spec fn arrow_of(k: Type) -> nat {
    match k {
        Type::Arrow(a) => a.0 as nat,
        Type::Basic(_) => 0,
    }
}

/// An occurrence carries at least the hats of the argument side of the
/// function type of its binder.
pub open spec fn ident_row(file: types::File, i: int) -> (Seq<(int, int)>, Comparison) {
    let a = file.assoc.at(Term::Abstr(file.terms.idents@[i]));
    (
        seq![(term_var(file, Term::Ident(Ident(i as usize))), 1int), (side_var(file, arrow_of(a), false), -1int)],
        Comparison::Ge,
    )
}

/// The result side of an abstraction's function type carries the hats of
/// its body.
pub open spec fn abstr_row(file: types::File, a: int) -> (Seq<(int, int)>, Comparison) {
    let k = file.assoc.at(Term::Abstr(Abstr(a as usize)));
    let body = file.terms.abstrs@[a].1;
    (seq![(side_var(file, arrow_of(k), true), 1int), (term_var(file, body), -1int)], Comparison::Eq)
}

/// An application: its argument carries the hats of the function plus
/// those of the argument side, and the application itself those of the
/// function plus those of the result side.
pub open spec fn apply_row(file: types::File, p: int, right: bool) -> (Seq<(int, int)>, Comparison) {
    let (func, body) = file.terms.applys@[p];
    let k = file.assoc.at(func);
    let other = if right {
        term_var(file, Term::Apply(Apply(p as usize)))
    } else {
        term_var(file, body)
    };
    (
        seq![(term_var(file, func), 1int), (side_var(file, arrow_of(k), right), 1int), (other, -1int)],
        Comparison::Eq,
    )
}

/// The constraints in the order in which they are stated: one per
/// occurrence, one per abstraction, two per application.
pub open spec fn rows_of(file: types::File) -> Seq<(Seq<(int, int)>, Comparison)> {
    let (ni, na, np) = (
        file.terms.idents@.len(),
        file.terms.abstrs@.len(),
        file.terms.applys@.len(),
    );
    Seq::new(ni, |i: int| ident_row(file, i)) + Seq::new(na, |a: int| abstr_row(file, a)) + Seq::new(
        2 * np,
        |j: int| apply_row(file, j / 2, j % 2 == 1),
    )
}

/// The lower bound of each variable: none for the nodes, one hat for each
/// marked side of a function type.
pub open spec fn lower_of(file: types::File, guard: Seq<(bool, bool)>) -> Seq<usize> {
    Seq::new(
        node_count(file) + 2 * guard.len(),
        |v: int|
            if v < node_count(file) {
                0usize
            } else {
                let k = (v - node_count(file)) / 2;
                let g = if (v - node_count(file)) % 2 == 0 {
                    guard[k].0
                } else {
                    guard[k].1
                };
                if g {
                    1usize
                } else {
                    0usize
                }
            },
    )
}

/// Every side of a function type that the guard marks must carry at least
/// one hat, and no other variable is bounded from below.
pub proof fn lemma_marked_sides_bounded(file: types::File, guard: Seq<(bool, bool)>, k: nat, right: bool)
    requires
        k < guard.len(),
    ensures
        0 <= side_var(file, k, right) < lower_of(file, guard).len(),
        lower_of(file, guard)[side_var(file, k, right)] == (if (if right {
            guard[k as int].1
        } else {
            guard[k as int].0
        }) {
            1usize
        } else {
            0usize
        }),
{
    let r: int = if right {
        1
    } else {
        0
    };
    assert((2 * k + r) / 2 == k && (2 * k + r) % 2 == r) by (nonlinear_arith)
        requires
            0 <= r <= 1,
    ;
}

/// The sum of the values of the row's variables, each times its
/// coefficient, where `s` gives each variable its value.
pub open spec fn total(row: Seq<(int, int)>, s: Seq<int>) -> int
    decreases row.len(),
{
    if row.len() == 0 {
        0
    } else {
        total(row.drop_last(), s) + row.last().1 * s[row.last().0]
    }
}

/// The values `s` meet the constraint.
pub open spec fn meets(row: (Seq<(int, int)>, Comparison), s: Seq<int>) -> bool {
    match row.1 {
        Comparison::Ge => total(row.0, s) >= 0,
        Comparison::Eq => total(row.0, s) == 0,
    }
}

proof fn lemma_total2(a: (int, int), b: (int, int), s: Seq<int>)
    ensures
        total(seq![a, b], s) == a.1 * s[a.0] + b.1 * s[b.0],
{
    let r = seq![a, b];
    assert(r.drop_last() =~= seq![a]);
    assert(r.drop_last().drop_last() =~= Seq::<(int, int)>::empty());
    assert(total(seq![a], s) == total(Seq::<(int, int)>::empty(), s) + a.1 * s[a.0]) by {
        assert(seq![a].drop_last() =~= Seq::<(int, int)>::empty());
    }
}

proof fn lemma_total3(a: (int, int), b: (int, int), c: (int, int), s: Seq<int>)
    ensures
        total(seq![a, b, c], s) == a.1 * s[a.0] + b.1 * s[b.0] + c.1 * s[c.0],
{
    let r = seq![a, b, c];
    assert(r.drop_last() =~= seq![a, b]);
    lemma_total2(a, b, s);
}

proof fn lemma_unit_terms(c: int, x: int, d: int, y: int)
    ensures
        c == 1 ==> c * x == x,
        c == -1 ==> c * x == -x,
        d == 1 ==> d * y == y,
        d == -1 ==> d * y == -y,
{
    if c == 1 || c == -1 {
        assert(c * x == if c == 1 { x } else { -x }) by (nonlinear_arith)
            requires
                c == 1 || c == -1,
        ;
    }
    if d == 1 || d == -1 {
        assert(d * y == if d == 1 { y } else { -y }) by (nonlinear_arith)
            requires
                d == 1 || d == -1,
        ;
    }
}

/// What the constraints demand of a number of hats for every node and every
/// side: an occurrence carries at least the hats of the argument side of its
/// binder's function type; the result side of an abstraction's function type
/// carries exactly the hats of its body; the argument of an application
/// carries the hats of the function plus those of the argument side of the
/// function's type, and the application the hats of the function plus those
/// of the result side.
pub proof fn lemma_rows_demand(file: types::File, s: Seq<int>)
    ensures
        forall|i: int|
            0 <= i < file.terms.idents@.len() ==> (meets(#[trigger] rows_of(file)[i], s) <==> s[term_var(
                file,
                Term::Ident(Ident(i as usize)),
            )] >= s[side_var(
                file,
                arrow_of(file.assoc.at(Term::Abstr(file.terms.idents@[i]))),
                false,
            )]),
        forall|a: int|
            0 <= a < file.terms.abstrs@.len() ==> (meets(
                #[trigger] rows_of(file)[file.terms.idents@.len() + a],
                s,
            ) <==> s[side_var(file, arrow_of(file.assoc.at(Term::Abstr(Abstr(a as usize)))), true)]
                == s[term_var(file, file.terms.abstrs@[a].1)]),
        forall|p: int|
            0 <= p < file.terms.applys@.len() ==> (meets(
                #[trigger] rows_of(file)[file.terms.idents@.len() + file.terms.abstrs@.len() + 2 * p],
                s,
            ) <==> s[term_var(file, file.terms.applys@[p].1)] == s[term_var(file, file.terms.applys@[p].0)]
                + s[side_var(file, arrow_of(file.assoc.at(file.terms.applys@[p].0)), false)]),
        forall|p: int|
            0 <= p < file.terms.applys@.len() ==> (meets(
                #[trigger] rows_of(file)[file.terms.idents@.len() + file.terms.abstrs@.len() + 2 * p + 1],
                s,
            ) <==> s[term_var(file, Term::Apply(Apply(p as usize)))] == s[term_var(
                file,
                file.terms.applys@[p].0,
            )] + s[side_var(file, arrow_of(file.assoc.at(file.terms.applys@[p].0)), true)]),
{
    let (ni, na, np) = (file.terms.idents@.len(), file.terms.abstrs@.len(), file.terms.applys@.len());
    assert forall|i: int| 0 <= i < ni implies (meets(#[trigger] rows_of(file)[i], s) <==> s[term_var(
        file,
        Term::Ident(Ident(i as usize)),
    )] >= s[side_var(file, arrow_of(file.assoc.at(Term::Abstr(file.terms.idents@[i]))), false)]) by {
        let row = ident_row(file, i);
        assert(rows_of(file)[i] == row);
        lemma_total2(row.0[0], row.0[1], s);
        assert(row.0 =~= seq![row.0[0], row.0[1]]);
        assert(total(row.0, s) == total(seq![row.0[0], row.0[1]], s));
        assert(total(seq![row.0[0], row.0[1]], s) == row.0[0].1 * s[row.0[0].0] + row.0[1].1 * s[row.0[1].0]);
        assert(row.0[0].1 == 1 && row.0[1].1 == -1);
        lemma_unit_terms(row.0[0].1, s[row.0[0].0], row.0[1].1, s[row.0[1].0]);
        assert(row.1 == Comparison::Ge);
    }
    assert forall|a: int| 0 <= a < na implies (meets(#[trigger] rows_of(file)[ni + a], s) <==> s[side_var(
        file,
        arrow_of(file.assoc.at(Term::Abstr(Abstr(a as usize)))),
        true,
    )] == s[term_var(file, file.terms.abstrs@[a].1)]) by {
        let row = abstr_row(file, a);
        assert(rows_of(file)[ni + a] == row);
        lemma_total2(row.0[0], row.0[1], s);
        assert(row.0 =~= seq![row.0[0], row.0[1]]);
        assert(total(row.0, s) == total(seq![row.0[0], row.0[1]], s));
        lemma_unit_terms(row.0[0].1, s[row.0[0].0], row.0[1].1, s[row.0[1].0]);
    }
    assert forall|p: int| 0 <= p < np implies (meets(#[trigger] rows_of(file)[ni + na + 2 * p], s) <==> s[term_var(
        file,
        file.terms.applys@[p].1,
    )] == s[term_var(file, file.terms.applys@[p].0)] + s[side_var(
        file,
        arrow_of(file.assoc.at(file.terms.applys@[p].0)),
        false,
    )]) by {
        assert((2 * p) / 2 == p && (2 * p) % 2 == 0) by (nonlinear_arith);
        let row = apply_row(file, p, false);
        assert(rows_of(file)[ni + na + 2 * p] == row);
        lemma_total3(row.0[0], row.0[1], row.0[2], s);
        assert(row.0 =~= seq![row.0[0], row.0[1], row.0[2]]);
        assert(total(row.0, s) == total(seq![row.0[0], row.0[1], row.0[2]], s));
        lemma_unit_terms(row.0[0].1, s[row.0[0].0], row.0[1].1, s[row.0[1].0]);
        lemma_unit_terms(row.0[2].1, s[row.0[2].0], 1, 0);
    }
    assert forall|p: int| 0 <= p < np implies (meets(#[trigger] rows_of(file)[ni + na + 2 * p + 1], s)
        <==> s[term_var(file, Term::Apply(Apply(p as usize)))] == s[term_var(file, file.terms.applys@[p].0)]
        + s[side_var(file, arrow_of(file.assoc.at(file.terms.applys@[p].0)), true)]) by {
        assert((2 * p + 1) / 2 == p && (2 * p + 1) % 2 == 1) by (nonlinear_arith);
        let row = apply_row(file, p, true);
        assert(rows_of(file)[ni + na + 2 * p + 1] == row);
        lemma_total3(row.0[0], row.0[1], row.0[2], s);
        assert(row.0 =~= seq![row.0[0], row.0[1], row.0[2]]);
        assert(total(row.0, s) == total(seq![row.0[0], row.0[1], row.0[2]], s));
        lemma_unit_terms(row.0[0].1, s[row.0[0].0], row.0[1].1, s[row.0[1].0]);
        lemma_unit_terms(row.0[2].1, s[row.0[2].0], 1, 0);
    }
}

/// No variable occurs twice in the row.
pub open spec fn distinct(row: Seq<(int, int)>) -> bool {
    forall|i: int, j: int| 0 <= i < j < row.len() ==> #[trigger] row[i].0 != #[trigger] row[j].0
}

/// Distinct nodes of the arenas have distinct variables, all below those of
/// the sides of the function types.
proof fn lemma_term_var(file: types::File, s: Term, t: Term)
    requires
        file.terms.in_range(s),
        file.terms.in_range(t),
    ensures
        0 <= term_var(file, s) < node_count(file),
        s != t ==> term_var(file, s) != term_var(file, t),
{
}

/// No constraint names a variable twice.
pub proof fn lemma_rows_distinct(file: types::File)
    requires
        file.wf(),
        file.terms.abstrs@.len() <= usize::MAX,
        file.terms.applys@.len() <= usize::MAX,
    ensures
        forall|j: int| 0 <= j < rows_of(file).len() ==> distinct(#[trigger] rows_of(file)[j].0),
{
    file.terms.lemma_wf_in_range();
    let (ni, na, np) = (file.terms.idents@.len(), file.terms.abstrs@.len(), file.terms.applys@.len());
    assert forall|j: int| 0 <= j < rows_of(file).len() implies distinct(#[trigger] rows_of(file)[j].0) by {
        if j < ni {
            assert(rows_of(file)[j] == ident_row(file, j));
        } else if j < ni + na {
            let a = j - ni;
            assert(rows_of(file)[j] == abstr_row(file, a));
            assert(file.terms.abstr_in_range(a));
            lemma_term_var(file, file.terms.abstrs@[a].1, file.terms.abstrs@[a].1);
        } else {
            let q = j - ni - na;
            let p = q / 2;
            assert(rows_of(file)[j] == apply_row(file, p, q % 2 == 1));
            assert(file.terms.apply_in_range(p));
            assert(file.terms.apply_distinct(p));
            let (f, x) = file.terms.applys@[p];
            lemma_term_var(file, f, x);
            lemma_term_var(file, f, Term::Apply(Apply(p as usize)));
            lemma_term_var(file, x, Term::Apply(Apply(p as usize)));
        }
    }
}

/// A name for the entries of the table of side variables.
pub uninterp spec fn pairs(t: TiVec<Arrow, (Variable, Variable)>) -> Seq<(Variable, Variable)>;

/// `TiVec::from` a `Vec`: claimed to hold the entries of the vector in
/// their order.
#[verifier::external_body]
fn pair_table(v: Vec<(Variable, Variable)>) -> (t: TiVec<Arrow, (Variable, Variable)>)
    ensures
        pairs(t) == v@,
{
    TiVec::from(v)
}

/// Indexing the table of side variables by an `Arrow`: claimed to give the
/// entry at that position.
#[verifier::external_body]
pub(crate) fn pair_get(t: &TiVec<Arrow, (Variable, Variable)>, k: Arrow) -> (r: (Variable, Variable))
    requires
        k.0 < pairs(*t).len(),
    ensures
        r == pairs(*t)[k.0 as int],
{
    t[k]
}

/// The position of a function type that is known to be one.
fn arrow_index(k: Type) -> (a: Arrow)
    requires
        k is Arrow,
    ensures
        k == Type::Arrow(a),
{
    match k {
        Type::Arrow(a) => a,
        Type::Basic(_) => Arrow(0),
    }
}

/// The variable of a node.
fn node_var(ni: usize, na: usize, t: Term) -> (v: Variable)
    requires
        match t {
            Term::Ident(i) => i.0 < ni,
            Term::Abstr(a) => ni + a.0 <= usize::MAX,
            Term::Apply(p) => ni + na + p.0 <= usize::MAX,
        },
    ensures
        v.0 == match t {
            Term::Ident(i) => i.0 as int,
            Term::Abstr(a) => ni + a.0,
            Term::Apply(p) => ni + na + p.0,
        },
{
    match t {
        Term::Ident(i) => Variable(i.0),
        Term::Abstr(a) => Variable(ni + a.0),
        Term::Apply(p) => Variable(ni + na + p.0),
    }
}

/// The hats of every node and of every side of every function type.
pub struct File {
    pub solve: Vec<usize>,
    pub vterm: Sheaf<Variable>,
    pub vtype: TiVec<Arrow, (Variable, Variable)>,
}

impl File {
    /// States the linear problem whose least solution places the hats: the
    /// variables of the nodes, then those of the sides of the function
    /// types, and the constraints that tie them along the term.
    pub fn problem(types: &types::File, guard: &Guard) -> (r: (Problem, Sheaf<Variable>, TiVec<
        Arrow,
        (Variable, Variable),
    >))
        requires
            types.wf(),
            types.arrowed(),
            marks(guard.guard).len() == types.arrows().len(),
            node_count(*types) + 2 * types.arrows().len() <= usize::MAX,
        ensures
            r.0.lower@ == lower_of(*types, marks(guard.guard)),
            r.0.rows@.len() == rows_of(*types).len(),
            forall|j: int| 0 <= j < r.0.rows@.len() ==> #[trigger] row_view(r.0.rows@[j]) == rows_of(*types)[j],
            forall|j: int| 0 <= j < r.0.rows@.len() ==> distinct(#[trigger] row_view(r.0.rows@[j]).0),
            r.1.fits(types.terms),
            forall|i: int| 0 <= i < r.1@.0.len() ==> (#[trigger] r.1@.0[i]).0 == term_var(*types, Term::Ident(Ident(i as usize))),
            forall|a: int| 0 <= a < r.1@.1.len() ==> (#[trigger] r.1@.1[a]).0 == term_var(*types, Term::Abstr(Abstr(a as usize))),
            forall|p: int| 0 <= p < r.1@.2.len() ==> (#[trigger] r.1@.2[p]).0 == term_var(*types, Term::Apply(Apply(p as usize))),
            pairs(r.2).len() == types.arrows().len(),
            forall|k: int|
                0 <= k < pairs(r.2).len() ==> (#[trigger] pairs(r.2)[k]).0.0 == side_var(*types, k as nat, false)
                    && pairs(r.2)[k].1.0 == side_var(*types, k as nat, true),
    {
        let ni = graph_idents_len(&types.terms.idents);
        let na = graph_abstrs_len(&types.terms.abstrs);
        let np = graph_applys_len(&types.terms.applys);
        let n = arrow_len(&types.arrow);
        let nodes = ni + na + np;
        let ghost g = marks(guard.guard);
        let ghost want = rows_of(*types);
        let sheaf = Sheaf::<Term>::from(&types.terms);
        let pick = |t: Term| -> (v: Variable)
            requires
                match t {
                    Term::Ident(i) => i.0 < ni,
                    Term::Abstr(a) => ni + a.0 <= usize::MAX,
                    Term::Apply(p) => ni + na + p.0 <= usize::MAX,
                },
            ensures
                v.0 == match t {
                    Term::Ident(i) => i.0 as int,
                    Term::Abstr(a) => ni + a.0,
                    Term::Apply(p) => ni + na + p.0,
                },
            { node_var(ni, na, t) };
        let vterm = sheaf.fmap(pick);
        let mut lower: Vec<usize> = Vec::new();
        let mut v: usize = 0;
        while v < nodes
            invariant
                nodes == node_count(*types),
                nodes + 2 * n <= usize::MAX,
                g.len() == n,
                v <= nodes,
                lower@ == lower_of(*types, g).take(v as int),
            decreases nodes - v,
        {
            lower.push(0);
            v = v + 1;
            assert(lower@ =~= lower_of(*types, g).take(v as int));
        }
        let mut vtype: Vec<(Variable, Variable)> = Vec::new();
        let mut k: usize = 0;
        while k < n
            invariant
                nodes == node_count(*types),
                nodes + 2 * n <= usize::MAX,
                g == marks(guard.guard),
                g.len() == n,
                k <= n,
                lower@ == lower_of(*types, g).take(nodes + 2 * k),
                vtype@.len() == k,
                forall|j: int|
                    0 <= j < k ==> (#[trigger] vtype@[j]).0.0 == side_var(*types, j as nat, false)
                        && vtype@[j].1.0 == side_var(*types, j as nat, true),
            decreases n - k,
        {
            let (gl, gr) = mark_get(&guard.guard, Arrow(k));
            lower.push(if gl {
                1
            } else {
                0
            });
            lower.push(if gr {
                1
            } else {
                0
            });
            vtype.push((Variable(nodes + 2 * k), Variable(nodes + 2 * k + 1)));
            proof {
                let lo = lower_of(*types, g);
                assert((nodes + 2 * k - nodes) / 2 == k && (nodes + 2 * k - nodes) % 2 == 0);
                assert((nodes + 2 * k + 1 - nodes) / 2 == k && (nodes + 2 * k + 1 - nodes) % 2 == 1);
                assert(lower@ =~= lo.take(nodes + 2 * k + 2));
            }
            k = k + 1;
        }
        let mut rows: Vec<Row> = Vec::new();
        let mut i: usize = 0;
        while i < ni
            invariant
                types.wf(),
                types.arrowed(),
                want == rows_of(*types),
                ni == types.terms.idents@.len(),
                na == types.terms.abstrs@.len(),
                np == types.terms.applys@.len(),
                n == types.arrows().len(),
                vterm.fits(types.terms),
                forall|x: int| 0 <= x < vterm@.0.len() ==> (#[trigger] vterm@.0[x]).0 == x,
                forall|x: int| 0 <= x < vterm@.1.len() ==> (#[trigger] vterm@.1[x]).0 == ni + x,
                forall|x: int| 0 <= x < vterm@.2.len() ==> (#[trigger] vterm@.2[x]).0 == ni + na + x,
                vtype@.len() == n,
                forall|j: int|
                    0 <= j < n ==> (#[trigger] vtype@[j]).0.0 == side_var(*types, j as nat, false)
                        && vtype@[j].1.0 == side_var(*types, j as nat, true),
                i <= ni,
                rows@.len() == i,
                forall|j: int| 0 <= j < i ==> #[trigger] row_view(rows@[j]) == want[j],
            decreases ni - i,
        {
            let abstr = graph_idents_get(&types.terms.idents, Ident(i));
            proof {
                assert(types.terms.zoned());
            }
            let arrow = arrow_index(*types.assoc.index(Term::Abstr(abstr)));
            let mut terms: Vec<(Variable, i8)> = Vec::new();
            terms.push((*vterm.index(Term::Ident(Ident(i))), 1));
            terms.push((vtype[arrow.0].0, -1));
            let row = Row { terms, op: Comparison::Ge };
            proof {
                assert(row_view(row).0 =~= ident_row(*types, i as int).0);
            }
            rows.push(row);
            i = i + 1;
        }
        let mut a: usize = 0;
        while a < na
            invariant
                types.wf(),
                types.arrowed(),
                want == rows_of(*types),
                ni == types.terms.idents@.len(),
                na == types.terms.abstrs@.len(),
                np == types.terms.applys@.len(),
                n == types.arrows().len(),
                vterm.fits(types.terms),
                forall|x: int| 0 <= x < vterm@.0.len() ==> (#[trigger] vterm@.0[x]).0 == x,
                forall|x: int| 0 <= x < vterm@.1.len() ==> (#[trigger] vterm@.1[x]).0 == ni + x,
                forall|x: int| 0 <= x < vterm@.2.len() ==> (#[trigger] vterm@.2[x]).0 == ni + na + x,
                vtype@.len() == n,
                forall|j: int|
                    0 <= j < n ==> (#[trigger] vtype@[j]).0.0 == side_var(*types, j as nat, false)
                        && vtype@[j].1.0 == side_var(*types, j as nat, true),
                a <= na,
                rows@.len() == ni + a,
                forall|j: int| 0 <= j < ni + a ==> #[trigger] row_view(rows@[j]) == want[j],
            decreases na - a,
        {
            let rec = graph_abstrs_get(&types.terms.abstrs, Abstr(a)).1;
            let arrow = arrow_index(*types.assoc.index(Term::Abstr(Abstr(a))));
            proof {
                types.terms.lemma_wf_in_range();
                assert(types.terms.abstr_in_range(a as int));
            }
            let mut terms: Vec<(Variable, i8)> = Vec::new();
            terms.push((vtype[arrow.0].1, 1));
            terms.push((*vterm.index(rec), -1));
            let row = Row { terms, op: Comparison::Eq };
            proof {
                assert(row_view(row).0 =~= abstr_row(*types, a as int).0);
            }
            rows.push(row);
            a = a + 1;
        }
        let mut p: usize = 0;
        while p < np
            invariant
                types.wf(),
                types.arrowed(),
                want == rows_of(*types),
                ni == types.terms.idents@.len(),
                na == types.terms.abstrs@.len(),
                np == types.terms.applys@.len(),
                n == types.arrows().len(),
                vterm.fits(types.terms),
                forall|x: int| 0 <= x < vterm@.0.len() ==> (#[trigger] vterm@.0[x]).0 == x,
                forall|x: int| 0 <= x < vterm@.1.len() ==> (#[trigger] vterm@.1[x]).0 == ni + x,
                forall|x: int| 0 <= x < vterm@.2.len() ==> (#[trigger] vterm@.2[x]).0 == ni + na + x,
                vtype@.len() == n,
                forall|j: int|
                    0 <= j < n ==> (#[trigger] vtype@[j]).0.0 == side_var(*types, j as nat, false)
                        && vtype@[j].1.0 == side_var(*types, j as nat, true),
                p <= np,
                rows@.len() == ni + na + 2 * p,
                forall|j: int| 0 <= j < ni + na + 2 * p ==> #[trigger] row_view(rows@[j]) == want[j],
            decreases np - p,
        {
            let (func, body) = graph_applys_get(&types.terms.applys, Apply(p));
            proof {
                types.terms.lemma_wf_in_range();
                assert(types.terms.apply_in_range(p as int));
            }
            let arrow = arrow_index(*types.assoc.index(func));
            let mut terms: Vec<(Variable, i8)> = Vec::new();
            terms.push((*vterm.index(func), 1));
            terms.push((vtype[arrow.0].0, 1));
            terms.push((*vterm.index(body), -1));
            let row = Row { terms, op: Comparison::Eq };
            proof {
                assert(row_view(row).0 =~= apply_row(*types, p as int, false).0);
            }
            rows.push(row);
            let mut terms: Vec<(Variable, i8)> = Vec::new();
            terms.push((*vterm.index(func), 1));
            terms.push((vtype[arrow.0].1, 1));
            terms.push((*vterm.index(Term::Apply(Apply(p))), -1));
            let row = Row { terms, op: Comparison::Eq };
            proof {
                assert(row_view(row).0 =~= apply_row(*types, p as int, true).0);
            }
            rows.push(row);
            p = p + 1;
        }
        proof {
            lemma_rows_distinct(*types);
        }
        (Problem { lower, rows }, vterm, pair_table(vtype))
    }
}

} // verus!
