use vstd::prelude::*;

use typed_index_collections::TiVec;

use super::shape;
use super::terms::arena::Arena;
use super::terms::{graph, Lambda, Sheaf, Term};

verus! {

/// A basic type: its position among the basic types.
#[derive(Clone, Copy, Debug, PartialEq, Eq, Structural)]
pub struct Basic(pub usize);

/// A function type: its position among the function types.
#[derive(Clone, Copy, Debug, PartialEq, Eq, Structural)]
pub struct Arrow(pub usize);

/// A type of the result: basic or a function type.
#[derive(Clone, Copy, Debug, PartialEq, Eq, Structural)]
pub enum Type {
    Basic(Basic),
    Arrow(Arrow),
}

impl From<usize> for Basic {
    fn from(value: usize) -> (r: Basic)
        ensures
            r.0 == value,
    {
        Basic(value)
    }
}

impl vstd::std_specs::convert::FromSpecImpl<usize> for Basic {
    open spec fn obeys_from_spec() -> bool {
        true
    }

    open spec fn from_spec(v: usize) -> Basic {
        Basic(v)
    }
}

impl From<Basic> for usize {
    fn from(value: Basic) -> (r: usize)
        ensures
            r == value.0,
    {
        value.0
    }
}

impl vstd::std_specs::convert::FromSpecImpl<Basic> for usize {
    open spec fn obeys_from_spec() -> bool {
        true
    }

    open spec fn from_spec(v: Basic) -> usize {
        v.0
    }
}

impl From<usize> for Arrow {
    fn from(value: usize) -> (r: Arrow)
        ensures
            r.0 == value,
    {
        Arrow(value)
    }
}

impl vstd::std_specs::convert::FromSpecImpl<usize> for Arrow {
    open spec fn obeys_from_spec() -> bool {
        true
    }

    open spec fn from_spec(v: usize) -> Arrow {
        Arrow(v)
    }
}

impl From<Arrow> for usize {
    fn from(value: Arrow) -> (r: usize)
        ensures
            r == value.0,
    {
        value.0
    }
}

impl vstd::std_specs::convert::FromSpecImpl<Arrow> for usize {
    open spec fn obeys_from_spec() -> bool {
        true
    }

    open spec fn from_spec(v: Arrow) -> usize {
        v.0
    }
}

// ------------------------------------------------------------------------
// The tables of basic and function types
// ------------------------------------------------------------------------

/// A name for the entries of the table of basic types.
pub uninterp spec fn basics(t: TiVec<Basic, ()>) -> Seq<()>;

/// A name for the entries of the table of function types, in the order of
/// their positions: the argument type, then the result type.
pub uninterp spec fn arrows(t: TiVec<Arrow, (Type, Type)>) -> Seq<(Type, Type)>;

/// `TiVec::from` a `Vec`: claimed to hold the entries of the vector in
/// their order.
#[verifier::external_body]
fn basic_table(v: Vec<()>) -> (t: TiVec<Basic, ()>)
    ensures
        basics(t) == v@,
{
    TiVec::from(v)
}

/// `TiVec::from` a `Vec`: claimed to hold the entries of the vector in
/// their order.
#[verifier::external_body]
fn arrow_table(v: Vec<(Type, Type)>) -> (t: TiVec<Arrow, (Type, Type)>)
    ensures
        arrows(t) == v@,
{
    TiVec::from(v)
}

/// Indexing the table of function types by an `Arrow`: claimed to give the
/// entry at that position.
#[verifier::external_body]
pub(crate) fn arrow_get(t: &TiVec<Arrow, (Type, Type)>, k: Arrow) -> (r: (Type, Type))
    requires
        k.0 < arrows(*t).len(),
    ensures
        r == arrows(*t)[k.0 as int],
{
    t[k]
}

/// `TiVec::len` of the table of function types: claimed to give the number
/// of entries.
#[verifier::external_body]
pub(crate) fn arrow_len(t: &TiVec<Arrow, (Type, Type)>) -> (n: usize)
    ensures
        n == arrows(*t).len(),
{
    t.len()
}

/// A name for the type that each entry of a table of types becomes itself, if it is no clone, in the order of their positions.
pub uninterp spec fn own_kinds(t: TiVec<shape::Name, Option<Type>>) -> Seq<Option<Type>>;

impl Arena<Option<Type>> for TiVec<shape::Name, Option<Type>> {
    open spec fn view(&self) -> Seq<Option<Type>> {
        own_kinds(*self)
    }
}

/// `TiVec::new`: claimed to give an empty arena.
#[verifier::external_body]
pub(crate) fn own_kinds_new() -> (t: TiVec<shape::Name, Option<Type>>)
    ensures
        own_kinds(t) == Seq::<Option<Type>>::empty(),
{
    TiVec::new()
}

/// `TiVec::push`: claimed to append the entry.
#[verifier::external_body]
pub(crate) fn own_kinds_push(t: &mut TiVec<shape::Name, Option<Type>>, value: Option<Type>)
    ensures
        own_kinds(*final(t)) == own_kinds(*old(t)).push(value),
{
    t.push(value)
}

/// Indexing by a key: claimed to give the entry at that position.
#[verifier::external_body]
pub(crate) fn own_kinds_get(t: &TiVec<shape::Name, Option<Type>>, k: shape::Name) -> (v: Option<Type>)
    requires
        k.0 < own_kinds(*t).len(),
    ensures
        v == own_kinds(*t)[k.0 as int],
{
    t[k]
}

/// A name for the type that each name of a table of types becomes, in the order of their positions.
pub uninterp spec fn kinds(t: TiVec<shape::Name, Type>) -> Seq<Type>;

impl Arena<Type> for TiVec<shape::Name, Type> {
    open spec fn view(&self) -> Seq<Type> {
        kinds(*self)
    }
}

/// `TiVec::new`: claimed to give an empty arena.
#[verifier::external_body]
pub(crate) fn kinds_new() -> (t: TiVec<shape::Name, Type>)
    ensures
        kinds(t) == Seq::<Type>::empty(),
{
    TiVec::new()
}

/// `TiVec::push`: claimed to append the entry.
#[verifier::external_body]
pub(crate) fn kinds_push(t: &mut TiVec<shape::Name, Type>, value: Type)
    ensures
        kinds(*final(t)) == kinds(*old(t)).push(value),
{
    t.push(value)
}

/// Indexing by a key: claimed to give the entry at that position.
#[verifier::external_body]
pub(crate) fn kinds_get(t: &TiVec<shape::Name, Type>, k: shape::Name) -> (v: Type)
    requires
        k.0 < kinds(*t).len(),
    ensures
        v == kinds(*t)[k.0 as int],
{
    t[k]
}

// ------------------------------------------------------------------------
// Numbering the representatives
// ------------------------------------------------------------------------

/// The number of basic entries before position `n`.
pub open spec fn basic_rank(types: Seq<shape::Type>, n: int) -> nat
    decreases n,
{
    if n <= 0 {
        0
    } else {
        basic_rank(types, n - 1) + if types[n - 1] is Basic {
            1nat
        } else {
            0nat
        }
    }
}

/// The number of function entries before position `n`.
pub open spec fn arrow_rank(types: Seq<shape::Type>, n: int) -> nat
    decreases n,
{
    if n <= 0 {
        0
    } else {
        arrow_rank(types, n - 1) + if types[n - 1] is Arrow {
            1nat
        } else {
            0nat
        }
    }
}

/// The type that the entry at position `n` itself becomes, if it is no
/// clone: basic and function entries are numbered apart, in the order of
/// the table.
pub open spec fn own_kind(types: Seq<shape::Type>, n: int) -> Option<Type> {
    match types[n] {
        shape::Type::Basic() => Some(Type::Basic(Basic(basic_rank(types, n) as usize))),
        shape::Type::Clone(_) => None,
        shape::Type::Arrow(_, _) => Some(Type::Arrow(Arrow(arrow_rank(types, n) as usize))),
    }
}

/// The type that the name `n` becomes: that of its representative.
pub open spec fn kind(types: Seq<shape::Type>, n: int) -> Type {
    own_kind(types, shape::roots(types)[n] as int).unwrap()
}

/// The entry of `types` at the position of `name`.
pub open spec fn named(types: Seq<Type>, name: shape::Name) -> Type {
    types[name.0 as int]
}

/// The type at the position of `name`.
fn lookup(table: &TiVec<shape::Name, Type>, name: shape::Name) -> (k: Type)
    requires
        name.0 < table@.len(),
    ensures
        k == named(table@, name),
{
    kinds_get(table, name)
}

/// The type stands for an entry of the tables.
pub open spec fn valid(basic: nat, arrow: nat, k: Type) -> bool {
    match k {
        Type::Basic(b) => b.0 < basic,
        Type::Arrow(a) => a.0 < arrow,
    }
}

proof fn lemma_ranks(types: Seq<shape::Type>, m: int, n: int)
    requires
        0 <= m <= n <= types.len(),
    ensures
        basic_rank(types, m) <= basic_rank(types, n) <= n,
        arrow_rank(types, m) <= arrow_rank(types, n) <= n,
        m < n && types[m] is Basic ==> basic_rank(types, m) < basic_rank(types, n),
        m < n && types[m] is Arrow ==> arrow_rank(types, m) < arrow_rank(types, n),
    decreases n,
{
    if n > 0 {
        if m < n {
            lemma_ranks(types, m, n - 1);
        } else {
            lemma_ranks(types, n - 1, n - 1);
        }
    }
}

/// The type of a name stands for an entry of the tables.
proof fn lemma_kind_valid(types: Seq<shape::Type>, n: int)
    requires
        shape::well_formed(types),
        0 <= n < types.len(),
    ensures
        valid(basic_rank(types, types.len() as int), arrow_rank(types, types.len() as int), kind(types, n)),
{
    shape::lemma_roots_ok(types, n);
    lemma_ranks(types, shape::roots(types)[n] as int, types.len() as int);
}

/// Two names become the same type exactly when they have the same
/// representative.
pub proof fn lemma_kind_classes(types: Seq<shape::Type>, m: int, n: int)
    requires
        shape::well_formed(types),
        types.len() <= usize::MAX,
        0 <= m < types.len(),
        0 <= n < types.len(),
    ensures
        kind(types, m) == kind(types, n) <==> shape::roots(types)[m] == shape::roots(types)[n],
{
    shape::lemma_roots_ok(types, m);
    shape::lemma_roots_ok(types, n);
    let rm = shape::roots(types)[m] as int;
    let rn = shape::roots(types)[n] as int;
    if rm < rn {
        lemma_ranks(types, rm, rn);
    } else if rn < rm {
        lemma_ranks(types, rn, rm);
    }
    lemma_ranks(types, rm, types.len() as int);
    lemma_ranks(types, rn, types.len() as int);
}

// ------------------------------------------------------------------------
// The split file
// ------------------------------------------------------------------------

/// The term with basic and function types numbered apart, and the type of
/// every node.
pub struct File {
    pub terms: graph::File,
    pub basic: TiVec<Basic, ()>,
    pub arrow: TiVec<Arrow, (Type, Type)>,
    pub assoc: Sheaf<Type>,
}

impl File {
    /// The number of basic types.
    pub open spec fn basic_count(self) -> nat {
        basics(self.basic).len()
    }

    /// The function types.
    pub open spec fn arrows(self) -> Seq<(Type, Type)> {
        arrows(self.arrow)
    }

    /// Every type of the file stands for an entry of the tables, and every
    /// node has one.
    pub open spec fn wf(self) -> bool {
        &&& self.terms.wf()
        &&& self.assoc.fits(self.terms)
        &&& self.in_tables()
    }

    /// Every type that the file holds stands for an entry of the tables.
    pub open spec fn in_tables(self) -> bool {
        let (b, a) = (self.basic_count(), self.arrows().len());
        &&& forall|k: int|
            0 <= k < self.arrows().len() ==> valid(b, a, #[trigger] self.arrows()[k].0) && valid(
                b,
                a,
                self.arrows()[k].1,
            )
        &&& forall|i: int| 0 <= i < self.assoc@.0.len() ==> valid(b, a, #[trigger] self.assoc@.0[i])
        &&& forall|i: int| 0 <= i < self.assoc@.1.len() ==> valid(b, a, #[trigger] self.assoc@.1[i])
        &&& forall|i: int| 0 <= i < self.assoc@.2.len() ==> valid(b, a, #[trigger] self.assoc@.2[i])
    }

    /// Every abstraction has a function type, and so has every function
    /// that is applied.
    pub open spec fn arrowed(self) -> bool {
        &&& forall|k: int| 0 <= k < self.assoc@.1.len() ==> #[trigger] self.assoc@.1[k] is Arrow
        &&& forall|q: int|
            0 <= q < self.terms.applys@.len() ==> self.assoc.has(#[trigger] self.terms.applys@[q].0)
                && self.assoc.at(self.terms.applys@[q].0) is Arrow
    }

    /// This file numbers the representatives of the table of `value`, basic
    /// and function types apart and in the order of the table, and gives
    /// every node the type of the representative of its variable.
    pub open spec fn splits(self, value: shape::File) -> bool {
        let types = shape::table(value.types);
        &&& self.terms == value.terms
        &&& self.basic_count() == basic_rank(types, types.len() as int)
        &&& self.arrows().len() == arrow_rank(types, types.len() as int)
        &&& forall|m: int|
            0 <= m < types.len() ==> match #[trigger] types[m] {
                shape::Type::Arrow(l, x) => self.arrows()[arrow_rank(types, m) as int] == (
                kind(types, l.0 as int),
                kind(types, x.0 as int),
                ),
                _ => true,
            }
        &&& self.assoc@.0.len() == value.assoc@.0.len()
        &&& self.assoc@.1.len() == value.assoc@.1.len()
        &&& self.assoc@.2.len() == value.assoc@.2.len()
        &&& forall|i: int|
            0 <= i < self.assoc@.0.len() ==> #[trigger] self.assoc@.0[i] == kind(types, value.assoc@.0[i].0 as int)
        &&& forall|i: int|
            0 <= i < self.assoc@.1.len() ==> #[trigger] self.assoc@.1[i] == kind(types, value.assoc@.1[i].0 as int)
        &&& forall|i: int|
            0 <= i < self.assoc@.2.len() ==> #[trigger] self.assoc@.2[i] == kind(types, value.assoc@.2[i].0 as int)
    }

    /// The types of the node `term` for `t` and of the nodes below it obey
    /// the typing rules: the binder of an occurrence has a function type
    /// whose argument side is the type of the occurrence; an abstraction has
    /// a function type whose result side is the type of its body; the
    /// function of an application has a function type from the type of the
    /// argument to the type of the application.
    pub open spec fn well_typed(self, term: Term, t: Lambda) -> bool
        decreases t,
    {
        match t {
            Lambda::Var(_) => term matches Term::Ident(i) && i.0 < self.terms.idents@.len() && (
            self.assoc.at(Term::Abstr(self.terms.idents@[i.0 as int])) matches Type::Arrow(a)
                && self.arrows()[a.0 as int].0 == self.assoc.at(term)),
            Lambda::Lam(b) => term matches Term::Abstr(p) && p.0 < self.terms.abstrs@.len() && {
                let body = self.terms.abstrs@[p.0 as int].1;
                &&& self.assoc.at(term) matches Type::Arrow(a) && self.arrows()[a.0 as int].1
                    == self.assoc.at(body)
                &&& self.well_typed(body, *b)
            },
            Lambda::App(f, x) => term matches Term::Apply(p) && p.0 < self.terms.applys@.len() && {
                let (fl, xl) = self.terms.applys@[p.0 as int];
                &&& self.assoc.at(fl) matches Type::Arrow(a) && self.arrows()[a.0 as int] == (
                    self.assoc.at(xl),
                    self.assoc.at(term),
                )
                &&& self.well_typed(fl, *f)
                &&& self.well_typed(xl, *x)
            },
        }
    }

    /// What the numbering gives: each node the type of its variable, and
    /// each name that stands for a function type the function type between
    /// the types of its sides.
    pub open spec fn numbers(self, value: shape::File) -> bool {
        let types = shape::table(value.types);
        &&& forall|node: Term|
            value.assoc.has(node) ==> #[trigger] self.assoc.at(node) == kind(
                types,
                value.assoc.at(node).0 as int,
            )
        &&& forall|n: int|
            0 <= n < types.len() && #[trigger] shape::sides(types, n) is Some ==> (kind(types, n) matches Type::Arrow(a)
                && self.arrows()[a.0 as int] == (
                kind(types, shape::sides(types, n).unwrap().0.0 as int),
                kind(types, shape::sides(types, n).unwrap().1.0 as int),
            ))
    }

    /// The numbering of a table gives what `numbers` says.
    pub proof fn lemma_numbers(self, value: shape::File)
        requires
            self.splits(value),
            value.wf(),
            shape::table(value.types).len() <= usize::MAX,
        ensures
            self.numbers(value),
    {
        let types = shape::table(value.types);
        assert forall|node: Term| value.assoc.has(node) implies #[trigger] self.assoc.at(node) == kind(
            types,
            value.assoc.at(node).0 as int,
        ) by {}
        assert forall|n: int| 0 <= n < types.len() && #[trigger] shape::sides(types, n) is Some implies (kind(
            types,
            n,
        ) matches Type::Arrow(a) && self.arrows()[a.0 as int] == (
            kind(types, shape::sides(types, n).unwrap().0.0 as int),
            kind(types, shape::sides(types, n).unwrap().1.0 as int),
        )) by {
            shape::lemma_roots_ok(types, n);
            let rt = shape::roots(types)[n] as int;
            lemma_ranks(types, rt, types.len() as int);
            assert(match types[rt] {
                shape::Type::Arrow(l, x) => self.arrows()[arrow_rank(types, rt) as int] == (
                    kind(types, l.0 as int),
                    kind(types, x.0 as int),
                ),
                _ => true,
            });
        }
    }

    /// Where the inferred table obeys the typing rules, so do the numbered
    /// types.
    pub proof fn lemma_well_typed(self, value: shape::File, term: Term, t: Lambda)
        requires
            self.numbers(value),
            value.terms == self.terms,
            value.wf(),
            value.terms.wf(),
            value.settled(),
            value.typed(term, t),
            value.sound(term, t),
        ensures
            self.well_typed(term, t),
        decreases t,
    {
        let types = shape::table(value.types);
        match t {
            Lambda::Var(_) => {
                if let Term::Ident(i) = term {
                    let bnode = Term::Abstr(value.terms.idents@[i.0 as int]);
                    let binder = value.assoc.at(bnode).0 as int;
                    let (l, _) = shape::sides(types, binder).unwrap();
                    assert(value.assoc.has(bnode)) by {
                        assert(value.terms.complete(value.terms.lambda()));
                        assert(value.terms.zoned());
                    }
                    assert(value.abstr_typed(value.terms.idents@[i.0 as int].0 as int));
                    assert(0 <= binder < types.len());
                    assert(shape::sides(types, binder) is Some);
                    assert(self.assoc.at(bnode) == kind(types, binder));
                    assert(self.assoc.at(term) == kind(types, value.assoc.at(term).0 as int));
                    assert(kind(types, l.0 as int) == kind(types, value.assoc.at(term).0 as int));
                }
            },
            Lambda::Lam(b) => {
                if let Term::Abstr(p) = term {
                    let body = value.terms.abstrs@[p.0 as int].1;
                    self.lemma_well_typed(value, body, *b);
                    let v = value.assoc.at(term).0 as int;
                    assert(value.typed(body, *b));
                    let (_, r) = shape::sides(types, v).unwrap();
                    assert(self.assoc.at(term) == kind(types, v));
                    assert(self.assoc.at(body) == kind(types, value.assoc.at(body).0 as int));
                    assert(kind(types, r.0 as int) == kind(types, value.assoc.at(body).0 as int));
                }
            },
            Lambda::App(f, x) => {
                if let Term::Apply(p) = term {
                    let (fl, xl) = value.terms.applys@[p.0 as int];
                    self.lemma_well_typed(value, fl, *f);
                    self.lemma_well_typed(value, xl, *x);
                    assert(value.typed(fl, *f));
                    assert(value.typed(xl, *x));
                    let v = value.assoc.at(fl).0 as int;
                    let (l, r) = shape::sides(types, v).unwrap();
                    assert(self.assoc.at(fl) == kind(types, v));
                    assert(self.assoc.at(xl) == kind(types, value.assoc.at(xl).0 as int));
                    assert(self.assoc.at(term) == kind(types, value.assoc.at(term).0 as int));
                    assert(kind(types, l.0 as int) == kind(types, value.assoc.at(xl).0 as int));
                    assert(kind(types, r.0 as int) == kind(types, value.assoc.at(term).0 as int));
                }
            },
        }
    }

    /// Numbers the representatives of the table, basic and function types
    /// apart and in the order of the table, and gives every name and every
    /// node the type of its representative.
    pub fn from(value: shape::File) -> (r: File)
        requires
            value.wf(),
            value.names_in_range(),
        ensures
            r.splits(value),
            shape::table(value.types).len() <= usize::MAX,
            r.in_tables(),
            value.terms.wf() ==> r.wf(),
            value.settled() ==> r.arrowed(),
    {
        let ghost types = shape::table(value.types);
        let n = shape::table_len(&value.types);
        proof {
            lemma_ranks(types, 0, n as int);
        }
        let mut count = own_kinds_new();
        let mut basic: usize = 0;
        let mut arrow: usize = 0;
        let mut i: usize = 0;
        while i < n
            invariant
                types == shape::table(value.types),
                n == types.len(),
                i <= n,
                count@.len() == i,
                basic == basic_rank(types, i as int),
                arrow == arrow_rank(types, i as int),
                forall|j: int| 0 <= j < i ==> #[trigger] count@[j] == own_kind(types, j),
            decreases n - i,
        {
            proof {
                lemma_ranks(types, i as int + 1, n as int);
            }
            match shape::table_get(&value.types, shape::Name(i)) {
                shape::Type::Basic() => {
                    own_kinds_push(&mut count, Some(Type::Basic(Basic(basic))));
                    basic = basic + 1;
                },
                shape::Type::Clone(_) => {
                    own_kinds_push(&mut count, None);
                },
                shape::Type::Arrow(_, _) => {
                    own_kinds_push(&mut count, Some(Type::Arrow(Arrow(arrow))));
                    arrow = arrow + 1;
                },
            }
            i = i + 1;
        }
        let mut chase = kinds_new();
        let mut i: usize = 0;
        while i < n
            invariant
                types == shape::table(value.types),
                shape::well_formed(types),
                n == types.len(),
                i <= n,
                count@.len() == n,
                forall|j: int| 0 <= j < n ==> #[trigger] count@[j] == own_kind(types, j),
                chase@.len() == i,
                forall|j: int| 0 <= j < i ==> #[trigger] chase@[j] == kind(types, j),
            decreases n - i,
        {
            let root = value.chase(shape::Name(i));
            kinds_push(&mut chase, own_kinds_get(&count, root).unwrap());
            i = i + 1;
        }
        let mut basics: Vec<()> = Vec::new();
        let mut arrows: Vec<(Type, Type)> = Vec::new();
        let mut i: usize = 0;
        while i < n
            invariant
                types == shape::table(value.types),
                shape::well_formed(types),
                n == types.len(),
                i <= n,
                chase@.len() == n,
                forall|j: int| 0 <= j < n ==> #[trigger] chase@[j] == kind(types, j),
                basics@.len() == basic_rank(types, i as int),
                arrows@.len() == arrow_rank(types, i as int),
                forall|k: int|
                    0 <= k < arrows@.len() ==> valid(
                        basic_rank(types, n as int),
                        arrow_rank(types, n as int),
                        #[trigger] arrows@[k].0,
                    ) && valid(basic_rank(types, n as int), arrow_rank(types, n as int), arrows@[k].1),
                forall|m: int|
                    0 <= m < i ==> match #[trigger] types[m] {
                        shape::Type::Arrow(l, x) => arrows@[arrow_rank(types, m) as int] == (
                        kind(types, l.0 as int),
                        kind(types, x.0 as int),
                        ),
                        _ => true,
                    },
            decreases n - i,
        {
            proof {
                lemma_ranks(types, i as int, i as int + 1);
            }
            match shape::table_get(&value.types, shape::Name(i)) {
                shape::Type::Basic() => {
                    basics.push(());
                },
                shape::Type::Clone(_) => {},
                shape::Type::Arrow(lhs, rhs) => {
                    proof {
                        assert(shape::closed(types));
                        assert(types[i as int] == shape::Type::Arrow(lhs, rhs));
                        lemma_kind_valid(types, lhs.0 as int);
                        lemma_kind_valid(types, rhs.0 as int);
                    }
                    arrows.push((kinds_get(&chase, lhs), kinds_get(&chase, rhs)));
                },
            }
            proof {
                assert forall|m: int| 0 <= m < i + 1 implies match #[trigger] types[m] {
                    shape::Type::Arrow(l, x) => arrows@[arrow_rank(types, m) as int] == (
                    kind(types, l.0 as int),
                    kind(types, x.0 as int),
                    ),
                    _ => true,
                } by {
                    if m < i && types[m] is Arrow {
                        lemma_ranks(types, m, i as int);
                    }
                }
            }
            i = i + 1;
        }
        let table = &chase;
        proof {
            assert forall|k: int| 0 <= k < value.assoc@.0.len() implies value.assoc@.0[k].0 < table@.len() by {}
            assert forall|k: int| 0 <= k < value.assoc@.1.len() implies value.assoc@.1[k].0 < table@.len() by {}
            assert forall|k: int| 0 <= k < value.assoc@.2.len() implies value.assoc@.2[k].0 < table@.len() by {}
        }
        let ghost old_assoc = value.assoc;
        let pick = |name: shape::Name| -> (k: Type)
            requires
                name.0 < table@.len(),
            ensures
                k == named(table@, name),
            { lookup(table, name) };
        let assoc = value.assoc.fmap(pick);
        let r = File {
            terms: value.terms,
            basic: basic_table(basics),
            arrow: arrow_table(arrows),
            assoc,
        };
        proof {
            let (b, a) = (r.basic_count(), r.arrows().len());
            assert forall|x: int| 0 <= x < n implies valid(b, a, #[trigger] kind(types, x)) by {
                lemma_kind_valid(types, x);
            }
            if value.settled() {
                assert forall|k: int| 0 <= k < r.assoc@.1.len() implies #[trigger] r.assoc@.1[k] is Arrow by {
                    assert(value.abstr_typed(k));
                    shape::lemma_roots_ok(types, old_assoc@.1[k].0 as int);
                }
                assert forall|q: int| 0 <= q < r.terms.applys@.len() implies r.assoc.has(
                    #[trigger] r.terms.applys@[q].0,
                ) && r.assoc.at(r.terms.applys@[q].0) is Arrow by {
                    assert(value.apply_typed(q));
                    let node = r.terms.applys@[q].0;
                    shape::lemma_roots_ok(types, old_assoc.at(node).0 as int);
                }
            }
        }
        r
    }
}

} // verus!
