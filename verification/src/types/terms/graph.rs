use vstd::prelude::*;

use typed_index_collections::TiVec;

use super::arena::Arena;
use super::count::{
    count_abstrs_get, count_abstrs_len, count_applys_get, count_idents_get, count_idents_len,
};
use super::{app_count, bound_count, count, lam_count, lemma_slots, slots, var_count, Lambda};

verus! {

/// Position of a variable occurrence; the occurrences of one abstraction
/// lie next to each other.
#[derive(Clone, Copy, Debug, PartialEq, Eq)]
pub struct Ident(pub usize);

/// Position of an abstraction.
#[derive(Clone, Copy, Debug, PartialEq, Eq)]
pub struct Abstr(pub usize);

/// Position of an application.
#[derive(Clone, Copy, Debug, PartialEq, Eq)]
pub struct Apply(pub usize);

/// A node of the term.
#[derive(Clone, Copy, Debug, PartialEq, Eq)]
pub enum Term {
    Ident(Ident),
    Abstr(Abstr),
    Apply(Apply),
}

/// The occurrences that belong to one abstraction.
pub type Zone = core::ops::Range<Ident>;

impl From<usize> for Ident {
    fn from(value: usize) -> (r: Ident)
        ensures
            r.0 == value,
    {
        Ident(value)
    }
}

impl vstd::std_specs::convert::FromSpecImpl<usize> for Ident {
    open spec fn obeys_from_spec() -> bool {
        true
    }

    open spec fn from_spec(v: usize) -> Ident {
        Ident(v)
    }
}

impl From<Ident> for usize {
    fn from(value: Ident) -> (r: usize)
        ensures
            r == value.0,
    {
        value.0
    }
}

impl vstd::std_specs::convert::FromSpecImpl<Ident> for usize {
    open spec fn obeys_from_spec() -> bool {
        true
    }

    open spec fn from_spec(v: Ident) -> usize {
        v.0
    }
}

impl From<usize> for Abstr {
    fn from(value: usize) -> (r: Abstr)
        ensures
            r.0 == value,
    {
        Abstr(value)
    }
}

impl vstd::std_specs::convert::FromSpecImpl<usize> for Abstr {
    open spec fn obeys_from_spec() -> bool {
        true
    }

    open spec fn from_spec(v: usize) -> Abstr {
        Abstr(v)
    }
}

impl From<Abstr> for usize {
    fn from(value: Abstr) -> (r: usize)
        ensures
            r == value.0,
    {
        value.0
    }
}

impl vstd::std_specs::convert::FromSpecImpl<Abstr> for usize {
    open spec fn obeys_from_spec() -> bool {
        true
    }

    open spec fn from_spec(v: Abstr) -> usize {
        v.0
    }
}

impl From<usize> for Apply {
    fn from(value: usize) -> (r: Apply)
        ensures
            r.0 == value,
    {
        Apply(value)
    }
}

impl vstd::std_specs::convert::FromSpecImpl<usize> for Apply {
    open spec fn obeys_from_spec() -> bool {
        true
    }

    open spec fn from_spec(v: usize) -> Apply {
        Apply(v)
    }
}

impl From<Apply> for usize {
    fn from(value: Apply) -> (r: usize)
        ensures
            r == value.0,
    {
        value.0
    }
}

impl vstd::std_specs::convert::FromSpecImpl<Apply> for usize {
    open spec fn obeys_from_spec() -> bool {
        true
    }

    open spec fn from_spec(v: Apply) -> usize {
        v.0
    }
}

/// A name for the abstraction of each occurrence of a zoned term, in the order of their positions.
pub uninterp spec fn graph_idents(t: TiVec<Ident, Abstr>) -> Seq<Abstr>;

impl Arena<Abstr> for TiVec<Ident, Abstr> {
    open spec fn view(&self) -> Seq<Abstr> {
        graph_idents(*self)
    }
}

/// `TiVec::new`: claimed to give an empty arena.
#[verifier::external_body]
pub(crate) fn graph_idents_new() -> (t: TiVec<Ident, Abstr>)
    ensures
        graph_idents(t) == Seq::<Abstr>::empty(),
{
    TiVec::new()
}

/// `TiVec::len`: claimed to give the number of entries.
#[verifier::external_body]
pub(crate) fn graph_idents_len(t: &TiVec<Ident, Abstr>) -> (n: usize)
    ensures
        n == graph_idents(*t).len(),
{
    t.len()
}

/// `TiVec::push`: claimed to append the entry.
#[verifier::external_body]
pub(crate) fn graph_idents_push(t: &mut TiVec<Ident, Abstr>, value: Abstr)
    ensures
        graph_idents(*final(t)) == graph_idents(*old(t)).push(value),
{
    t.push(value)
}

/// Indexing by a key: claimed to give the entry at that position.
#[verifier::external_body]
pub(crate) fn graph_idents_get(t: &TiVec<Ident, Abstr>, k: Ident) -> (v: Abstr)
    requires
        k.0 < graph_idents(*t).len(),
    ensures
        v == graph_idents(*t)[k.0 as int],
{
    t[k]
}

/// A name for the zones and bodies of the abstractions of a zoned term, in the order of their positions.
pub uninterp spec fn graph_abstrs(t: TiVec<Abstr, (Zone, Term)>) -> Seq<(Zone, Term)>;

impl Arena<(Zone, Term)> for TiVec<Abstr, (Zone, Term)> {
    open spec fn view(&self) -> Seq<(Zone, Term)> {
        graph_abstrs(*self)
    }
}

/// `TiVec::new`: claimed to give an empty arena.
#[verifier::external_body]
pub(crate) fn graph_abstrs_new() -> (t: TiVec<Abstr, (Zone, Term)>)
    ensures
        graph_abstrs(t) == Seq::<(Zone, Term)>::empty(),
{
    TiVec::new()
}

/// `TiVec::len`: claimed to give the number of entries.
#[verifier::external_body]
pub(crate) fn graph_abstrs_len(t: &TiVec<Abstr, (Zone, Term)>) -> (n: usize)
    ensures
        n == graph_abstrs(*t).len(),
{
    t.len()
}

/// `TiVec::push_and_get_key`: claimed to append the entry and to give
/// its position, the former number of entries.
#[verifier::external_body]
pub(crate) fn graph_abstrs_push(t: &mut TiVec<Abstr, (Zone, Term)>, value: (Zone, Term)) -> (k: Abstr)
    ensures
        graph_abstrs(*final(t)) == graph_abstrs(*old(t)).push(value),
        k.0 == graph_abstrs(*old(t)).len(),
{
    t.push_and_get_key(value)
}

/// Indexing by a key: claimed to give the entry at that position.
#[verifier::external_body]
pub(crate) fn graph_abstrs_get(t: &TiVec<Abstr, (Zone, Term)>, k: Abstr) -> (v: &(Zone, Term))
    requires
        k.0 < graph_abstrs(*t).len(),
    ensures
        *v == graph_abstrs(*t)[k.0 as int],
{
    &t[k]
}

/// Assigning through `IndexMut` by a key: claimed to replace the entry at
/// that position and nothing else.
#[verifier::external_body]
pub(crate) fn graph_abstrs_set(t: &mut TiVec<Abstr, (Zone, Term)>, k: Abstr, value: (Zone, Term))
    requires
        k.0 < graph_abstrs(*old(t)).len(),
    ensures
        graph_abstrs(*final(t)) == graph_abstrs(*old(t)).update(k.0 as int, value),
{
    t[k] = value;
}

/// A name for the functions and arguments of the applications of a zoned term, in the order of their positions.
pub uninterp spec fn graph_applys(t: TiVec<Apply, (Term, Term)>) -> Seq<(Term, Term)>;

impl Arena<(Term, Term)> for TiVec<Apply, (Term, Term)> {
    open spec fn view(&self) -> Seq<(Term, Term)> {
        graph_applys(*self)
    }
}

/// `TiVec::new`: claimed to give an empty arena.
#[verifier::external_body]
pub(crate) fn graph_applys_new() -> (t: TiVec<Apply, (Term, Term)>)
    ensures
        graph_applys(t) == Seq::<(Term, Term)>::empty(),
{
    TiVec::new()
}

/// `TiVec::len`: claimed to give the number of entries.
#[verifier::external_body]
pub(crate) fn graph_applys_len(t: &TiVec<Apply, (Term, Term)>) -> (n: usize)
    ensures
        n == graph_applys(*t).len(),
{
    t.len()
}

/// `TiVec::push_and_get_key`: claimed to append the entry and to give
/// its position, the former number of entries.
#[verifier::external_body]
pub(crate) fn graph_applys_push(t: &mut TiVec<Apply, (Term, Term)>, value: (Term, Term)) -> (k: Apply)
    ensures
        graph_applys(*final(t)) == graph_applys(*old(t)).push(value),
        k.0 == graph_applys(*old(t)).len(),
{
    t.push_and_get_key(value)
}

/// Indexing by a key: claimed to give the entry at that position.
#[verifier::external_body]
pub(crate) fn graph_applys_get(t: &TiVec<Apply, (Term, Term)>, k: Apply) -> (v: (Term, Term))
    requires
        k.0 < graph_applys(*t).len(),
    ensures
        v == graph_applys(*t)[k.0 as int],
{
    t[k]
}

/// Assigning through `IndexMut` by a key: claimed to replace the entry at
/// that position and nothing else.
#[verifier::external_body]
pub(crate) fn graph_applys_set(t: &mut TiVec<Apply, (Term, Term)>, k: Apply, value: (Term, Term))
    requires
        k.0 < graph_applys(*old(t)).len(),
    ensures
        graph_applys(*final(t)) == graph_applys(*old(t)).update(k.0 as int, value),
{
    t[k] = value;
}

/// A name for the next free slot of the zone of each abstraction while a term is zoned, in the order of their positions.
pub uninterp spec fn zone_starts(t: TiVec<count::Abstr, Ident>) -> Seq<Ident>;

impl Arena<Ident> for TiVec<count::Abstr, Ident> {
    open spec fn view(&self) -> Seq<Ident> {
        zone_starts(*self)
    }
}

/// `TiVec::new`: claimed to give an empty arena.
#[verifier::external_body]
pub(crate) fn zone_starts_new() -> (t: TiVec<count::Abstr, Ident>)
    ensures
        zone_starts(t) == Seq::<Ident>::empty(),
{
    TiVec::new()
}

/// `TiVec::push`: claimed to append the entry.
#[verifier::external_body]
pub(crate) fn zone_starts_push(t: &mut TiVec<count::Abstr, Ident>, value: Ident)
    ensures
        zone_starts(*final(t)) == zone_starts(*old(t)).push(value),
{
    t.push(value)
}

/// Indexing by a key: claimed to give the entry at that position.
#[verifier::external_body]
pub(crate) fn zone_starts_get(t: &TiVec<count::Abstr, Ident>, k: count::Abstr) -> (v: Ident)
    requires
        k.0 < zone_starts(*t).len(),
    ensures
        v == zone_starts(*t)[k.0 as int],
{
    t[k]
}

/// Assigning through `IndexMut` by a key: claimed to replace the entry at
/// that position and nothing else.
#[verifier::external_body]
pub(crate) fn zone_starts_set(t: &mut TiVec<count::Abstr, Ident>, k: count::Abstr, value: Ident)
    requires
        k.0 < zone_starts(*old(t)).len(),
    ensures
        zone_starts(*final(t)) == zone_starts(*old(t)).update(k.0 as int, value),
{
    t[k] = value;
}

/// The term with the occurrences of each abstraction gathered in its zone.
pub struct File {
    pub idents: TiVec<Ident, Abstr>,
    pub abstrs: TiVec<Abstr, (Zone, Term)>,
    pub applys: TiVec<Apply, (Term, Term)>,
    pub origin: Term,
}

impl File {
    /// `term` is a node of this file for `t`, where `env` lists the
    /// abstractions that bind the free variables of `t` (innermost last).
    /// The abstractions and applications of the node are numbered in
    /// pre-order from `lo_abs` and `lo_app` on, and no occurrence belongs to
    /// both sides of an application.
    pub open spec fn represents(
        self,
        term: Term,
        t: Lambda,
        env: Seq<nat>,
        lo_abs: nat,
        lo_app: nat,
    ) -> bool
        decreases t,
    {
        match t {
            Lambda::Var(k) => term matches Term::Ident(v) && v.0 < self.idents@.len() && k
                < env.len() && self.idents@[v.0 as int].0 == env[env.len() - 1 - k],
            Lambda::Lam(b) => term matches Term::Abstr(a) && a.0 == lo_abs && a.0
                < self.abstrs@.len() && self.represents(
                self.abstrs@[a.0 as int].1,
                *b,
                env.push(a.0 as nat),
                lo_abs + 1,
                lo_app,
            ),
            Lambda::App(f, x) => term matches Term::Apply(p) && p.0 == lo_app && p.0
                < self.applys@.len() && self.represents(
                self.applys@[p.0 as int].0,
                *f,
                env,
                lo_abs,
                lo_app + 1,
            ) && self.represents(
                self.applys@[p.0 as int].1,
                *x,
                env,
                lo_abs + lam_count(*f),
                lo_app + 1 + app_count(*f),
            ) && forall|i: int|
                #![trigger self.uses(self.applys@[p.0 as int].0, *f, i)]
                #![trigger self.uses(self.applys@[p.0 as int].1, *x, i)]
                !(self.uses(self.applys@[p.0 as int].0, *f, i) && self.uses(
                    self.applys@[p.0 as int].1,
                    *x,
                    i,
                )),
        }
    }

    /// The occurrence at position `i` is a variable of the node `term` for `t`.
    pub open spec fn uses(self, term: Term, t: Lambda, i: int) -> bool
        decreases t,
    {
        match t {
            Lambda::Var(_) => term matches Term::Ident(v) && v.0 == i,
            Lambda::Lam(b) => term matches Term::Abstr(a) && 0 <= a.0 < self.abstrs@.len()
                && self.uses(self.abstrs@[a.0 as int].1, *b, i),
            Lambda::App(f, x) => term matches Term::Apply(p) && 0 <= p.0 < self.applys@.len()
                && (self.uses(self.applys@[p.0 as int].0, *f, i) || self.uses(
                self.applys@[p.0 as int].1,
                *x,
                i,
            )),
        }
    }

    /// The origin stands for a closed resolved term whose nodes fill the
    /// arenas, and the zones are laid out.
    pub open spec fn wf(self) -> bool {
        exists|lt: Lambda| self.complete(lt)
    }

    /// The origin stands for `lt`, every arena entry is a node of it, and the
    /// zones are laid out.
    pub open spec fn complete(self, lt: Lambda) -> bool {
        &&& self.represents(self.origin, lt, Seq::empty(), 0, 0)
        &&& self.zoned()
        &&& self.abstrs@.len() == lam_count(lt)
        &&& self.applys@.len() == app_count(lt)
        &&& lam_count(lt) <= usize::MAX
        &&& app_count(lt) <= usize::MAX
        &&& forall|i: int| 0 <= i < self.idents@.len() ==> #[trigger] self.uses(self.origin, lt, i)
    }

    /// The resolved term that the file stands for.
    pub open spec fn lambda(self) -> Lambda {
        choose|lt: Lambda| self.complete(lt)
    }

    /// Every abstraction owns the occurrences in its zone, and every
    /// occurrence lies in the zone of its abstraction.
    pub open spec fn zoned(self) -> bool {
        &&& forall|a: int|
            0 <= a < self.abstrs@.len() ==> self.abstrs@[a].0.start.0
                <= #[trigger] self.abstrs@[a].0.end.0 <= self.idents@.len()
        &&& forall|a: int, i: int|
            #![trigger self.abstrs@[a], self.idents@[i]]
            0 <= a < self.abstrs@.len() && self.abstrs@[a].0.start.0 <= i
                < self.abstrs@[a].0.end.0 ==> self.idents@[i].0 == a
        &&& forall|i: int|
            0 <= i < self.idents@.len() ==> #[trigger] self.idents@[i].0 < self.abstrs@.len()
                && self.abstrs@[self.idents@[i].0 as int].0.start.0 <= i
                < self.abstrs@[self.idents@[i].0 as int].0.end.0
    }

    /// The node lies in the arenas.
    pub open spec fn in_range(self, t: Term) -> bool {
        match t {
            Term::Ident(i) => i.0 < self.idents@.len(),
            Term::Abstr(a) => a.0 < self.abstrs@.len(),
            Term::Apply(p) => p.0 < self.applys@.len(),
        }
    }

    /// The abstraction at `a` lies in the arenas and so does its body.
    pub open spec fn abstr_in_range(self, a: int) -> bool {
        0 <= a < self.abstrs@.len() && self.in_range(self.abstrs@[a].1)
    }

    /// The application at `p` lies in the arenas and so do its sides.
    pub open spec fn apply_in_range(self, p: int) -> bool {
        0 <= p < self.applys@.len() && self.in_range(self.applys@[p].0) && self.in_range(
            self.applys@[p].1,
        )
    }

    /// The node that stands for `t`: an occurrence, or the abstraction or
    /// application numbered first.
    pub open spec fn node_of(self, term: Term, t: Lambda, lo_abs: nat, lo_app: nat) -> bool {
        match t {
            Lambda::Var(_) => term is Ident && self.uses(term, t, term->Ident_0.0 as int),
            Lambda::Lam(_) => term == Term::Abstr(Abstr(lo_abs as usize)),
            Lambda::App(_, _) => term == Term::Apply(Apply(lo_app as usize)),
        }
    }

    /// The two sides of the application at `p` are two distinct nodes, and
    /// neither is the application itself.
    pub open spec fn apply_distinct(self, p: int) -> bool {
        let (f, x) = self.applys@[p];
        &&& f != x
        &&& f != Term::Apply(Apply(p as usize))
        &&& x != Term::Apply(Apply(p as usize))
    }

    /// Every node of a represented term, and every node below it, lies in
    /// the arenas, and the sides of every application are distinct nodes.
    pub proof fn lemma_in_range(self, term: Term, t: Lambda, env: Seq<nat>, lo_abs: nat, lo_app: nat)
        requires
            self.represents(term, t, env, lo_abs, lo_app),
            lo_abs + lam_count(t) <= usize::MAX + 1,
            lo_app + app_count(t) <= usize::MAX + 1,
        ensures
            self.in_range(term),
            self.node_of(term, t, lo_abs, lo_app),
            forall|a: int| lo_abs <= a < lo_abs + lam_count(t) ==> #[trigger] self.abstr_in_range(a),
            forall|p: int| lo_app <= p < lo_app + app_count(t) ==> #[trigger] self.apply_in_range(p),
            forall|p: int| lo_app <= p < lo_app + app_count(t) ==> #[trigger] self.apply_distinct(p),
        decreases t,
    {
        match t {
            Lambda::Var(_) => {},
            Lambda::Lam(b) => {
                if let Term::Abstr(a) = term {
                    self.lemma_in_range(self.abstrs@[a.0 as int].1, *b, env.push(a.0 as nat), lo_abs + 1, lo_app);
                    assert(self.abstr_in_range(lo_abs as int));
                    assert(a == Abstr(lo_abs as usize));
                }
            },
            Lambda::App(f, x) => {
                if let Term::Apply(p) = term {
                    self.lemma_in_range(self.applys@[p.0 as int].0, *f, env, lo_abs, lo_app + 1);
                    self.lemma_in_range(
                        self.applys@[p.0 as int].1,
                        *x,
                        env,
                        lo_abs + lam_count(*f),
                        lo_app + 1 + app_count(*f),
                    );
                    assert(self.apply_in_range(lo_app as int));
                    assert(p == Apply(lo_app as usize));
                    let fl = self.applys@[p.0 as int].0;
                    let xl = self.applys@[p.0 as int].1;
                    assert(self.node_of(fl, *f, lo_abs, lo_app + 1));
                    assert(self.node_of(xl, *x, lo_abs + lam_count(*f), lo_app + 1 + app_count(*f)));
                    if let Term::Ident(i) = fl {
                        if fl == xl {
                            assert(self.uses(fl, *f, i.0 as int));
                            assert(self.uses(xl, *x, i.0 as int));
                        }
                    }
                    match *f {
                        Lambda::Lam(_) => {
                            assert(lam_count(*f) >= 1);
                        },
                        Lambda::App(_, _) => {
                            assert(app_count(*f) >= 1);
                        },
                        _ => {},
                    }
                    match *x {
                        Lambda::Lam(_) => {
                            assert(lam_count(*x) >= 1);
                        },
                        Lambda::App(_, _) => {
                            assert(app_count(*x) >= 1);
                        },
                        _ => {},
                    }
                    assert(self.apply_distinct(lo_app as int));
                }
            },
        }
    }

    /// Every child of a node of a well-formed file lies in the arenas, and
    /// the sides of every application are distinct nodes.
    pub proof fn lemma_wf_in_range(self)
        requires
            self.wf(),
        ensures
            self.in_range(self.origin),
            forall|a: int| 0 <= a < self.abstrs@.len() ==> #[trigger] self.abstr_in_range(a),
            forall|p: int| 0 <= p < self.applys@.len() ==> #[trigger] self.apply_in_range(p),
            forall|p: int| 0 <= p < self.applys@.len() ==> #[trigger] self.apply_distinct(p),
    {
        let lt = self.lambda();
        self.lemma_in_range(self.origin, lt, Seq::empty(), 0, 0);
    }

    /// `self` keeps the occurrences of `prev`, and its abstractions and
    /// applications from `lo_abs` and `lo_app` on.
    pub open spec fn agrees_from(self, prev: File, lo_abs: nat, lo_app: nat) -> bool {
        &&& prev.idents@.len() <= self.idents@.len()
        &&& prev.abstrs@.len() <= self.abstrs@.len()
        &&& prev.applys@.len() <= self.applys@.len()
        &&& forall|k: int| 0 <= k < prev.idents@.len() ==> self.idents@[k] == prev.idents@[k]
        &&& forall|k: int|
            lo_abs <= k < prev.abstrs@.len() ==> self.abstrs@[k] == prev.abstrs@[k]
        &&& forall|k: int|
            lo_app <= k < prev.applys@.len() ==> self.applys@[k] == prev.applys@[k]
    }

    pub proof fn lemma_agrees(
        self,
        prev: File,
        term: Term,
        t: Lambda,
        env: Seq<nat>,
        lo_abs: nat,
        lo_app: nat,
    )
        requires
            prev.represents(term, t, env, lo_abs, lo_app),
            self.agrees_from(prev, lo_abs, lo_app),
        ensures
            self.represents(term, t, env, lo_abs, lo_app),
            forall|i: int| #[trigger] self.uses(term, t, i) == prev.uses(term, t, i),
        decreases t,
    {
        match t {
            Lambda::Var(_) => {},
            Lambda::Lam(b) => {
                if let Term::Abstr(a) = term {
                    self.lemma_agrees(
                        prev,
                        prev.abstrs@[a.0 as int].1,
                        *b,
                        env.push(a.0 as nat),
                        lo_abs + 1,
                        lo_app,
                    );
                    assert(self.abstrs@[a.0 as int] == prev.abstrs@[a.0 as int]);
                    assert forall|i: int| #[trigger] self.uses(term, t, i) == prev.uses(term, t, i) by {
                        assert(self.uses(prev.abstrs@[a.0 as int].1, *b, i) == prev.uses(
                            prev.abstrs@[a.0 as int].1,
                            *b,
                            i,
                        ));
                    }
                }
            },
            Lambda::App(f, x) => {
                if let Term::Apply(p) = term {
                    let fl = prev.applys@[p.0 as int].0;
                    let xl = prev.applys@[p.0 as int].1;
                    self.lemma_agrees(prev, fl, *f, env, lo_abs, lo_app + 1);
                    self.lemma_agrees(
                        prev,
                        xl,
                        *x,
                        env,
                        lo_abs + lam_count(*f),
                        lo_app + 1 + app_count(*f),
                    );
                    assert(self.applys@[p.0 as int] == prev.applys@[p.0 as int]);
                    assert forall|i: int| #[trigger] self.uses(term, t, i) == prev.uses(term, t, i) by {
                        assert(self.uses(fl, *f, i) == prev.uses(fl, *f, i));
                        assert(self.uses(xl, *x, i) == prev.uses(xl, *x, i));
                    }
                    assert forall|i: int| !(self.uses(fl, *f, i) && self.uses(xl, *x, i)) by {
                        assert(self.uses(fl, *f, i) == prev.uses(fl, *f, i));
                        assert(self.uses(xl, *x, i) == prev.uses(xl, *x, i));
                    }
                }
            },
        }
    }

    /// The occurrences of the node `term` for `t` take their slots in order
    /// from left to right: those of the binder at position `p` of the
    /// environment take the slots from `next[p]` on.
    pub open spec fn ordered(self, term: Term, t: Lambda, next: Seq<int>) -> bool
        decreases t,
    {
        match t {
            Lambda::Var(k) => term matches Term::Ident(v) && k < next.len() && v.0 == next[next.len()
                - 1 - k],
            Lambda::Lam(b) => term matches Term::Abstr(a) && 0 <= a.0 < self.abstrs@.len()
                && self.ordered(
                self.abstrs@[a.0 as int].1,
                *b,
                next.push(self.abstrs@[a.0 as int].0.start.0 as int),
            ),
            Lambda::App(f, x) => term matches Term::Apply(p) && 0 <= p.0 < self.applys@.len()
                && self.ordered(self.applys@[p.0 as int].0, *f, next) && self.ordered(
                self.applys@[p.0 as int].1,
                *x,
                advance(next, *f),
            ),
        }
    }

    /// The zones follow each other in the order of their abstractions, from
    /// the first occurrence to the last.
    pub open spec fn laid_out(self) -> bool {
        &&& forall|a: int|
            0 < a < self.abstrs@.len() ==> #[trigger] self.abstrs@[a].0.start.0 == self.abstrs@[a
                - 1].0.end.0
        &&& self.abstrs@.len() > 0 ==> self.abstrs@[0].0.start.0 == 0 && self.abstrs@[self.abstrs@.len()
            - 1].0.end.0 == self.idents@.len()
        &&& self.abstrs@.len() == 0 ==> self.idents@.len() == 0
    }

    /// The order of the occurrences of a node survives what keeps its
    /// entries.
    pub proof fn lemma_ordered_agrees(
        self,
        prev: File,
        term: Term,
        t: Lambda,
        env: Seq<nat>,
        lo_abs: nat,
        lo_app: nat,
        next: Seq<int>,
    )
        requires
            prev.represents(term, t, env, lo_abs, lo_app),
            prev.ordered(term, t, next),
            self.agrees_from(prev, lo_abs, lo_app),
        ensures
            self.ordered(term, t, next),
        decreases t,
    {
        match t {
            Lambda::Var(_) => {},
            Lambda::Lam(b) => {
                if let Term::Abstr(a) = term {
                    assert(self.abstrs@[a.0 as int] == prev.abstrs@[a.0 as int]);
                    self.lemma_ordered_agrees(
                        prev,
                        prev.abstrs@[a.0 as int].1,
                        *b,
                        env.push(a.0 as nat),
                        lo_abs + 1,
                        lo_app,
                        next.push(prev.abstrs@[a.0 as int].0.start.0 as int),
                    );
                }
            },
            Lambda::App(f, x) => {
                if let Term::Apply(p) = term {
                    assert(self.applys@[p.0 as int] == prev.applys@[p.0 as int]);
                    self.lemma_ordered_agrees(prev, prev.applys@[p.0 as int].0, *f, env, lo_abs, lo_app + 1, next);
                    self.lemma_ordered_agrees(
                        prev,
                        prev.applys@[p.0 as int].1,
                        *x,
                        env,
                        lo_abs + lam_count(*f),
                        lo_app + 1 + app_count(*f),
                        advance(next, *f),
                    );
                }
            },
        }
    }

    /// The occurrences of a node are occurrences of the file.
    pub proof fn lemma_uses_bound(self, term: Term, t: Lambda, env: Seq<nat>, lo_abs: nat, lo_app: nat, i: int)
        requires
            self.represents(term, t, env, lo_abs, lo_app),
            self.uses(term, t, i),
        ensures
            0 <= i < self.idents@.len(),
        decreases t,
    {
        match t {
            Lambda::Var(_) => {},
            Lambda::Lam(b) => {
                if let Term::Abstr(a) = term {
                    self.lemma_uses_bound(self.abstrs@[a.0 as int].1, *b, env.push(a.0 as nat), lo_abs + 1, lo_app, i);
                }
            },
            Lambda::App(f, x) => {
                if let Term::Apply(p) = term {
                    if self.uses(self.applys@[p.0 as int].0, *f, i) {
                        self.lemma_uses_bound(self.applys@[p.0 as int].0, *f, env, lo_abs, lo_app + 1, i);
                    } else {
                        self.lemma_uses_bound(self.applys@[p.0 as int].1, *x, env, lo_abs + lam_count(*f), lo_app + 1 + app_count(*f), i);
                    }
                }
            },
        }
    }

    proof fn lemma_zoned_push(self, prev: File)
        requires
            prev.zoned(),
            self.abstrs@.len() == prev.abstrs@.len(),
            self.idents@ == prev.idents@,
            forall|a: int| 0 <= a < self.abstrs@.len() ==> #[trigger] self.abstrs@[a].0 == prev.abstrs@[a].0,
        ensures
            self.zoned(),
    {
        assert forall|a: int, i: int|
            #![trigger self.abstrs@[a], self.idents@[i]]
            0 <= a < self.abstrs@.len() && self.abstrs@[a].0.start.0 <= i
                < self.abstrs@[a].0.end.0 implies self.idents@[i].0 == a by {
            assert(prev.abstrs@[a].0 == self.abstrs@[a].0);
            assert(prev.idents@[i] == self.idents@[i]);
        }
        assert forall|i: int| 0 <= i < self.idents@.len() implies #[trigger] self.idents@[i].0
            < self.abstrs@.len() && self.abstrs@[self.idents@[i].0 as int].0.start.0
            <= i < self.abstrs@[self.idents@[i].0 as int].0.end.0 by {
            assert(prev.idents@[i] == self.idents@[i]);
            assert(prev.abstrs@[prev.idents@[i].0 as int].0 == self.abstrs@[self.idents@[i].0 as int].0);
        }
        assert forall|a: int|
            0 <= a < self.abstrs@.len() implies self.abstrs@[a].0.start.0
                <= #[trigger] self.abstrs@[a].0.end.0 <= self.idents@.len() by {
            assert(prev.abstrs@[a].0 == self.abstrs@[a].0);
        }
    }

    /// What `insert` needs: `entry` stands for `t` in `world`, and each
    /// enclosing abstraction (`cenv` in `world`, `genv` here) has room in its
    /// zone for the occurrences of `t`.
    pub open spec fn insert_pre(
        self,
        world: count::File,
        scope: Seq<Ident>,
        entry: count::Term,
        t: Lambda,
        cenv: Seq<nat>,
        genv: Seq<nat>,
        lo_c: nat,
        lo_capp: nat,
    ) -> bool {
        &&& world.represents(entry, t, cenv, lo_c, lo_capp)
        &&& scope.len() == world.abstrs@.len()
        &&& cenv.len() == genv.len()
        &&& forall|p: int, q: int| 0 <= p < q < cenv.len() ==> cenv[p] < cenv[q]
        &&& forall|p: int, q: int| 0 <= p < q < genv.len() ==> genv[p] < genv[q]
        &&& forall|p: int| 0 <= p < cenv.len() ==> #[trigger] cenv[p] < lo_c
        &&& forall|p: int|
                    #![trigger cenv[p]]
                    0 <= p < cenv.len() ==> {
                        let c = cenv[p] as int;
                        let g = genv[p] as int;
                        &&& c < world.abstrs@.len()
                        &&& g < self.abstrs@.len()
                        &&& self.abstrs@[g].0.start.0 <= scope[c].0
                        &&& scope[c].0 + bound_count(t, (cenv.len() - 1 - p) as nat)
                            <= self.abstrs@[g].0.end.0
                    }
        &&& self.zoned()
        &&& self.laid_out()
        &&& self.idents@.len() + slots(t) <= usize::MAX
    }

    /// What `insert` leaves behind, `r` being the new node for `t`.
    pub open spec fn insert_post(
        self,
        prev: File,
        scope: Seq<Ident>,
        prev_scope: Seq<Ident>,
        r: Term,
        t: Lambda,
        cenv: Seq<nat>,
        genv: Seq<nat>,
        lo_c: nat,
    ) -> bool {
        &&& self.represents(r, t, genv, prev.abstrs@.len() as nat, prev.applys@.len() as nat)
        &&& self.ordered(r, t, slots_of(prev_scope, cenv))
        &&& self.agrees_from(prev, 0, 0)
        &&& self.zoned()
        &&& self.laid_out()
        &&& self.idents@.len() == prev.idents@.len() + slots(t)
        &&& self.abstrs@.len() == prev.abstrs@.len() + lam_count(t)
        &&& self.applys@.len() == prev.applys@.len() + app_count(t)
        &&& scope.len() == prev_scope.len()
        &&& forall|p: int|
                    0 <= p < cenv.len() ==> #[trigger] scope[cenv[p] as int].0
                        == prev_scope[cenv[p] as int].0 + bound_count(
                        t,
                        (cenv.len() - 1 - p) as nat,
                    )
        &&& forall|c: int|
                    0 <= c < prev_scope.len() && c < lo_c && !cenv.contains(c as nat)
                        ==> #[trigger] scope[c] == prev_scope[c]
        &&& forall|i: int|
                    #[trigger] self.uses(r, t, i) <==> (prev.idents@.len() <= i
                        < self.idents@.len() || taken(prev_scope, cenv, t, i))
    }

    /// Copies the node `entry` of `world` into this file. `scope` holds, for
    /// each abstraction of `world`, the next free slot of its zone.
    fn insert(
        &mut self,
        world: &count::File,
        scope: &mut TiVec<count::Abstr, Ident>,
        entry: count::Term,
        Ghost(t): Ghost<Lambda>,
        Ghost(cenv): Ghost<Seq<nat>>,
        Ghost(genv): Ghost<Seq<nat>>,
        Ghost(lo_c): Ghost<nat>,
        Ghost(lo_capp): Ghost<nat>,
    ) -> (r: Term)
        requires
            old(self).insert_pre(*world, old(scope)@, entry, t, cenv, genv, lo_c, lo_capp),
        ensures
            final(self).insert_post(*old(self), final(scope)@, old(scope)@, r, t, cenv, genv, lo_c),
        decreases t, 1nat,
    {
        match entry {
            count::Term::Ident(_) => self.insert_var(world, scope, entry, Ghost(t), Ghost(cenv), Ghost(genv), Ghost(lo_c), Ghost(lo_capp)),
            count::Term::Abstr(_) => self.insert_lam(world, scope, entry, Ghost(t), Ghost(cenv), Ghost(genv), Ghost(lo_c), Ghost(lo_capp)),
            count::Term::Apply(_) => self.insert_app(world, scope, entry, Ghost(t), Ghost(cenv), Ghost(genv), Ghost(lo_c), Ghost(lo_capp)),
        }
    }

    fn insert_var(
        &mut self,
        world: &count::File,
        scope: &mut TiVec<count::Abstr, Ident>,
        entry: count::Term,
        Ghost(t): Ghost<Lambda>,
        Ghost(cenv): Ghost<Seq<nat>>,
        Ghost(genv): Ghost<Seq<nat>>,
        Ghost(lo_c): Ghost<nat>,
        Ghost(lo_capp): Ghost<nat>,
    ) -> (r: Term)
        requires
            entry is Ident,
            old(self).insert_pre(*world, old(scope)@, entry, t, cenv, genv, lo_c, lo_capp),
        ensures
            final(self).insert_post(*old(self), final(scope)@, old(scope)@, r, t, cenv, genv, lo_c),
        decreases t, 0nat,
    {
        let count::Term::Ident(idx) = entry else { return Term::Ident(Ident(0)) };

        let ghost k = match t {
            Lambda::Var(k) => k,
            _ => 0,
        };
        let ghost p = cenv.len() - 1 - k;
        let abstr = count_idents_get(&world.idents, idx);
        assert(abstr.0 == cenv[p]);
        let ident = zone_starts_get(scope, abstr);
        zone_starts_set(scope, abstr, Ident(ident.0 + 1));
        proof {
            assert forall|q: int| 0 <= q < cenv.len() implies #[trigger] scope@[cenv[q] as int].0
                == old(scope)@[cenv[q] as int].0 + bound_count(
                t,
                (cenv.len() - 1 - q) as nat,
            ) by {
                if q != p {
                    assert(cenv[q] != cenv[p]);
                }
            }
            assert forall|c: int|
                0 <= c < old(scope)@.len() && c < lo_c && !cenv.contains(c as nat) implies #[trigger] scope@[c]
                == old(scope)@[c] by {
                assert(cenv[p] == abstr.0);
            }
            let g = genv[p] as int;
            assert(self.idents@[ident.0 as int].0 == g);
            assert forall|i: int|
                #[trigger] self.uses(Term::Ident(ident), t, i) <==> (old(self).idents@.len() <= i
                    < self.idents@.len() || taken(old(scope)@, cenv, t, i)) by {
                if taken(old(scope)@, cenv, t, i) {
                    let q = choose|q: int| #![trigger cenv[q]] 0 <= q < cenv.len() && old(scope)@[cenv[q] as int].0 <= i
                        < old(scope)@[cenv[q] as int].0 + bound_count(t, (cenv.len() - 1 - q) as nat);
                    assert(q == p);
                }
                if i == ident.0 {
                    assert(old(scope)@[cenv[p] as int].0 <= i
                        < old(scope)@[cenv[p] as int].0 + bound_count(t, (cenv.len() - 1 - p) as nat));
                }
            }
        }
        Term::Ident(ident)
    }

    #[verifier::rlimit(40)]
    fn insert_lam(
        &mut self,
        world: &count::File,
        scope: &mut TiVec<count::Abstr, Ident>,
        entry: count::Term,
        Ghost(t): Ghost<Lambda>,
        Ghost(cenv): Ghost<Seq<nat>>,
        Ghost(genv): Ghost<Seq<nat>>,
        Ghost(lo_c): Ghost<nat>,
        Ghost(lo_capp): Ghost<nat>,
    ) -> (r: Term)
        requires
            entry is Abstr,
            old(self).insert_pre(*world, old(scope)@, entry, t, cenv, genv, lo_c, lo_capp),
        ensures
            final(self).insert_post(*old(self), final(scope)@, old(scope)@, r, t, cenv, genv, lo_c),
        decreases t, 0nat,
    {
        let count::Term::Abstr(idx) = entry else { return Term::Ident(Ident(0)) };

        let ghost b = match t {
            Lambda::Lam(b) => *b,
            _ => t,
        };
        let ghost pre = *self;
        let (num, rec) = count_abstrs_get(&world.abstrs, idx);
        let start = Ident(graph_idents_len(&self.idents));
        let range = start..Ident(start.0 + num);
        let empty = Term::Ident(Ident(usize::MAX));
        let abstr = graph_abstrs_push(&mut self.abstrs, (range, empty));
        let mut n: usize = 0;
        while n < num
            invariant
                n <= num,
                num == bound_count(b, 0),
                start.0 + num <= usize::MAX,
                self.idents@.len() == start.0 + n,
                self.abstrs@ == pre.abstrs@.push((range, empty)),
                self.applys@ == pre.applys@,
                self.idents@.len() >= pre.idents@.len(),
                forall|k: int| 0 <= k < pre.idents@.len() ==> self.idents@[k] == pre.idents@[k],
                forall|k: int| pre.idents@.len() <= k < self.idents@.len() ==> self.idents@[k] == abstr,
                start.0 == pre.idents@.len(),
                abstr.0 == pre.abstrs@.len(),
                range.start == start,
                range.end.0 == start.0 + num,
            decreases num - n,
        {
            graph_idents_push(&mut self.idents, abstr);
            n = n + 1;
        }
        let ghost scope0 = scope@;
        zone_starts_set(scope, idx, start);
        let ghost mid = *self;
        proof {
            assert forall|a: int| 0 < a < self.abstrs@.len() implies #[trigger] self.abstrs@[a].0.start.0
                == self.abstrs@[a - 1].0.end.0 by {
                if a < pre.abstrs@.len() {
                    assert(self.abstrs@[a] == pre.abstrs@[a]);
                    assert(self.abstrs@[a - 1] == pre.abstrs@[a - 1]);
                } else if a > 1 || pre.abstrs@.len() > 0 {
                    assert(self.abstrs@[a - 1] == pre.abstrs@[a - 1]);
                }
            }
            if pre.abstrs@.len() > 0 {
                assert(self.abstrs@[0] == pre.abstrs@[0]);
            }
            assert(self.laid_out());
        }
        let ghost scope1 = scope@;
        let ghost cenv2 = cenv.push(idx.0 as nat);
        let ghost genv2 = genv.push(abstr.0 as nat);
        proof {
            assert(self.zoned()) by {
                assert forall|a: int, i: int|
                    #![trigger self.abstrs@[a], self.idents@[i]]
                    0 <= a < self.abstrs@.len() && self.abstrs@[a].0.start.0 <= i
                        < self.abstrs@[a].0.end.0 implies self.idents@[i].0 == a by {
                    if a < pre.abstrs@.len() {
                        assert(pre.abstrs@[a] == self.abstrs@[a]);
                        assert(pre.idents@[i] == self.idents@[i]);
                    }
                }
                assert forall|i: int| 0 <= i < self.idents@.len() implies #[trigger] self.idents@[i].0
                    < self.abstrs@.len() && self.abstrs@[self.idents@[i].0 as int].0.start.0
                    <= i < self.abstrs@[self.idents@[i].0 as int].0.end.0 by {
                    if i < pre.idents@.len() {
                        assert(pre.idents@[i] == self.idents@[i]);
                    }
                }
            }
            assert forall|p: int| #![trigger cenv2[p]] 0 <= p < cenv2.len() implies {
                let c = cenv2[p] as int;
                let g = genv2[p] as int;
                &&& c < world.abstrs@.len()
                &&& g < self.abstrs@.len()
                &&& self.abstrs@[g].0.start.0 <= scope@[c].0
                &&& scope@[c].0 + bound_count(b, (cenv2.len() - 1 - p) as nat)
                    <= self.abstrs@[g].0.end.0
            } by {
                if p < cenv.len() {
                    assert(cenv2[p] == cenv[p]);
                    assert(cenv[p] < lo_c);
                    assert(self.abstrs@[genv[p] as int] == pre.abstrs@[genv[p] as int]);
                }
            }
            assert forall|p: int, q: int| 0 <= p < q < genv2.len() implies genv2[p] < genv2[q] by {
                if q == genv.len() {
                    assert(genv[p] < pre.abstrs@.len()) by {
                        assert(cenv[p] < lo_c);
                    }
                }
            }
        }
        let body = self.insert(
            world,
            scope,
            rec,
            Ghost(b),
            Ghost(cenv2),
            Ghost(genv2),
            Ghost(idx.0 as nat + 1),
            Ghost(lo_capp),
        );
        let ghost after = *self;
        let zone = Ident(start.0)..Ident(start.0 + num);
        graph_abstrs_set(&mut self.abstrs, abstr, (zone, body));
        proof {
            assert(self.agrees_from(after, abstr.0 as nat + 1, 0));
            self.lemma_agrees(after, body, b, genv2, mid.abstrs@.len() as nat, mid.applys@.len() as nat);
            assert(slots_of(scope1, cenv2) =~= slots_of(old(scope)@, cenv).push(start.0 as int)) by {
                assert forall|p: int| 0 <= p < cenv.len() implies scope1[cenv2[p] as int] == old(
                    scope,
                )@[cenv[p] as int] by {
                    assert(cenv2[p] == cenv[p]);
                    assert(cenv[p] < lo_c);
                }
            }
            self.lemma_ordered_agrees(
                after,
                body,
                b,
                genv2,
                mid.abstrs@.len() as nat,
                mid.applys@.len() as nat,
                slots_of(scope1, cenv2),
            );
            assert forall|a: int| 0 < a < self.abstrs@.len() implies #[trigger] self.abstrs@[a].0.start.0
                == self.abstrs@[a - 1].0.end.0 by {
                assert(self.abstrs@[a].0 == after.abstrs@[a].0);
                assert(self.abstrs@[a - 1].0 == after.abstrs@[a - 1].0);
            }
            assert(self.abstrs@[0].0 == after.abstrs@[0].0);
            assert(self.abstrs@[self.abstrs@.len() - 1].0 == after.abstrs@[after.abstrs@.len() - 1].0);
            assert(self.laid_out());
            assert(self.abstrs@[abstr.0 as int].0 == after.abstrs@[abstr.0 as int].0);
            self.lemma_zoned_push(after);
            assert forall|p: int| 0 <= p < cenv.len() implies #[trigger] scope@[cenv[p] as int].0
                == old(scope)@[cenv[p] as int].0 + bound_count(
                t,
                (cenv.len() - 1 - p) as nat,
            ) by {
                assert(cenv2[p] == cenv[p]);
                assert(cenv[p] < lo_c);
            }
            assert forall|c: int|
                0 <= c < old(scope)@.len() && c < lo_c && !cenv.contains(c as nat) implies #[trigger] scope@[c]
                == old(scope)@[c] by {
                if cenv2.contains(c as nat) {
                    let q = choose|q: int| 0 <= q < cenv2.len() && cenv2[q] == c as nat;
                    if q < cenv.len() {
                        assert(cenv.contains(c as nat));
                    }
                }
            }
            assert forall|i: int|
                #[trigger] self.uses(Term::Abstr(abstr), t, i) <==> (old(self).idents@.len() <= i
                    < self.idents@.len() || taken(old(scope)@, cenv, t, i)) by {
                assert(self.uses(Term::Abstr(abstr), t, i) == self.uses(body, b, i));
                assert(self.uses(body, b, i) == after.uses(body, b, i));
                if taken(scope1, cenv2, b, i) {
                    let q = choose|q: int| #![trigger cenv2[q]] 0 <= q < cenv2.len() && scope1[cenv2[q] as int].0 <= i
                        < scope1[cenv2[q] as int].0 + bound_count(b, (cenv2.len() - 1 - q) as nat);
                    if q < cenv.len() {
                        assert(cenv2[q] == cenv[q]);
                        assert(cenv[q] < lo_c);
                        assert(old(scope)@[cenv[q] as int].0 <= i
                            < old(scope)@[cenv[q] as int].0 + bound_count(t, (cenv.len() - 1 - q) as nat));
                    }
                }
                if taken(old(scope)@, cenv, t, i) {
                    let q = choose|q: int| #![trigger cenv[q]] 0 <= q < cenv.len() && old(scope)@[cenv[q] as int].0 <= i
                        < old(scope)@[cenv[q] as int].0 + bound_count(t, (cenv.len() - 1 - q) as nat);
                    assert(cenv2[q] == cenv[q]);
                    assert(cenv[q] < lo_c);
                    assert(scope1[cenv2[q] as int].0 <= i
                        < scope1[cenv2[q] as int].0 + bound_count(b, (cenv2.len() - 1 - q) as nat));
                }
                if old(self).idents@.len() <= i < mid.idents@.len() {
                    let q = cenv.len() as int;
                    assert(cenv2[q] == idx.0);
                    assert(scope1[cenv2[q] as int].0 <= i
                        < scope1[cenv2[q] as int].0 + bound_count(b, (cenv2.len() - 1 - q) as nat));
                }
            }
        }
        Term::Abstr(abstr)
    }

    #[verifier::rlimit(40)]
    fn insert_app(
        &mut self,
        world: &count::File,
        scope: &mut TiVec<count::Abstr, Ident>,
        entry: count::Term,
        Ghost(t): Ghost<Lambda>,
        Ghost(cenv): Ghost<Seq<nat>>,
        Ghost(genv): Ghost<Seq<nat>>,
        Ghost(lo_c): Ghost<nat>,
        Ghost(lo_capp): Ghost<nat>,
    ) -> (r: Term)
        requires
            entry is Apply,
            old(self).insert_pre(*world, old(scope)@, entry, t, cenv, genv, lo_c, lo_capp),
        ensures
            final(self).insert_post(*old(self), final(scope)@, old(scope)@, r, t, cenv, genv, lo_c),
        decreases t, 0nat,
    {
        let count::Term::Apply(idx) = entry else { return Term::Ident(Ident(0)) };

        let ghost (f, x) = match t {
            Lambda::App(f, x) => (*f, *x),
            _ => (t, t),
        };
        let ghost pre = *self;
        let empty_lhs = Term::Ident(Ident(usize::MAX));
        let empty_rhs = Term::Ident(Ident(usize::MAX));
        let apply = graph_applys_push(&mut self.applys, (empty_lhs, empty_rhs));
        let (lhs, rhs) = count_applys_get(&world.applys, idx);
        let ghost m1 = *self;
        let ghost s0 = scope@;
        proof {
            assert forall|p: int| #![trigger cenv[p]] 0 <= p < cenv.len() implies {
                let c = cenv[p] as int;
                let g = genv[p] as int;
                &&& c < world.abstrs@.len()
                &&& g < self.abstrs@.len()
                &&& self.abstrs@[g].0.start.0 <= scope@[c].0
                &&& scope@[c].0 + bound_count(f, (cenv.len() - 1 - p) as nat)
                    <= self.abstrs@[g].0.end.0
            } by {
                assert(self.abstrs@[genv[p] as int] == pre.abstrs@[genv[p] as int]);
            }
            self.lemma_zoned_push(pre);
        }
        let l = self.insert(
            world,
            scope,
            lhs,
            Ghost(f),
            Ghost(cenv),
            Ghost(genv),
            Ghost(lo_c),
            Ghost(lo_capp),
        );
        let ghost ml = *self;
        let ghost s1 = scope@;
        graph_applys_set(&mut self.applys, apply, (l, empty_rhs));
        let ghost m2 = *self;
        proof {
            assert forall|p: int| #![trigger cenv[p]] 0 <= p < cenv.len() implies {
                let c = cenv[p] as int;
                let g = genv[p] as int;
                &&& c < world.abstrs@.len()
                &&& g < self.abstrs@.len()
                &&& self.abstrs@[g].0.start.0 <= scope@[c].0
                &&& scope@[c].0 + bound_count(x, (cenv.len() - 1 - p) as nat)
                    <= self.abstrs@[g].0.end.0
            } by {
                assert(cenv[p] < lo_c);
                assert(self.abstrs@[genv[p] as int] == pre.abstrs@[genv[p] as int]);
                assert(scope@[cenv[p] as int].0 == old(scope)@[cenv[p] as int].0 + bound_count(f, (cenv.len() - 1 - p) as nat));
            }
            self.lemma_zoned_push(ml);
        }
        let r = self.insert(
            world,
            scope,
            rhs,
            Ghost(x),
            Ghost(cenv),
            Ghost(genv),
            Ghost(lo_c),
            Ghost(lo_capp),
        );
        let ghost m3 = *self;
        graph_applys_set(&mut self.applys, apply, (l, r));
        proof {
            let lo_abs = pre.abstrs@.len() as nat;
            let lo_app = pre.applys@.len() as nat;
            assert(self.abstrs@ == m3.abstrs@ && self.idents@ == m3.idents@);
            assert(self.laid_out());
            assert(slots_of(s1, cenv) =~= advance(slots_of(old(scope)@, cenv), f)) by {
                assert forall|p: int| 0 <= p < cenv.len() implies #[trigger] s1[cenv[p] as int].0
                    == old(scope)@[cenv[p] as int].0 + bound_count(f, (cenv.len() - 1 - p) as nat) by {}
            }
            assert(m2.agrees_from(ml, m1.abstrs@.len() as nat, apply.0 as nat + 1));
            m2.lemma_agrees(ml, l, f, genv, m1.abstrs@.len() as nat, m1.applys@.len() as nat);
            assert(m3.agrees_from(m2, 0, 0));
            m3.lemma_agrees(m2, l, f, genv, m1.abstrs@.len() as nat, m1.applys@.len() as nat);
            assert(self.agrees_from(m3, 0, apply.0 as nat + 1));
            self.lemma_agrees(m3, l, f, genv, m1.abstrs@.len() as nat, m1.applys@.len() as nat);
            self.lemma_agrees(m3, r, x, genv, m2.abstrs@.len() as nat, m2.applys@.len() as nat);
            self.lemma_zoned_push(m3);
            m2.lemma_ordered_agrees(ml, l, f, genv, m1.abstrs@.len() as nat, m1.applys@.len() as nat, slots_of(old(scope)@, cenv));
            m3.lemma_ordered_agrees(m2, l, f, genv, m1.abstrs@.len() as nat, m1.applys@.len() as nat, slots_of(old(scope)@, cenv));
            self.lemma_ordered_agrees(m3, l, f, genv, m1.abstrs@.len() as nat, m1.applys@.len() as nat, slots_of(old(scope)@, cenv));
            self.lemma_ordered_agrees(m3, r, x, genv, m2.abstrs@.len() as nat, m2.applys@.len() as nat, slots_of(s1, cenv));
            assert forall|p: int| 0 <= p < cenv.len() implies #[trigger] scope@[cenv[p] as int].0
                == old(scope)@[cenv[p] as int].0 + bound_count(
                t,
                (cenv.len() - 1 - p) as nat,
            ) by {
                assert(s1[cenv[p] as int].0 == old(scope)@[cenv[p] as int].0 + bound_count(f, (cenv.len() - 1 - p) as nat));
            }
            // the occurrences of the two sides
            assert forall|i: int|
                #[trigger] self.uses(Term::Apply(apply), t, i) <==> (old(self).idents@.len() <= i
                    < self.idents@.len() || taken(old(scope)@, cenv, t, i)) by {
                assert(t == Lambda::App(Box::new(f), Box::new(x)));
                assert(self.applys@[apply.0 as int] == (l, r));
                assert(self.uses(Term::Apply(apply), t, i) == (self.uses(l, f, i) || self.uses(r, x, i)));
                assert(self.uses(l, f, i) == m3.uses(l, f, i));
                assert(m3.uses(l, f, i) == m2.uses(l, f, i));
                assert(m2.uses(l, f, i) == ml.uses(l, f, i));
                assert(self.uses(r, x, i) == m3.uses(r, x, i));
                if taken(old(scope)@, cenv, t, i) {
                    let q = choose|q: int| #![trigger cenv[q]] 0 <= q < cenv.len() && old(scope)@[cenv[q] as int].0 <= i
                        < old(scope)@[cenv[q] as int].0 + bound_count(t, (cenv.len() - 1 - q) as nat);
                    assert(s1[cenv[q] as int].0 == old(scope)@[cenv[q] as int].0 + bound_count(f, (cenv.len() - 1 - q) as nat));
                    if i < s1[cenv[q] as int].0 {
                        assert(taken(s0, cenv, f, i));
                    } else {
                        assert(taken(s1, cenv, x, i));
                    }
                }
                if taken(s0, cenv, f, i) {
                    let q = choose|q: int| #![trigger cenv[q]] 0 <= q < cenv.len() && s0[cenv[q] as int].0 <= i
                        < s0[cenv[q] as int].0 + bound_count(f, (cenv.len() - 1 - q) as nat);
                    assert(old(scope)@[cenv[q] as int].0 <= i
                        < old(scope)@[cenv[q] as int].0 + bound_count(t, (cenv.len() - 1 - q) as nat));
                }
                if taken(s1, cenv, x, i) {
                    let q = choose|q: int| #![trigger cenv[q]] 0 <= q < cenv.len() && s1[cenv[q] as int].0 <= i
                        < s1[cenv[q] as int].0 + bound_count(x, (cenv.len() - 1 - q) as nat);
                    assert(s1[cenv[q] as int].0 == old(scope)@[cenv[q] as int].0 + bound_count(f, (cenv.len() - 1 - q) as nat));
                    assert(old(scope)@[cenv[q] as int].0 <= i
                        < old(scope)@[cenv[q] as int].0 + bound_count(t, (cenv.len() - 1 - q) as nat));
                }
            }
            // no occurrence is on both sides
            assert forall|i: int|
                !(self.uses(l, f, i) && self.uses(r, x, i)) by {
                if self.uses(l, f, i) && self.uses(r, x, i) {
                    assert(ml.uses(l, f, i));
                    assert(m3.uses(r, x, i));
                    if taken(s0, cenv, f, i) {
                        let p = choose|q: int| #![trigger cenv[q]] 0 <= q < cenv.len() && s0[cenv[q] as int].0 <= i
                            < s0[cenv[q] as int].0 + bound_count(f, (cenv.len() - 1 - q) as nat);
                        let gp = genv[p] as int;
                        assert(cenv[p] < lo_c);
                        assert(i < pre.abstrs@[gp].0.end.0 <= pre.idents@.len());
                        if taken(s1, cenv, x, i) {
                            let q = choose|q: int| #![trigger cenv[q]] 0 <= q < cenv.len() && s1[cenv[q] as int].0 <= i
                                < s1[cenv[q] as int].0 + bound_count(x, (cenv.len() - 1 - q) as nat);
                            let gq = genv[q] as int;
                            assert(cenv[q] < lo_c);
                            assert(s1[cenv[q] as int].0 == old(scope)@[cenv[q] as int].0 + bound_count(f, (cenv.len() - 1 - q) as nat));
                            assert(s1[cenv[p] as int].0 == old(scope)@[cenv[p] as int].0 + bound_count(f, (cenv.len() - 1 - p) as nat));
                            if p != q {
                                assert(pre.idents@[i].0 == gp);
                                assert(pre.idents@[i].0 == gq);
                                if p < q {
                                    assert(genv[p] < genv[q]);
                                } else {
                                    assert(genv[q] < genv[p]);
                                }
                            }
                        }
                    } else {
                        if taken(s1, cenv, x, i) {
                            let q = choose|q: int| #![trigger cenv[q]] 0 <= q < cenv.len() && s1[cenv[q] as int].0 <= i
                                < s1[cenv[q] as int].0 + bound_count(x, (cenv.len() - 1 - q) as nat);
                            let gq = genv[q] as int;
                            assert(cenv[q] < lo_c);
                            assert(s1[cenv[q] as int].0 == old(scope)@[cenv[q] as int].0 + bound_count(f, (cenv.len() - 1 - q) as nat));
                            assert(i < pre.abstrs@[gq].0.end.0 <= pre.idents@.len());
                        }
                    }
                }
            }
        }
        Term::Apply(apply)
    }

    /// Gathers the occurrences of each abstraction into one zone.
    pub fn from(value: &count::File) -> (r: File)
        requires
            value.wf(),
        ensures
            r.wf(),
            r.complete(value.lambda()),
            r.lambda() == value.lambda(),
            r.idents@.len() == slots(value.lambda()),
            r.abstrs@.len() == value.abstrs@.len(),
            r.applys@.len() == value.applys@.len(),
            r.laid_out(),
            r.ordered(r.origin, value.lambda(), Seq::empty()),
    {
        let ghost lt = value.lambda();
        proof {
            assert(value.resolved_as(lt));
        }
        let mut outer = File {
            idents: graph_idents_new(),
            abstrs: graph_abstrs_new(),
            applys: graph_applys_new(),
            origin: Term::Ident(Ident(usize::MAX)),
        };
        let mut scope = zone_starts_new();
        let total_abstrs = count_abstrs_len(&value.abstrs);
        let mut n: usize = 0;
        while n < total_abstrs
            invariant
                total_abstrs == value.abstrs@.len(),
                n <= value.abstrs@.len(),
                scope@.len() == n,
            decreases value.abstrs@.len() - n,
        {
            zone_starts_push(&mut scope, Ident(usize::MAX));
            n = n + 1;
        }
        let total = count_idents_len(&value.idents);
        proof {
            lemma_slots(lt);
            assert(slots(lt) <= total);
        }
        let ghost s0 = scope@;
        let origin = outer.insert(
            value,
            &mut scope,
            value.origin,
            Ghost(lt),
            Ghost(Seq::empty()),
            Ghost(Seq::empty()),
            Ghost(0),
            Ghost(0),
        );
        let ghost prev = outer;
        outer.origin = origin;
        let abstr_count = graph_abstrs_len(&outer.abstrs);
        let apply_count = graph_applys_len(&outer.applys);
        proof {
            assert(abstr_count <= usize::MAX && apply_count <= usize::MAX);
            assert(outer.agrees_from(prev, 0, 0));
            outer.lemma_agrees(prev, origin, lt, Seq::empty(), 0, 0);
            assert forall|i: int| 0 <= i < outer.idents@.len() implies #[trigger] outer.uses(outer.origin, lt, i) by {
                assert(prev.uses(origin, lt, i));
            }
            assert(outer.complete(lt));
            assert(slots_of(s0, Seq::empty()) =~= Seq::<int>::empty());
            outer.lemma_ordered_agrees(prev, origin, lt, Seq::empty(), 0, 0, Seq::empty());
            let lt2 = outer.lambda();
            lemma_lambda_unique(outer, outer.origin, lt, lt2, Seq::empty(), 0, 0);
        }
        outer
    }
}

/// The next slots after the occurrences of `t`: each binder of the
/// environment moves past the occurrences of `t` that it binds.
pub open spec fn advance(next: Seq<int>, t: Lambda) -> Seq<int> {
    Seq::new(next.len(), |p: int| next[p] + bound_count(t, (next.len() - 1 - p) as nat))
}

/// The next slot of each binder of `cenv`, in the order of `cenv`.
pub open spec fn slots_of(scope: Seq<Ident>, cenv: Seq<nat>) -> Seq<int> {
    Seq::new(cenv.len(), |p: int| scope[cenv[p] as int].0 as int)
}

/// The occurrence at `i` is one of the slots that the abstractions of `cenv`
/// hand out to the occurrences of `t`, starting from `scope`.
pub open spec fn taken(scope: Seq<Ident>, cenv: Seq<nat>, t: Lambda, i: int) -> bool {
    exists|p: int|
        #![trigger cenv[p]]
        0 <= p < cenv.len() && scope[cenv[p] as int].0 <= i < scope[cenv[p] as int].0
            + bound_count(t, (cenv.len() - 1 - p) as nat)
}

/// A node stands for at most one resolved term.
pub proof fn lemma_lambda_unique(
    file: File,
    term: Term,
    t1: Lambda,
    t2: Lambda,
    env: Seq<nat>,
    lo_abs: nat,
    lo_app: nat,
)
    requires
        file.represents(term, t1, env, lo_abs, lo_app),
        file.represents(term, t2, env, lo_abs, lo_app),
        forall|p: int, q: int| 0 <= p < q < env.len() ==> env[p] < env[q],
        forall|p: int| 0 <= p < env.len() ==> #[trigger] env[p] < lo_abs,
    ensures
        t1 == t2,
    decreases t1,
{
    match t1 {
        Lambda::Var(k1) => {
            if let Lambda::Var(k2) = t2 {
                if k1 != k2 {
                    let p1 = env.len() - 1 - k1;
                    let p2 = env.len() - 1 - k2;
                    if p1 < p2 {
                        assert(env[p1] < env[p2]);
                    } else {
                        assert(env[p2] < env[p1]);
                    }
                }
            }
        },
        Lambda::Lam(b1) => {
            if let Lambda::Lam(b2) = t2 {
                if let Term::Abstr(a) = term {
                    lemma_lambda_unique(
                        file,
                        file.abstrs@[a.0 as int].1,
                        *b1,
                        *b2,
                        env.push(a.0 as nat),
                        lo_abs + 1,
                        lo_app,
                    );
                }
            }
        },
        Lambda::App(f1, x1) => {
            if let Lambda::App(f2, x2) = t2 {
                if let Term::Apply(p) = term {
                    lemma_lambda_unique(file, file.applys@[p.0 as int].0, *f1, *f2, env, lo_abs, lo_app + 1);
                    lemma_lambda_unique(file, file.applys@[p.0 as int].1, *x1, *x2, env, lo_abs + lam_count(*f1), lo_app + 1 + app_count(*f1));
                }
            }
        },
    }
}

} // verus!
