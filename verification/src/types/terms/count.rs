use vstd::prelude::*;

use typed_index_collections::TiVec;

use crate::text::{lossy_text, utf8_lossy};

use super::arena::Arena;
use super::parse::{parsed_abstrs_get, parsed_applys_get, spellings_get};

use super::{
    app_count, bound_count, var_count, first_free, lam_count, lemma_first_free, lemma_lookup, lookup,
    parse, resolve, Lambda, Syntax,
};

verus! {

/// Position of a variable occurrence.
#[derive(Clone, Copy)]
pub struct Ident(pub usize);

/// Position of an abstraction.
#[derive(Clone, Copy)]
pub struct Abstr(pub usize);

/// Position of an application.
#[derive(Clone, Copy)]
pub struct Apply(pub usize);

/// A node of the resolved term.
#[derive(Clone, Copy)]
pub enum Term {
    Ident(Ident),
    Abstr(Abstr),
    Apply(Apply),
}

impl Default for Term {
    fn default() -> (r: Self)
        ensures
            r == Term::Ident(Ident(usize::MAX)),
    {
        Term::Ident(Ident(usize::MAX))
    }
}

impl From<usize> for Ident {
    fn from(value: usize) -> (r: Ident)
        ensures
            r.0 == value,
    {
        Ident(value)
    }
}

impl vstd::std_specs::convert::FromSpecImpl<usize> for Ident {
    open spec fn obeys_from_spec() -> bool {
        true
    }

    open spec fn from_spec(v: usize) -> Ident {
        Ident(v)
    }
}

impl From<Ident> for usize {
    fn from(value: Ident) -> (r: usize)
        ensures
            r == value.0,
    {
        value.0
    }
}

impl vstd::std_specs::convert::FromSpecImpl<Ident> for usize {
    open spec fn obeys_from_spec() -> bool {
        true
    }

    open spec fn from_spec(v: Ident) -> usize {
        v.0
    }
}

impl From<usize> for Abstr {
    fn from(value: usize) -> (r: Abstr)
        ensures
            r.0 == value,
    {
        Abstr(value)
    }
}

impl vstd::std_specs::convert::FromSpecImpl<usize> for Abstr {
    open spec fn obeys_from_spec() -> bool {
        true
    }

    open spec fn from_spec(v: usize) -> Abstr {
        Abstr(v)
    }
}

impl From<Abstr> for usize {
    fn from(value: Abstr) -> (r: usize)
        ensures
            r == value.0,
    {
        value.0
    }
}

impl vstd::std_specs::convert::FromSpecImpl<Abstr> for usize {
    open spec fn obeys_from_spec() -> bool {
        true
    }

    open spec fn from_spec(v: Abstr) -> usize {
        v.0
    }
}

impl From<usize> for Apply {
    fn from(value: usize) -> (r: Apply)
        ensures
            r.0 == value,
    {
        Apply(value)
    }
}

impl vstd::std_specs::convert::FromSpecImpl<usize> for Apply {
    open spec fn obeys_from_spec() -> bool {
        true
    }

    open spec fn from_spec(v: usize) -> Apply {
        Apply(v)
    }
}

impl From<Apply> for usize {
    fn from(value: Apply) -> (r: usize)
        ensures
            r == value.0,
    {
        value.0
    }
}

impl vstd::std_specs::convert::FromSpecImpl<Apply> for usize {
    open spec fn obeys_from_spec() -> bool {
        true
    }

    open spec fn from_spec(v: Apply) -> usize {
        v.0
    }
}

/// A name for the binding abstraction of each occurrence of a resolved term, in the order of their positions.
pub uninterp spec fn count_idents(t: TiVec<Ident, Abstr>) -> Seq<Abstr>;

impl Arena<Abstr> for TiVec<Ident, Abstr> {
    open spec fn view(&self) -> Seq<Abstr> {
        count_idents(*self)
    }
}

/// `TiVec::new`: claimed to give an empty arena.
#[verifier::external_body]
pub(crate) fn count_idents_new() -> (t: TiVec<Ident, Abstr>)
    ensures
        count_idents(t) == Seq::<Abstr>::empty(),
{
    TiVec::new()
}

/// `TiVec::len`: claimed to give the number of entries.
#[verifier::external_body]
pub(crate) fn count_idents_len(t: &TiVec<Ident, Abstr>) -> (n: usize)
    ensures
        n == count_idents(*t).len(),
{
    t.len()
}

/// `TiVec::push_and_get_key`: claimed to append the entry and to give
/// its position, the former number of entries.
#[verifier::external_body]
pub(crate) fn count_idents_push(t: &mut TiVec<Ident, Abstr>, value: Abstr) -> (k: Ident)
    ensures
        count_idents(*final(t)) == count_idents(*old(t)).push(value),
        k.0 == count_idents(*old(t)).len(),
{
    t.push_and_get_key(value)
}

/// Indexing by a key: claimed to give the entry at that position.
#[verifier::external_body]
pub(crate) fn count_idents_get(t: &TiVec<Ident, Abstr>, k: Ident) -> (v: Abstr)
    requires
        k.0 < count_idents(*t).len(),
    ensures
        v == count_idents(*t)[k.0 as int],
{
    t[k]
}

/// A name for the occurrence counts and bodies of the abstractions of a resolved term, in the order of their positions.
pub uninterp spec fn count_abstrs(t: TiVec<Abstr, (usize, Term)>) -> Seq<(usize, Term)>;

impl Arena<(usize, Term)> for TiVec<Abstr, (usize, Term)> {
    open spec fn view(&self) -> Seq<(usize, Term)> {
        count_abstrs(*self)
    }
}

/// `TiVec::new`: claimed to give an empty arena.
#[verifier::external_body]
pub(crate) fn count_abstrs_new() -> (t: TiVec<Abstr, (usize, Term)>)
    ensures
        count_abstrs(t) == Seq::<(usize, Term)>::empty(),
{
    TiVec::new()
}

/// `TiVec::len`: claimed to give the number of entries.
#[verifier::external_body]
pub(crate) fn count_abstrs_len(t: &TiVec<Abstr, (usize, Term)>) -> (n: usize)
    ensures
        n == count_abstrs(*t).len(),
{
    t.len()
}

/// `TiVec::push_and_get_key`: claimed to append the entry and to give
/// its position, the former number of entries.
#[verifier::external_body]
pub(crate) fn count_abstrs_push(t: &mut TiVec<Abstr, (usize, Term)>, value: (usize, Term)) -> (k: Abstr)
    ensures
        count_abstrs(*final(t)) == count_abstrs(*old(t)).push(value),
        k.0 == count_abstrs(*old(t)).len(),
{
    t.push_and_get_key(value)
}

/// Indexing by a key: claimed to give the entry at that position.
#[verifier::external_body]
pub(crate) fn count_abstrs_get(t: &TiVec<Abstr, (usize, Term)>, k: Abstr) -> (v: (usize, Term))
    requires
        k.0 < count_abstrs(*t).len(),
    ensures
        v == count_abstrs(*t)[k.0 as int],
{
    t[k]
}

/// Assigning through `IndexMut` by a key: claimed to replace the entry at
/// that position and nothing else.
#[verifier::external_body]
pub(crate) fn count_abstrs_set(t: &mut TiVec<Abstr, (usize, Term)>, k: Abstr, value: (usize, Term))
    requires
        k.0 < count_abstrs(*old(t)).len(),
    ensures
        count_abstrs(*final(t)) == count_abstrs(*old(t)).update(k.0 as int, value),
{
    t[k] = value;
}

/// A name for the functions and arguments of the applications of a resolved term, in the order of their positions.
pub uninterp spec fn count_applys(t: TiVec<Apply, (Term, Term)>) -> Seq<(Term, Term)>;

impl Arena<(Term, Term)> for TiVec<Apply, (Term, Term)> {
    open spec fn view(&self) -> Seq<(Term, Term)> {
        count_applys(*self)
    }
}

/// `TiVec::new`: claimed to give an empty arena.
#[verifier::external_body]
pub(crate) fn count_applys_new() -> (t: TiVec<Apply, (Term, Term)>)
    ensures
        count_applys(t) == Seq::<(Term, Term)>::empty(),
{
    TiVec::new()
}

/// `TiVec::push_and_get_key`: claimed to append the entry and to give
/// its position, the former number of entries.
#[verifier::external_body]
pub(crate) fn count_applys_push(t: &mut TiVec<Apply, (Term, Term)>, value: (Term, Term)) -> (k: Apply)
    ensures
        count_applys(*final(t)) == count_applys(*old(t)).push(value),
        k.0 == count_applys(*old(t)).len(),
{
    t.push_and_get_key(value)
}

/// Indexing by a key: claimed to give the entry at that position.
#[verifier::external_body]
pub(crate) fn count_applys_get(t: &TiVec<Apply, (Term, Term)>, k: Apply) -> (v: (Term, Term))
    requires
        k.0 < count_applys(*t).len(),
    ensures
        v == count_applys(*t)[k.0 as int],
{
    t[k]
}

/// Assigning through `IndexMut` by a key: claimed to replace the entry at
/// that position and nothing else.
#[verifier::external_body]
pub(crate) fn count_applys_set(t: &mut TiVec<Apply, (Term, Term)>, k: Apply, value: (Term, Term))
    requires
        k.0 < count_applys(*old(t)).len(),
    ensures
        count_applys(*final(t)) == count_applys(*old(t)).update(k.0 as int, value),
{
    t[k] = value;
}

/// The term with each variable occurrence pointing at its binding
/// abstraction, and each abstraction counting its occurrences.
pub struct File {
    pub idents: TiVec<Ident, Abstr>,
    pub abstrs: TiVec<Abstr, (usize, Term)>,
    pub applys: TiVec<Apply, (Term, Term)>,
    pub origin: Term,
}

/// The names that the entries of a scope bind, innermost last.
pub open spec fn scope_names(world: parse::File, scope: Seq<(parse::Abstr, Abstr)>) -> Seq<
    Seq<u8>,
> {
    Seq::new(
        scope.len(),
        |p: int| world.idents@[world.abstrs@[scope[p].0.0 as int].0.0 as int]@,
    )
}

/// The abstractions that the entries of a scope stand for, innermost last.
pub open spec fn scope_env(scope: Seq<(parse::Abstr, Abstr)>) -> Seq<nat> {
    Seq::new(scope.len(), |p: int| scope[p].1.0 as nat)
}

/// Each entry of the scope points into `world`.
pub open spec fn scope_valid(world: parse::File, scope: Seq<(parse::Abstr, Abstr)>) -> bool {
    forall|p: int|
        0 <= p < scope.len() ==> {
            &&& #[trigger] scope[p].0.0 < world.abstrs@.len()
            &&& world.abstrs@[scope[p].0.0 as int].0.0 < world.idents@.len()
        }
}

/// The abstractions of the scope are increasing and below `n`.
pub open spec fn env_ok(env: Seq<nat>, n: nat) -> bool {
    &&& forall|p: int| 0 <= p < env.len() ==> #[trigger] env[p] < n
    &&& forall|p: int, q: int| 0 <= p < q < env.len() ==> env[p] < env[q]
}

/// The first occurrence, from left to right, in the node `entry` of `world`
/// that spells `t`, of a name that nothing in `scope` or in `t` binds.
pub open spec fn first_free_at(world: parse::File, entry: parse::Term, t: Syntax, scope: Seq<Seq<u8>>) -> Option<
    parse::Ident,
>
    decreases t,
{
    match t {
        Syntax::Var(x) => if lookup(scope, x) is None {
            match entry {
                parse::Term::Ident(v) => Some(v),
                _ => None,
            }
        } else {
            None
        },
        Syntax::Lam(x, b) => match entry {
            parse::Term::Abstr(a) => first_free_at(world, world.abstrs@[a.0 as int].1, *b, scope.push(x)),
            _ => None,
        },
        Syntax::App(f, a) => match entry {
            parse::Term::Apply(p) => match first_free_at(world, world.applys@[p.0 as int].0, *f, scope) {
                Some(v) => Some(v),
                None => first_free_at(world, world.applys@[p.0 as int].1, *a, scope),
            },
            _ => None,
        },
    }
}

/// The first free occurrence is where the first free name is spelled.
pub proof fn lemma_first_free_at(world: parse::File, entry: parse::Term, t: Syntax, scope: Seq<Seq<u8>>)
    requires
        world.represents(entry, t),
    ensures
        match first_free_at(world, entry, t, scope) {
            Some(v) => v.0 < world.idents@.len() && first_free(t, scope) == Some(world.idents@[v.0 as int]@),
            None => first_free(t, scope) is None,
        },
    decreases t,
{
    match t {
        Syntax::Var(_) => {},
        Syntax::Lam(x, b) => {
            if let parse::Term::Abstr(a) = entry {
                lemma_first_free_at(world, world.abstrs@[a.0 as int].1, *b, scope.push(x));
            }
        },
        Syntax::App(f, a) => {
            if let parse::Term::Apply(p) = entry {
                lemma_first_free_at(world, world.applys@[p.0 as int].0, *f, scope);
                lemma_first_free_at(world, world.applys@[p.0 as int].1, *a, scope);
            }
        },
    }
}

impl File {
    /// The origin stands for a closed resolved term, and the file holds one
    /// occurrence per variable of it.
    pub open spec fn wf(self) -> bool {
        exists|lt: Lambda| self.resolved_as(lt)
    }

    /// The origin stands for the closed resolved term `lt`: the file holds
    /// one occurrence per variable of it, and exactly its abstractions and
    /// applications, numbered in pre-order.
    pub open spec fn resolved_as(self, lt: Lambda) -> bool {
        &&& self.represents(self.origin, lt, Seq::empty(), 0, 0)
        &&& self.idents@.len() == var_count(lt)
        &&& self.placed(self.origin, lt, 0, 0, 0)
        &&& self.abstrs@.len() == lam_count(lt)
        &&& self.applys@.len() == app_count(lt)
    }

    /// The resolved term that the file stands for.
    pub open spec fn lambda(self) -> Lambda {
        choose|lt: Lambda| self.resolved_as(lt)
    }

    /// `term` is a node of this file for `t`, where `env` lists the
    /// abstractions that bind the free variables of `t` (innermost last), and
    /// every abstraction and application of the node lies at or above
    /// `lo_abs` and `lo_app`.
    pub open spec fn represents(
        self,
        term: Term,
        t: Lambda,
        env: Seq<nat>,
        lo_abs: nat,
        lo_app: nat,
    ) -> bool
        decreases t,
    {
        match t {
            Lambda::Var(k) => term matches Term::Ident(v) && v.0 < self.idents@.len() && k
                < env.len() && self.idents@[v.0 as int].0 == env[env.len() - 1 - k],
            Lambda::Lam(b) => term matches Term::Abstr(a) && lo_abs <= a.0 < self.abstrs@.len()
                && self.abstrs@[a.0 as int].0 == bound_count(*b, 0) && self.represents(
                self.abstrs@[a.0 as int].1,
                *b,
                env.push(a.0 as nat),
                a.0 as nat + 1,
                lo_app,
            ),
            Lambda::App(f, x) => term matches Term::Apply(p) && lo_app <= p.0
                < self.applys@.len() && self.represents(
                self.applys@[p.0 as int].0,
                *f,
                env,
                lo_abs,
                lo_app,
            ) && self.represents(self.applys@[p.0 as int].1, *x, env, lo_abs, lo_app),
        }
    }

    /// `self` keeps the occurrences of `prev`, and its abstractions and
    /// applications from `lo_abs` and `lo_app` on.
    pub open spec fn agrees_from(self, prev: File, lo_abs: nat, lo_app: nat) -> bool {
        &&& prev.idents@.len() <= self.idents@.len()
        &&& prev.abstrs@.len() <= self.abstrs@.len()
        &&& prev.applys@.len() <= self.applys@.len()
        &&& forall|k: int| 0 <= k < prev.idents@.len() ==> self.idents@[k] == prev.idents@[k]
        &&& forall|k: int|
            lo_abs <= k < prev.abstrs@.len() ==> self.abstrs@[k] == prev.abstrs@[k]
        &&& forall|k: int|
            lo_app <= k < prev.applys@.len() ==> self.applys@[k] == prev.applys@[k]
    }

    /// The abstractions and applications of the node `term` for `t` are
    /// numbered in pre-order from `lo_abs` and `lo_app` on, and its
    /// occurrences from left to right from `lo_id` on.
    pub open spec fn placed(self, term: Term, t: Lambda, lo_abs: nat, lo_app: nat, lo_id: nat) -> bool
        decreases t,
    {
        match t {
            Lambda::Var(_) => term matches Term::Ident(v) && v.0 == lo_id,
            Lambda::Lam(b) => term matches Term::Abstr(a) && a.0 == lo_abs && a.0 < self.abstrs@.len()
                && self.placed(self.abstrs@[a.0 as int].1, *b, lo_abs + 1, lo_app, lo_id),
            Lambda::App(f, x) => term matches Term::Apply(p) && p.0 == lo_app && p.0 < self.applys@.len()
                && self.placed(self.applys@[p.0 as int].0, *f, lo_abs, lo_app + 1, lo_id) && self.placed(
                self.applys@[p.0 as int].1,
                *x,
                lo_abs + lam_count(*f),
                lo_app + 1 + app_count(*f),
                lo_id + var_count(*f),
            ),
        }
    }

    pub proof fn lemma_placed_agrees(
        self,
        prev: File,
        term: Term,
        t: Lambda,
        lo_abs: nat,
        lo_app: nat,
        lo_id: nat,
    )
        requires
            prev.placed(term, t, lo_abs, lo_app, lo_id),
            self.agrees_from(prev, lo_abs, lo_app),
        ensures
            self.placed(term, t, lo_abs, lo_app, lo_id),
        decreases t,
    {
        match t {
            Lambda::Var(_) => {},
            Lambda::Lam(b) => {
                if let Term::Abstr(a) = term {
                    self.lemma_placed_agrees(prev, prev.abstrs@[a.0 as int].1, *b, lo_abs + 1, lo_app, lo_id);
                }
            },
            Lambda::App(f, x) => {
                if let Term::Apply(p) = term {
                    self.lemma_placed_agrees(prev, prev.applys@[p.0 as int].0, *f, lo_abs, lo_app + 1, lo_id);
                    self.lemma_placed_agrees(
                        prev,
                        prev.applys@[p.0 as int].1,
                        *x,
                        lo_abs + lam_count(*f),
                        lo_app + 1 + app_count(*f),
                        lo_id + var_count(*f),
                    );
                }
            },
        }
    }

    /// No occurrence count exceeds the number of occurrences.
    pub open spec fn counts_bounded(self) -> bool {
        forall|a: int|
            0 <= a < self.abstrs@.len() ==> #[trigger] self.abstrs@[a].0 <= self.idents@.len()
    }

    /// What inserting the resolved term `lt` under `env` leaves behind, next
    /// to the node that stands for it.
    pub open spec fn inserted(self, prev: File, env: Seq<nat>, lt: Lambda) -> bool {
        &&& self.agrees_from(prev, prev.abstrs@.len() as nat, prev.applys@.len() as nat)
        &&& forall|k: int|
            0 <= k < prev.idents@.len() ==> self.idents@[k] == prev.idents@[k]
        &&& forall|k: int|
            0 <= k < prev.applys@.len() ==> self.applys@[k] == prev.applys@[k]
        &&& forall|k: int|
            0 <= k < prev.abstrs@.len() && !env.contains(k as nat) ==> self.abstrs@[k]
                == prev.abstrs@[k]
        &&& forall|p: int|
            0 <= p < env.len() ==> {
                &&& self.abstrs@[env[p] as int].0 == prev.abstrs@[env[p] as int].0 + bound_count(
                    lt,
                    (env.len() - 1 - p) as nat,
                )
                &&& self.abstrs@[env[p] as int].1 == prev.abstrs@[env[p] as int].1
            }
    }

    /// A node stands for at most one resolved term.
    pub proof fn lemma_lambda_unique(
        self,
        term: Term,
        t1: Lambda,
        t2: Lambda,
        env: Seq<nat>,
        lo_abs: nat,
        lo_app: nat,
    )
        requires
            self.represents(term, t1, env, lo_abs, lo_app),
            self.represents(term, t2, env, lo_abs, lo_app),
            forall|p: int, q: int| 0 <= p < q < env.len() ==> env[p] < env[q],
            forall|p: int| 0 <= p < env.len() ==> #[trigger] env[p] < lo_abs,
        ensures
            t1 == t2,
        decreases t1,
    {
        match t1 {
            Lambda::Var(k1) => {
                if let Lambda::Var(k2) = t2 {
                    if k1 != k2 {
                        let p1 = env.len() - 1 - k1;
                        let p2 = env.len() - 1 - k2;
                        if p1 < p2 {
                            assert(env[p1] < env[p2]);
                        } else {
                            assert(env[p2] < env[p1]);
                        }
                    }
                }
            },
            Lambda::Lam(b1) => {
                if let Lambda::Lam(b2) = t2 {
                    if let Term::Abstr(a) = term {
                        self.lemma_lambda_unique(
                            self.abstrs@[a.0 as int].1,
                            *b1,
                            *b2,
                            env.push(a.0 as nat),
                            a.0 as nat + 1,
                            lo_app,
                        );
                    }
                }
            },
            Lambda::App(f1, x1) => {
                if let Lambda::App(f2, x2) = t2 {
                    if let Term::Apply(p) = term {
                        self.lemma_lambda_unique(self.applys@[p.0 as int].0, *f1, *f2, env, lo_abs, lo_app);
                        self.lemma_lambda_unique(self.applys@[p.0 as int].1, *x1, *x2, env, lo_abs, lo_app);
                    }
                }
            },
        }
    }

    pub proof fn lemma_agrees(
        self,
        prev: File,
        term: Term,
        t: Lambda,
        env: Seq<nat>,
        lo_abs: nat,
        lo_app: nat,
    )
        requires
            prev.represents(term, t, env, lo_abs, lo_app),
            self.agrees_from(prev, lo_abs, lo_app),
        ensures
            self.represents(term, t, env, lo_abs, lo_app),
        decreases t,
    {
        match t {
            Lambda::Var(_) => {},
            Lambda::Lam(b) => {
                if let Term::Abstr(a) = term {
                    self.lemma_agrees(
                        prev,
                        prev.abstrs@[a.0 as int].1,
                        *b,
                        env.push(a.0 as nat),
                        a.0 as nat + 1,
                        lo_app,
                    );
                }
            },
            Lambda::App(f, x) => {
                if let Term::Apply(p) = term {
                    self.lemma_agrees(prev, prev.applys@[p.0 as int].0, *f, env, lo_abs, lo_app);
                    self.lemma_agrees(prev, prev.applys@[p.0 as int].1, *x, env, lo_abs, lo_app);
                }
            },
        }
    }

    pub proof fn lemma_lower(
        self,
        term: Term,
        t: Lambda,
        env: Seq<nat>,
        lo_abs: nat,
        lo_app: nat,
        lo_abs2: nat,
        lo_app2: nat,
    )
        requires
            self.represents(term, t, env, lo_abs, lo_app),
            lo_abs2 <= lo_abs,
            lo_app2 <= lo_app,
        ensures
            self.represents(term, t, env, lo_abs2, lo_app2),
        decreases t,
    {
        match t {
            Lambda::Var(_) => {},
            Lambda::Lam(b) => {
                if let Term::Abstr(a) = term {
                    self.lemma_lower(
                        self.abstrs@[a.0 as int].1,
                        *b,
                        env.push(a.0 as nat),
                        a.0 as nat + 1,
                        lo_app,
                        a.0 as nat + 1,
                        lo_app2,
                    );
                }
            },
            Lambda::App(f, x) => {
                if let Term::Apply(p) = term {
                    self.lemma_lower(
                        self.applys@[p.0 as int].0,
                        *f,
                        env,
                        lo_abs,
                        lo_app,
                        lo_abs2,
                        lo_app2,
                    );
                    self.lemma_lower(
                        self.applys@[p.0 as int].1,
                        *x,
                        env,
                        lo_abs,
                        lo_app,
                        lo_abs2,
                        lo_app2,
                    );
                }
            },
        }
    }

    /// Resolves the node `entry` of `world`, whose enclosing abstractions are
    /// `scope`; fails with the first name that nothing binds.
    fn insert(
        &mut self,
        world: &parse::File,
        scope: &mut Vec<(parse::Abstr, Abstr)>,
        entry: parse::Term,
        Ghost(t): Ghost<Syntax>,
    ) -> (r: Result<Term, parse::Ident>)
        requires
            world.represents(entry, t),
            scope_valid(*world, old(scope)@),
            env_ok(scope_env(old(scope)@), old(self).abstrs@.len() as nat),
            old(self).counts_bounded(),
        ensures
            final(self).counts_bounded(),
            match resolve(t, scope_names(*world, old(scope)@)) {
                Some(lt) => r matches Ok(tm) && {
                    let env = scope_env(old(scope)@);
                    &&& final(scope)@ == old(scope)@
                    &&& final(self).represents(
                        tm,
                        lt,
                        env,
                        old(self).abstrs@.len() as nat,
                        old(self).applys@.len() as nat,
                    )
                    &&& final(self).inserted(*old(self), env, lt)
                    &&& final(self).idents@.len() == old(self).idents@.len() + var_count(lt)
                    &&& final(self).placed(
                        tm,
                        lt,
                        old(self).abstrs@.len() as nat,
                        old(self).applys@.len() as nat,
                        old(self).idents@.len() as nat,
                    )
                    &&& final(self).abstrs@.len() == old(self).abstrs@.len() + lam_count(lt)
                    &&& final(self).applys@.len() == old(self).applys@.len() + app_count(lt)
                },
                None => r matches Err(v) && Some(v) == first_free_at(
                    *world,
                    entry,
                    t,
                    scope_names(*world, old(scope)@),
                ) && v.0 < world.idents@.len() && Some(world.idents@[v.0 as int]@) == first_free(
                    t,
                    scope_names(*world, old(scope)@),
                ),
            },
        decreases t,
    {
        let ghost names = scope_names(*world, scope@);
        let ghost env = scope_env(scope@);
        proof {
            lemma_first_free(t, names);
        }
        match entry {
            parse::Term::Ident(idx) => {
                let ghost x = world.idents@[idx.0 as int]@;
                match find_binding(world, scope, idx) {
                    Some(p) => {
                        proof {
                            lemma_lookup(names, x, p as int);
                        }
                        let new = scope[p].1;
                        assert(env[p as int] == new.0);
                        assert(env[p as int] < old(self).abstrs@.len());
                        let ident = count_idents_push(&mut self.idents, new);
                        let n = count_idents_len(&self.idents);
                        let (c, body) = count_abstrs_get(&self.abstrs, new);
                        count_abstrs_set(&mut self.abstrs, new, (c + 1, body));
                        proof {
                            let lt = resolve(t, names).unwrap();
                            assert forall|q: int| 0 <= q < env.len() implies self.abstrs@[env[q] as int].0
                                == old(self).abstrs@[env[q] as int].0 + bound_count(
                                lt,
                                (env.len() - 1 - q) as nat,
                            ) && self.abstrs@[env[q] as int].1 == old(self).abstrs@[env[q] as int].1 by {
                                if q != p {
                                    assert(env[q] != env[p as int]);
                                }
                            }
                            assert forall|k: int|
                                0 <= k < old(self).abstrs@.len() && !env.contains(
                                    k as nat,
                                ) implies self.abstrs@[k] == old(self).abstrs@[k] by {
                                assert(env[p as int] == new.0);
                            }
                        }
                        Ok(Term::Ident(ident))
                    },
                    None => {
                        proof {
                            lemma_lookup(names, x, -1);
                        }
                        Err(idx)
                    },
                }
            },
            parse::Term::Abstr(idx) => {
                let ghost b = match t {
                    Syntax::Lam(_, b) => *b,
                    _ => t,
                };
                let ghost pre = *self;
                let abstr = count_abstrs_push(&mut self.abstrs, (0, Term::default()));
                scope.push((idx, abstr));
                let ghost names2 = scope_names(*world, scope@);
                let ghost env2 = scope_env(scope@);
                proof {
                    assert(names2 =~= names.push(world.idents@[world.abstrs@[idx.0 as int].0.0 as int]@));
                    assert(env2 =~= env.push(abstr.0 as nat));
                }
                let val = parsed_abstrs_get(&world.abstrs, idx).1;
                let ghost mid = *self;
                let body = self.insert(world, scope, val, Ghost(b))?;
                let ghost after = *self;
                let (c, _) = count_abstrs_get(&self.abstrs, abstr);
                count_abstrs_set(&mut self.abstrs, abstr, (c, body));
                scope.pop();
                proof {
                    let lb = resolve(b, names2).unwrap();
                    assert(scope@ =~= old(scope)@);
                    assert(self.agrees_from(after, abstr.0 as nat + 1, 0));
                    self.lemma_agrees(after, body, lb, env2, mid.abstrs@.len() as nat, mid.applys@.len() as nat);
                    self.lemma_lower(body, lb, env2, mid.abstrs@.len() as nat, mid.applys@.len() as nat, mid.abstrs@.len() as nat, pre.applys@.len() as nat);
                    self.lemma_placed_agrees(after, body, lb, mid.abstrs@.len() as nat, mid.applys@.len() as nat, mid.idents@.len() as nat);
                    assert(env2[env.len() as int] == abstr.0);
                    assert(self.abstrs@[abstr.0 as int].0 == bound_count(lb, 0));
                    assert forall|q: int| 0 <= q < env.len() implies self.abstrs@[env[q] as int].0
                        == old(self).abstrs@[env[q] as int].0 + bound_count(
                        Lambda::Lam(Box::new(lb)),
                        (env.len() - 1 - q) as nat,
                    ) && self.abstrs@[env[q] as int].1 == old(self).abstrs@[env[q] as int].1 by {
                        assert(env2[q] == env[q]);
                    }
                    assert forall|k: int|
                        0 <= k < old(self).abstrs@.len() && !env.contains(k as nat) implies self.abstrs@[k]
                        == old(self).abstrs@[k] by {
                        if env2.contains(k as nat) {
                            let q = choose|q: int| 0 <= q < env2.len() && env2[q] == k as nat;
                            if q < env.len() {
                                assert(env.contains(k as nat));
                            }
                        }
                    }
                }
                Ok(Term::Abstr(abstr))
            },
            parse::Term::Apply(idx) => {
                let ghost (f, a) = match t {
                    Syntax::App(f, a) => (*f, *a),
                    _ => (t, t),
                };
                let ghost pre = *self;
                let apply = count_applys_push(&mut self.applys, (Term::default(), Term::default()));
                let (lhs, rhs) = parsed_applys_get(&world.applys, idx);
                let ghost m1 = *self;
                proof {
                    lemma_first_free(f, names);
                    lemma_first_free(a, names);
                }
                let l = self.insert(world, scope, lhs, Ghost(f))?;
                let ghost ml = *self;
                proof {
                    lemma_first_free_at(*world, lhs, f, names);
                }
                let (_, r1) = count_applys_get(&self.applys, apply);
                count_applys_set(&mut self.applys, apply, (l, r1));
                let ghost m2 = *self;
                let r = self.insert(world, scope, rhs, Ghost(a))?;
                let ghost m3 = *self;
                let (l1, _) = count_applys_get(&self.applys, apply);
                count_applys_set(&mut self.applys, apply, (l1, r));
                proof {
                    let lf = resolve(f, names).unwrap();
                    let la = resolve(a, names).unwrap();
                    let lo_abs = pre.abstrs@.len() as nat;
                    let lo_app = pre.applys@.len() as nat;
                    // the function side survives the second insertion
                    assert(m2.agrees_from(ml, m1.abstrs@.len() as nat, apply.0 as nat + 1));
                    m2.lemma_agrees(ml, l, lf, env, m1.abstrs@.len() as nat, m1.applys@.len() as nat);
                    assert(m3.agrees_from(m2, m1.abstrs@.len() as nat, m1.applys@.len() as nat));
                    m3.lemma_agrees(m2, l, lf, env, m1.abstrs@.len() as nat, m1.applys@.len() as nat);
                    assert(self.agrees_from(m3, m1.abstrs@.len() as nat, apply.0 as nat + 1));
                    self.lemma_agrees(m3, l, lf, env, m1.abstrs@.len() as nat, m1.applys@.len() as nat);
                    self.lemma_lower(l, lf, env, m1.abstrs@.len() as nat, m1.applys@.len() as nat, lo_abs, lo_app);
                    assert(self.agrees_from(m3, m2.abstrs@.len() as nat, apply.0 as nat + 1));
                    self.lemma_agrees(m3, r, la, env, m2.abstrs@.len() as nat, m2.applys@.len() as nat);
                    self.lemma_lower(r, la, env, m2.abstrs@.len() as nat, m2.applys@.len() as nat, lo_abs, lo_app);
                    m2.lemma_placed_agrees(ml, l, lf, m1.abstrs@.len() as nat, m1.applys@.len() as nat, m1.idents@.len() as nat);
                    m3.lemma_placed_agrees(m2, l, lf, m1.abstrs@.len() as nat, m1.applys@.len() as nat, m1.idents@.len() as nat);
                    self.lemma_placed_agrees(m3, l, lf, m1.abstrs@.len() as nat, m1.applys@.len() as nat, m1.idents@.len() as nat);
                    self.lemma_placed_agrees(m3, r, la, m2.abstrs@.len() as nat, m2.applys@.len() as nat, m2.idents@.len() as nat);
                }
                Ok(Term::Apply(apply))
            },
        }
    }

    /// Resolves every name of the parsed term to its innermost binding.
    ///
    /// Fails with the first name (from left to right) that nothing binds.
    pub fn try_from(value: &parse::File) -> (r: Result<File, String>)
        requires
            value.wf(),
        ensures
            match resolve(value.syntax(), Seq::empty()) {
                Some(lt) => r matches Ok(file) && file.resolved_as(lt) && file.counts_bounded(),
                None => r matches Err(name) && name@ == lossy_text(
                    first_free(value.syntax(), Seq::empty()).unwrap(),
                ) && (vstd::utf8::valid_utf8(first_free(value.syntax(), Seq::empty()).unwrap())
                    ==> name@ == vstd::utf8::decode_utf8(first_free(value.syntax(), Seq::empty()).unwrap())),
            },
    {
        let mut outer = File {
            idents: count_idents_new(),
            abstrs: count_abstrs_new(),
            applys: count_applys_new(),
            origin: Term::default(),
        };
        let mut scope: Vec<(parse::Abstr, Abstr)> = Vec::new();
        let ghost t = value.syntax();
        proof {
            assert(scope_names(*value, scope@) =~= Seq::empty());
            assert(scope_env(scope@) =~= Seq::empty());
        }
        match outer.insert(value, &mut scope, value.origin, Ghost(t)) {
            Ok(entry) => {
                let ghost prev = outer;
                outer.origin = entry;
                proof {
                    let lt = resolve(t, Seq::empty()).unwrap();
                    assert(outer.agrees_from(prev, 0, 0));
                    outer.lemma_agrees(prev, entry, lt, Seq::empty(), 0, 0);
                    outer.lemma_placed_agrees(prev, entry, lt, 0, 0, 0);
                }
                Ok(outer)
            },
            Err(ident) => Err(utf8_lossy(spellings_get(&value.idents, ident))),
        }
    }
}

/// The innermost entry of `scope` that binds the name at `idx`.
fn find_binding(world: &parse::File, scope: &Vec<(parse::Abstr, Abstr)>, idx: parse::Ident) -> (r:
    Option<usize>)
    requires
        scope_valid(*world, scope@),
        idx.0 < world.idents@.len(),
    ensures
        r matches Some(p) ==> p < scope@.len() && scope_names(*world, scope@)[p as int]
            == world.idents@[idx.0 as int]@ && forall|q: int|
            p < q < scope@.len() ==> scope_names(*world, scope@)[q]
                != world.idents@[idx.0 as int]@,
        r is None ==> forall|q: int|
            0 <= q < scope@.len() ==> scope_names(*world, scope@)[q]
                != world.idents@[idx.0 as int]@,
{
    let ghost names = scope_names(*world, scope@);
    let mut p = scope.len();
    while p > 0
        invariant
            p <= scope@.len(),
            scope_valid(*world, scope@),
            idx.0 < world.idents@.len(),
            names == scope_names(*world, scope@),
            forall|q: int| p <= q < scope@.len() ==> names[q] != world.idents@[idx.0 as int]@,
        decreases p,
    {
        let (old, _) = scope[p - 1];
        assert(scope@[p - 1].0.0 < world.abstrs@.len());
        let (arg, _) = parsed_abstrs_get(&world.abstrs, old);
        if same_bytes(spellings_get(&world.idents, arg), spellings_get(&world.idents, idx)) {
            return Some(p - 1);
        }
        p = p - 1;
    }
    None
}

fn same_bytes(a: &Vec<u8>, b: &Vec<u8>) -> (r: bool)
    ensures
        r == (a@ == b@),
{
    if a.len() != b.len() {
        return false;
    }
    let mut k: usize = 0;
    while k < a.len()
        invariant
            a@.len() == b@.len(),
            k <= a@.len(),
            forall|q: int| 0 <= q < k ==> a@[q] == b@[q],
        decreases a@.len() - k,
    {
        if a[k] != b[k] {
            return false;
        }
        k = k + 1;
    }
    assert(a@ =~= b@);
    true
}

} // verus!
