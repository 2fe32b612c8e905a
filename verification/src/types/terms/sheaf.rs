use vstd::prelude::*;

use super::arena::Arena;
use super::graph::{graph_abstrs_len, graph_applys_len, graph_idents_len, Abstr, Apply, File, Ident, Term};

verus! {

/// One value for each node of a term: for each occurrence, each abstraction
/// and each application.
pub struct Sheaf<T> {
    idents: Vec<T>,
    abstrs: Vec<T>,
    applys: Vec<T>,
}

impl<T> View for Sheaf<T> {
    type V = (Seq<T>, Seq<T>, Seq<T>);

    closed spec fn view(&self) -> (Seq<T>, Seq<T>, Seq<T>) {
        (self.idents@, self.abstrs@, self.applys@)
    }
}

impl<T> Sheaf<T> {
    /// The sheaf has a value for `index`.
    pub open spec fn has(self, index: Term) -> bool {
        match index {
            Term::Ident(i) => i.0 < self@.0.len(),
            Term::Abstr(a) => a.0 < self@.1.len(),
            Term::Apply(p) => p.0 < self@.2.len(),
        }
    }

    /// The value for `index`.
    pub open spec fn at(self, index: Term) -> T {
        match index {
            Term::Ident(i) => self@.0[i.0 as int],
            Term::Abstr(a) => self@.1[a.0 as int],
            Term::Apply(p) => self@.2[p.0 as int],
        }
    }

    /// The sheaf has one value per node of `file`.
    pub open spec fn fits(self, file: File) -> bool {
        &&& self@.0.len() == file.idents@.len()
        &&& self@.1.len() == file.abstrs@.len()
        &&& self@.2.len() == file.applys@.len()
    }

    /// The value for a node.
    pub fn index(&self, index: Term) -> (r: &T)
        requires
            self.has(index),
        ensures
            *r == self.at(index),
    {
        match index {
            Term::Ident(idx) => &self.idents[idx.0],
            Term::Abstr(idx) => &self.abstrs[idx.0],
            Term::Apply(idx) => &self.applys[idx.0],
        }
    }

    /// Replaces the value for a node.
    pub fn set(&mut self, index: Term, value: T)
        requires
            old(self).has(index),
        ensures
            final(self)@ == match index {
                Term::Ident(i) => (old(self)@.0.update(i.0 as int, value), old(self)@.1, old(self)@.2),
                Term::Abstr(a) => (old(self)@.0, old(self)@.1.update(a.0 as int, value), old(self)@.2),
                Term::Apply(p) => (old(self)@.0, old(self)@.1, old(self)@.2.update(p.0 as int, value)),
            },
    {
        match index {
            Term::Ident(idx) => self.idents.set(idx.0, value),
            Term::Abstr(idx) => self.abstrs.set(idx.0, value),
            Term::Apply(idx) => self.applys.set(idx.0, value),
        }
    }

    /// Applies `f` to every value.
    pub fn fmap<U, F: Fn(T) -> U>(self, f: F) -> (r: Sheaf<U>)
        requires
            forall|k: int| 0 <= k < self@.0.len() ==> #[trigger] f.requires((self@.0[k],)),
            forall|k: int| 0 <= k < self@.1.len() ==> #[trigger] f.requires((self@.1[k],)),
            forall|k: int| 0 <= k < self@.2.len() ==> #[trigger] f.requires((self@.2[k],)),
        ensures
            r@.0.len() == self@.0.len(),
            r@.1.len() == self@.1.len(),
            r@.2.len() == self@.2.len(),
            forall|k: int| 0 <= k < self@.0.len() ==> f.ensures((self@.0[k],), #[trigger] r@.0[k]),
            forall|k: int| 0 <= k < self@.1.len() ==> f.ensures((self@.1[k],), #[trigger] r@.1[k]),
            forall|k: int| 0 <= k < self@.2.len() ==> f.ensures((self@.2[k],), #[trigger] r@.2[k]),
    {
        assert(self@.0 == self.idents@ && self@.1 == self.abstrs@ && self@.2 == self.applys@);
        Sheaf {
            idents: map_vec(self.idents, &f),
            abstrs: map_vec(self.abstrs, &f),
            applys: map_vec(self.applys, &f),
        }
    }
}

fn map_vec<T, U, F: Fn(T) -> U>(v: Vec<T>, f: &F) -> (r: Vec<U>)
    requires
        forall|k: int| 0 <= k < v@.len() ==> #[trigger] f.requires((v@[k],)),
    ensures
        r@.len() == v@.len(),
        forall|k: int| 0 <= k < v@.len() ==> f.ensures((v@[k],), #[trigger] r@[k]),
{
    let ghost orig = v@;
    let n = v.len();
    let mut v = v;
    let mut back: Vec<U> = Vec::new();
    while v.len() > 0
        invariant
            n == orig.len(),
            v@ == orig.take(v@.len() as int),
            v@.len() <= n,
            back@.len() == n - v@.len(),
            forall|k: int| 0 <= k < orig.len() ==> #[trigger] f.requires((orig[k],)),
            forall|j: int| 0 <= j < back@.len() ==> f.ensures((orig[n - 1 - j],), #[trigger] back@[j]),
        decreases v@.len(),
    {
        let ghost m = v@.len();
        let x = v.pop().unwrap();
        assert(x == orig[m - 1]);
        assert(v@ =~= orig.take(v@.len() as int));
        back.push(f(x));
    }
    let ghost rev = back@;
    let mut r: Vec<U> = Vec::new();
    while back.len() > 0
        invariant
            n == orig.len(),
            rev.len() == n,
            back@ == rev.take(back@.len() as int),
            back@.len() <= n,
            r@.len() == n - back@.len(),
            forall|j: int| 0 <= j < n ==> f.ensures((orig[n - 1 - j],), #[trigger] rev[j]),
            forall|k: int| 0 <= k < r@.len() ==> #[trigger] r@[k] == rev[n - 1 - k],
        decreases back@.len(),
    {
        let ghost m = back@.len();
        let y = back.pop().unwrap();
        assert(y == rev[m - 1]);
        assert(back@ =~= rev.take(back@.len() as int));
        r.push(y);
    }
    assert forall|k: int| 0 <= k < orig.len() implies f.ensures((orig[k],), #[trigger] r@[k]) by {
        assert(r@[k] == rev[n - 1 - k]);
        assert(n - 1 - (n - 1 - k) == k);
    }
    r
}

impl Sheaf<Term> {
    /// The sheaf that holds each node of `value` at its own place.
    pub fn from(value: &File) -> (r: Sheaf<Term>)
        ensures
            r.fits(*value),
            forall|k: int| 0 <= k < value.idents@.len() ==> #[trigger] r@.0[k] == Term::Ident(Ident(k as usize)),
            forall|k: int| 0 <= k < value.abstrs@.len() ==> #[trigger] r@.1[k] == Term::Abstr(Abstr(k as usize)),
            forall|k: int| 0 <= k < value.applys@.len() ==> #[trigger] r@.2[k] == Term::Apply(Apply(k as usize)),
    {
        let mut idents: Vec<Term> = Vec::new();
        let mut k: usize = 0;
        let n = graph_idents_len(&value.idents);
        while k < n
            invariant
                n == value.idents@.len(),
                k <= value.idents@.len(),
                idents@.len() == k,
                forall|j: int| 0 <= j < k ==> #[trigger] idents@[j] == Term::Ident(Ident(j as usize)),
            decreases value.idents@.len() - k,
        {
            idents.push(Term::Ident(Ident(k)));
            k = k + 1;
        }
        let mut abstrs: Vec<Term> = Vec::new();
        let mut k: usize = 0;
        let n = graph_abstrs_len(&value.abstrs);
        while k < n
            invariant
                n == value.abstrs@.len(),
                k <= value.abstrs@.len(),
                abstrs@.len() == k,
                forall|j: int| 0 <= j < k ==> #[trigger] abstrs@[j] == Term::Abstr(Abstr(j as usize)),
            decreases value.abstrs@.len() - k,
        {
            abstrs.push(Term::Abstr(Abstr(k)));
            k = k + 1;
        }
        let mut applys: Vec<Term> = Vec::new();
        let mut k: usize = 0;
        let n = graph_applys_len(&value.applys);
        while k < n
            invariant
                n == value.applys@.len(),
                k <= value.applys@.len(),
                applys@.len() == k,
                forall|j: int| 0 <= j < k ==> #[trigger] applys@[j] == Term::Apply(Apply(j as usize)),
            decreases value.applys@.len() - k,
        {
            applys.push(Term::Apply(Apply(k)));
            k = k + 1;
        }
        Sheaf { idents, abstrs, applys }
    }
}

} // verus!
