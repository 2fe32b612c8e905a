use vstd::prelude::*;

use crate::guard::{mark_get, marks, Guard};
use crate::solve::{self, pair_get, pairs};
use crate::text::{push_str, string_of};
use crate::types::split::{arrow_get, valid};
use crate::types::terms::arena::Arena;
use crate::types::{Arrow, File, Type};

verus! {

// ------------------------------------------------------------------------
// Names of definitions
// ------------------------------------------------------------------------

/// The capital letter at position `i` of the alphabet.
pub open spec fn letter(i: nat) -> char {
    (65 + i) as char
}

/// The name of the definition at position `indx`: the position in bijective
/// base 26 written with capital letters, `A` to `Z`, then `AA`, `AB`, ...
pub open spec fn letters(indx: nat) -> Seq<char>
    decreases indx,
{
    if indx >= 26 {
        letters((indx / 26 - 1) as nat).push(letter(indx % 26))
    } else {
        seq![letter(indx)]
    }
}

/// Distinct positions get distinct names.
pub proof fn lemma_letters_injective(i: nat, j: nat)
    requires
        letters(i) == letters(j),
    ensures
        i == j,
    decreases i,
{
    if i >= 26 && j >= 26 {
        let (li, lj) = (letters((i / 26 - 1) as nat), letters((j / 26 - 1) as nat));
        assert(letters(i).last() == letter(i % 26));
        assert(letters(j).last() == letter(j % 26));
        assert(li =~= letters(i).drop_last());
        assert(lj =~= letters(j).drop_last());
        lemma_letters_injective((i / 26 - 1) as nat, (j / 26 - 1) as nat);
        assert(li == lj);
        assert((i / 26 - 1) as nat == (j / 26 - 1) as nat);
        assert(i % 26 == j % 26);
        assert(i == 26 * (i / 26) + i % 26) by (nonlinear_arith);
        assert(j == 26 * (j / 26) + j % 26) by (nonlinear_arith);
    } else if i >= 26 {
        lemma_letters_len((i / 26 - 1) as nat);
        assert(letters(i).len() >= 2);
        assert(letters(j).len() == 1);
    } else if j >= 26 {
        lemma_letters_len((j / 26 - 1) as nat);
        assert(letters(j).len() >= 2);
        assert(letters(i).len() == 1);
    } else {
        assert(letters(i)[0] == letter(i));
        assert(letters(j)[0] == letter(j));
    }
}

/// The number that a name of capital letters spells in bijective base 26,
/// `A` standing for one and `Z` for twenty-six.
pub open spec fn spelled(name: Seq<char>) -> int
    decreases name.len(),
{
    if name.len() == 0 {
        0
    } else {
        spelled(name.drop_last()) * 26 + (name.last() as int - 64)
    }
}

/// Every name is made of capital letters and spells its position plus one
/// in bijective base 26.
pub proof fn lemma_letters_spell(i: nat)
    ensures
        letters(i).len() >= 1,
        forall|k: int| 0 <= k < letters(i).len() ==> 'A' <= #[trigger] letters(i)[k] <= 'Z',
        spelled(letters(i)) == i + 1,
    decreases i,
{
    lemma_letters_len(i);
    if i >= 26 {
        let q = (i / 26 - 1) as nat;
        lemma_letters_spell(q);
        let name = letters(i);
        assert(name.drop_last() =~= letters(q));
        assert(name.last() == letter(i % 26));
        assert(i == 26 * (i / 26) + i % 26) by (nonlinear_arith);
        assert((q + 1) * 26 == 26 * (i / 26)) by (nonlinear_arith)
            requires
                q + 1 == i / 26,
        ;
        assert forall|k: int| 0 <= k < name.len() implies 'A' <= #[trigger] name[k] <= 'Z' by {
            if k < name.len() - 1 {
                assert(name[k] == letters(q)[k]);
            }
        }
    } else {
        assert(spelled(letters(i).drop_last()) == 0) by {
            assert(letters(i).drop_last().len() == 0);
        }
    }
}

/// `a` comes before `b` in alphabetical order at the first place where
/// they differ.
pub open spec fn before(a: Seq<char>, b: Seq<char>) -> bool {
    exists|k: int| 0 <= k < a.len() && k < b.len() && a.take(k) == b.take(k) && #[trigger] a[k] < b[k]
}

/// Names of capital letters.
pub open spec fn capitals(name: Seq<char>) -> bool {
    forall|k: int| 0 <= k < name.len() ==> 'A' <= #[trigger] name[k] <= 'Z'
}

proof fn lemma_spelled_order(a: Seq<char>, b: Seq<char>)
    requires
        a.len() == b.len(),
        capitals(a),
        capitals(b),
    ensures
        spelled(a) == spelled(b) ==> a == b,
        spelled(a) < spelled(b) ==> before(a, b),
        0 <= spelled(a),
    decreases a.len(),
{
    if a.len() == 0 {
        assert(a =~= b);
    } else {
        let (a1, b1) = (a.drop_last(), b.drop_last());
        assert(capitals(a1) && capitals(b1)) by {
            assert forall|k: int| 0 <= k < a1.len() implies 'A' <= #[trigger] a1[k] <= 'Z' by {
                assert(a1[k] == a[k]);
            }
            assert forall|k: int| 0 <= k < b1.len() implies 'A' <= #[trigger] b1[k] <= 'Z' by {
                assert(b1[k] == b[k]);
            }
        }
        lemma_spelled_order(a1, b1);
        lemma_spelled_order(b1, a1);
        let n = a.len() - 1;
        let (sa, sb) = (spelled(a1), spelled(b1));
        let (x, y) = (a.last() as int - 64, b.last() as int - 64);
        assert('A' <= a[n] <= 'Z' && 'A' <= b[n] <= 'Z');
        assert(1 <= x <= 26 && 1 <= y <= 26);
        if sa == sb {
            assert(a1 == b1);
            if spelled(a) == spelled(b) {
                assert(x == y);
                assert(a =~= b) by {
                    assert forall|k: int| 0 <= k < a.len() implies a[k] == b[k] by {
                        if k < n {
                            assert(a[k] == a1[k] && b[k] == b1[k]);
                        }
                    }
                }
            }
            if spelled(a) < spelled(b) {
                assert(a.take(n) =~= a1);
                assert(b.take(n) =~= b1);
                assert(a[n] < b[n]);
            }
        } else if sa < sb {
            assert(26 * sa + x < 26 * sb + y) by (nonlinear_arith)
                requires
                    sa < sb,
                    1 <= x <= 26,
                    1 <= y <= 26,
            ;
            let k = choose|k: int| 0 <= k < a1.len() && k < b1.len() && a1.take(k) == b1.take(k) && #[trigger] a1[k]
                < b1[k];
            assert(a.take(k) =~= a1.take(k));
            assert(b.take(k) =~= b1.take(k));
            assert(a[k] == a1[k] && b[k] == b1[k]);
        } else {
            assert(26 * sb + y < 26 * sa + x) by (nonlinear_arith)
                requires
                    sb < sa,
                    1 <= x <= 26,
                    1 <= y <= 26,
            ;
        }
        assert(0 <= 26 * sa + x) by (nonlinear_arith)
            requires
                0 <= sa,
                1 <= x,
        ;
    }
}

proof fn lemma_letters_len_mono(i: nat, j: nat)
    requires
        i <= j,
    ensures
        letters(i).len() <= letters(j).len(),
    decreases i,
{
    lemma_letters_len(j);
    if i >= 26 {
        assert(i / 26 <= j / 26) by (nonlinear_arith)
            requires
                i <= j,
        ;
        lemma_letters_len_mono((i / 26 - 1) as nat, (j / 26 - 1) as nat);
    }
}

/// Names come in shortlex order: a later position gets a longer name, or a
/// name of the same length that comes later alphabetically.
pub proof fn lemma_letters_shortlex(i: nat, j: nat)
    requires
        i < j,
    ensures
        letters(i).len() < letters(j).len() || (letters(i).len() == letters(j).len() && before(
            letters(i),
            letters(j),
        )),
{
    lemma_letters_len_mono(i, j);
    lemma_letters_spell(i);
    lemma_letters_spell(j);
    if letters(i).len() == letters(j).len() {
        lemma_spelled_order(letters(i), letters(j));
    }
}

/// A name has at least one letter.
pub proof fn lemma_letters_len(i: nat)
    ensures
        letters(i).len() >= 1,
    decreases i,
{
    if i >= 26 {
        lemma_letters_len((i / 26 - 1) as nat);
    }
}

fn letter_at(i: usize) -> (c: char)
    requires
        i < 26,
    ensures
        c == letter(i as nat),
{
    let b: u8 = 65 + i as u8;
    b as char
}

// ------------------------------------------------------------------------
// The definitions to print
// ------------------------------------------------------------------------

/// The first position of `kind` in `indx`, if it occurs.
pub open spec fn position(indx: Seq<Type>, kind: Type) -> Option<nat> {
    if indx.contains(kind) {
        Some(
            (choose|i: int|
                0 <= i < indx.len() && indx[i] == kind && forall|j: int|
                    0 <= j < i ==> indx[j] != kind) as nat,
        )
    } else {
        None
    }
}

/// What searching from `kind` lists after `indx`, or `None` if it goes
/// deeper than `fuel`: a type already listed ends the search; a basic type
/// is listed; a function type is listed when `push` holds, and the search
/// goes on to its argument side, then its result side, each listed when its
/// side is marked.
pub open spec fn searched(
    arrows: Seq<(Type, Type)>,
    guard: Seq<(bool, bool)>,
    indx: Seq<Type>,
    kind: Type,
    push: bool,
    fuel: nat,
) -> Option<Seq<Type>>
    decreases fuel,
{
    if indx.contains(kind) {
        Some(indx)
    } else if fuel == 0 {
        None
    } else {
        match kind {
            Type::Basic(_) => Some(indx.push(kind)),
            Type::Arrow(a) => {
                let listed = if push {
                    indx.push(kind)
                } else {
                    indx
                };
                match searched(
                    arrows,
                    guard,
                    listed,
                    arrows[a.0 as int].0,
                    guard[a.0 as int].0,
                    (fuel - 1) as nat,
                ) {
                    Some(mid) => searched(
                        arrows,
                        guard,
                        mid,
                        arrows[a.0 as int].1,
                        guard[a.0 as int].1,
                        (fuel - 1) as nat,
                    ),
                    None => None,
                }
            },
        }
    }
}

/// No type occurs twice in the list.
pub open spec fn no_repeats(indx: Seq<Type>) -> bool {
    forall|i: int, j: int| 0 <= i < j < indx.len() ==> indx[i] != indx[j]
}

/// Where the search ends, it only appends to what was listed, and lists no
/// type twice: a type already listed leaves the list as it was, and a basic
/// type not yet listed is appended.
pub proof fn lemma_searched_appends(
    arrows: Seq<(Type, Type)>,
    guard: Seq<(bool, bool)>,
    indx: Seq<Type>,
    kind: Type,
    push: bool,
    fuel: nat,
)
    requires
        searched(arrows, guard, indx, kind, push, fuel) is Some,
    ensures
        ({
            let out = searched(arrows, guard, indx, kind, push, fuel).unwrap();
            &&& indx.len() <= out.len()
            &&& out.take(indx.len() as int) == indx
            &&& no_repeats(indx) ==> no_repeats(out)
            &&& indx.contains(kind) ==> out == indx
            &&& (kind is Basic && !indx.contains(kind)) ==> out == indx.push(kind)
        }),
    decreases fuel,
{
    let out = searched(arrows, guard, indx, kind, push, fuel).unwrap();
    if indx.contains(kind) {
        assert(out.take(indx.len() as int) =~= indx);
        return;
    }
    match kind {
        Type::Basic(_) => {
            assert(out.take(indx.len() as int) =~= indx);
            if no_repeats(indx) {
                assert forall|i: int, j: int| 0 <= i < j < out.len() implies out[i] != out[j] by {
                    if j == indx.len() {
                        assert(out[i] == indx[i]);
                    }
                }
            }
        },
        Type::Arrow(a) => {
            let listed = if push {
                indx.push(kind)
            } else {
                indx
            };
            let (c1, c2) = arrows[a.0 as int];
            let (p1, p2) = guard[a.0 as int];
            lemma_searched_appends(arrows, guard, listed, c1, p1, (fuel - 1) as nat);
            let mid = searched(arrows, guard, listed, c1, p1, (fuel - 1) as nat).unwrap();
            lemma_searched_appends(arrows, guard, mid, c2, p2, (fuel - 1) as nat);
            assert(out == searched(arrows, guard, mid, c2, p2, (fuel - 1) as nat).unwrap());
            if no_repeats(indx) {
                assert forall|i: int, j: int| 0 <= i < j < listed.len() implies listed[i] != listed[j] by {
                    if j == indx.len() {
                        assert(listed[i] == indx[i]);
                    }
                }
            }
            assert forall|i: int| 0 <= i < indx.len() implies out[i] == indx[i] by {
                assert(mid.take(listed.len() as int)[i] == listed[i]);
                assert(out.take(mid.len() as int)[i] == mid[i]);
                assert(listed[i] == indx[i]);
            }
            assert(out.take(indx.len() as int) =~= indx);
        },
    }
}

/// `text` inside `hats` pairs of square brackets.
pub open spec fn bracket(text: Seq<char>, hats: nat) -> Seq<char>
    decreases hats,
{
    if hats == 0 {
        text
    } else {
        seq!['['] + bracket(text, (hats - 1) as nat) + seq![']']
    }
}

/// The deepest nesting that the printing may reach.
pub open spec fn fuel() -> nat {
    usize::MAX as nat
}

/// The printing of the types: which types get a definition, in order.
pub struct Index<'a> {
    file: &'a File,
    tree: &'a Guard,
    hats: &'a solve::File,
    indx: Vec<Type>,
}

impl<'a> Index<'a> {
    /// The file of types.
    pub closed spec fn file(self) -> File {
        *self.file
    }

    /// The marks of the sides.
    pub closed spec fn tree(self) -> Guard {
        *self.tree
    }

    /// The hats.
    pub closed spec fn hats(self) -> solve::File {
        *self.hats
    }

    /// The types that get a name, in the order of their names.
    pub closed spec fn entries(self) -> Seq<Type> {
        self.indx@
    }

    /// The inputs fit together: the marks and the side variables cover the
    /// function types, the hats cover the variables, and every listed type
    /// stands for an entry of the tables.
    pub open spec fn fits(file: File, tree: Guard, hats: solve::File) -> bool {
        &&& file.wf()
        &&& marks(tree.guard).len() == file.arrows().len()
        &&& pairs(hats.vtype).len() == file.arrows().len()
        &&& forall|k: int|
            0 <= k < pairs(hats.vtype).len() ==> (#[trigger] pairs(hats.vtype)[k]).0.0
                < hats.solve@.len() && pairs(hats.vtype)[k].1.0 < hats.solve@.len()
        &&& hats.vterm.has(file.terms.origin)
        &&& hats.vterm.at(file.terms.origin).0 < hats.solve@.len()
    }

    /// The number of hats of a side of the function type `k`.
    pub open spec fn side_hats(self, k: nat, right: bool) -> nat {
        let v = if right {
            pairs(self.hats().vtype)[k as int].1
        } else {
            pairs(self.hats().vtype)[k as int].0
        };
        self.hats().solve@[v.0 as int] as nat
    }

    /// The text of `kind` with `hats` hats, on the left of an arrow when
    /// `left`, or `None` if the printing goes deeper than `fuel`: a listed
    /// type prints as its name; a function type that is not listed prints
    /// in full, in parentheses when it stands bare on the left of an arrow.
    pub open spec fn printed1(self, kind: Type, hats: nat, left: bool, fuel: nat) -> Option<Seq<char>>
        decreases fuel, 1nat,
    {
        match position(self.entries(), kind) {
            Some(p) => Some(bracket(letters(p), hats)),
            None => match kind {
                Type::Arrow(a) => match self.printed2(a.0 as nat, fuel) {
                    Some(t) => Some(
                        bracket(
                            if hats == 0 && left {
                                seq!['('] + t + seq![')']
                            } else {
                                t
                            },
                            hats,
                        ),
                    ),
                    None => None,
                },
                Type::Basic(_) => None,
            },
        }
    }

    /// The text of the function type `k`: its argument side, an arrow, and
    /// its result side, each with its hats.
    pub open spec fn printed2(self, k: nat, fuel: nat) -> Option<Seq<char>>
        decreases fuel, 0nat,
    {
        if fuel == 0 {
            None
        } else {
            let (kl, kr) = self.file().arrows()[k as int];
            match (
                self.printed1(kl, self.side_hats(k, false), true, (fuel - 1) as nat),
                self.printed1(kr, self.side_hats(k, true), false, (fuel - 1) as nat),
            ) {
                (Some(l), Some(r)) => Some(l + " => "@ + r),
                _ => None,
            }
        }
    }

    /// The definitions of the first `upto` listed types: one line for each
    /// function type, its name, `:=` and its text.
    pub open spec fn definitions(self, upto: nat) -> Option<Seq<char>>
        decreases upto,
    {
        if upto == 0 {
            Some(Seq::empty())
        } else {
            match self.definitions((upto - 1) as nat) {
                Some(d) => match self.entries()[upto - 1] {
                    Type::Basic(_) => Some(d),
                    Type::Arrow(a) => match self.printed2(a.0 as nat, fuel()) {
                        Some(t) => Some(d + letters((upto - 1) as nat) + " := "@ + t + "\n"@),
                        None => None,
                    },
                },
                None => None,
            }
        }
    }

    /// The whole text: the definitions, then the type of the term with the
    /// hats of the term.
    pub open spec fn text(self) -> Option<Seq<char>> {
        let origin = self.file().terms.origin;
        let hats = self.hats().solve@[self.hats().vterm.at(origin).0 as int] as nat;
        match (
            self.definitions(self.entries().len()),
            self.printed1(self.file().assoc.at(origin), hats, false, fuel()),
        ) {
            (Some(d), Some(o)) => Some(d + o),
            _ => None,
        }
    }

    /// The search from the type of the term ends.
    pub open spec fn listed(file: File, tree: Guard) -> Option<Seq<Type>> {
        searched(
            file.arrows(),
            marks(tree.guard),
            Seq::empty(),
            file.assoc.at(file.terms.origin),
            false,
            fuel(),
        )
    }
}

impl<'a> Index<'a> {
    /// Every listed type stands for an entry of the tables.
    pub open spec fn listed_valid(file: File, indx: Seq<Type>) -> bool {
        forall|i: int| 0 <= i < indx.len() ==> valid(file.basic_count(), file.arrows().len(), #[trigger] indx[i])
    }

    /// The name of the definition at position `indx`: `A` to `Z`, then `AA`,
    /// `AB`, and so on.
    pub fn print0(indx: usize) -> (r: String)
        ensures
            r@ == letters(indx as nat),
    {
        string_of(&name_of(indx))
    }

    /// Lists the types that the search from `kind` reaches, unless it goes
    /// deeper than `fuel`.
    fn search(&mut self, kind: Type, push: bool, fuel: usize) -> (ok: bool)
        requires
            Index::fits(*old(self).file, *old(self).tree, *old(self).hats),
            Index::listed_valid(*old(self).file, old(self).indx@),
            valid(old(self).file.basic_count(), old(self).file.arrows().len(), kind),
        ensures
            final(self).file == old(self).file,
            final(self).tree == old(self).tree,
            final(self).hats == old(self).hats,
            Index::listed_valid(*final(self).file, final(self).indx@),
            ok == searched(
                old(self).file.arrows(),
                marks(old(self).tree.guard),
                old(self).indx@,
                kind,
                push,
                fuel as nat,
            ) is Some,
            ok ==> final(self).indx@ == searched(
                old(self).file.arrows(),
                marks(old(self).tree.guard),
                old(self).indx@,
                kind,
                push,
                fuel as nat,
            ).unwrap(),
        decreases fuel,
    {
        let found = find(&self.indx, kind);
        if found.is_none() {
            if fuel == 0 {
                return false;
            }
            match kind {
                Type::Basic(_) => {
                    self.indx.push(kind);
                },
                Type::Arrow(arrow) => {
                    if push {
                        self.indx.push(kind);
                    }
                    let (l, r) = arrow_get(&self.file.arrow, arrow);
                    let (gl, gr) = mark_get(&self.tree.guard, arrow);
                    if !self.search(l, gl, fuel - 1) {
                        return false;
                    }
                    if !self.search(r, gr, fuel - 1) {
                        return false;
                    }
                },
            }
        }
        true
    }

    /// Lists the types that get a definition: those that the search from
    /// the type of the term reaches through a marked side, and the basic
    /// types.
    pub fn make(file: &'a File, tree: &'a Guard, hats: &'a solve::File) -> (r: Index<'a>)
        requires
            Index::fits(*file, *tree, *hats),
            Index::listed(*file, *tree) is Some,
        ensures
            r.file() == *file,
            r.tree() == *tree,
            r.hats() == *hats,
            r.entries() == Index::listed(*file, *tree).unwrap(),
            Index::listed_valid(*file, r.entries()),
            r.text() is Some,
    {
        let mut rslt = Index { file, tree, hats, indx: Vec::new() };
        proof {
            file.terms.lemma_wf_in_range();
        }
        let kind = *file.assoc.index(file.terms.origin);
        rslt.search(kind, false, usize::MAX);
        proof {
            rslt.lemma_listed_prints();
        }
        rslt
    }

    /// `make`, or `None` where the search from the type of the term does not
    /// end.
    pub fn try_make(file: &'a File, tree: &'a Guard, hats: &'a solve::File) -> (r: Option<Index<'a>>)
        requires
            Index::fits(*file, *tree, *hats),
        ensures
            r is Some <==> Index::listed(*file, *tree) is Some,
            r matches Some(x) ==> x.file() == *file && x.tree() == *tree && x.hats() == *hats
                && x.entries() == Index::listed(*file, *tree).unwrap() && Index::listed_valid(*file, x.entries())
                && x.text() is Some,
    {
        let mut rslt = Index { file, tree, hats, indx: Vec::new() };
        proof {
            file.terms.lemma_wf_in_range();
        }
        let kind = *file.assoc.index(file.terms.origin);
        if rslt.search(kind, false, usize::MAX) {
            proof {
                rslt.lemma_listed_prints();
            }
            Some(rslt)
        } else {
            None
        }
    }

    /// The text of `kind` with `hats` hats, unless it goes deeper than
    /// `fuel`.
    fn print1(&self, kind: Type, hats: usize, left: bool, fuel: usize) -> (r: Option<Vec<char>>)
        requires
            Index::fits(*self.file, *self.tree, *self.hats),
            Index::listed_valid(*self.file, self.indx@),
            valid(self.file.basic_count(), self.file.arrows().len(), kind),
        ensures
            match r {
                Some(t) => self.printed1(kind, hats as nat, left, fuel as nat) == Some(t@),
                None => self.printed1(kind, hats as nat, left, fuel as nat) is None,
            },
        decreases fuel, 1nat,
    {
        let base = match find(&self.indx, kind) {
            Some(indx) => name_of(indx),
            None => match kind {
                Type::Arrow(arrow) => match self.print2(arrow, fuel) {
                    Some(text) => if hats == 0 && left {
                        let mut paren: Vec<char> = Vec::new();
                        paren.push('(');
                        append(&mut paren, &text);
                        paren.push(')');
                        paren
                    } else {
                        text
                    },
                    None => {
                        return None;
                    },
                },
                Type::Basic(_) => {
                    return None;
                },
            },
        };
        Some(wrap(base, hats))
    }

    /// The text of the function type `arrow`, unless it goes deeper than
    /// `fuel`.
    fn print2(&self, arrow: Arrow, fuel: usize) -> (r: Option<Vec<char>>)
        requires
            Index::fits(*self.file, *self.tree, *self.hats),
            Index::listed_valid(*self.file, self.indx@),
            arrow.0 < self.file.arrows().len(),
        ensures
            match r {
                Some(t) => self.printed2(arrow.0 as nat, fuel as nat) == Some(t@),
                None => self.printed2(arrow.0 as nat, fuel as nat) is None,
            },
        decreases fuel, 0nat,
    {
        if fuel == 0 {
            return None;
        }
        let (kl, kr) = arrow_get(&self.file.arrow, arrow);
        let (hl, hr) = pair_get(&self.hats.vtype, arrow);
        let left = match self.print1(kl, self.hats.solve[hl.0], true, fuel - 1) {
            Some(text) => text,
            None => {
                return None;
            },
        };
        let right = match self.print1(kr, self.hats.solve[hr.0], false, fuel - 1) {
            Some(text) => text,
            None => {
                return None;
            },
        };
        let mut text = left;
        push_str(&mut text, " => ");
        append(&mut text, &right);
        Some(text)
    }

    /// The whole text, unless the printing goes too deep or meets a basic
    /// type without a name.
    fn render(&self) -> (r: Option<Vec<char>>)
        requires
            Index::fits(*self.file, *self.tree, *self.hats),
            Index::listed_valid(*self.file, self.indx@),
        ensures
            match r {
                Some(t) => self.text() == Some(t@),
                None => self.text() is None,
            },
    {
        proof {
            self.file.terms.lemma_wf_in_range();
        }
        let origin = self.file.terms.origin;
        let kind = *self.file.assoc.index(origin);
        let hats = self.hats.solve[self.hats.vterm.index(origin).0];
        let origin = self.print1(kind, hats, false, usize::MAX);
        let mut out: Vec<char> = Vec::new();
        let mut i: usize = 0;
        while i < self.indx.len()
            invariant
                Index::fits(*self.file, *self.tree, *self.hats),
                Index::listed_valid(*self.file, self.indx@),
                i <= self.indx@.len(),
                self.definitions(i as nat) == Some(out@),
            decreases self.indx@.len() - i,
        {
            if let Type::Arrow(arrow) = self.indx[i] {
                let text = match self.print2(arrow, usize::MAX) {
                    Some(text) => text,
                    None => {
                        proof {
                            self.lemma_definitions_none((i + 1) as nat, self.indx@.len() as nat);
                        }
                        return None;
                    },
                };
                let name = name_of(i);
                append(&mut out, &name);
                push_str(&mut out, " := ");
                append(&mut out, &text);
                push_str(&mut out, "\n");
            }
            i = i + 1;
        }
        match origin {
            Some(text) => {
                append(&mut out, &text);
                Some(out)
            },
            None => None,
        }
    }

    /// Definitions that fail on the way fail as a whole.
    proof fn lemma_definitions_none(self, i: nat, j: nat)
        requires
            self.definitions(i) is None,
            i <= j,
        ensures
            self.definitions(j) is None,
        decreases j,
    {
        if i < j {
            self.lemma_definitions_none(i, (j - 1) as nat);
        }
    }

    /// A search that ends within `fuel` steps only appends to what was
    /// listed, and the printing with the final list, given at least `big`
    /// steps, prints the type searched from and every function type that the
    /// search listed.
    proof fn lemma_search_prints(self, indx: Seq<Type>, kind: Type, push: bool, fuel: nat, big: nat)
        requires
            searched(self.file().arrows(), marks(self.tree().guard), indx, kind, push, fuel) is Some,
            searched(self.file().arrows(), marks(self.tree().guard), indx, kind, push, fuel).unwrap().len()
                <= self.entries().len(),
            searched(self.file().arrows(), marks(self.tree().guard), indx, kind, push, fuel).unwrap()
                == self.entries().take(
                searched(self.file().arrows(), marks(self.tree().guard), indx, kind, push, fuel).unwrap().len() as int,
            ),
            fuel <= big,
        ensures
            ({
                let out = searched(self.file().arrows(), marks(self.tree().guard), indx, kind, push, fuel).unwrap();
                &&& indx.len() <= out.len()
                &&& indx == out.take(indx.len() as int)
                &&& forall|h: nat, left: bool| #[trigger] self.printed1(kind, h, left, big) is Some
                &&& forall|i: int|
                    indx.len() <= i < out.len() ==> (#[trigger] out[i] matches Type::Arrow(a) ==> self.printed2(
                        a.0 as nat,
                        big,
                    ) is Some)
            }),
        decreases fuel,
    {
        let arrows = self.file().arrows();
        let guard = marks(self.tree().guard);
        let out = searched(arrows, guard, indx, kind, push, fuel).unwrap();
        let all = self.entries();
        if indx.contains(kind) {
            assert(out == indx);
            assert(indx =~= out.take(indx.len() as int));
            let j = choose|j: int| 0 <= j < indx.len() && indx[j] == kind;
            assert(all[j] == kind);
            assert(all.contains(kind));
        } else {
            match kind {
                Type::Basic(_) => {
                    assert(out == indx.push(kind));
                    assert(indx =~= out.take(indx.len() as int));
                    assert(out[indx.len() as int] == kind);
                    assert(all.take(out.len() as int)[indx.len() as int] == all[indx.len() as int]);
                    assert(all[indx.len() as int] == kind);
                    assert(all.contains(kind));
                },
                Type::Arrow(a) => {
                    let listed = if push {
                        indx.push(kind)
                    } else {
                        indx
                    };
                    let (l, r) = arrows[a.0 as int];
                    let (gl, gr) = guard[a.0 as int];
                    let mid = searched(arrows, guard, listed, l, gl, (fuel - 1) as nat).unwrap();
                    assert(out == searched(arrows, guard, mid, r, gr, (fuel - 1) as nat).unwrap());
                    self.lemma_search_prints(mid, r, gr, (fuel - 1) as nat, (big - 1) as nat);
                    self.lemma_search_prints(mid, r, gr, (fuel - 1) as nat, big);
                    assert(mid =~= all.take(mid.len() as int));
                    self.lemma_search_prints(listed, l, gl, (fuel - 1) as nat, (big - 1) as nat);
                    self.lemma_search_prints(listed, l, gl, (fuel - 1) as nat, big);
                    assert(listed =~= out.take(listed.len() as int));
                    assert(indx =~= out.take(indx.len() as int));
                    assert(self.printed2(a.0 as nat, big) is Some) by {
                        assert(self.printed1(l, self.side_hats(a.0 as nat, false), true, (big - 1) as nat) is Some);
                        assert(self.printed1(r, self.side_hats(a.0 as nat, true), false, (big - 1) as nat) is Some);
                    }
                    if push {
                        assert(out[indx.len() as int] == listed[indx.len() as int]);
                        assert(all.take(out.len() as int)[indx.len() as int] == all[indx.len() as int]);
                        assert(all[indx.len() as int] == kind);
                        assert(all.contains(kind));
                    }
                    assert forall|i: int| indx.len() <= i < out.len() implies (#[trigger] out[i] matches Type::Arrow(
                        b,
                    ) ==> self.printed2(b.0 as nat, big) is Some) by {
                        if i < listed.len() {
                            assert(out[i] == kind);
                        } else if i < mid.len() {
                            assert(out[i] == mid[i]);
                        }
                    }
                },
            }
        }
    }

    /// The definitions print where every listed function type prints.
    proof fn lemma_definitions_some(self, upto: nat)
        requires
            upto <= self.entries().len(),
            forall|i: int|
                0 <= i < upto ==> (#[trigger] self.entries()[i] matches Type::Arrow(a)
                    ==> self.printed2(a.0 as nat, fuel()) is Some),
        ensures
            self.definitions(upto) is Some,
        decreases upto,
    {
        if upto > 0 {
            self.lemma_definitions_some((upto - 1) as nat);
            assert(self.entries()[upto - 1] matches Type::Arrow(a) ==> self.printed2(a.0 as nat, fuel()) is Some);
        }
    }

    /// Where the search from the type of the term ends, the printing ends
    /// too, and every type that it meets has a name or prints in full.
    pub proof fn lemma_listed_prints(self)
        requires
            Index::listed(self.file(), self.tree()) == Some(self.entries()),
        ensures
            self.text() is Some,
    {
        let all = self.entries();
        let origin = self.file().terms.origin;
        let kind = self.file().assoc.at(origin);
        assert(all =~= all.take(all.len() as int));
        self.lemma_search_prints(Seq::empty(), kind, false, fuel(), fuel());
        let hats = self.hats().solve@[self.hats().vterm.at(origin).0 as int] as nat;
        assert(self.printed1(kind, hats, false, fuel()) is Some);
        self.lemma_definitions_some(all.len());
    }

    /// Prints the definitions of the listed function types, one per line,
    /// then the type of the term.
    pub fn prints(&self) -> (r: String)
        requires
            Index::fits(self.file(), self.tree(), self.hats()),
            Index::listed_valid(self.file(), self.entries()),
            self.text() is Some,
        ensures
            r@ == self.text().unwrap(),
    {
        let text = self.render().unwrap();
        string_of(&text)
    }
}

/// The first position of `kind` in `indx`.
fn find(indx: &Vec<Type>, kind: Type) -> (r: Option<usize>)
    ensures
        match r {
            Some(p) => position(indx@, kind) == Some(p as nat),
            None => position(indx@, kind) is None,
        },
{
    let mut i: usize = 0;
    while i < indx.len()
        invariant
            i <= indx@.len(),
            forall|j: int| 0 <= j < i ==> indx@[j] != kind,
        decreases indx@.len() - i,
    {
        if indx[i] == kind {
            proof {
                let w = choose|x: int|
                    0 <= x < indx@.len() && indx@[x] == kind && forall|j: int|
                        0 <= j < x ==> indx@[j] != kind;
                assert(0 <= i < indx@.len() && indx@[i as int] == kind && forall|j: int|
                    0 <= j < i ==> indx@[j] != kind);
                if w < i {
                } else if w > i {
                    assert(indx@[i as int] != kind);
                }
            }
            return Some(i);
        }
        i = i + 1;
    }
    None
}

/// The letters of the name of the definition at position `indx`.
fn name_of(indx: usize) -> (r: Vec<char>)
    ensures
        r@ == letters(indx as nat),
    decreases indx,
{
    if indx >= 26 {
        let mut text = name_of(indx / 26 - 1);
        text.push(letter_at(indx % 26));
        text
    } else {
        let mut text: Vec<char> = Vec::new();
        text.push(letter_at(indx));
        text
    }
}

/// Appends `text` to `out`.
fn append(out: &mut Vec<char>, text: &Vec<char>)
    ensures
        final(out)@ == old(out)@ + text@,
{
    let mut i: usize = 0;
    while i < text.len()
        invariant
            i <= text@.len(),
            out@ == old(out)@ + text@.take(i as int),
        decreases text@.len() - i,
    {
        out.push(text[i]);
        i = i + 1;
        assert(out@ =~= old(out)@ + text@.take(i as int));
    }
    assert(text@.take(text@.len() as int) =~= text@);
}

/// Puts `hats` pairs of square brackets round `text`.
fn wrap(text: Vec<char>, hats: usize) -> (r: Vec<char>)
    ensures
        r@ == bracket(text@, hats as nat),
{
    let mut text = text;
    let ghost base = text@;
    let mut i: usize = 0;
    while i < hats
        invariant
            i <= hats,
            text@ == bracket(base, i as nat),
        decreases hats - i,
    {
        let mut next: Vec<char> = Vec::new();
        next.push('[');
        append(&mut next, &text);
        next.push(']');
        text = next;
        i = i + 1;
        assert(text@ =~= bracket(base, i as nat));
    }
    text
}


// ------------------------------------------------------------------------
// When the search ends
// ------------------------------------------------------------------------

/// The number of function types below `n` that `indx` does not list.
pub open spec fn unlisted(indx: Seq<Type>, n: nat) -> nat
    decreases n,
{
    if n == 0 {
        0
    } else {
        unlisted(indx, (n - 1) as nat) + if indx.contains(Type::Arrow(Arrow((n - 1) as usize))) {
            0nat
        } else {
            1nat
        }
    }
}

/// Every unmarked side that is a function type has a lower `rank` than the
/// function type it belongs to: the unmarked sides close no cycle.
pub open spec fn unmarked_descend(arrows: Seq<(Type, Type)>, guard: Seq<(bool, bool)>, rank: Seq<nat>) -> bool {
    &&& guard.len() == arrows.len()
    &&& rank.len() == arrows.len()
    &&& forall|a: int| 0 <= a < arrows.len() ==> #[trigger] rank[a] < arrows.len()
    &&& forall|a: int|
        0 <= a < arrows.len() ==> descends(arrows[a].0, (#[trigger] guard[a]).0, rank, rank[a]) && descends(
            arrows[a].1,
            guard[a].1,
            rank,
            rank[a],
        )
}

/// A side that is unmarked and a function type has a rank below `r`.
pub open spec fn descends(side: Type, marked: bool, rank: Seq<nat>, r: nat) -> bool {
    match side {
        Type::Arrow(c) => marked || rank[c.0 as int] < r,
        Type::Basic(_) => true,
    }
}

/// How deep the search from `kind` may go while `u` function types are
/// still unlisted.
pub open spec fn depth_bound(n: nat, u: nat, rank: Seq<nat>, kind: Type, push: bool) -> nat {
    let k = n + 2;
    if push {
        2 * k * u + 1
    } else {
        match kind {
            Type::Arrow(a) => 2 * k * u + k + rank[a.0 as int] + 1,
            Type::Basic(_) => 1,
        }
    }
}

proof fn lemma_unlisted_le(indx: Seq<Type>, m: nat)
    ensures
        unlisted(indx, m) <= m,
    decreases m,
{
    if m > 0 {
        lemma_unlisted_le(indx, (m - 1) as nat);
    }
}

proof fn lemma_unlisted_mono(indx: Seq<Type>, more: Seq<Type>, m: nat)
    requires
        forall|x: Type| indx.contains(x) ==> more.contains(x),
    ensures
        unlisted(more, m) <= unlisted(indx, m),
    decreases m,
{
    if m > 0 {
        lemma_unlisted_mono(indx, more, (m - 1) as nat);
    }
}

proof fn lemma_unlisted_push(indx: Seq<Type>, a: nat, m: nat)
    requires
        a < m <= usize::MAX,
        !indx.contains(Type::Arrow(Arrow(a as usize))),
    ensures
        unlisted(indx.push(Type::Arrow(Arrow(a as usize))), m) + 1 == unlisted(indx, m),
    decreases m,
{
    let more = indx.push(Type::Arrow(Arrow(a as usize)));
    assert(more.contains(Type::Arrow(Arrow(a as usize)))) by {
        assert(more[indx.len() as int] == Type::Arrow(Arrow(a as usize)));
    }
    assert forall|y: Type| indx.contains(y) implies more.contains(y) by {
        let i = choose|i: int| 0 <= i < indx.len() && indx[i] == y;
        assert(more[i] == y);
    }
    let x = Type::Arrow(Arrow((m - 1) as usize));
    if m - 1 > a {
        lemma_unlisted_push(indx, a, (m - 1) as nat);
        assert(more.contains(x) == indx.contains(x)) by {
            if more.contains(x) {
                let i = choose|i: int| 0 <= i < more.len() && more[i] == x;
                assert(indx[i] == x);
            }
            if indx.contains(x) {
                let i = choose|i: int| 0 <= i < indx.len() && indx[i] == x;
                assert(more[i] == x);
            }
        }
    } else {
        assert forall|y: Type| more.contains(y) && y != Type::Arrow(Arrow(a as usize)) implies indx.contains(y) by {
            let i = choose|i: int| 0 <= i < more.len() && more[i] == y;
            assert(indx[i] == y);
        }
        lemma_unlisted_same(indx, more, a as usize, (m - 1) as nat);
    }
}

proof fn lemma_unlisted_same(indx: Seq<Type>, more: Seq<Type>, a: usize, m: nat)
    requires
        m <= a,
        forall|x: Type| indx.contains(x) ==> more.contains(x),
        forall|y: Type| more.contains(y) && y != Type::Arrow(Arrow(a)) ==> indx.contains(y),
    ensures
        unlisted(more, m) == unlisted(indx, m),
    decreases m,
{
    if m > 0 {
        lemma_unlisted_same(indx, more, a, (m - 1) as nat);
        assert(Type::Arrow(Arrow((m - 1) as usize)) != Type::Arrow(Arrow(a)));
    }
}

/// The search from `kind` ends within `fuel` steps when the unmarked sides
/// close no cycle and `fuel` covers the bound, and it keeps what was listed.
proof fn lemma_search_within(
    arrows: Seq<(Type, Type)>,
    guard: Seq<(bool, bool)>,
    rank: Seq<nat>,
    indx: Seq<Type>,
    kind: Type,
    push: bool,
    fuel: nat,
)
    requires
        unmarked_descend(arrows, guard, rank),
        arrows.len() <= usize::MAX,
        forall|j: int|
            0 <= j < arrows.len() ==> (#[trigger] arrows[j].0 matches Type::Arrow(c) ==> c.0 < arrows.len())
                && (arrows[j].1 matches Type::Arrow(c) ==> c.0 < arrows.len()),
        kind matches Type::Arrow(a) ==> a.0 < arrows.len(),
        fuel >= depth_bound(arrows.len(), unlisted(indx, arrows.len()), rank, kind, push),
    ensures
        searched(arrows, guard, indx, kind, push, fuel) matches Some(out) && forall|x: Type|
            indx.contains(x) ==> out.contains(x),
    decreases fuel,
{
    let n = arrows.len();
    let k = n + 2;
    let u = unlisted(indx, n);
    if indx.contains(kind) {
        return;
    }
    match kind {
        Type::Basic(_) => {
            assert forall|x: Type| indx.contains(x) implies indx.push(kind).contains(x) by {
                let i = choose|i: int| 0 <= i < indx.len() && indx[i] == x;
                assert(indx.push(kind)[i] == x);
            }
        },
        Type::Arrow(a) => {
            let listed = if push {
                indx.push(kind)
            } else {
                indx
            };
            assert forall|x: Type| indx.contains(x) implies listed.contains(x) by {
                let i = choose|i: int| 0 <= i < indx.len() && indx[i] == x;
                assert(listed[i] == x);
            }
            let u1 = unlisted(listed, n);
            if push {
                lemma_unlisted_push(indx, a.0 as nat, n);
                assert(2 * k * u1 + 2 * k == 2 * k * u) by (nonlinear_arith)
                    requires
                        u1 + 1 == u,
                ;
            }
            let (c1, c2) = arrows[a.0 as int];
            let (p1, p2) = guard[a.0 as int];
            assert(rank[a.0 as int] < n);
            assert(fuel - 1 >= depth_bound(n, u1, rank, c1, p1)) by {
                if let Type::Arrow(c) = c1 {
                    assert(rank[c.0 as int] < n);
                }
            }
            lemma_search_within(arrows, guard, rank, listed, c1, p1, (fuel - 1) as nat);
            let mid = searched(arrows, guard, listed, c1, p1, (fuel - 1) as nat).unwrap();
            lemma_unlisted_mono(listed, mid, n);
            let u2 = unlisted(mid, n);
            assert(2 * k * u2 <= 2 * k * u1) by (nonlinear_arith)
                requires
                    u2 <= u1,
            ;
            assert(fuel - 1 >= depth_bound(n, u2, rank, c2, p2)) by {
                if let Type::Arrow(c) = c2 {
                    assert(rank[c.0 as int] < n);
                }
            }
            lemma_search_within(arrows, guard, rank, mid, c2, p2, (fuel - 1) as nat);
        },
    }
}

impl<'a> Index<'a> {
    /// The search from the type of the term ends whenever the unmarked sides
    /// of the function types close no cycle (as far as the machine's depth
    /// allows): the printing then has its definitions.
    pub proof fn lemma_search_ends(file: File, tree: Guard, rank: Seq<nat>)
        requires
            file.in_tables(),
            valid(file.basic_count(), file.arrows().len(), file.assoc.at(file.terms.origin)),
            unmarked_descend(file.arrows(), marks(tree.guard), rank),
            2 * (file.arrows().len() + 2) * (file.arrows().len() + 2) <= usize::MAX,
        ensures
            Index::listed(file, tree) is Some,
    {
        let arrows = file.arrows();
        let n = arrows.len();
        let k = n + 2;
        let kind = file.assoc.at(file.terms.origin);
        crate::guard::lemma_wf_inside(file);
        lemma_unlisted_le(Seq::empty(), n);
        let u = unlisted(Seq::empty(), n);
        if let Type::Arrow(a) = kind {
            assert(rank[a.0 as int] < n);
        }
        assert(2 * k * u + k + n + 1 <= 2 * k * k) by (nonlinear_arith)
            requires
                u <= n,
                k == n + 2,
        ;
        lemma_search_within(arrows, marks(tree.guard), rank, Seq::empty(), kind, false, fuel());
    }
}


impl<'a> Index<'a> {
    /// Hats wrap the whole text of a type, whatever its kind: a type with
    /// `h` hats prints as the bare text of that type (its name if it is
    /// listed, its arrow without parentheses if not) inside `h` pairs of
    /// square brackets.
    pub proof fn lemma_hats_wrap(self, kind: Type, h: nat, left: bool, fuel: nat)
        requires
            h > 0,
        ensures
            match self.printed1(kind, 0, false, fuel) {
                Some(t) => self.printed1(kind, h, left, fuel) == Some(bracket(t, h)),
                None => self.printed1(kind, h, left, fuel) is None,
            },
    {
    }

    /// Standing bare on the left of an arrow only puts an unlisted function
    /// type in parentheses: a listed type prints as its name wherever it
    /// stands.
    pub proof fn lemma_left_parens(self, kind: Type, fuel: nat)
        ensures
            match self.printed1(kind, 0, false, fuel) {
                Some(t) => self.printed1(kind, 0, true, fuel) == Some(
                    if kind is Arrow && position(self.entries(), kind) is None {
                        seq!['('] + t + seq![')']
                    } else {
                        t
                    },
                ),
                None => self.printed1(kind, 0, true, fuel) is None,
            },
    {
    }
}

} // verus!
