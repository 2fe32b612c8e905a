use vstd::prelude::*;

use typed_index_collections::TiVec;

use super::arena::Arena;
use super::Syntax;

verus! {

/// Position of a name in the arena of names.
#[derive(Clone, Copy)]
pub struct Ident(pub usize);

/// Position of an abstraction in the arena of abstractions.
#[derive(Clone, Copy)]
pub struct Abstr(pub usize);

/// Position of an application in the arena of applications.
#[derive(Clone, Copy)]
pub struct Apply(pub usize);

/// A node of the parsed term.
#[derive(Clone, Copy)]
pub enum Term {
    Ident(Ident),
    Abstr(Abstr),
    Apply(Apply),
}

/// The parsed term, stored in three arenas.
///
/// `idents` holds the spelled names, `abstrs` the bound name and body of each
/// abstraction, `applys` the function and argument of each application.
pub struct File {
    pub idents: TiVec<Ident, Vec<u8>>,
    pub abstrs: TiVec<Abstr, (Ident, Term)>,
    pub applys: TiVec<Apply, (Term, Term)>,
    pub origin: Term,
}

impl From<usize> for Ident {
    fn from(value: usize) -> (r: Ident)
        ensures
            r.0 == value,
    {
        Ident(value)
    }
}

impl vstd::std_specs::convert::FromSpecImpl<usize> for Ident {
    open spec fn obeys_from_spec() -> bool {
        true
    }

    open spec fn from_spec(v: usize) -> Ident {
        Ident(v)
    }
}

impl From<Ident> for usize {
    fn from(value: Ident) -> (r: usize)
        ensures
            r == value.0,
    {
        value.0
    }
}

impl vstd::std_specs::convert::FromSpecImpl<Ident> for usize {
    open spec fn obeys_from_spec() -> bool {
        true
    }

    open spec fn from_spec(v: Ident) -> usize {
        v.0
    }
}

impl From<usize> for Abstr {
    fn from(value: usize) -> (r: Abstr)
        ensures
            r.0 == value,
    {
        Abstr(value)
    }
}

impl vstd::std_specs::convert::FromSpecImpl<usize> for Abstr {
    open spec fn obeys_from_spec() -> bool {
        true
    }

    open spec fn from_spec(v: usize) -> Abstr {
        Abstr(v)
    }
}

impl From<Abstr> for usize {
    fn from(value: Abstr) -> (r: usize)
        ensures
            r == value.0,
    {
        value.0
    }
}

impl vstd::std_specs::convert::FromSpecImpl<Abstr> for usize {
    open spec fn obeys_from_spec() -> bool {
        true
    }

    open spec fn from_spec(v: Abstr) -> usize {
        v.0
    }
}

impl From<usize> for Apply {
    fn from(value: usize) -> (r: Apply)
        ensures
            r.0 == value,
    {
        Apply(value)
    }
}

impl vstd::std_specs::convert::FromSpecImpl<usize> for Apply {
    open spec fn obeys_from_spec() -> bool {
        true
    }

    open spec fn from_spec(v: usize) -> Apply {
        Apply(v)
    }
}

impl From<Apply> for usize {
    fn from(value: Apply) -> (r: usize)
        ensures
            r == value.0,
    {
        value.0
    }
}

impl vstd::std_specs::convert::FromSpecImpl<Apply> for usize {
    open spec fn obeys_from_spec() -> bool {
        true
    }

    open spec fn from_spec(v: Apply) -> usize {
        v.0
    }
}

/// A name for the spelled names of a parsed term, in the order of their positions.
pub uninterp spec fn spellings(t: TiVec<Ident, Vec<u8>>) -> Seq<Vec<u8>>;

impl Arena<Vec<u8>> for TiVec<Ident, Vec<u8>> {
    open spec fn view(&self) -> Seq<Vec<u8>> {
        spellings(*self)
    }
}

/// `TiVec::new`: claimed to give an empty arena.
#[verifier::external_body]
pub(crate) fn spellings_new() -> (t: TiVec<Ident, Vec<u8>>)
    ensures
        spellings(t) == Seq::<Vec<u8>>::empty(),
{
    TiVec::new()
}

/// `TiVec::push_and_get_key`: claimed to append the entry and to give
/// its position, the former number of entries.
#[verifier::external_body]
pub(crate) fn spellings_push(t: &mut TiVec<Ident, Vec<u8>>, value: Vec<u8>) -> (k: Ident)
    ensures
        spellings(*final(t)) == spellings(*old(t)).push(value),
        k.0 == spellings(*old(t)).len(),
{
    t.push_and_get_key(value)
}

/// Indexing by a key: claimed to give the entry at that position.
#[verifier::external_body]
pub(crate) fn spellings_get(t: &TiVec<Ident, Vec<u8>>, k: Ident) -> (v: &Vec<u8>)
    requires
        k.0 < spellings(*t).len(),
    ensures
        *v == spellings(*t)[k.0 as int],
{
    &t[k]
}



/// `TiVec::len`: claimed to give the number of entries.
#[verifier::external_body]
fn spellings_len(t: &TiVec<Ident, Vec<u8>>) -> (n: usize)
    ensures
        n == spellings(*t).len(),
{
    t.len()
}
/// `TiVec::truncate` to a length no greater than the current one: claimed to
/// keep the first `len` entries and drop the rest.
#[verifier::external_body]
fn spellings_truncate(t: &mut TiVec<Ident, Vec<u8>>, len: usize)
    requires
        len <= spellings(*old(t)).len(),
    ensures
        spellings(*final(t)) == spellings(*old(t)).subrange(0, len as int),
{
    t.truncate(len);
}

/// A name for the bound names and bodies of the abstractions of a parsed term, in the order of their positions.
pub uninterp spec fn parsed_abstrs(t: TiVec<Abstr, (Ident, Term)>) -> Seq<(Ident, Term)>;

impl Arena<(Ident, Term)> for TiVec<Abstr, (Ident, Term)> {
    open spec fn view(&self) -> Seq<(Ident, Term)> {
        parsed_abstrs(*self)
    }
}

/// `TiVec::new`: claimed to give an empty arena.
#[verifier::external_body]
pub(crate) fn parsed_abstrs_new() -> (t: TiVec<Abstr, (Ident, Term)>)
    ensures
        parsed_abstrs(t) == Seq::<(Ident, Term)>::empty(),
{
    TiVec::new()
}

/// `TiVec::push_and_get_key`: claimed to append the entry and to give
/// its position, the former number of entries.
#[verifier::external_body]
pub(crate) fn parsed_abstrs_push(t: &mut TiVec<Abstr, (Ident, Term)>, value: (Ident, Term)) -> (k: Abstr)
    ensures
        parsed_abstrs(*final(t)) == parsed_abstrs(*old(t)).push(value),
        k.0 == parsed_abstrs(*old(t)).len(),
{
    t.push_and_get_key(value)
}

/// Indexing by a key: claimed to give the entry at that position.
#[verifier::external_body]
pub(crate) fn parsed_abstrs_get(t: &TiVec<Abstr, (Ident, Term)>, k: Abstr) -> (v: (Ident, Term))
    requires
        k.0 < parsed_abstrs(*t).len(),
    ensures
        v == parsed_abstrs(*t)[k.0 as int],
{
    t[k]
}



/// `TiVec::len`: claimed to give the number of entries.
#[verifier::external_body]
fn parsed_abstrs_len(t: &TiVec<Abstr, (Ident, Term)>) -> (n: usize)
    ensures
        n == parsed_abstrs(*t).len(),
{
    t.len()
}
/// `TiVec::truncate` to a length no greater than the current one: claimed to
/// keep the first `len` entries and drop the rest.
#[verifier::external_body]
fn parsed_abstrs_truncate(t: &mut TiVec<Abstr, (Ident, Term)>, len: usize)
    requires
        len <= parsed_abstrs(*old(t)).len(),
    ensures
        parsed_abstrs(*final(t)) == parsed_abstrs(*old(t)).subrange(0, len as int),
{
    t.truncate(len);
}

/// A name for the functions and arguments of the applications of a parsed term, in the order of their positions.
pub uninterp spec fn parsed_applys(t: TiVec<Apply, (Term, Term)>) -> Seq<(Term, Term)>;

impl Arena<(Term, Term)> for TiVec<Apply, (Term, Term)> {
    open spec fn view(&self) -> Seq<(Term, Term)> {
        parsed_applys(*self)
    }
}

/// `TiVec::new`: claimed to give an empty arena.
#[verifier::external_body]
pub(crate) fn parsed_applys_new() -> (t: TiVec<Apply, (Term, Term)>)
    ensures
        parsed_applys(t) == Seq::<(Term, Term)>::empty(),
{
    TiVec::new()
}

/// `TiVec::push_and_get_key`: claimed to append the entry and to give
/// its position, the former number of entries.
#[verifier::external_body]
pub(crate) fn parsed_applys_push(t: &mut TiVec<Apply, (Term, Term)>, value: (Term, Term)) -> (k: Apply)
    ensures
        parsed_applys(*final(t)) == parsed_applys(*old(t)).push(value),
        k.0 == parsed_applys(*old(t)).len(),
{
    t.push_and_get_key(value)
}

/// Indexing by a key: claimed to give the entry at that position.
#[verifier::external_body]
pub(crate) fn parsed_applys_get(t: &TiVec<Apply, (Term, Term)>, k: Apply) -> (v: (Term, Term))
    requires
        k.0 < parsed_applys(*t).len(),
    ensures
        v == parsed_applys(*t)[k.0 as int],
{
    t[k]
}



/// `TiVec::len`: claimed to give the number of entries.
#[verifier::external_body]
fn parsed_applys_len(t: &TiVec<Apply, (Term, Term)>) -> (n: usize)
    ensures
        n == parsed_applys(*t).len(),
{
    t.len()
}
/// `TiVec::truncate` to a length no greater than the current one: claimed to
/// keep the first `len` entries and drop the rest.
#[verifier::external_body]
fn parsed_applys_truncate(t: &mut TiVec<Apply, (Term, Term)>, len: usize)
    requires
        len <= parsed_applys(*old(t)).len(),
    ensures
        parsed_applys(*final(t)) == parsed_applys(*old(t)).subrange(0, len as int),
{
    t.truncate(len);
}

/// Why a text is not a term.
#[derive(Clone, Copy)]
pub enum ParseError {
    /// No term starts at the beginning of the text.
    NoTerm,
    /// A term ends at this byte offset, but the text goes on.
    Trailing(usize),
}

// ------------------------------------------------------------------------
// The grammar
// ------------------------------------------------------------------------

/// ASCII white space: space, tab, line feed, form feed, carriage return.
pub open spec fn is_space(b: u8) -> bool {
    b == 32 || b == 9 || b == 10 || b == 12 || b == 13
}

/// First byte of a name: an ASCII letter or `_`.
pub open spec fn is_name_head(b: u8) -> bool {
    (65 <= b <= 90) || (97 <= b <= 122) || b == 95
}

/// Later bytes of a name: an ASCII letter, digit or `_`.
pub open spec fn is_name_tail(b: u8) -> bool {
    is_name_head(b) || (48 <= b <= 57)
}

/// The offset after the white space that starts at `i`.
pub open spec fn skip_spaces(s: Seq<u8>, i: int) -> int
    decreases s.len() - i,
{
    if 0 <= i < s.len() && is_space(s[i]) {
        skip_spaces(s, i + 1)
    } else {
        i
    }
}

/// The offset after the name bytes that start at `i`.
pub open spec fn name_end(s: Seq<u8>, i: int) -> int
    decreases s.len() - i,
{
    if 0 <= i < s.len() && is_name_tail(s[i]) {
        name_end(s, i + 1)
    } else {
        i
    }
}

/// The end of the name that starts exactly at `i`, if one does.
pub open spec fn parse_name(s: Seq<u8>, i: int) -> Option<int> {
    if 0 <= i < s.len() && is_name_head(s[i]) {
        Some(name_end(s, i + 1))
    } else {
        None
    }
}

pub proof fn lemma_skip_spaces(s: Seq<u8>, i: int)
    ensures
        i <= skip_spaces(s, i),
        0 <= i <= s.len() ==> skip_spaces(s, i) <= s.len(),
    decreases s.len() - i,
{
    if 0 <= i < s.len() && is_space(s[i]) {
        lemma_skip_spaces(s, i + 1);
    }
}

pub proof fn lemma_name_end(s: Seq<u8>, i: int)
    ensures
        i <= name_end(s, i),
        0 <= i <= s.len() ==> name_end(s, i) <= s.len(),
    decreases s.len() - i,
{
    if 0 <= i < s.len() && is_name_tail(s[i]) {
        lemma_name_end(s, i + 1);
    }
}

/// `term := name "=>" term | block block*`, the first alternative tried
/// first; a sequence of blocks applies them from the left.
pub open spec fn parse_term(s: Seq<u8>, i: int) -> Option<(Syntax, int)>
    decreases s.len() - i, 3nat,
{
    match parse_abstr(s, i) {
        Some(r) => Some(r),
        None => parse_apply(s, i),
    }
}

/// `name "=>" term`, white space allowed around the name.
pub open spec fn parse_abstr(s: Seq<u8>, i: int) -> Option<(Syntax, int)>
    decreases s.len() - i, 2nat,
{
    let j = skip_spaces(s, i);
    match parse_name(s, j) {
        None => None,
        Some(k) => {
            let m = skip_spaces(s, k);
            if 0 <= i && 0 <= m && m + 1 < s.len() && s[m] == 61 && s[m + 1] == 62 {
                proof {
                    lemma_skip_spaces(s, i);
                    lemma_name_end(s, j + 1);
                    lemma_skip_spaces(s, k);
                }
                match parse_term(s, m + 2) {
                    Some((body, e)) => Some(
                        (Syntax::Lam(s.subrange(j, k), Box::new(body)), e),
                    ),
                    None => None,
                }
            } else {
                None
            }
        },
    }
}

/// `name | "(" term ")"`, white space allowed around it.
pub open spec fn parse_block(s: Seq<u8>, i: int) -> Option<(Syntax, int)>
    decreases s.len() - i, 0nat,
{
    let j = skip_spaces(s, i);
    match parse_name(s, j) {
        Some(k) => Some((Syntax::Var(s.subrange(j, k)), skip_spaces(s, k))),
        None => {
            if 0 <= i && 0 <= j < s.len() && s[j] == 40 {
                proof {
                    lemma_skip_spaces(s, i);
                }
                match parse_term(s, j + 1) {
                    Some((t, e)) => {
                        if 0 <= e < s.len() && s[e] == 41 {
                            Some((t, skip_spaces(s, e + 1)))
                        } else {
                            None
                        }
                    },
                    None => None,
                }
            } else {
                None
            }
        },
    }
}

/// `block block*`: the first block applied to each later one in turn.
pub open spec fn parse_apply(s: Seq<u8>, i: int) -> Option<(Syntax, int)>
    decreases s.len() - i, 2nat,
{
    match parse_block(s, i) {
        Some((f, j)) => {
            if i < j <= s.len() {
                Some(parse_args(s, j, f))
            } else {
                None
            }
        },
        None => None,
    }
}

/// The blocks that follow `acc` from `i` on, applied to it from the left.
pub open spec fn parse_args(s: Seq<u8>, i: int, acc: Syntax) -> (Syntax, int)
    decreases s.len() - i, 1nat,
{
    match parse_block(s, i) {
        Some((x, k)) => {
            if i < k <= s.len() {
                parse_args(s, k, Syntax::App(Box::new(acc), Box::new(x)))
            } else {
                (acc, i)
            }
        },
        None => (acc, i),
    }
}

/// The term that the whole text spells, if it spells one.
pub open spec fn parse_text(s: Seq<u8>) -> Option<Syntax> {
    match parse_term(s, 0) {
        Some((t, e)) => if e == s.len() {
            Some(t)
        } else {
            None
        },
        None => None,
    }
}

/// An ASCII letter, an ASCII digit or `_`.
pub open spec fn word_byte(b: u8) -> bool {
    (48 <= b && b <= 57) || (65 <= b && b <= 90) || (97 <= b && b <= 122) || b == 95
}

/// A name: a letter or `_` first, then any letters, digits or `_`.
pub open spec fn is_name(n: Seq<u8>) -> bool {
    &&& n.len() >= 1
    &&& word_byte(n[0]) && !(48 <= n[0] && n[0] <= 57)
    &&& forall|k: int| 0 <= k < n.len() ==> word_byte(#[trigger] n[k])
}

proof fn lemma_name_end_at(s: Seq<u8>, i: int, e: int)
    requires
        0 <= i <= e <= s.len(),
        forall|k: int| i <= k < e ==> is_name_tail(#[trigger] s[k]),
        e == s.len() || !is_name_tail(s[e]),
    ensures
        name_end(s, i) == e,
    decreases e - i,
{
    if i < e {
        lemma_name_end_at(s, i + 1, e);
    }
}

/// Every name, digits and all, binds itself: `n => n` is read as the
/// abstraction of `n` whose body is the occurrence of `n`.
pub proof fn lemma_names_bind(n: Seq<u8>)
    requires
        is_name(n),
    ensures
        parse_text(n + seq![61u8, 62u8] + n) == Some(Syntax::Lam(n, Box::new(Syntax::Var(n)))),
{
    let s = n + seq![61u8, 62u8] + n;
    let l = n.len() as int;
    assert(s.len() == 2 * l + 2);
    assert forall|k: int| 0 <= k < l implies s[k] == n[k] && s[l + 2 + k] == n[k] by {}
    assert(s[l] == 61u8 && s[l + 1] == 62u8);
    assert forall|k: int| 1 <= k < l implies is_name_tail(#[trigger] s[k]) by {
        assert(word_byte(n[k]));
    }
    assert forall|k: int| l + 3 <= k < 2 * l + 2 implies is_name_tail(#[trigger] s[k]) by {
        assert(s[k] == n[k - l - 2]);
        assert(word_byte(n[k - l - 2]));
    }
    lemma_name_end_at(s, 1, l);
    lemma_name_end_at(s, l + 3, 2 * l + 2);
    assert(skip_spaces(s, 0) == 0);
    assert(skip_spaces(s, l) == l);
    assert(skip_spaces(s, l + 2) == l + 2);
    assert(skip_spaces(s, 2 * l + 2) == 2 * l + 2);
    assert(is_name_head(s[0]) && is_name_head(s[l + 2]));
    assert(parse_name(s, 0) == Some(l));
    assert(parse_name(s, l + 2) == Some(2 * l + 2));
    assert(s.subrange(0, l) =~= n);
    assert(s.subrange(l + 2, 2 * l + 2) =~= n);
    assert(parse_abstr(s, l + 2) is None);
    assert(parse_block(s, 2 * l + 2) is None);
    assert(parse_block(s, l + 2) == Some((Syntax::Var(n), 2 * l + 2)));
    assert(parse_args(s, 2 * l + 2, Syntax::Var(n)) == (Syntax::Var(n), 2 * l + 2));
    assert(parse_apply(s, l + 2) == Some((Syntax::Var(n), 2 * l + 2)));
    assert(parse_term(s, l + 2) == Some((Syntax::Var(n), 2 * l + 2)));
    assert(parse_abstr(s, 0) == Some((Syntax::Lam(n, Box::new(Syntax::Var(n))), 2 * l + 2)));
    assert(parse_term(s, 0) == Some((Syntax::Lam(n, Box::new(Syntax::Var(n))), 2 * l + 2)));
}

/// ASCII white space: space, tab, line feed, form feed, carriage return.
pub open spec fn blanks(w: Seq<u8>) -> bool {
    forall|k: int|
        0 <= k < w.len() ==> (#[trigger] w[k] == 32u8 || w[k] == 9u8 || w[k] == 10u8 || w[k] == 12u8 || w[k]
            == 13u8)
}

proof fn lemma_skip_run(s: Seq<u8>, i: int, e: int)
    requires
        0 <= i <= e <= s.len(),
        forall|k: int| i <= k < e ==> is_space(#[trigger] s[k]),
        e == s.len() || !is_space(s[e]),
    ensures
        skip_spaces(s, i) == e,
    decreases e - i,
{
    if i < e {
        lemma_skip_run(s, i + 1, e);
    }
}

/// White space before and after each token changes nothing: with any runs
/// of white space around them, `n => n` is still read as the abstraction of
/// `n` whose body is the occurrence of `n`.
pub proof fn lemma_blanks_ignored(n: Seq<u8>, w1: Seq<u8>, w2: Seq<u8>, w3: Seq<u8>, w4: Seq<u8>)
    requires
        is_name(n),
        blanks(w1),
        blanks(w2),
        blanks(w3),
        blanks(w4),
    ensures
        parse_text(w1 + n + w2 + seq![61u8, 62u8] + w3 + n + w4) == Some(
            Syntax::Lam(n, Box::new(Syntax::Var(n))),
        ),
{
    let s = w1 + n + w2 + seq![61u8, 62u8] + w3 + n + w4;
    let l = n.len() as int;
    let a = w1.len() as int;
    let b = a + l;
    let c = b + w2.len();
    let d = c + 2;
    let e = d + w3.len();
    let f = e + l;
    let g = f + w4.len();
    assert(s.len() == g);
    assert forall|k: int| 0 <= k < a implies is_space(#[trigger] s[k]) by {
        assert(s[k] == w1[k]);
    }
    assert forall|k: int| b <= k < c implies is_space(#[trigger] s[k]) by {
        assert(s[k] == w2[k - b]);
    }
    assert forall|k: int| d <= k < e implies is_space(#[trigger] s[k]) by {
        assert(s[k] == w3[k - d]);
    }
    assert forall|k: int| f <= k < g implies is_space(#[trigger] s[k]) by {
        assert(s[k] == w4[k - f]);
    }
    assert forall|k: int| 0 <= k < l implies s[a + k] == n[k] && s[e + k] == n[k] by {}
    assert(s[c] == 61u8 && s[c + 1] == 62u8);
    assert forall|k: int| a + 1 <= k < b implies is_name_tail(#[trigger] s[k]) by {
        assert(s[k] == n[k - a]);
        assert(word_byte(n[k - a]));
    }
    assert forall|k: int| e + 1 <= k < f implies is_name_tail(#[trigger] s[k]) by {
        assert(s[k] == n[k - e]);
        assert(word_byte(n[k - e]));
    }
    assert(word_byte(n[0]));
    assert(b < s.len() ==> !is_name_tail(s[b]));
    assert(f < s.len() ==> !is_name_tail(s[f]));
    assert(!is_space(s[a]) && !is_space(s[e]) && !is_space(s[c]));
    lemma_skip_run(s, 0, a);
    lemma_skip_run(s, b, c);
    lemma_skip_run(s, d, e);
    lemma_skip_run(s, f, g);
    lemma_skip_run(s, g, g);
    lemma_name_end_at(s, a + 1, b);
    lemma_name_end_at(s, e + 1, f);
    assert(parse_name(s, a) == Some(b));
    assert(parse_name(s, e) == Some(f));
    assert(s.subrange(a, b) =~= n);
    assert(s.subrange(e, f) =~= n);
    assert(parse_abstr(s, d) is None);
    assert(parse_block(s, g) is None);
    assert(parse_block(s, d) == Some((Syntax::Var(n), g)));
    assert(parse_args(s, g, Syntax::Var(n)) == (Syntax::Var(n), g));
    assert(parse_apply(s, d) == Some((Syntax::Var(n), g)));
    assert(parse_term(s, d) == Some((Syntax::Var(n), g)));
    assert(parse_abstr(s, 0) == Some((Syntax::Lam(n, Box::new(Syntax::Var(n))), g)));
    assert(parse_term(s, 0) == Some((Syntax::Lam(n, Box::new(Syntax::Var(n))), g)));
}

// ------------------------------------------------------------------------
// The names that parsing stores
// ------------------------------------------------------------------------
//
// Every attempt at an abstraction stores the name it reads before it looks
// for `=>`, and keeps it when `=>` is missing; so the arena of names also
// holds the names read by attempts that gave way to an application.

/// The names that parsing a term at `i` stores, where it succeeds.
pub open spec fn names_term(s: Seq<u8>, i: int) -> nat
    decreases s.len() - i, 3nat,
{
    match parse_abstr(s, i) {
        Some(_) => names_abstr(s, i),
        None => tried_abstr(s, i) + names_apply(s, i),
    }
}

/// One name when an attempt at an abstraction at `i` reads a name.
pub open spec fn tried_abstr(s: Seq<u8>, i: int) -> nat {
    if parse_name(s, skip_spaces(s, i)) is Some {
        1
    } else {
        0
    }
}

/// The names that parsing an abstraction at `i` stores: its binder, then
/// those of its body.
pub open spec fn names_abstr(s: Seq<u8>, i: int) -> nat
    decreases s.len() - i, 2nat,
{
    let j = skip_spaces(s, i);
    match parse_name(s, j) {
        None => 0,
        Some(k) => {
            let m = skip_spaces(s, k);
            if 0 <= i && 0 <= m && m + 1 < s.len() && s[m] == 61 && s[m + 1] == 62 {
                proof {
                    lemma_skip_spaces(s, i);
                    lemma_name_end(s, j + 1);
                    lemma_skip_spaces(s, k);
                }
                1 + names_term(s, m + 2)
            } else {
                1
            }
        },
    }
}

/// The names that parsing a block at `i` stores, where it succeeds.
pub open spec fn names_block(s: Seq<u8>, i: int) -> nat
    decreases s.len() - i, 0nat,
{
    let j = skip_spaces(s, i);
    match parse_name(s, j) {
        Some(_) => 1,
        None => {
            if 0 <= i && 0 <= j < s.len() && s[j] == 40 {
                proof {
                    lemma_skip_spaces(s, i);
                }
                names_term(s, j + 1)
            } else {
                0
            }
        },
    }
}

/// The names that parsing an application at `i` stores, where it succeeds.
pub open spec fn names_apply(s: Seq<u8>, i: int) -> nat
    decreases s.len() - i, 2nat,
{
    match parse_block(s, i) {
        Some((_, j)) => {
            if i < j <= s.len() {
                names_block(s, i) + names_args(s, j)
            } else {
                0
            }
        },
        None => 0,
    }
}

/// The names that parsing the blocks that follow from `i` on stores.
pub open spec fn names_args(s: Seq<u8>, i: int) -> nat
    decreases s.len() - i, 1nat,
{
    match parse_block(s, i) {
        Some((_, k)) => {
            if i < k <= s.len() {
                names_block(s, i) + names_args(s, k)
            } else {
                0
            }
        },
        None => 0,
    }
}

/// The number of abstractions of `t`.
pub open spec fn lams_in(t: Syntax) -> nat
    decreases t,
{
    match t {
        Syntax::Var(_) => 0,
        Syntax::Lam(_, b) => 1 + lams_in(*b),
        Syntax::App(f, x) => lams_in(*f) + lams_in(*x),
    }
}

/// The number of applications of `t`.
pub open spec fn apps_in(t: Syntax) -> nat
    decreases t,
{
    match t {
        Syntax::Var(_) => 0,
        Syntax::Lam(_, b) => apps_in(*b),
        Syntax::App(f, x) => 1 + apps_in(*f) + apps_in(*x),
    }
}

// ------------------------------------------------------------------------
// The arenas
// ------------------------------------------------------------------------

impl File {
    /// The term that the file spells from its origin.
    pub open spec fn syntax(self) -> Syntax {
        choose|t: Syntax| self.represents(self.origin, t)
    }

    /// The origin of the file spells some term.
    pub open spec fn wf(self) -> bool {
        exists|t: Syntax| self.represents(self.origin, t)
    }

    /// `term` is a node of this file that spells `t`.
    pub open spec fn represents(self, term: Term, t: Syntax) -> bool
        decreases t,
    {
        match t {
            Syntax::Var(x) => term matches Term::Ident(v) && v.0 < self.idents@.len()
                && self.idents@[v.0 as int]@ == x,
            Syntax::Lam(x, b) => term matches Term::Abstr(a) && a.0 < self.abstrs@.len() && {
                let (v, body) = self.abstrs@[a.0 as int];
                &&& v.0 < self.idents@.len()
                &&& self.idents@[v.0 as int]@ == x
                &&& self.represents(body, *b)
            },
            Syntax::App(f, x) => term matches Term::Apply(p) && p.0 < self.applys@.len()
                && self.represents(self.applys@[p.0 as int].0, *f) && self.represents(
                self.applys@[p.0 as int].1,
                *x,
            ),
        }
    }

    /// The arenas of `self` hold those of `prev`, then the abstractions and
    /// applications of `t` and `names` more names.
    pub open spec fn grown(self, prev: File, t: Syntax, names: nat) -> bool {
        &&& self.idents@.len() == prev.idents@.len() + names
        &&& self.abstrs@.len() == prev.abstrs@.len() + lams_in(t)
        &&& self.applys@.len() == prev.applys@.len() + apps_in(t)
    }

    /// The arenas of `self` are as long as those of `prev`.
    pub open spec fn same_size(self, prev: File) -> bool {
        &&& self.idents@.len() == prev.idents@.len()
        &&& self.abstrs@.len() == prev.abstrs@.len()
        &&& self.applys@.len() == prev.applys@.len()
    }

    /// The arenas of `self` start with those of `prev`.
    pub open spec fn extends(self, prev: File) -> bool {
        &&& prev.idents@.len() <= self.idents@.len()
        &&& prev.abstrs@.len() <= self.abstrs@.len()
        &&& prev.applys@.len() <= self.applys@.len()
        &&& forall|k: int| 0 <= k < prev.idents@.len() ==> self.idents@[k] == prev.idents@[k]
        &&& forall|k: int| 0 <= k < prev.abstrs@.len() ==> self.abstrs@[k] == prev.abstrs@[k]
        &&& forall|k: int| 0 <= k < prev.applys@.len() ==> self.applys@[k] == prev.applys@[k]
    }

    /// A node spells at most one term.
    pub proof fn lemma_syntax_unique(self, term: Term, t1: Syntax, t2: Syntax)
        requires
            self.represents(term, t1),
            self.represents(term, t2),
        ensures
            t1 == t2,
        decreases t1,
    {
        match t1 {
            Syntax::Var(_) => {},
            Syntax::Lam(_, b1) => {
                if let Syntax::Lam(_, b2) = t2 {
                    if let Term::Abstr(a) = term {
                        self.lemma_syntax_unique(self.abstrs@[a.0 as int].1, *b1, *b2);
                    }
                }
            },
            Syntax::App(f1, x1) => {
                if let Syntax::App(f2, x2) = t2 {
                    if let Term::Apply(p) = term {
                        self.lemma_syntax_unique(self.applys@[p.0 as int].0, *f1, *f2);
                        self.lemma_syntax_unique(self.applys@[p.0 as int].1, *x1, *x2);
                    }
                }
            },
        }
    }

    pub proof fn lemma_extends_represents(self, prev: File, term: Term, t: Syntax)
        requires
            self.extends(prev),
            prev.represents(term, t),
        ensures
            self.represents(term, t),
        decreases t,
    {
        match t {
            Syntax::Var(_) => {},
            Syntax::Lam(_, b) => {
                if let Term::Abstr(a) = term {
                    self.lemma_extends_represents(prev, prev.abstrs@[a.0 as int].1, *b);
                }
            },
            Syntax::App(f, x) => {
                if let Term::Apply(p) = term {
                    self.lemma_extends_represents(prev, prev.applys@[p.0 as int].0, *f);
                    self.lemma_extends_represents(prev, prev.applys@[p.0 as int].1, *x);
                }
            },
        }
    }

    proof fn lemma_extends_trans(a: File, b: File, c: File)
        requires
            b.extends(a),
            c.extends(b),
        ensures
            c.extends(a),
    {
    }

    /// Parses `term` at `i`, adding its nodes to the arenas.
    fn term(&mut self, s: &[u8], i: usize) -> (r: Option<(Term, usize)>)
        requires
            i <= s@.len(),
        ensures
            final(self).extends(*old(self)),
            match parse_term(s@, i as int) {
                Some((t, e)) => r matches Some((tm, e2)) && e2 == e && i < e <= s@.len()
                    && final(self).represents(tm, t) && final(self).grown(*old(self), t, names_term(s@, i as int)),
                None => r is None && final(self).same_size(*old(self)),
            },
        decreases s@.len() - i, 3nat,
    {
        let ghost before = *self;
        match self.abstr(s, i) {
            Some(r) => Some(r),
            None => {
                let ghost mid = *self;
                let r = self.apply(s, i);
                proof {
                    Self::lemma_extends_trans(before, mid, *self);
                    if tried_abstr(s@, i as int) == 1 {
                        let j = skip_spaces(s@, i as int);
                        lemma_skip_spaces(s@, i as int);
                        let k = parse_name(s@, j).unwrap();
                        lemma_name_end(s@, j + 1);
                        lemma_skip_spaces(s@, k);
                        assert(parse_block(s@, i as int) is Some);
                        assert(parse_apply(s@, i as int) is Some);
                    }
                }
                r
            },
        }
    }

    fn abstr(&mut self, s: &[u8], i: usize) -> (r: Option<(Term, usize)>)
        requires
            i <= s@.len(),
        ensures
            final(self).extends(*old(self)),
            match parse_abstr(s@, i as int) {
                Some((t, e)) => r matches Some((tm, e2)) && e2 == e && i < e <= s@.len()
                    && final(self).represents(tm, t) && final(self).grown(*old(self), t, names_abstr(s@, i as int)),
                None => r is None && final(self).abstrs@.len() == old(self).abstrs@.len()
                    && final(self).applys@.len() == old(self).applys@.len() && final(self).idents@.len()
                    == old(self).idents@.len() + tried_abstr(s@, i as int),
            },
        decreases s@.len() - i, 2nat,
    {
        let ghost before = *self;
        let j = skip(s, i);
        match name_at(s, j) {
            None => None,
            Some(k) => {
                let name = copy_bytes(s, j, k);
                let v = spellings_push(&mut self.idents, name);
                let ghost mid = *self;
                let m = skip(s, k);
                if m < s.len() && m + 1 < s.len() && s[m] == 61 && s[m + 1] == 62 {
                    match self.term(s, m + 2) {
                        Some((body, e)) => {
                            let ghost after = *self;
                            let a = parsed_abstrs_push(&mut self.abstrs, (v, body));
                            proof {
                                let t = parse_term(s@, m + 2).unwrap().0;
                                assert(self.extends(after));
                                self.lemma_extends_represents(after, body, t);
                                Self::lemma_extends_trans(before, mid, after);
                                Self::lemma_extends_trans(before, after, *self);
                            }
                            Some((Term::Abstr(a), e))
                        },
                        None => None,
                    }
                } else {
                    None
                }
            },
        }
    }

    fn block(&mut self, s: &[u8], i: usize) -> (r: Option<(Term, usize)>)
        requires
            i <= s@.len(),
        ensures
            final(self).extends(*old(self)),
            match parse_block(s@, i as int) {
                Some((t, e)) => r matches Some((tm, e2)) && e2 == e && i < e <= s@.len()
                    && final(self).represents(tm, t) && final(self).grown(*old(self), t, names_block(s@, i as int)),
                None => r is None && final(self).same_size(*old(self)),
            },
        decreases s@.len() - i, 0nat,
    {
        let j = skip(s, i);
        match name_at(s, j) {
            Some(k) => {
                let name = copy_bytes(s, j, k);
                let v = spellings_push(&mut self.idents, name);
                let e = skip(s, k);
                Some((Term::Ident(v), e))
            },
            None => {
                if j < s.len() && s[j] == 40 {
                    let ghost before = *self;
                    let names_before = spellings_len(&self.idents);
                    let abstrs_before = parsed_abstrs_len(&self.abstrs);
                    let applys_before = parsed_applys_len(&self.applys);
                    match self.term(s, j + 1) {
                        Some((t, e)) => {
                            if e < s.len() && s[e] == 41 {
                                let e2 = skip(s, e + 1);
                                Some((t, e2))
                            } else {
                                // A bracket left open fails every parse that
                                // meets it, so what it stored is dropped.
                                spellings_truncate(&mut self.idents, names_before);
                                parsed_abstrs_truncate(&mut self.abstrs, abstrs_before);
                                parsed_applys_truncate(&mut self.applys, applys_before);
                                proof {
                                    assert(spellings(self.idents) =~= spellings(before.idents));
                                    assert(parsed_abstrs(self.abstrs) =~= parsed_abstrs(before.abstrs));
                                    assert(parsed_applys(self.applys) =~= parsed_applys(before.applys));
                                }
                                None
                            }
                        },
                        None => None,
                    }
                } else {
                    None
                }
            },
        }
    }

    fn apply(&mut self, s: &[u8], i: usize) -> (r: Option<(Term, usize)>)
        requires
            i <= s@.len(),
        ensures
            final(self).extends(*old(self)),
            match parse_apply(s@, i as int) {
                Some((t, e)) => r matches Some((tm, e2)) && e2 == e && i < e <= s@.len()
                    && final(self).represents(tm, t) && final(self).grown(*old(self), t, names_apply(s@, i as int)),
                None => r is None && final(self).same_size(*old(self)),
            },
        decreases s@.len() - i, 2nat,
    {
        let ghost before = *self;
        match self.block(s, i) {
            None => None,
            Some((f, j)) => {
                let ghost target = parse_args(s@, j as int, parse_block(s@, i as int).unwrap().0);
                let ghost mut acc_t = parse_block(s@, i as int).unwrap().0;
                let mut acc = f;
                let mut pos = j;
                loop
                    invariant
                        i < pos <= s@.len(),
                        self.extends(*old(self)),
                        self.represents(acc, acc_t),
                        self.abstrs@.len() == old(self).abstrs@.len() + lams_in(acc_t),
                        self.applys@.len() == old(self).applys@.len() + apps_in(acc_t),
                        self.idents@.len() + names_args(s@, pos as int) == old(self).idents@.len()
                            + names_apply(s@, i as int),
                        parse_args(s@, pos as int, acc_t) == target,
                        target == parse_apply(s@, i as int).unwrap(),
                        parse_apply(s@, i as int) is Some,
                    decreases s@.len() - pos,
                {
                    let ghost prev = *self;
                    match self.block(s, pos) {
                        Some((x, k)) => {
                            let ghost mid = *self;
                            let p = parsed_applys_push(&mut self.applys, (acc, x));
                            proof {
                                let xt = parse_block(s@, pos as int).unwrap().0;
                                Self::lemma_extends_trans(*old(self), prev, mid);
                                Self::lemma_extends_trans(*old(self), mid, *self);
                                Self::lemma_extends_trans(prev, mid, *self);
                                self.lemma_extends_represents(prev, acc, acc_t);
                                self.lemma_extends_represents(mid, x, xt);
                                acc_t = Syntax::App(Box::new(acc_t), Box::new(xt));
                            }
                            acc = Term::Apply(p);
                            pos = k;
                        },
                        None => {
                            proof {
                                Self::lemma_extends_trans(*old(self), prev, *self);
                                self.lemma_extends_represents(prev, acc, acc_t);
                            }
                            return Some((acc, pos));
                        },
                    }
                }
            },
        }
    }

    /// Parses the whole text as one term.
    pub fn try_from(value: &[u8]) -> (r: Result<File, ParseError>)
        ensures
            match parse_text(value@) {
                Some(t) => r matches Ok(file) && file.represents(file.origin, t) && file.idents@.len()
                    == names_term(value@, 0) && file.abstrs@.len() == lams_in(t) && file.applys@.len()
                    == apps_in(t),
                None => r is Err,
            },
            r matches Err(ParseError::NoTerm) <==> parse_term(value@, 0) is None,
            r matches Err(ParseError::Trailing(e)) ==> parse_term(value@, 0) matches Some((
                _,
                e2,
            )) && e2 == e && e < value@.len(),
    {
        let mut file = File {
            idents: spellings_new(),
            abstrs: parsed_abstrs_new(),
            applys: parsed_applys_new(),
            origin: Term::Ident(Ident(0)),
        };
        match file.term(value, 0) {
            Some((origin, e)) => {
                if e == value.len() {
                    let ghost prev = file;
                    file.origin = origin;
                    proof {
                        file.lemma_extends_represents(prev, origin, parse_text(value@).unwrap());
                    }
                    Ok(file)
                } else {
                    Err(ParseError::Trailing(e))
                }
            },
            None => Err(ParseError::NoTerm),
        }
    }
}

fn space_byte(b: u8) -> (r: bool)
    ensures
        r == is_space(b),
{
    b == 32 || b == 9 || b == 10 || b == 12 || b == 13
}

fn name_head_byte(b: u8) -> (r: bool)
    ensures
        r == is_name_head(b),
{
    (65 <= b && b <= 90) || (97 <= b && b <= 122) || b == 95
}

fn name_tail_byte(b: u8) -> (r: bool)
    ensures
        r == is_name_tail(b),
{
    name_head_byte(b) || (48 <= b && b <= 57)
}

/// Skips the white space that starts at `i`.
fn skip(s: &[u8], i: usize) -> (r: usize)
    requires
        i <= s@.len(),
    ensures
        r == skip_spaces(s@, i as int),
        i <= r <= s@.len(),
{
    let mut k = i;
    while k < s.len() && space_byte(s[k])
        invariant
            i <= k <= s@.len(),
            skip_spaces(s@, k as int) == skip_spaces(s@, i as int),
        decreases s@.len() - k,
    {
        k = k + 1;
    }
    k
}

/// The end of the name that starts at `j`, if one does.
fn name_at(s: &[u8], j: usize) -> (r: Option<usize>)
    requires
        j <= s@.len(),
    ensures
        r matches Some(k) ==> parse_name(s@, j as int) == Some(k as int) && j < k <= s@.len(),
        r is None ==> parse_name(s@, j as int) is None,
{
    if j < s.len() && name_head_byte(s[j]) {
        let mut k = j + 1;
        while k < s.len() && name_tail_byte(s[k])
            invariant
                j < k <= s@.len(),
                name_end(s@, k as int) == name_end(s@, j + 1),
            decreases s@.len() - k,
        {
            k = k + 1;
        }
        Some(k)
    } else {
        None
    }
}

fn copy_bytes(s: &[u8], j: usize, k: usize) -> (v: Vec<u8>)
    requires
        j <= k <= s@.len(),
    ensures
        v@ == s@.subrange(j as int, k as int),
{
    let mut v: Vec<u8> = Vec::new();
    let mut p = j;
    while p < k
        invariant
            j <= p <= k <= s@.len(),
            v@ == s@.subrange(j as int, p as int),
        decreases k - p,
    {
        v.push(s[p]);
        p = p + 1;
        assert(v@ =~= s@.subrange(j as int, p as int));
    }
    v
}

} // verus!
