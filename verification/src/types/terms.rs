use vstd::prelude::*;

pub mod arena;
pub mod count;
pub mod graph;
pub mod parse;
pub mod sheaf;

pub use graph::{Abstr, Apply, File, Ident, Term, Zone};
pub use sheaf::Sheaf;

use crate::text::{decimal, lossy_text, push_decimal, push_str, string_of};
use parse::{parse_term, parse_text, ParseError};

verus! {

/// A term as it is written: variables carry their names.
pub enum Syntax {
    Var(Seq<u8>),
    Lam(Seq<u8>, Box<Syntax>),
    App(Box<Syntax>, Box<Syntax>),
}

/// A term with its variables resolved: `Var(k)` refers to the `k`-th
/// enclosing abstraction, counting from the innermost one (`Var(0)`).
pub enum Lambda {
    Var(nat),
    Lam(Box<Lambda>),
    App(Box<Lambda>, Box<Lambda>),
}

/// How many abstractions out the innermost binding of `x` lies in `scope`,
/// whose last entry is the innermost binding.
pub open spec fn lookup(scope: Seq<Seq<u8>>, x: Seq<u8>) -> Option<nat>
    decreases scope.len(),
{
    if scope.len() == 0 {
        None
    } else if scope.last() == x {
        Some(0)
    } else {
        match lookup(scope.drop_last(), x) {
            Some(k) => Some(k + 1),
            None => None,
        }
    }
}

/// Resolves each name to its innermost binding; `None` if a name is free.
pub open spec fn resolve(t: Syntax, scope: Seq<Seq<u8>>) -> Option<Lambda>
    decreases t,
{
    match t {
        Syntax::Var(x) => match lookup(scope, x) {
            Some(k) => Some(Lambda::Var(k)),
            None => None,
        },
        Syntax::Lam(x, b) => match resolve(*b, scope.push(x)) {
            Some(lb) => Some(Lambda::Lam(Box::new(lb))),
            None => None,
        },
        Syntax::App(f, a) => match (resolve(*f, scope), resolve(*a, scope)) {
            (Some(lf), Some(la)) => Some(Lambda::App(Box::new(lf), Box::new(la))),
            _ => None,
        },
    }
}

/// The first free name met from left to right, if there is one.
pub open spec fn first_free(t: Syntax, scope: Seq<Seq<u8>>) -> Option<Seq<u8>>
    decreases t,
{
    match t {
        Syntax::Var(x) => if lookup(scope, x) is None {
            Some(x)
        } else {
            None
        },
        Syntax::Lam(x, b) => first_free(*b, scope.push(x)),
        Syntax::App(f, a) => match first_free(*f, scope) {
            Some(x) => Some(x),
            None => first_free(*a, scope),
        },
    }
}

/// The number of occurrences of the variable bound `d` abstractions above `t`.
pub open spec fn bound_count(t: Lambda, d: nat) -> nat
    decreases t,
{
    match t {
        Lambda::Var(k) => if k == d {
            1
        } else {
            0
        },
        Lambda::Lam(b) => bound_count(*b, d + 1),
        Lambda::App(f, x) => bound_count(*f, d) + bound_count(*x, d),
    }
}

/// The number of variable occurrences in `t`.
pub open spec fn var_count(t: Lambda) -> nat
    decreases t,
{
    match t {
        Lambda::Var(_) => 1,
        Lambda::Lam(b) => var_count(*b),
        Lambda::App(f, x) => var_count(*f) + var_count(*x),
    }
}

/// The number of abstractions in `t`.
pub open spec fn lam_count(t: Lambda) -> nat
    decreases t,
{
    match t {
        Lambda::Var(_) => 0,
        Lambda::Lam(b) => 1 + lam_count(*b),
        Lambda::App(f, x) => lam_count(*f) + lam_count(*x),
    }
}

/// The number of applications in `t`.
pub open spec fn app_count(t: Lambda) -> nat
    decreases t,
{
    match t {
        Lambda::Var(_) => 0,
        Lambda::Lam(b) => app_count(*b),
        Lambda::App(f, x) => 1 + app_count(*f) + app_count(*x),
    }
}

/// The number of variable slots that the abstractions of `t` reserve: each
/// abstraction reserves one per occurrence of its variable.
pub open spec fn slots(t: Lambda) -> nat
    decreases t,
{
    match t {
        Lambda::Var(_) => 0,
        Lambda::Lam(b) => bound_count(*b, 0) + slots(*b),
        Lambda::App(f, x) => slots(*f) + slots(*x),
    }
}

/// The number of occurrences in `t` that refer `d` or more abstractions out.
pub open spec fn free_above(t: Lambda, d: nat) -> nat
    decreases t,
{
    match t {
        Lambda::Var(k) => if k >= d {
            1
        } else {
            0
        },
        Lambda::Lam(b) => free_above(*b, d + 1),
        Lambda::App(f, x) => free_above(*f, d) + free_above(*x, d),
    }
}

proof fn lemma_free_above_split(t: Lambda, d: nat)
    ensures
        free_above(t, d) == bound_count(t, d) + free_above(t, d + 1),
    decreases t,
{
    match t {
        Lambda::Var(_) => {},
        Lambda::Lam(b) => lemma_free_above_split(*b, d + 1),
        Lambda::App(f, x) => {
            lemma_free_above_split(*f, d);
            lemma_free_above_split(*x, d);
        },
    }
}

/// Every occurrence is either bound inside `t` or refers outside it.
pub proof fn lemma_slots(t: Lambda)
    ensures
        slots(t) + free_above(t, 0) == var_count(t),
    decreases t,
{
    match t {
        Lambda::Var(_) => {},
        Lambda::Lam(b) => {
            lemma_slots(*b);
            lemma_free_above_split(*b, 0);
        },
        Lambda::App(f, x) => {
            lemma_slots(*f);
            lemma_slots(*x);
        },
    }
}

/// A term has a free name exactly when it does not resolve.
pub proof fn lemma_first_free(t: Syntax, scope: Seq<Seq<u8>>)
    ensures
        first_free(t, scope) is Some <==> resolve(t, scope) is None,
    decreases t,
{
    match t {
        Syntax::Var(_) => {},
        Syntax::Lam(x, b) => lemma_first_free(*b, scope.push(x)),
        Syntax::App(f, a) => {
            lemma_first_free(*f, scope);
            lemma_first_free(*a, scope);
        },
    }
}

/// `lookup` finds the last entry of `scope` that equals `x`.
pub proof fn lemma_lookup(scope: Seq<Seq<u8>>, x: Seq<u8>, p: int)
    requires
        -1 <= p < scope.len(),
        p >= 0 ==> scope[p] == x,
        forall|q: int| p < q < scope.len() ==> scope[q] != x,
    ensures
        p >= 0 ==> lookup(scope, x) == Some((scope.len() - 1 - p) as nat),
        p < 0 ==> lookup(scope, x) is None,
    decreases scope.len(),
{
    if scope.len() > 0 && p < scope.len() - 1 {
        assert(scope.last() == scope[scope.len() - 1]);
        lemma_lookup(scope.drop_last(), x, p);
    }
}

/// What is wrong with a text that does not spell a term.
///
/// The message names the offset at which the text stops spelling a term.
/// It lists no expected tokens: a parser-combinator error that lists them
/// gives them in the order of a randomly seeded hash set, which changes from
/// run to run, so no contract could state such a text.
pub open spec fn syntax_message(s: Seq<u8>) -> Seq<char> {
    "Parsing Invalid Syntax - "@ + match parse_term(s, 0) {
        Some((_, e)) => "unexpected input at byte "@ + decimal(e as nat),
        None => "no term at the start of the text"@,
    }
}

impl graph::File {
    /// Reads a closed term from its text: parses it, resolves its names and
    /// gathers the occurrences of each variable.
    pub fn try_from(value: Vec<u8>) -> (r: Result<graph::File, String>)
        ensures
            match parse_text(value@) {
                None => r matches Err(msg) && msg@ == syntax_message(value@),
                Some(t) => match resolve(t, Seq::empty()) {
                    None => r matches Err(msg) && msg@ == "Binding Unrecognized Variable - "@
                        + lossy_text(first_free(t, Seq::empty()).unwrap()) && (vstd::utf8::valid_utf8(
                        first_free(t, Seq::empty()).unwrap(),
                    ) ==> msg@ == "Binding Unrecognized Variable - "@ + vstd::utf8::decode_utf8(
                        first_free(t, Seq::empty()).unwrap(),
                    )),
                    Some(lt) => r matches Ok(file) && file.wf() && file.lambda() == lt && file.laid_out()
                        && file.ordered(file.origin, lt, Seq::empty()),
                },
            },
    {
        let parsed = match parse::File::try_from(value.as_slice()) {
            Ok(file) => file,
            Err(err) => {
                let mut text: Vec<char> = Vec::new();
                push_str(&mut text, "Parsing Invalid Syntax - ");
                match err {
                    ParseError::NoTerm => push_str(&mut text, "no term at the start of the text"),
                    ParseError::Trailing(e) => {
                        push_str(&mut text, "unexpected input at byte ");
                        push_decimal(&mut text, e);
                    },
                }
                proof {
                    assert(text@ =~= syntax_message(value@));
                }
                return Err(string_of(&text));
            },
        };
        proof {
            let t = parse_text(value@).unwrap();
            parsed.lemma_syntax_unique(parsed.origin, t, parsed.syntax());
        }
        let counted = match count::File::try_from(&parsed) {
            Ok(file) => file,
            Err(name) => {
                let mut text = String::from_str("Binding Unrecognized Variable - ");
                text.append(name.as_str());
                return Err(text);
            },
        };
        proof {
            let lt = counted.lambda();
            counted.lemma_lambda_unique(counted.origin, lt, resolve(parse_text(value@).unwrap(), Seq::empty()).unwrap(), Seq::empty(), 0, 0);
        }
        Ok(graph::File::from(&counted))
    }
}

} // verus!
