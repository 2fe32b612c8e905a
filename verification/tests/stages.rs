use hats::types::terms::count::{Abstr as CAbstr, File as Counted, Ident as CIdent, Term as CTerm};
use hats::types::terms::parse::File as Parsed;
use hats::guard::Guard;
use hats::solve::File as Hats;
use hats::types::shape::{self, Name};
use hats::types::terms::graph::{Abstr, Ident, Term};
use hats::types::terms::File as Zoned;
use hats::types::{Arrow, File, Type};

#[test]
fn occurrences_of_each_abstraction_share_one_zone() {
    let file = Zoned::try_from(b"x => y => x y x".to_vec()).unwrap();
    assert_eq!(file.abstrs.len(), 2);
    assert_eq!(file.applys.len(), 2);
    assert_eq!(file.idents.len(), 3);
    assert_eq!(file.abstrs[Abstr(0)].0, Ident(0)..Ident(2));
    assert_eq!(file.abstrs[Abstr(1)].0, Ident(2)..Ident(3));
    assert_eq!(file.idents[Ident(0)], Abstr(0));
    assert_eq!(file.idents[Ident(1)], Abstr(0));
    assert_eq!(file.idents[Ident(2)], Abstr(1));
    assert_eq!(file.origin, Term::Abstr(Abstr(0)));
}

#[test]
fn unification_merges_the_occurrences_of_omega() {
    let file = Zoned::try_from(b"x => x x".to_vec()).unwrap();
    let typed = shape::File::from(file);
    assert_eq!(typed.types.len(), 5);
    assert_eq!(typed.chase(Name(0)), Name(0));
    assert_eq!(typed.chase(Name(1)), Name(1));
    assert_eq!(typed.chase(Name(2)), Name(2));
    assert_eq!(typed.chase(Name(3)), Name(1));
    assert_eq!(typed.chase(Name(4)), Name(1));
    match typed.types[Name(1)] {
        shape::Type::Arrow(lhs, rhs) => {
            assert_eq!(typed.chase(lhs), Name(1));
            assert_eq!(typed.chase(rhs), Name(2));
        }
        _ => panic!("the argument of omega has no function type"),
    }
    assert_eq!(*typed.assoc.index(typed.terms.origin), Name(0));
}

#[test]
fn names_of_one_class_get_one_type() {
    let file = File::try_from(b"x => x x".to_vec()).unwrap();
    let first = *file.assoc.index(Term::Ident(Ident(0)));
    let second = *file.assoc.index(Term::Ident(Ident(1)));
    assert_eq!(first, Type::Arrow(Arrow(1)));
    assert_eq!(second, Type::Arrow(Arrow(1)));
    assert_ne!(first, *file.assoc.index(file.terms.origin));
}

#[test]
fn every_abstraction_gets_a_function_type() {
    let file = File::try_from(b"x => y => z => x z (y z)".to_vec()).unwrap();
    for a in 0..file.terms.abstrs.len() {
        assert!(matches!(
            *file.assoc.index(Term::Abstr(Abstr(a))),
            Type::Arrow(_)
        ));
    }
}

#[test]
fn no_constraint_names_a_variable_twice() {
    for text in [
        "x => y => z => x z (y z)",
        "x => x x",
        "f => (x => f (x x)) (x => f (x x))",
    ] {
        let file = File::try_from(text.as_bytes().to_vec()).unwrap();
        let tree = Guard::from(&file);
        let (problem, _, _) = Hats::problem(&file, &tree);
        for row in &problem.rows {
            for i in 0..row.terms.len() {
                for j in (i + 1)..row.terms.len() {
                    assert_ne!(row.terms[i].0, row.terms[j].0);
                }
            }
        }
    }
}

#[test]
fn marks_without_cycles_stay_clear() {
    let file = File::try_from(b"f => g => x => f (g x)".to_vec()).unwrap();
    let tree = Guard::from(&file);
    assert_eq!(tree.guard.len(), file.arrow.len());
    for k in 0..tree.guard.len() {
        assert_eq!(tree.guard[Arrow(k)], (false, false));
    }
}

/// Checks the typing rules on every node of the file.
fn obeys_typing_rules(file: &File) -> bool {
    let arrow_of = |kind: Type| match kind {
        Type::Arrow(a) => Some(file.arrow[a]),
        Type::Basic(_) => None,
    };
    for i in 0..file.terms.idents.len() {
        let binder = Term::Abstr(file.terms.idents[Ident(i)]);
        match arrow_of(*file.assoc.index(binder)) {
            Some((arg, _)) if arg == *file.assoc.index(Term::Ident(Ident(i))) => {}
            _ => return false,
        }
    }
    for a in 0..file.terms.abstrs.len() {
        let body = file.terms.abstrs[Abstr(a)].1;
        match arrow_of(*file.assoc.index(Term::Abstr(Abstr(a)))) {
            Some((_, res)) if res == *file.assoc.index(body) => {}
            _ => return false,
        }
    }
    for p in 0..file.terms.applys.len() {
        let node = Term::Apply(hats::types::terms::graph::Apply(p));
        let (func, arg) = file.terms.applys[hats::types::terms::graph::Apply(p)];
        match arrow_of(*file.assoc.index(func)) {
            Some((a, r)) if a == *file.assoc.index(arg) && r == *file.assoc.index(node) => {}
            _ => return false,
        }
    }
    true
}

#[test]
fn inferred_types_obey_the_typing_rules() {
    for text in [
        "x => x",
        "x => x x",
        "x => y => z => x z (y z)",
        "f => (x => f (x x)) (x => f (x x))",
        "f => x => f (f x)",
        "a => b => (c => c a) b",
    ] {
        let file = File::try_from(text.as_bytes().to_vec()).unwrap();
        assert!(obeys_typing_rules(&file), "{}", text);
    }
}

#[test]
fn parsed_arenas_hold_exactly_the_nodes_of_the_term() {
    // The names arena also keeps the name read by each attempt at an
    // abstraction that gave way to an application.
    let file = Parsed::try_from(b"x => x x".as_slice()).ok().unwrap();
    assert_eq!(file.abstrs.len(), 1);
    assert_eq!(file.applys.len(), 1);
    assert_eq!(file.idents.len(), 4);
    let file = Parsed::try_from(b"(x => (y => y) x) (z => z)".as_slice()).ok().unwrap();
    assert_eq!(file.abstrs.len(), 3);
    assert_eq!(file.applys.len(), 2);
    assert_eq!(file.idents.len(), 8);
}

#[test]
fn resolution_numbers_abstractions_in_pre_order() {
    let parsed = Parsed::try_from(b"x => x => x".as_slice()).ok().unwrap();
    let counted = Counted::try_from(&parsed).ok().unwrap();
    assert!(matches!(counted.origin, CTerm::Abstr(CAbstr(0))));
    assert_eq!(counted.idents.len(), 1);
    assert!(matches!(counted.idents[CIdent(0)], CAbstr(1)));
    assert_eq!(counted.abstrs.len(), 2);
    assert!(matches!(counted.abstrs[CAbstr(0)], (0, CTerm::Abstr(CAbstr(1)))));
    assert!(matches!(counted.abstrs[CAbstr(1)], (1, CTerm::Ident(CIdent(0)))));
    assert_eq!(counted.applys.len(), 0);
}

#[test]
fn resolution_names_the_first_free_occurrence() {
    let parsed = Parsed::try_from(b"a => b c b".as_slice()).ok().unwrap();
    assert_eq!(Counted::try_from(&parsed).err(), Some("b".to_string()));
}

#[test]
fn resolution_numbers_occurrences_from_the_left() {
    let parsed = Parsed::try_from(b"x => y => x y x".as_slice()).ok().unwrap();
    let counted = Counted::try_from(&parsed).ok().unwrap();
    assert_eq!(counted.idents.len(), 3);
    assert!(matches!(counted.idents[CIdent(0)], CAbstr(0)));
    assert!(matches!(counted.idents[CIdent(1)], CAbstr(1)));
    assert!(matches!(counted.idents[CIdent(2)], CAbstr(0)));
    assert!(matches!(counted.abstrs[CAbstr(0)], (2, CTerm::Abstr(CAbstr(1)))));
    assert!(matches!(counted.abstrs[CAbstr(1)], (1, CTerm::Apply(_))));
}
