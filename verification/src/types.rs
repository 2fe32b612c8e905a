use vstd::prelude::*;

pub mod shape;
pub mod split;
pub mod terms;

pub use split::{Arrow, Basic, File, Type};
pub use terms::{Sheaf, Term};

use crate::text::lossy_text;
use terms::{first_free, graph, parse::parse_text, resolve, syntax_message};

verus! {

impl File {
    /// Reads a closed term from its text and infers the types of its nodes.
    pub fn try_from(value: Vec<u8>) -> (r: Result<File, String>)
        ensures
            match parse_text(value@) {
                None => r matches Err(msg) && msg@ == syntax_message(value@),
                Some(t) => match resolve(t, Seq::empty()) {
                    None => r matches Err(msg) && msg@ == "Binding Unrecognized Variable - "@
                        + lossy_text(first_free(t, Seq::empty()).unwrap()) && (vstd::utf8::valid_utf8(
                        first_free(t, Seq::empty()).unwrap(),
                    ) ==> msg@ == "Binding Unrecognized Variable - "@ + vstd::utf8::decode_utf8(
                        first_free(t, Seq::empty()).unwrap(),
                    )),
                    Some(lt) => r matches Ok(file) && file.wf() && file.arrowed()
                        && file.terms.lambda() == lt && (!shape::splits_a_class(file.terms)
                        ==> file.well_typed(file.terms.origin, lt)) && exists|s: shape::File|
                        #![trigger file.splits(s)]
                        s.wf() && s.settled() && s.typed(s.terms.origin, lt) && s.terms.laid_out()
                        && s.terms.ordered(s.terms.origin, lt, Seq::empty()) && (
                        shape::table(s.types),
                        s.assoc@,
                    ) == shape::shape_of(s.terms) && file.splits(s),
                },
            },
    {
        let value = graph::File::try_from(value)?;
        let value = shape::File::from(value);
        let ghost typed = value;
        let file = File::from(value);
        proof {
            file.lemma_numbers(typed);
            if !shape::splits_a_class(file.terms) {
                file.lemma_well_typed(typed, typed.terms.origin, typed.terms.lambda());
            }
        }
        Ok(file)
    }
}

} // verus!
