//! The declaration parser: the top-level `mod` items of one source text.
//!
//! Parsing proper is done by the `syn` crate; this module extracts, for
//! each top-level `mod` item, its name and whether it carries an inline
//! body. A declaration with an inline body lives in the same file and is
//! never resolved to a separate one.

use vstd::prelude::*;

verus! {

/// One top-level `mod` item: its name, and whether its body is written
/// inline in the declaring file.
pub struct ModDecl {
    pub name: String,
    pub has_inline_body: bool,
}

/// The name and body shape of each declaration, in order.
pub open spec fn decls_view(ds: Seq<ModDecl>) -> Seq<(Seq<char>, bool)> {
    ds.map_values(|d: ModDecl| (d.name@, d.has_inline_body))
}

/// The top-level `mod` declarations of a source text, in source order, or
/// `None` when the text is not a syntactically valid source file.
pub uninterp spec fn mod_decls_of(text: Seq<char>) -> Option<Seq<(Seq<char>, bool)>>;

/// Relies on `syn::parse_file`: its result is a function of the text alone;
/// it returns the file's top-level items in source order, an `Item::Mod`
/// carries the declared name in `ident` and an inline body, when there is
/// one, in `content`.
#[verifier::external_body]
pub(crate) fn parse_mod_decls(text: &str) -> (r: Option<Vec<ModDecl>>)
    ensures
        match r {
            Some(ds) => mod_decls_of(text@) == Some(decls_view(ds@)),
            None => mod_decls_of(text@) is None,
        },
{
    match syn::parse_file(text) {
        Err(_) => None,
        Ok(file) => Some(
            file.items.into_iter().filter_map(|item| match item {
                syn::Item::Mod(m) => Some(ModDecl {
                    name: m.ident.to_string(),
                    has_inline_body: m.content.is_some(),
                }),
                _ => None,
            }).collect(),
        ),
    }
}

} // verus!
