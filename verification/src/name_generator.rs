//! Naming a server: the caller's chosen name when one was given, a freshly
//! generated human-readable name otherwise.

use vstd::prelude::*;

verus! {

/// Relies on names::Generator: the default generator draws an adjective-noun
/// pair from its built-in word lists and joins them with a dash, so the name
/// that comes back is never empty; the lists are non-empty, so `next` never
/// yields nothing and the call cannot panic. Which name comes back is
/// random, so nothing more is promised.
#[verifier::external_body]
pub fn get_random_name() -> (r: String)
    ensures
        r@.len() > 0,
{
    let mut generator = names::Generator::default();
    generator.next().expect("the built-in word lists are non-empty")
}

/// The name a server announces under: the caller's choice when one was
/// given, a freshly generated, non-empty one otherwise.
pub fn resolve_server_name(name: Option<&str>) -> (r: String)
    ensures
        match name {
            Some(n) => r@ == n@,
            None => r@.len() > 0,
        },
{
    match name {
        Some(n) => n.to_owned(),
        None => get_random_name(),
    }
}

} // verus!
