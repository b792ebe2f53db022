//! Declarations of the arena types of `id_arena`, which both trees are stored in.
use vstd::prelude::*;

verus! {

/// `id_arena::Id`: an index into one arena, tagged with that arena's key.
#[verifier::external_type_specification]
#[verifier::external_body]
#[verifier::reject_recursive_types(T)]
pub struct ExId<T>(id_arena::Id<T>);

/// `id_arena::DefaultArenaBehavior`: mints `id_arena::Id<T>` values.
#[verifier::external_type_specification]
#[verifier::external_body]
#[verifier::reject_recursive_types(T)]
pub struct ExDefaultArenaBehavior<T>(id_arena::DefaultArenaBehavior<T>);

/// `id_arena::Arena`: an append-only vector of items with a key of its own.
#[verifier::external_type_specification]
#[verifier::external_body]
#[verifier::reject_recursive_types(T)]
#[verifier::reject_recursive_types(A)]
pub struct ExArena<T, A>(id_arena::Arena<T, A>);

} // verus!
