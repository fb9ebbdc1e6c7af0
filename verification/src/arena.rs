//! The interner: long-lived storage for the bytes of retained records.

use vstd::prelude::*;

verus! {

/// `bumpalo::Bump`: a bump arena, carried as an opaque value.
#[verifier::external_type_specification]
#[verifier::external_body]
pub struct ExBump<const MIN_ALIGN: usize>(bumpalo::Bump<MIN_ALIGN>);

/// The limit in bytes beyond which an arena refuses to grow, as
/// `bumpalo::Bump::allocation_limit` reports it: none where the arena may
/// grow as far as memory lasts.
///
/// An arena keeps the limit it was made with unless it is told another, and
/// nothing in this library tells an arena another.
pub uninterp spec fn arena_limit(arena: bumpalo::Bump) -> Option<usize>;

/// Owns the storage of every key of one aggregation pass. Keys are handed out
/// as slices that live as long as the interner; none is ever freed or changed
/// on its own. The storage grows in chunks as keys come in, and nothing but
/// the memory of the machine bounds it.
pub struct Interner {
    arena: bumpalo::Bump,
}

/// Calls `bumpalo::Bump::new`.
///
/// Trusted: the new arena has no allocation limit.
#[verifier::external_body]
fn arena_new() -> (fresh: bumpalo::Bump)
    ensures
        arena_limit(fresh) is None,
{
    bumpalo::Bump::new()
}

/// Calls `bumpalo::Bump::alloc_slice_copy`, which panics where the arena
/// cannot reserve the space; an arena without an allocation limit can, as
/// long as memory lasts.
///
/// Trusted: the slice that comes back holds the bytes that were given.
#[verifier::external_body]
fn arena_copy<'a>(arena: &'a bumpalo::Bump, bytes: &[u8]) -> (copy: &'a [u8])
    requires
        arena_limit(*arena) is None,
    ensures
        copy@ == bytes@,
{
    arena.alloc_slice_copy(bytes)
}

impl Interner {
    #[verifier::type_invariant]
    spec fn never_limited(self) -> bool {
        arena_limit(self.arena) is None
    }

    /// The interner's storage has no size limit of its own: it takes keys of
    /// any size, as many as memory holds.
    pub closed spec fn unlimited(&self) -> bool {
        arena_limit(self.arena) is None
    }

    /// An interner that holds nothing yet, over a new arena without a size
    /// limit.
    pub fn new() -> (interner: Interner)
        ensures
            interner.unlimited(),
    {
        Interner { arena: arena_new() }
    }

    /// Copies `bytes` into the interner's storage and returns the copy. The
    /// caller's buffer is never aliased, and nothing is deduplicated here:
    /// whether interning is needed is for the caller to decide.
    pub fn intern<'a>(&'a self, bytes: &[u8]) -> (key: &'a [u8])
        ensures
            key@ == bytes@,
    {
        proof {
            use_type_invariant(self);
        }
        arena_copy(&self.arena, bytes)
    }
}

} // verus!
