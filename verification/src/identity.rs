use vstd::prelude::*;

use core::hash::Hasher;

verus! {

/// The digest that a default-seeded `wyhash::WyHash` gives after one `write` of each chunk
/// of `writes`, in order.
pub uninterp spec fn wyhash_digest(writes: Seq<Seq<u8>>) -> u64;

/// Calls `wyhash::WyHash::default()`, then `Hasher::write` once with each chunk of
/// `writes` in order, then `Hasher::finish`. Claimed: the result depends on the chunks
/// alone (the default seed is the constant 0; WyHash mixes each write separately, so the
/// chunk boundaries count), and is named `wyhash_digest` of them.
#[verifier::external_body]
fn wyhash_writes(writes: &Vec<Vec<u8>>) -> (digest: u64)
    ensures
        digest == wyhash_digest(writes.deep_view()),
{
    let mut hasher = wyhash::WyHash::default();
    for chunk in writes.iter() {
        hasher.write(chunk);
    }
    hasher.finish()
}

/// The identity of a worker, computed from what its `Hash` impl writes.
pub trait LazyIdentity {
    fn lazy_identity(&self) -> u64;
}

/// The chunks a `Hash` impl wrote, one per call of `Hasher::write`, in order.
impl LazyIdentity for Vec<Vec<u8>> {
    fn lazy_identity(&self) -> (identity: u64)
        ensures
            identity == wyhash_digest(self.deep_view()),
    {
        wyhash_writes(self)
    }
}

} // verus!
