//! Spaces: versioning domains for conflict detection.
//!
//! A [`Space`] is a handle into the store.  Cells sharing a space share one
//! version clock, so a transaction touching several of them validates and
//! bumps a single counter.  A space with identity `0` is a single-variable
//! space: the commit protocol treats each of its cells as an isolated group.

use vstd::prelude::*;

use crate::stm::Stm;
use crate::stm::bump1;

verus! {

/// A handle to one space of the store.
#[derive(Clone, Copy)]
pub struct Space {
    key: usize,
    id: u64,
}

impl Space {
    /// The key of this space in the store: its stable identity, and the
    /// outer key of the canonical lock order.
    pub closed spec fn skey(self) -> int {
        self.key as int
    }

    /// The caller-chosen identity of this space.
    pub closed spec fn sid(self) -> u64 {
        self.id
    }

    /// The handle points at an existing space of `stm` and agrees with it
    /// on the identity.
    pub open spec fn wf(self, stm: Stm) -> bool {
        &&& stm.is_space(self.skey())
        &&& stm.space_id(self.skey()) == self.sid()
    }

    /// Creates a named space.  Identity `0` is reserved for single-variable
    /// spaces; asking for it is a programming error, so it is excluded
    /// here.
    pub fn new(stm: &mut Stm, id: u64) -> (s: Space)
        requires
            old(stm).wf(),
            id != 0,
        ensures
            final(stm).wf(),
            final(stm).extends(*old(stm)),
            final(stm).same_cells(*old(stm)),
            final(stm).same_output(*old(stm)),
            final(stm).space_count() == old(stm).space_count() + 1,
            forall|t: int|
                old(stm).is_space(t) ==> #[trigger] final(stm).version(t) == old(stm).version(t),
            s.wf(*final(stm)),
            s.sid() == id,
            s.skey() == old(stm).space_count(),
            final(stm).version(s.skey()) == 0,
    {
        let key = stm.add_space(id);
        Space { key, id }
    }

    /// Creates a fresh single-variable space (identity `0`).
    pub fn new_single_var_space(stm: &mut Stm) -> (s: Space)
        requires
            old(stm).wf(),
        ensures
            final(stm).wf(),
            final(stm).extends(*old(stm)),
            final(stm).same_cells(*old(stm)),
            final(stm).same_output(*old(stm)),
            final(stm).space_count() == old(stm).space_count() + 1,
            forall|t: int|
                old(stm).is_space(t) ==> #[trigger] final(stm).version(t) == old(stm).version(t),
            s.wf(*final(stm)),
            s.sid() == 0,
            s.skey() == old(stm).space_count(),
            final(stm).version(s.skey()) == 0,
    {
        let key = stm.add_space(0);
        Space { key, id: 0 }
    }

    /// The caller-chosen identity.
    pub fn get_id(&self) -> (id: u64)
        ensures
            id == self.sid(),
    {
        self.id
    }

    /// The stable identity of this space: its key in the store.
    pub fn get_address(&self) -> (a: usize)
        ensures
            a == self.skey(),
    {
        self.key
    }

    /// The current version of this space.
    pub fn read_version(&self, stm: &Stm) -> (v: u64)
        requires
            self.wf(*stm),
        ensures
            v == stm.version(self.skey()),
    {
        stm.space_version(self.key)
    }

    /// Bumps the version by one, but only if the current version equals
    /// `version_id`; reports whether it did.
    pub fn write_version(&self, stm: &mut Stm, version_id: u64) -> (r: bool)
        requires
            old(stm).wf(),
            self.wf(*old(stm)),
        ensures
            final(stm).wf(),
            final(stm).extends(*old(stm)),
            final(stm).same_cells(*old(stm)),
            final(stm).same_output(*old(stm)),
            final(stm).space_count() == old(stm).space_count(),
            r == (old(stm).version(self.skey()) == version_id),
            r ==> final(stm).version(self.skey()) == bump1(version_id),
            forall|t: int|
                old(stm).is_space(t) && t != self.skey() ==> #[trigger] final(stm).version(t)
                    == old(stm).version(t),
            !r ==> final(stm).version(self.skey()) == old(stm).version(self.skey()),
    {
        let current = stm.space_version(self.key);
        if current == version_id {
            stm.bump_space(self.key);
            true
        } else {
            false
        }
    }
}

} // verus!
