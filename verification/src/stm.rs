//! The store: every space and every cell of one transactional memory.
//!
//! The whole shared state lives in one owned [`Stm`] value, and spaces and
//! cells are addressed by stable keys (their creation index).  Handles such
//! as `Space` and `TVar` carry a key into this store; the keys also give
//! the stable total order the commit protocol needs.
//!
//! All mutation of the store goes through the methods of this module, and
//! each method states exactly what it changes.  In particular every method
//! keeps each space's version monotonically non-decreasing, and never changes
//! the tag of a cell's payload.

use vstd::prelude::*;

use crate::value::Value;
use crate::value::ValueModel;

verus! {

/// One versioning domain: a caller-visible identity and a monotonic clock.
struct SpaceRec {
    /// Caller-chosen identity; `0` marks a single-variable space.
    id: u64,
    /// The space's version clock.
    version: u64,
}

/// One cell: its owning space and its committed payload.
struct CellRec {
    /// Key of the owning space.
    space: usize,
    /// The committed payload.
    value: Value,
}

/// The store of one transactional memory: spaces, cells, and the log of
/// messages published by committed transactions.
pub struct Stm {
    spaces: Vec<SpaceRec>,
    cells: Vec<CellRec>,
    output: Vec<String>,
}

/// A version clock after one bump: one more, capped at the clock's maximum.
pub open spec fn bump1(v: u64) -> u64 {
    if v == u64::MAX {
        v
    } else {
        (v + 1) as u64
    }
}

impl Stm {
    /// How many spaces exist.
    pub closed spec fn space_count(self) -> nat {
        self.spaces@.len()
    }

    /// Whether `s` is the key of an existing space.
    pub open spec fn is_space(self, s: int) -> bool {
        0 <= s < self.space_count()
    }

    /// The caller-chosen identity of space `s`.
    pub closed spec fn space_id(self, s: int) -> u64 {
        self.spaces@[s].id
    }

    /// The current version of space `s`.
    pub closed spec fn version(self, s: int) -> u64 {
        self.spaces@[s].version
    }

    /// How many cells exist.
    pub closed spec fn cell_count(self) -> nat {
        self.cells@.len()
    }

    /// Whether `c` is the key of an existing cell.
    pub open spec fn is_cell(self, c: int) -> bool {
        0 <= c < self.cell_count()
    }

    /// The key of the space owning cell `c`.
    pub closed spec fn cell_space(self, c: int) -> int {
        self.cells@[c].space as int
    }

    /// The committed payload of cell `c`.
    pub closed spec fn cell_value(self, c: int) -> ValueModel {
        self.cells@[c].value@
    }

    /// The messages published by committed transactions so far.
    pub closed spec fn output_model(self) -> Seq<Seq<char>> {
        self.output@.map_values(|s: String| s@)
    }

    /// Every cell belongs to an existing space.
    pub open spec fn cells_bound(self) -> bool {
        forall|c: int| self.is_cell(c) ==> self.is_space(#[trigger] self.cell_space(c))
    }

    /// A space with identity `0` is a single-variable space: it owns at most
    /// one cell.
    pub open spec fn anon_solo(self) -> bool {
        forall|c1: int, c2: int|
            self.is_cell(c1) && self.is_cell(c2) && c1 != c2 && #[trigger] self.cell_space(c1)
                == #[trigger] self.cell_space(c2) ==> self.space_id(self.cell_space(c1)) != 0
    }

    /// The store is well formed: every cell belongs to an existing space,
    /// and a space with identity `0` owns at most one cell.
    pub open spec fn wf(self) -> bool {
        &&& self.cells_bound()
        &&& self.anon_solo()
    }

    /// `post` still holds everything `pre` held: no space or cell is gone,
    /// no identity moved, no cell changed the tag of its payload, and no
    /// version ran backwards.
    pub open spec fn extends(self, pre: Stm) -> bool {
        &&& self.space_count() >= pre.space_count()
        &&& self.cell_count() >= pre.cell_count()
        &&& forall|s: int| pre.is_space(s) ==> #[trigger] self.space_id(s) == pre.space_id(s)
        &&& forall|s: int| pre.is_space(s) ==> #[trigger] self.version(s) >= pre.version(s)
        &&& forall|c: int|
            pre.is_cell(c) ==> #[trigger] self.cell_space(c) == pre.cell_space(c)
                && self.cell_value(c).tag() == pre.cell_value(c).tag()
    }

    /// The spaces of `self` and `pre` agree exactly: same count, same
    /// identities, same versions.
    pub open spec fn same_spaces(self, pre: Stm) -> bool {
        &&& self.space_count() == pre.space_count()
        &&& forall|s: int| pre.is_space(s) ==> #[trigger] self.space_id(s) == pre.space_id(s)
        &&& forall|s: int| pre.is_space(s) ==> #[trigger] self.version(s) == pre.version(s)
    }

    /// The cells of `self` and `pre` agree exactly: same count, same owning
    /// spaces, same payloads.
    pub open spec fn same_cells(self, pre: Stm) -> bool {
        &&& self.cell_count() == pre.cell_count()
        &&& forall|c: int| pre.is_cell(c) ==> #[trigger] self.cell_space(c) == pre.cell_space(c)
        &&& forall|c: int| pre.is_cell(c) ==> #[trigger] self.cell_value(c) == pre.cell_value(c)
    }

    /// The published output of `self` and `pre` agree.
    pub open spec fn same_output(self, pre: Stm) -> bool {
        self.output_model() == pre.output_model()
    }

    /// Version clocks are monotonic across any chain of store states: an
    /// extension of an extension is an extension, so no version ever runs
    /// backwards over a whole run.
    pub proof fn lemma_extends_trans(a: Stm, b: Stm, c: Stm)
        requires
            c.extends(b),
            b.extends(a),
        ensures
            c.extends(a),
    {
        assert forall|s: int| a.is_space(s) implies #[trigger] c.space_id(s) == a.space_id(s) by {
            assert(b.is_space(s));
            assert(b.space_id(s) == a.space_id(s));
        }
        assert forall|s: int| a.is_space(s) implies #[trigger] c.version(s) >= a.version(s) by {
            assert(b.is_space(s));
            assert(b.version(s) >= a.version(s));
            assert(c.version(s) >= b.version(s));
        }
        assert forall|d: int|
            a.is_cell(d) implies #[trigger] c.cell_space(d) == a.cell_space(d) && c.cell_value(
            d,
        ).tag() == a.cell_value(d).tag() by {
            assert(b.is_cell(d));
            assert(b.cell_space(d) == a.cell_space(d));
            assert(b.cell_value(d).tag() == a.cell_value(d).tag());
            assert(c.cell_space(d) == b.cell_space(d));
            assert(c.cell_value(d).tag() == b.cell_value(d).tag());
            assert(c.cell_space(d) == a.cell_space(d));
            assert(c.cell_value(d).tag() == a.cell_value(d).tag());
        }
        assert(c.space_count() >= a.space_count());
        assert(c.cell_count() >= a.cell_count());
    }

    /// An empty store: no spaces, no cells, nothing published.
    pub fn new() -> (r: Stm)
        ensures
            r.space_count() == 0,
            r.cell_count() == 0,
            r.output_model() == Seq::<Seq<char>>::empty(),
            r.wf(),
    {
        let r = Stm { spaces: Vec::new(), cells: Vec::new(), output: Vec::new() };
        proof {
            assert(r.output_model() =~= Seq::<Seq<char>>::empty());
        }
        r
    }

    /// Creates a space with identity `id` at version 0 and returns its key.
    pub(crate) fn add_space(&mut self, id: u64) -> (s: usize)
        requires
            old(self).wf(),
        ensures
            final(self).wf(),
            final(self).extends(*old(self)),
            s == old(self).space_count(),
            final(self).space_count() == old(self).space_count() + 1,
            final(self).space_id(s as int) == id,
            final(self).version(s as int) == 0,
            forall|t: int|
                old(self).is_space(t) ==> #[trigger] final(self).version(t) == old(self).version(t),
            final(self).same_cells(*old(self)),
            final(self).same_output(*old(self)),
    {
        let s = self.spaces.len();
        self.spaces.push(SpaceRec { id, version: 0 });
        proof {
            assert forall|c: int| self.is_cell(c) implies self.is_space(
                #[trigger] self.cell_space(c),
            ) by {
                assert(old(self).is_cell(c) && old(self).is_space(old(self).cell_space(c)));
            }
            assert forall|c1: int, c2: int|
                self.is_cell(c1) && self.is_cell(c2) && c1 != c2 && #[trigger] self.cell_space(c1)
                    == #[trigger] self.cell_space(c2) implies self.space_id(
                self.cell_space(c1),
            ) != 0 by {
                assert(old(self).is_cell(c1) && old(self).is_cell(c2));
                assert(old(self).cell_space(c1) == old(self).cell_space(c2));
            }
        }
        s
    }

    /// Creates a cell owned by space `space`, holding `value`, and returns
    /// its key.
    pub(crate) fn add_cell(&mut self, space: usize, value: Value) -> (c: usize)
        requires
            old(self).wf(),
            old(self).is_space(space as int),
            old(self).space_id(space as int) != 0 || (forall|d: int|
                old(self).is_cell(d) ==> #[trigger] old(self).cell_space(d) != space as int),
        ensures
            final(self).wf(),
            final(self).extends(*old(self)),
            c == old(self).cell_count(),
            final(self).cell_count() == old(self).cell_count() + 1,
            final(self).cell_space(c as int) == space as int,
            final(self).cell_value(c as int) == value@,
            final(self).same_spaces(*old(self)),
            forall|d: int|
                old(self).is_cell(d) ==> #[trigger] final(self).cell_value(d) == old(
                    self,
                ).cell_value(d),
            final(self).same_output(*old(self)),
    {
        let c = self.cells.len();
        self.cells.push(CellRec { space, value });
        proof {
            assert forall|d: int| self.is_cell(d) implies self.is_space(
                #[trigger] self.cell_space(d),
            ) by {
                if d < old(self).cell_count() {
                    assert(old(self).is_cell(d) && old(self).is_space(old(self).cell_space(d)));
                }
            }
            assert forall|c1: int, c2: int|
                self.is_cell(c1) && self.is_cell(c2) && c1 != c2 && #[trigger] self.cell_space(c1)
                    == #[trigger] self.cell_space(c2) implies self.space_id(
                self.cell_space(c1),
            ) != 0 by {
                if c1 < old(self).cell_count() && c2 < old(self).cell_count() {
                    assert(old(self).is_cell(c1) && old(self).is_cell(c2));
                    assert(old(self).cell_space(c1) == old(self).cell_space(c2));
                } else if c1 < old(self).cell_count() {
                    if old(self).space_id(space as int) == 0 {
                        assert(old(self).cell_space(c1) != space as int);
                    }
                } else if c2 < old(self).cell_count() {
                    if old(self).space_id(space as int) == 0 {
                        assert(old(self).cell_space(c2) != space as int);
                    }
                }
            }
        }
        c
    }

    /// The current version of space `s`.
    pub(crate) fn space_version(&self, s: usize) -> (v: u64)
        requires
            self.is_space(s as int),
        ensures
            v == self.version(s as int),
    {
        self.spaces[s].version
    }

    /// Bumps the version of space `s` by one (capped at the clock maximum).
    pub(crate) fn bump_space(&mut self, s: usize)
        requires
            old(self).wf(),
            old(self).is_space(s as int),
        ensures
            final(self).wf(),
            final(self).extends(*old(self)),
            final(self).version(s as int) == bump1(old(self).version(s as int)),
            final(self).space_count() == old(self).space_count(),
            final(self).cell_count() == old(self).cell_count(),
            forall|t: int|
                old(self).is_space(t) && t != s as int ==> #[trigger] final(self).version(t) == old(
                    self,
                ).version(t),
            final(self).same_cells(*old(self)),
            final(self).same_output(*old(self)),
    {
        let v = self.spaces[s].version;
        let id = self.spaces[s].id;
        if v < u64::MAX {
            self.spaces.set(s, SpaceRec { id, version: v + 1 });
        }
        proof {
            assert forall|c: int| self.is_cell(c) implies self.is_space(
                #[trigger] self.cell_space(c),
            ) by {
                assert(old(self).is_cell(c) && old(self).is_space(old(self).cell_space(c)));
            }
            assert forall|c1: int, c2: int|
                self.is_cell(c1) && self.is_cell(c2) && c1 != c2 && #[trigger] self.cell_space(c1)
                    == #[trigger] self.cell_space(c2) implies self.space_id(
                self.cell_space(c1),
            ) != 0 by {
                assert(old(self).is_cell(c1) && old(self).is_cell(c2));
                assert(old(self).cell_space(c1) == old(self).cell_space(c2));
            }
        }
    }

    /// An owned copy of the payload of cell `c`.
    pub(crate) fn cell_read(&self, c: usize) -> (r: Value)
        requires
            self.is_cell(c as int),
        ensures
            r@ == self.cell_value(c as int),
    {
        self.cells[c].value.duplicate()
    }

    /// Replaces the payload of cell `c`; the new payload keeps the cell's tag.
    pub(crate) fn set_cell(&mut self, c: usize, value: Value)
        requires
            old(self).wf(),
            old(self).is_cell(c as int),
            value@.tag() == old(self).cell_value(c as int).tag(),
        ensures
            final(self).wf(),
            final(self).extends(*old(self)),
            final(self).cell_value(c as int) == value@,
            final(self).same_spaces(*old(self)),
            final(self).cell_count() == old(self).cell_count(),
            forall|d: int|
                old(self).is_cell(d) && d != c as int ==> #[trigger] final(self).cell_value(d)
                    == old(self).cell_value(d),
            final(self).same_output(*old(self)),
    {
        let space = self.cells[c].space;
        self.cells.set(c, CellRec { space, value });
        proof {
            assert forall|d: int| self.is_cell(d) implies self.is_space(
                #[trigger] self.cell_space(d),
            ) by {
                assert(old(self).is_cell(d) && old(self).is_space(old(self).cell_space(d)));
            }
            assert forall|c1: int, c2: int|
                self.is_cell(c1) && self.is_cell(c2) && c1 != c2 && #[trigger] self.cell_space(c1)
                    == #[trigger] self.cell_space(c2) implies self.space_id(
                self.cell_space(c1),
            ) != 0 by {
                assert(old(self).is_cell(c1) && old(self).is_cell(c2));
                assert(old(self).cell_space(c1) == old(self).cell_space(c2));
            }
        }
    }

    /// Appends one published message to the output log.
    pub(crate) fn push_output(&mut self, msg: String)
        requires
            old(self).wf(),
        ensures
            final(self).wf(),
            final(self).extends(*old(self)),
            final(self).output_model() == old(self).output_model().push(msg@),
            final(self).same_spaces(*old(self)),
            final(self).same_cells(*old(self)),
    {
        self.output.push(msg);
        proof {
            assert(self.output_model() =~= old(self).output_model().push(self.output@.last()@));
            assert forall|c: int| self.is_cell(c) implies self.is_space(
                #[trigger] self.cell_space(c),
            ) by {
                assert(old(self).is_cell(c) && old(self).is_space(old(self).cell_space(c)));
            }
            assert forall|c1: int, c2: int|
                self.is_cell(c1) && self.is_cell(c2) && c1 != c2 && #[trigger] self.cell_space(c1)
                    == #[trigger] self.cell_space(c2) implies self.space_id(
                self.cell_space(c1),
            ) != 0 by {
                assert(old(self).is_cell(c1) && old(self).is_cell(c2));
                assert(old(self).cell_space(c1) == old(self).cell_space(c2));
            }
        }
    }

    /// Hands the published messages out and empties the output log.
    pub fn take_output(&mut self) -> (r: Vec<String>)
        requires
            old(self).wf(),
        ensures
            final(self).wf(),
            final(self).extends(*old(self)),
            r@.map_values(|s: String| s@) == old(self).output_model(),
            final(self).output_model() == Seq::<Seq<char>>::empty(),
            final(self).same_spaces(*old(self)),
            final(self).same_cells(*old(self)),
    {
        let mut taken: Vec<String> = Vec::new();
        std::mem::swap(&mut taken, &mut self.output);
        proof {
            assert(self.output_model() =~= Seq::<Seq<char>>::empty());
            assert forall|c: int| self.is_cell(c) implies self.is_space(
                #[trigger] self.cell_space(c),
            ) by {
                assert(old(self).is_cell(c) && old(self).is_space(old(self).cell_space(c)));
            }
            assert forall|c1: int, c2: int|
                self.is_cell(c1) && self.is_cell(c2) && c1 != c2 && #[trigger] self.cell_space(c1)
                    == #[trigger] self.cell_space(c2) implies self.space_id(
                self.cell_space(c1),
            ) != 0 by {
                assert(old(self).is_cell(c1) && old(self).is_cell(c2));
                assert(old(self).cell_space(c1) == old(self).cell_space(c2));
            }
        }
        taken
    }
}

} // verus!
