//! Cells and typed transactional variables.
//!
//! [`Mtx`] is a handle to one cell of the store: the value-bearing interior
//! of a transactional variable, bound to one space for its whole life.
//! [`TVar`] wraps such a handle with a payload type, and is the typed entry
//! point for reads and writes inside a transaction.

use vstd::prelude::*;

use crate::log_vars::LogVarModel;
use crate::render::debug_model;
use crate::render::display_model;
use crate::space::Space;
use crate::stm::Stm;
use crate::transaction::Transaction;
use crate::value::Payload;
use crate::value::Value;

verus! {

/// A handle to one cell: its key in the store and its owning space.
#[derive(Clone, Copy)]
pub struct Mtx {
    key: usize,
    space: Space,
}

impl Mtx {
    /// The key of this cell in the store: its stable identity, and the
    /// inner key of the canonical lock order.
    pub closed spec fn ckey(self) -> int {
        self.key as int
    }

    /// The key of the owning space.
    pub closed spec fn skey(self) -> int {
        self.space.skey()
    }

    /// The caller-chosen identity of the owning space.
    pub closed spec fn sid(self) -> u64 {
        self.space.sid()
    }

    /// The handle points at an existing cell of `stm`, owned by the space
    /// the handle carries.
    pub open spec fn wf(self, stm: Stm) -> bool {
        &&& stm.is_cell(self.ckey())
        &&& stm.cell_space(self.ckey()) == self.skey()
        &&& stm.is_space(self.skey())
        &&& stm.space_id(self.skey()) == self.sid()
    }

    /// Creates a cell holding `value` in the given space.  A space with
    /// identity `0` is a single-variable space, so it must still be empty.
    pub fn new(stm: &mut Stm, value: Value, space: &Space) -> (m: Mtx)
        requires
            old(stm).wf(),
            space.wf(*old(stm)),
            space.sid() != 0 || (forall|d: int|
                old(stm).is_cell(d) ==> #[trigger] old(stm).cell_space(d) != space.skey()),
        ensures
            final(stm).wf(),
            final(stm).extends(*old(stm)),
            final(stm).same_spaces(*old(stm)),
            final(stm).same_output(*old(stm)),
            final(stm).cell_count() == old(stm).cell_count() + 1,
            forall|d: int|
                old(stm).is_cell(d) ==> #[trigger] final(stm).cell_value(d) == old(stm).cell_value(
                    d,
                ),
            m.wf(*final(stm)),
            m.ckey() == old(stm).cell_count(),
            m.skey() == space.skey(),
            m.sid() == space.sid(),
            final(stm).cell_value(m.ckey()) == value@,
    {
        let key = stm.add_cell(space.get_address(), value);
        Mtx { key, space: *space }
    }

    /// The cell's current committed value and its space's current version,
    /// read together.
    pub fn read_atomic(&self, stm: &Stm) -> (r: (Value, u64))
        requires
            self.wf(*stm),
        ensures
            r.0@ == stm.cell_value(self.ckey()),
            r.1 == stm.version(self.skey()),
    {
        let value = stm.cell_read(self.key);
        let version = stm.space_version(self.space.get_address());
        (value, version)
    }

    /// The owning space.
    pub fn get_space(&self) -> (s: Space)
        ensures
            s.skey() == self.skey(),
            s.sid() == self.sid(),
    {
        self.space
    }

    /// The stable identity of this cell: its key in the store.
    pub fn get_address(&self) -> (a: usize)
        ensures
            a == self.ckey(),
    {
        self.key
    }
}

/// A typed transactional variable: a cell handle plus its payload type.
pub struct TVar<T> {
    mtx: Mtx,
    _marker: core::marker::PhantomData<T>,
}

impl<T> Clone for TVar<T> {
    /// A second handle to the same cell.
    fn clone(&self) -> (r: Self)
        ensures
            r == *self,
    {
        TVar { mtx: self.mtx, _marker: core::marker::PhantomData }
    }
}

impl<T: Payload> TVar<T> {
    /// The key of the underlying cell.
    pub closed spec fn ckey(self) -> int {
        self.mtx.ckey()
    }

    /// The key of the owning space.
    pub closed spec fn skey(self) -> int {
        self.mtx.skey()
    }

    /// The caller-chosen identity of the owning space.
    pub closed spec fn sid(self) -> u64 {
        self.mtx.sid()
    }

    /// The underlying cell handle points into `stm` and the cell's payload
    /// carries this variable's tag.
    pub open spec fn wf(self, stm: Stm) -> bool {
        &&& stm.is_cell(self.ckey())
        &&& stm.cell_space(self.ckey()) == self.skey()
        &&& stm.is_space(self.skey())
        &&& stm.space_id(self.skey()) == self.sid()
        &&& stm.cell_value(self.ckey()).tag() == T::tag_of()
    }

    /// Creates a variable holding `value` in a fresh single-variable space.
    pub fn new(stm: &mut Stm, value: T) -> (t: TVar<T>)
        requires
            old(stm).wf(),
        ensures
            final(stm).wf(),
            final(stm).extends(*old(stm)),
            final(stm).same_output(*old(stm)),
            final(stm).space_count() == old(stm).space_count() + 1,
            final(stm).cell_count() == old(stm).cell_count() + 1,
            forall|s: int|
                old(stm).is_space(s) ==> #[trigger] final(stm).version(s) == old(stm).version(s),
            forall|d: int|
                old(stm).is_cell(d) ==> #[trigger] final(stm).cell_value(d) == old(stm).cell_value(
                    d,
                ),
            t.wf(*final(stm)),
            t.ckey() == old(stm).cell_count(),
            t.skey() == old(stm).space_count(),
            t.sid() == 0,
            final(stm).version(t.skey()) == 0,
            final(stm).cell_value(t.ckey()) == value.model(),
    {
        let space = Space::new_single_var_space(stm);
        let mtx = Mtx::new(stm, value.to_value(), &space);
        TVar { mtx, _marker: core::marker::PhantomData }
    }

    /// Creates a variable holding `value` in the given space.  A space with
    /// identity `0` is a single-variable space, so it must still be empty.
    pub fn new_with_space(stm: &mut Stm, value: T, space: &Space) -> (t: TVar<T>)
        requires
            old(stm).wf(),
            space.wf(*old(stm)),
            space.sid() != 0 || (forall|d: int|
                old(stm).is_cell(d) ==> #[trigger] old(stm).cell_space(d) != space.skey()),
        ensures
            final(stm).wf(),
            final(stm).extends(*old(stm)),
            final(stm).same_spaces(*old(stm)),
            final(stm).same_output(*old(stm)),
            final(stm).cell_count() == old(stm).cell_count() + 1,
            forall|d: int|
                old(stm).is_cell(d) ==> #[trigger] final(stm).cell_value(d) == old(stm).cell_value(
                    d,
                ),
            t.wf(*final(stm)),
            t.ckey() == old(stm).cell_count(),
            t.skey() == space.skey(),
            t.sid() == space.sid(),
            final(stm).cell_value(t.ckey()) == value.model(),
    {
        let mtx = Mtx::new(stm, value.to_value(), space);
        TVar { mtx, _marker: core::marker::PhantomData }
    }

    /// The underlying cell handle.
    pub fn get_mtx_ref(&self) -> (m: Mtx)
        ensures
            m.ckey() == self.ckey(),
            m.skey() == self.skey(),
            m.sid() == self.sid(),
            forall|stm: Stm| self.wf(stm) ==> m.wf(stm),
    {
        self.mtx
    }

    /// Reads this variable inside the transaction; see [`Transaction::read`].
    pub fn read(&self, stm: &Stm, transaction: &mut Transaction) -> (r: Result<T, usize>)
        requires
            old(transaction).wf(),
            old(transaction).compat(*stm),
            stm.wf(),
            self.wf(*stm),
        ensures
            final(transaction).wf(),
            final(transaction).compat(*stm),
            final(transaction).msgs() == old(transaction).msgs(),
            forall|d: int|
                final(transaction).has_cell(d) <==> (old(transaction).has_cell(d) || d
                    == self.ckey()),
            forall|d: int|
                old(transaction).has_cell(d) ==> final(transaction).entry_for(d) == old(transaction).entry_for(d),
            !old(transaction).has_cell(self.ckey()) ==> final(transaction).entry_for(self.ckey())
                == LogVarModel::Read(stm.cell_value(self.ckey()), stm.version(self.skey())),
            r is Ok,
            r matches Ok(t) ==> t.model() == (if old(transaction).has_cell(self.ckey()) {
                old(transaction).entry_for(self.ckey()).current()
            } else {
                stm.cell_value(self.ckey())
            }),
    {
        transaction.read(stm, self)
    }

    /// Stages a write to this variable; see [`Transaction::write`].
    pub fn write(&self, transaction: &mut Transaction, value: T) -> (r: Result<usize, usize>)
        requires
            old(transaction).wf(),
        ensures
            final(transaction).wf(),
            final(transaction).msgs() == old(transaction).msgs(),
            forall|d: int|
                final(transaction).has_cell(d) <==> (old(transaction).has_cell(d) || d
                    == self.ckey()),
            forall|d: int|
                old(transaction).has_cell(d) && d != self.ckey() ==> final(transaction).entry_for(
                    d,
                ) == old(transaction).entry_for(d),
            old(transaction).has_cell(self.ckey()) ==> final(transaction).entry_for(self.ckey())
                == old(transaction).entry_for(self.ckey()).after_write(value.model()),
            !old(transaction).has_cell(self.ckey()) ==> final(transaction).entry_for(self.ckey())
                == LogVarModel::Write(value.model()),
            forall|stm: Stm|
                old(transaction).compat(stm) && self.wf(stm) ==> #[trigger] final(transaction).compat(stm),
            r is Ok,
            r matches Ok(n) ==> n == 0,
    {
        transaction.write(self, value)
    }

    /// Reads this variable and queues a display message; see
    /// [`Transaction::display_value`].
    pub fn display_value(&self, stm: &Stm, transaction: &mut Transaction, msg: &str)
        requires
            old(transaction).wf(),
            old(transaction).compat(*stm),
            stm.wf(),
            self.wf(*stm),
        ensures
            final(transaction).wf(),
            final(transaction).compat(*stm),
            forall|d: int|
                final(transaction).has_cell(d) <==> (old(transaction).has_cell(d) || d
                    == self.ckey()),
            forall|d: int|
                old(transaction).has_cell(d) ==> final(transaction).entry_for(d) == old(transaction).entry_for(d),
            !old(transaction).has_cell(self.ckey()) ==> final(transaction).entry_for(self.ckey())
                == LogVarModel::Read(stm.cell_value(self.ckey()), stm.version(self.skey())),
            final(transaction).msgs() == old(transaction).msgs().push(
                msg@ + seq![' '] + display_model(
                    if old(transaction).has_cell(self.ckey()) {
                        old(transaction).entry_for(self.ckey()).current()
                    } else {
                        stm.cell_value(self.ckey())
                    },
                ),
            ),
    {
        transaction.display_value(stm, self, msg)
    }

    /// Reads this variable and queues a debug message; see
    /// [`Transaction::debug_value`].
    pub fn debug_value(&self, stm: &Stm, transaction: &mut Transaction, msg: &str)
        requires
            old(transaction).wf(),
            old(transaction).compat(*stm),
            stm.wf(),
            self.wf(*stm),
        ensures
            final(transaction).wf(),
            final(transaction).compat(*stm),
            forall|d: int|
                final(transaction).has_cell(d) <==> (old(transaction).has_cell(d) || d
                    == self.ckey()),
            forall|d: int|
                old(transaction).has_cell(d) ==> final(transaction).entry_for(d) == old(transaction).entry_for(d),
            !old(transaction).has_cell(self.ckey()) ==> final(transaction).entry_for(self.ckey())
                == LogVarModel::Read(stm.cell_value(self.ckey()), stm.version(self.skey())),
            final(transaction).msgs() == old(transaction).msgs().push(
                seq!['"'] + msg@ + seq!['"', ' '] + debug_model(
                    if old(transaction).has_cell(self.ckey()) {
                        old(transaction).entry_for(self.ckey()).current()
                    } else {
                        stm.cell_value(self.ckey())
                    },
                ),
            ),
    {
        transaction.debug_value(stm, self, msg)
    }

    /// The current committed value, read outside any transaction.
    pub fn atomic_read(&self, stm: &Stm) -> (r: T)
        requires
            self.wf(*stm),
        ensures
            r.model() == stm.cell_value(self.ckey()),
    {
        T::of_value(stm.cell_read(self.mtx.get_address()))
    }

    /// Replaces the committed value outside any transaction, without
    /// touching the space's version.
    pub fn atomic_write(&self, stm: &mut Stm, value: T)
        requires
            old(stm).wf(),
            self.wf(*old(stm)),
        ensures
            final(stm).wf(),
            final(stm).extends(*old(stm)),
            final(stm).same_spaces(*old(stm)),
            final(stm).same_output(*old(stm)),
            final(stm).cell_count() == old(stm).cell_count(),
            final(stm).cell_value(self.ckey()) == value.model(),
            forall|d: int|
                old(stm).is_cell(d) && d != self.ckey() ==> #[trigger] final(stm).cell_value(d)
                    == old(stm).cell_value(d),
            self.wf(*final(stm)),
    {
        stm.set_cell(self.mtx.get_address(), value.to_value())
    }
}

} // verus!
