//! Transactions: the per-attempt log and the commit protocol.
//!
//! A [`Transaction`] buffers the reads and writes of one attempt.  The log
//! holds at most one entry per cell and is kept in canonical order: by space
//! key first, then by cell key.  `commit` walks the log in that order,
//! classifies each space group as read-only, write-only or read-write,
//! validates every observed version, publishes the pending writes, and bumps
//! the version of every space written to.

use vstd::prelude::*;

use crate::log_vars::LogVar;
use crate::log_vars::LogVarModel;
use crate::render::debug_model;
use crate::render::display_model;
use crate::render::render_debug;
use crate::render::render_display;
use crate::stm::Stm;
use crate::stm::bump1;
use crate::tvar::TVar;
use crate::value::Payload;

verus! {

/// Model of one log line: the touched cell, its space, the space's
/// caller-chosen identity, and the entry proper.
pub ghost struct EntryModel {
    pub cell: int,
    pub space: int,
    pub space_id: u64,
    pub var: LogVarModel,
}

/// The canonical order on log lines: by space key, then by cell key.
pub open spec fn entry_lt(a: EntryModel, b: EntryModel) -> bool {
    a.space < b.space || (a.space == b.space && a.cell < b.cell)
}

/// The log is strictly ascending in the canonical order.
pub open spec fn log_sorted(log: Seq<EntryModel>) -> bool {
    forall|i: int, j: int| 0 <= i < j < log.len() ==> entry_lt(#[trigger] log[i], #[trigger] log[j])
}

/// No cell appears twice in the log.
pub open spec fn cells_unique(log: Seq<EntryModel>) -> bool {
    forall|i: int, j: int|
        0 <= i < j < log.len() ==> (#[trigger] log[i]).cell != (#[trigger] log[j]).cell
}

/// The log line agrees with the store: the cell exists, belongs to the
/// recorded space, the space carries the recorded identity, and every
/// payload in the entry carries the cell's tag.
pub open spec fn entry_compat(e: EntryModel, stm: Stm) -> bool {
    &&& stm.is_cell(e.cell)
    &&& stm.cell_space(e.cell) == e.space
    &&& stm.is_space(e.space)
    &&& stm.space_id(e.space) == e.space_id
    &&& e.var.tag_ok(stm.cell_value(e.cell).tag())
}

/// Some entry on space `s` observed a version (a read happened there).
pub open spec fn has_read_on(log: Seq<EntryModel>, s: int) -> bool {
    exists|k: int|
        0 <= k < log.len() && (#[trigger] log[k]).space == s && log[k].var.observed() is Some
}

/// Some entry on space `s` stages a write.
pub open spec fn has_staged_on(log: Seq<EntryModel>, s: int) -> bool {
    exists|k: int| 0 <= k < log.len() && (#[trigger] log[k]).space == s && log[k].var.staged() is Some
}

/// Every version observed on space `s` is `v`.
pub open spec fn observed_ok(log: Seq<EntryModel>, s: int, v: u64) -> bool {
    forall|k: int|
        0 <= k < log.len() && (#[trigger] log[k]).space == s ==> (log[k].var.observed() matches Some(
            w,
        ) ==> w == v)
}

/// Some entry touches space `s`.
pub open spec fn has_entry_on(log: Seq<EntryModel>, s: int) -> bool {
    exists|k: int| 0 <= k < log.len() && (#[trigger] log[k]).space == s
}

/// Per-group classification during commit.
#[derive(Clone, Copy, PartialEq, Eq, Structural)]
enum Intent {
    ReadOnly,
    ReadWrite,
    WriteOnly,
}

/// One space group of the log: its classification and, unless it is
/// write-only, the version all its reads observed.
#[derive(Clone, Copy)]
struct Group {
    space: usize,
    intent: Intent,
    version: u64,
}

/// Some group claims space `s`.
spec fn has_group_on(gs: Seq<Group>, s: int) -> bool {
    exists|j: int| 0 <= j < gs.len() && (#[trigger] gs[j]).space as int == s
}

/// The group correctly summarizes the entries of its space: write-only iff
/// no read happened there, read-only iff reads happened but no write, and
/// when reads happened they all observed the group's validated version.
spec fn group_ok(g: Group, log: Seq<EntryModel>) -> bool {
    &&& (g.intent == Intent::WriteOnly <==> !has_read_on(log, g.space as int))
    &&& (g.intent == Intent::ReadOnly <==> (has_read_on(log, g.space as int) && !has_staged_on(
        log,
        g.space as int,
    )))
    &&& (g.intent != Intent::WriteOnly ==> observed_ok(log, g.space as int, g.version))
}

/// The groups describe the log: one group per touched space, in ascending
/// space order, each correctly classified.
spec fn groups_ok(gs: Seq<Group>, log: Seq<EntryModel>) -> bool {
    &&& forall|a: int, b: int|
        0 <= a < b < gs.len() ==> (#[trigger] gs[a]).space < (#[trigger] gs[b]).space
    &&& forall|j: int| 0 <= j < gs.len() ==> has_entry_on(log, (#[trigger] gs[j]).space as int)
    &&& forall|k: int| 0 <= k < log.len() ==> has_group_on(gs, (#[trigger] log[k]).space)
    &&& forall|j: int| 0 <= j < gs.len() ==> group_ok(#[trigger] gs[j], log)
}

/// How appending one entry changes what a space has seen.
proof fn lemma_on_push(p: Seq<EntryModel>, x: EntryModel, s: int)
    ensures
        has_read_on(p.push(x), s) <==> (has_read_on(p, s) || (x.space == s && x.var.observed()
            is Some)),
        has_staged_on(p.push(x), s) <==> (has_staged_on(p, s) || (x.space == s && x.var.staged()
            is Some)),
        has_entry_on(p.push(x), s) <==> (has_entry_on(p, s) || x.space == s),
{
    let q = p.push(x);
    assert(q[p.len() as int] == x);
    if has_read_on(p, s) {
        let k = choose|k: int|
            0 <= k < p.len() && (#[trigger] p[k]).space == s && p[k].var.observed() is Some;
        assert(q[k] == p[k]);
        assert(has_read_on(q, s));
    }
    if x.space == s && x.var.observed() is Some {
        assert(has_read_on(q, s));
    }
    if has_read_on(q, s) {
        let k = choose|k: int|
            0 <= k < q.len() && (#[trigger] q[k]).space == s && q[k].var.observed() is Some;
        if k < p.len() {
            assert(q[k] == p[k]);
            assert(has_read_on(p, s));
        }
    }
    if has_staged_on(p, s) {
        let k = choose|k: int|
            0 <= k < p.len() && (#[trigger] p[k]).space == s && p[k].var.staged() is Some;
        assert(q[k] == p[k]);
        assert(has_staged_on(q, s));
    }
    if x.space == s && x.var.staged() is Some {
        assert(has_staged_on(q, s));
    }
    if has_staged_on(q, s) {
        let k = choose|k: int|
            0 <= k < q.len() && (#[trigger] q[k]).space == s && q[k].var.staged() is Some;
        if k < p.len() {
            assert(q[k] == p[k]);
            assert(has_staged_on(p, s));
        }
    }
    if has_entry_on(p, s) {
        let k = choose|k: int| 0 <= k < p.len() && (#[trigger] p[k]).space == s;
        assert(q[k] == p[k]);
        assert(has_entry_on(q, s));
    }
    if has_entry_on(q, s) {
        let k = choose|k: int| 0 <= k < q.len() && (#[trigger] q[k]).space == s;
        if k < p.len() {
            assert(q[k] == p[k]);
            assert(has_entry_on(p, s));
        }
    }
}

/// A transaction: the log of touched cells, in canonical order, and the
/// messages queued for publication on commit.
pub struct Transaction {
    entries: Vec<Entry>,
    msg_log: Vec<String>,
}

struct Entry {
    cell: usize,
    space: usize,
    space_id: u64,
    var: LogVar,
}

impl Entry {
    spec fn model(self) -> EntryModel {
        EntryModel {
            cell: self.cell as int,
            space: self.space as int,
            space_id: self.space_id,
            var: self.var@,
        }
    }
}

impl Transaction {
    /// The log, in canonical order.
    pub closed spec fn log(self) -> Seq<EntryModel> {
        self.entries@.map_values(|e: Entry| e.model())
    }

    /// The messages queued for publication on commit, in queue order.
    pub closed spec fn msgs(self) -> Seq<Seq<char>> {
        self.msg_log@.map_values(|s: String| s@)
    }

    /// The log is canonically sorted and holds each cell at most once.
    pub open spec fn wf(self) -> bool {
        &&& log_sorted(self.log())
        &&& cells_unique(self.log())
    }

    /// Every log line agrees with the store `stm`.
    pub open spec fn compat(self, stm: Stm) -> bool {
        forall|i: int| 0 <= i < self.log().len() ==> entry_compat(#[trigger] self.log()[i], stm)
    }

    /// The log holds an entry for cell `c`.
    pub open spec fn has_cell(self, c: int) -> bool {
        exists|i: int| 0 <= i < self.log().len() && (#[trigger] self.log()[i]).cell == c
    }

    /// The index of cell `c`'s entry (meaningful when `has_cell(c)`).
    pub open spec fn idx_of(self, c: int) -> int {
        choose|i: int| 0 <= i < self.log().len() && (#[trigger] self.log()[i]).cell == c
    }

    /// The log entry for cell `c` (meaningful when `has_cell(c)`).
    pub open spec fn entry_for(self, c: int) -> LogVarModel {
        self.log()[self.idx_of(c)].var
    }

    /// Success condition of `commit` against store `stm`: every version the
    /// transaction observed is still the current version of its space.  This
    /// covers both commit aborts: two entries of one space group observing
    /// different versions cannot both match the space's one current version,
    /// and an observed version that aged cannot match it either.
    pub open spec fn commit_ok(self, stm: Stm) -> bool {
        forall|i: int|
            0 <= i < self.log().len() ==> ((#[trigger] self.log()[i]).var.observed() matches Some(v)
                ==> v == stm.version(self.log()[i].space))
    }

    /// In a sorted log each entry is the one `entry_for` returns for its cell.
    pub proof fn lemma_entry_at(self, i: int)
        requires
            self.wf(),
            0 <= i < self.log().len(),
        ensures
            self.has_cell(self.log()[i].cell),
            self.idx_of(self.log()[i].cell) == i,
            self.entry_for(self.log()[i].cell) == self.log()[i].var,
    {
        let c = self.log()[i].cell;
        assert(self.has_cell(c));
        let j = self.idx_of(c);
        if i != j {
            assert(self.log()[i].cell != self.log()[j].cell);
        }
    }

    /// A fresh transaction: empty log, no queued messages.
    pub fn new() -> (r: Transaction)
        ensures
            r.log() == Seq::<EntryModel>::empty(),
            r.msgs() == Seq::<Seq<char>>::empty(),
            r.wf(),
    {
        let r = Transaction { entries: Vec::new(), msg_log: Vec::new() };
        proof {
            assert(r.log() =~= Seq::<EntryModel>::empty());
            assert(r.msgs() =~= Seq::<Seq<char>>::empty());
        }
        r
    }

    /// Empties the transaction: the log and the queued messages are dropped,
    /// as when an attempt aborts and the closure starts over.
    pub fn clear(&mut self)
        ensures
            final(self).log() == Seq::<EntryModel>::empty(),
            final(self).msgs() == Seq::<Seq<char>>::empty(),
            final(self).wf(),
    {
        self.entries.clear();
        self.msg_log.clear();
        proof {
            assert(self.log() =~= Seq::<EntryModel>::empty());
            assert(self.msgs() =~= Seq::<Seq<char>>::empty());
        }
    }

    /// Finds the index of the entry for `cell`, if the log has one.
    fn find_entry(&self, cell: usize) -> (r: Option<usize>)
        requires
            self.wf(),
        ensures
            match r {
                Some(i) => 0 <= i < self.log().len() && self.log()[i as int].cell == cell as int,
                None => !self.has_cell(cell as int),
            },
    {
        let mut i: usize = 0;
        while i < self.entries.len()
            invariant
                0 <= i <= self.log().len(),
                self.log().len() == self.entries@.len(),
                forall|k: int| 0 <= k < i ==> (#[trigger] self.log()[k]).cell != cell as int,
            decreases self.entries.len() - i,
        {
            if self.entries[i].cell == cell {
                proof {
                    assert(self.log()[i as int].cell == cell as int);
                }
                return Some(i);
            }
            i += 1;
        }
        None
    }

    /// Inserts an entry for a cell the log does not hold yet, at its
    /// canonical position.
    fn insert_entry(&mut self, e: Entry)
        requires
            old(self).wf(),
            !old(self).has_cell(e.cell as int),
        ensures
            final(self).wf(),
            final(self).msgs() == old(self).msgs(),
            final(self).log().len() == old(self).log().len() + 1,
            forall|d: int|
                final(self).has_cell(d) <==> (old(self).has_cell(d) || d == e.cell as int),
            final(self).has_cell(e.cell as int),
            final(self).entry_for(e.cell as int) == e.model().var,
            forall|d: int|
                old(self).has_cell(d) ==> final(self).entry_for(d) == old(self).entry_for(d),
            forall|stm: Stm|
                old(self).compat(stm) && entry_compat(e.model(), stm)
                    ==> #[trigger] final(self).compat(stm),
    {
        let ghost em = e.model();
        let ghost pre = *old(self);
        let mut pos: usize = 0;
        while pos < self.entries.len() && (self.entries[pos].space < e.space || (
        self.entries[pos].space == e.space && self.entries[pos].cell < e.cell))
            invariant
                em == e.model(),
                *self == pre,
                self.wf(),
                0 <= pos <= self.log().len(),
                self.log().len() == self.entries@.len(),
                forall|k: int| 0 <= k < pos ==> entry_lt(#[trigger] self.log()[k], em),
            decreases self.entries.len() - pos,
        {
            proof {
                assert(self.log()[pos as int] == self.entries@[pos as int].model());
                assert(entry_lt(self.log()[pos as int], em));
            }
            pos += 1;
        }
        proof {
            if pos < self.log().len() {
                // The entry at `pos` is not below `e`, and cannot share its
                // cell, so it is strictly above.
                assert(self.log()[pos as int].cell != em.cell);
                assert(entry_lt(em, self.log()[pos as int]));
            }
        }
        self.entries.insert(pos, e);
        proof {
            let log = self.log();
            let prelog = pre.log();
            assert(log =~= prelog.insert(pos as int, em));
            assert forall|i: int, j: int| 0 <= i < j < log.len() implies entry_lt(
                #[trigger] log[i],
                #[trigger] log[j],
            ) && log[i].cell != log[j].cell by {
                let pi = pos as int;
                if i < pi && j < pi {
                    assert(log[i] == prelog[i] && log[j] == prelog[j]);
                } else if i < pi && j == pi {
                    assert(log[i] == prelog[i] && log[j] == em);
                } else if i < pi && j > pi {
                    assert(log[i] == prelog[i] && log[j] == prelog[j - 1]);
                } else if i == pi && j > pi {
                    assert(log[i] == em && log[j] == prelog[j - 1]);
                    // `e` is below every entry from `pos` on.
                    assert(entry_lt(em, prelog[pi]));
                    if j - 1 > pi {
                        assert(entry_lt(prelog[pi], prelog[j - 1]));
                    }
                    if em.cell == prelog[j - 1].cell {
                        assert(pre.has_cell(em.cell));
                    }
                } else {
                    assert(log[i] == prelog[i - 1] && log[j] == prelog[j - 1]);
                }
                if i < pi && j <= pi && em.cell == prelog[i].cell {
                    assert(pre.has_cell(em.cell));
                }
            }
            // Membership and lookups.
            assert forall|d: int| final(self).has_cell(d) <==> (pre.has_cell(d) || d == em.cell) by {
                if final(self).has_cell(d) {
                    let i = choose|i: int| 0 <= i < log.len() && (#[trigger] log[i]).cell == d;
                    if i < pos as int {
                        assert(prelog[i].cell == d);
                        assert(pre.has_cell(d));
                    } else if i == pos as int {
                    } else {
                        assert(prelog[i - 1].cell == d);
                        assert(pre.has_cell(d));
                    }
                }
                if pre.has_cell(d) {
                    let i = choose|i: int|
                        0 <= i < prelog.len() && (#[trigger] prelog[i]).cell == d;
                    if i < pos as int {
                        assert(log[i].cell == d);
                    } else {
                        assert(log[i + 1].cell == d);
                    }
                    assert(final(self).has_cell(d));
                }
                if d == em.cell {
                    assert(log[pos as int].cell == d);
                    assert(final(self).has_cell(d));
                }
            }
            self.lemma_entry_at(pos as int);
            assert forall|d: int| pre.has_cell(d) implies final(self).entry_for(d)
                == pre.entry_for(d) by {
                let i = choose|i: int| 0 <= i < prelog.len() && (#[trigger] prelog[i]).cell == d;
                pre.lemma_entry_at(i);
                if i < pos as int {
                    assert(log[i].cell == d && log[i].var == prelog[i].var);
                    self.lemma_entry_at(i);
                } else {
                    assert(log[i + 1].cell == d && log[i + 1].var == prelog[i].var);
                    self.lemma_entry_at(i + 1);
                }
            }
            assert forall|stm: Stm|
                pre.compat(stm) && entry_compat(em, stm) implies #[trigger] final(self).compat(
                stm,
            ) by {
                assert forall|i: int| 0 <= i < log.len() implies entry_compat(
                    #[trigger] log[i],
                    stm,
                ) by {
                    if i < pos as int {
                        assert(log[i] == prelog[i]);
                        assert(entry_compat(prelog[i], stm));
                    } else if i == pos as int {
                    } else {
                        assert(log[i] == prelog[i - 1]);
                        assert(entry_compat(prelog[i - 1], stm));
                    }
                }
            }
        }
    }

    /// Reads `var` inside the transaction.  If the log already holds the
    /// cell, the value the transaction sees (its own pending write first) is
    /// returned and the log is left alone; otherwise the cell's committed
    /// value and its space's current version are snapshotted together and
    /// logged as a read.  An in-transaction read always succeeds.
    pub fn read<T: Payload>(&mut self, stm: &Stm, var: &TVar<T>) -> (r: Result<T, usize>)
        requires
            old(self).wf(),
            old(self).compat(*stm),
            stm.wf(),
            var.wf(*stm),
        ensures
            final(self).wf(),
            final(self).compat(*stm),
            final(self).msgs() == old(self).msgs(),
            forall|d: int| final(self).has_cell(d) <==> (old(self).has_cell(d) || d == var.ckey()),
            forall|d: int|
                old(self).has_cell(d) ==> final(self).entry_for(d) == old(self).entry_for(d),
            !old(self).has_cell(var.ckey()) ==> final(self).entry_for(var.ckey())
                == LogVarModel::Read(stm.cell_value(var.ckey()), stm.version(var.skey())),
            r is Ok,
            r matches Ok(t) ==> t.model() == (if old(self).has_cell(var.ckey()) {
                old(self).entry_for(var.ckey()).current()
            } else {
                stm.cell_value(var.ckey())
            }),
    {
        let mtx = var.get_mtx_ref();
        let key = mtx.get_address();
        match self.find_entry(key) {
            Some(i) => {
                let value = self.entries[i].var.read();
                proof {
                    self.lemma_entry_at(i as int);
                    assert(entry_compat(self.log()[i as int], *stm));
                }
                Ok(T::of_value(value))
            },
            None => {
                let (value, version) = mtx.read_atomic(stm);
                let ret = T::of_value(value.duplicate());
                let space = mtx.get_space();
                let entry = Entry {
                    cell: key,
                    space: space.get_address(),
                    space_id: space.get_id(),
                    var: LogVar::Read(value, version),
                };
                proof {
                    assert(entry_compat(entry.model(), *stm));
                }
                self.insert_entry(entry);
                Ok(ret)
            },
        }
    }

    /// Stages a write of `val` to `var`: a cell the log does not hold gets a
    /// blind write entry, a read is promoted to a read-write keeping its
    /// observed version, and a pending write is replaced.  Staging always
    /// succeeds; nothing reaches the store before `commit`.
    pub fn write<T: Payload>(&mut self, var: &TVar<T>, val: T) -> (r: Result<usize, usize>)
        requires
            old(self).wf(),
        ensures
            final(self).wf(),
            final(self).msgs() == old(self).msgs(),
            forall|d: int| final(self).has_cell(d) <==> (old(self).has_cell(d) || d == var.ckey()),
            forall|d: int|
                old(self).has_cell(d) && d != var.ckey() ==> final(self).entry_for(d) == old(
                    self,
                ).entry_for(d),
            old(self).has_cell(var.ckey()) ==> final(self).entry_for(var.ckey()) == old(
                self,
            ).entry_for(var.ckey()).after_write(val.model()),
            !old(self).has_cell(var.ckey()) ==> final(self).entry_for(var.ckey())
                == LogVarModel::Write(val.model()),
            forall|stm: Stm|
                old(self).compat(stm) && var.wf(stm) ==> #[trigger] final(self).compat(stm),
            r is Ok,
            r matches Ok(n) ==> n == 0,
    {
        let mtx = var.get_mtx_ref();
        let key = mtx.get_address();
        let ghost pre = *old(self);
        match self.find_entry(key) {
            Some(i) => {
                let ghost oldvar = self.log()[i as int].var;
                let target = &mut self.entries[i];
                target.var.write(val.to_value());
                proof {
                    let log = self.log();
                    let prelog = pre.log();
                    assert(log =~= prelog.update(
                        i as int,
                        EntryModel { var: oldvar.after_write(val.model()), ..prelog[i as int] },
                    ));
                    pre.lemma_entry_at(i as int);
                    assert forall|a: int, b: int| 0 <= a < b < log.len() implies entry_lt(
                        #[trigger] log[a],
                        #[trigger] log[b],
                    ) && log[a].cell != log[b].cell by {
                        assert(entry_lt(prelog[a], prelog[b]) && prelog[a].cell != prelog[b].cell);
                        assert(log[a].cell == prelog[a].cell && log[a].space == prelog[a].space);
                        assert(log[b].cell == prelog[b].cell && log[b].space == prelog[b].space);
                    }
                    assert forall|d: int| final(self).has_cell(d) <==> (pre.has_cell(d) || d
                        == var.ckey()) by {
                        if final(self).has_cell(d) {
                            let k = choose|k: int|
                                0 <= k < log.len() && (#[trigger] log[k]).cell == d;
                            assert(prelog[k].cell == d);
                            assert(pre.has_cell(d));
                        }
                        if pre.has_cell(d) {
                            let k = choose|k: int|
                                0 <= k < prelog.len() && (#[trigger] prelog[k]).cell == d;
                            assert(log[k].cell == d);
                            assert(final(self).has_cell(d));
                        }
                    }
                    self.lemma_entry_at(i as int);
                    assert forall|d: int|
                        pre.has_cell(d) && d != var.ckey() implies #[trigger] final(self).entry_for(
                        d,
                    ) == pre.entry_for(d) by {
                        let k = choose|k: int|
                            0 <= k < prelog.len() && (#[trigger] prelog[k]).cell == d;
                        pre.lemma_entry_at(k);
                        assert(log[k].cell == d && log[k].var == prelog[k].var);
                        self.lemma_entry_at(k);
                    }
                    assert forall|stm: Stm|
                        pre.compat(stm) && var.wf(stm) implies #[trigger] final(self).compat(
                        stm,
                    ) by {
                        assert forall|k: int| 0 <= k < log.len() implies entry_compat(
                            #[trigger] log[k],
                            stm,
                        ) by {
                            assert(entry_compat(prelog[k], stm));
                            if k == i as int {
                                assert(log[k].cell == var.ckey());
                            }
                        }
                    }
                }
                Ok(0)
            },
            None => {
                let space = mtx.get_space();
                let entry = Entry {
                    cell: key,
                    space: space.get_address(),
                    space_id: space.get_id(),
                    var: LogVar::Write(val.to_value()),
                };
                self.insert_entry(entry);
                proof {
                    assert forall|stm: Stm|
                        pre.compat(stm) && var.wf(stm) implies #[trigger] final(self).compat(
                        stm,
                    ) by {
                        assert(entry_compat(entry.model(), stm));
                    }
                }
                Ok(0)
            },
        }
    }

    /// The canonical order of the log: an entry of a lower-keyed space
    /// stands before every entry of a higher-keyed space, so the commit
    /// protocol, which walks the log in order, always handles the lower
    /// space first, whichever transaction runs it.
    pub proof fn lemma_canonical_space_order(self, i: int, j: int)
        requires
            self.wf(),
            0 <= i < j < self.log().len(),
        ensures
            self.log()[i].space <= self.log()[j].space,
    {
        assert(entry_lt(self.log()[i], self.log()[j]));
    }

    /// The success condition of `commit`, seen cell by cell: a transaction
    /// whose every logged cell either staged only a blind write or observed
    /// the version its space still has commits.  A log built against an
    /// unchanged store through `read` and `write` is of exactly this shape,
    /// which is why a single uncontended attempt never retries.
    pub proof fn lemma_commit_ok_from_cells(self, stm: Stm)
        requires
            self.wf(),
            self.compat(stm),
            forall|c: int|
                self.has_cell(c) ==> (#[trigger] self.entry_for(c).observed() matches Some(v)
                    ==> v == stm.version(stm.cell_space(c))),
        ensures
            self.commit_ok(stm),
    {
        assert forall|i: int| 0 <= i < self.log().len() implies ((#[trigger] self.log()[i]).var.observed()
            matches Some(v) ==> v == stm.version(self.log()[i].space)) by {
            self.lemma_entry_at(i);
            assert(entry_compat(self.log()[i], stm));
        }
    }

    /// A transaction that never read — every entry is a blind write —
    /// commits against every store: a write-only group claims its space
    /// without any version check, so staleness cannot fail it.  In
    /// particular, writes to distinct single-variable spaces never conflict
    /// with anything.
    pub proof fn lemma_write_only_commits(self, stm: Stm)
        requires
            forall|i: int| 0 <= i < self.log().len() ==> (#[trigger] self.log()[i]).var.observed() is None,
        ensures
            self.commit_ok(stm),
    {
    }

    /// Appends one message to the transaction's queue; the log is untouched.
    fn push_msg(&mut self, m: String)
        ensures
            final(self).log() == old(self).log(),
            final(self).msgs() == old(self).msgs().push(m@),
    {
        self.msg_log.push(m);
        proof {
            assert(self.msgs() =~= old(self).msgs().push(self.msg_log@.last()@));
        }
    }

    /// Reads `var` as `read` does — logging a fresh snapshot when the cell
    /// is new to the log — and queues a message: `msg`, a space, and the
    /// value as it displays itself.  The message is published only when the
    /// transaction commits.
    pub fn display_value<T: Payload>(&mut self, stm: &Stm, var: &TVar<T>, msg: &str)
        requires
            old(self).wf(),
            old(self).compat(*stm),
            stm.wf(),
            var.wf(*stm),
        ensures
            final(self).wf(),
            final(self).compat(*stm),
            forall|d: int| final(self).has_cell(d) <==> (old(self).has_cell(d) || d == var.ckey()),
            forall|d: int|
                old(self).has_cell(d) ==> final(self).entry_for(d) == old(self).entry_for(d),
            !old(self).has_cell(var.ckey()) ==> final(self).entry_for(var.ckey())
                == LogVarModel::Read(stm.cell_value(var.ckey()), stm.version(var.skey())),
            final(self).msgs() == old(self).msgs().push(
                msg@ + seq![' '] + display_model(
                    if old(self).has_cell(var.ckey()) {
                        old(self).entry_for(var.ckey()).current()
                    } else {
                        stm.cell_value(var.ckey())
                    },
                ),
            ),
    {
        let val = match self.read(stm, var) {
            Ok(v) => v,
            Err(_) => {
                proof {
                    assert(false);
                }
                vstd::pervasive::unreached()
            },
        };
        let value = val.to_value();
        let mut m = String::from_str(msg);
        m.append(" ");
        let rendered = render_display(&value);
        m.append(rendered.as_str());
        proof {
            reveal_strlit(" ");
            assert(m@ =~= msg@ + seq![' '] + display_model(value@));
        }
        self.push_msg(m);
    }

    /// As `display_value`, except that the message shows both the label and
    /// the value in debug form: the label in double quotes, then a space,
    /// then the value as it shows itself for inspection.
    pub fn debug_value<T: Payload>(&mut self, stm: &Stm, var: &TVar<T>, msg: &str)
        requires
            old(self).wf(),
            old(self).compat(*stm),
            stm.wf(),
            var.wf(*stm),
        ensures
            final(self).wf(),
            final(self).compat(*stm),
            forall|d: int| final(self).has_cell(d) <==> (old(self).has_cell(d) || d == var.ckey()),
            forall|d: int|
                old(self).has_cell(d) ==> final(self).entry_for(d) == old(self).entry_for(d),
            !old(self).has_cell(var.ckey()) ==> final(self).entry_for(var.ckey())
                == LogVarModel::Read(stm.cell_value(var.ckey()), stm.version(var.skey())),
            final(self).msgs() == old(self).msgs().push(
                seq!['"'] + msg@ + seq!['"', ' '] + debug_model(
                    if old(self).has_cell(var.ckey()) {
                        old(self).entry_for(var.ckey()).current()
                    } else {
                        stm.cell_value(var.ckey())
                    },
                ),
            ),
    {
        let val = match self.read(stm, var) {
            Ok(v) => v,
            Err(_) => {
                proof {
                    assert(false);
                }
                vstd::pervasive::unreached()
            },
        };
        let value = val.to_value();
        let mut m = String::from_str("\"");
        m.append(msg);
        m.append("\" ");
        let rendered = render_debug(&value);
        m.append(rendered.as_str());
        proof {
            reveal_strlit("\"");
            reveal_strlit("\" ");
            assert(m@ =~= seq!['"'] + msg@ + seq!['"', ' '] + debug_model(value@));
        }
        self.push_msg(m);
    }

    /// Compatibility with a store survives any extension of it: the cells
    /// keep their spaces and tags, the spaces keep their identities.
    pub proof fn lemma_compat_extends(self, pre: Stm, post: Stm)
        requires
            self.compat(pre),
            post.extends(pre),
        ensures
            self.compat(post),
    {
        assert forall|i: int| 0 <= i < self.log().len() implies entry_compat(
            #[trigger] self.log()[i],
            post,
        ) by {
            let e = self.log()[i];
            assert(entry_compat(e, pre));
            assert(post.cell_space(e.cell) == pre.cell_space(e.cell));
            assert(post.space_id(e.space) == pre.space_id(e.space));
            assert(post.cell_value(e.cell).tag() == pre.cell_value(e.cell).tag());
        }
    }

    /// Commit phase A: walks the log in canonical order and classifies each
    /// space group.  A contiguous run of entries sharing a space with a
    /// caller-chosen identity merges into one group; every cell of a
    /// single-variable space (identity `0`) is its own group.  A group whose
    /// entries all stage blind writes is write-only; one read promotes it to
    /// read-write.  Returns the groups, or nothing if two reads of one group
    /// observed different versions — in which case no store the log agrees
    /// with could commit it.
    #[verifier::rlimit(80)]
    fn classify(&self, Ghost(stm): Ghost<Stm>) -> (r: Option<Vec<Group>>)
        requires
            self.wf(),
            stm.wf(),
            self.compat(stm),
        ensures
            match r {
                Some(gs) => groups_ok(gs@, self.log()),
                None => !self.commit_ok(stm),
            },
    {
        let ghost log = self.log();
        let mut groups: Vec<Group> = Vec::new();
        let mut i: usize = 0;
        while i < self.entries.len()
            invariant
                self.wf(),
                stm.wf(),
                self.compat(stm),
                log == self.log(),
                self.entries@.len() == log.len(),
                0 <= i <= log.len(),
                groups_ok(groups@, log.take(i as int)),
                i > 0 ==> groups@.len() > 0 && groups@.last().space as int == log[i as int
                    - 1].space,
                i == 0 ==> groups@.len() == 0,
            decreases log.len() - i,
        {
            let e_space = self.entries[i].space;
            let e_id = self.entries[i].space_id;
            let obs = self.entries[i].var.observed_version();
            let stg = self.entries[i].var.stages_write();
            let ghost p = log.take(i as int);
            let ghost p2 = log.take(i as int + 1);
            let ghost x = log[i as int];
            proof {
                assert(p2 =~= p.push(x));
                assert(x == self.entries@[i as int].model());
                assert(entry_compat(x, stm));
            }
            let glen = groups.len();
            let ghost gs0 = groups@;
            if glen > 0 && e_id != 0 && groups[glen - 1].space == e_space {
                // The entry joins the group of its space.
                let g = groups[glen - 1];
                proof {
                    // Older groups lie on strictly smaller spaces, so their
                    // summaries do not move.
                    assert forall|j: int| 0 <= j < glen - 1 implies group_ok(
                        #[trigger] groups@[j],
                        p2,
                    ) && has_entry_on(p2, groups@[j].space as int) by {
                        assert(groups@[j].space < groups@[glen - 1].space);
                        lemma_on_push(p, x, groups@[j].space as int);
                    }
                    lemma_on_push(p, x, e_space as int);
                }
                if let Some(v) = obs {
                    if g.intent == Intent::WriteOnly {
                        // A read joins a write-only group: promote it, and
                        // validate against the version this read observed.
                        groups.set(
                            glen - 1,
                            Group { space: g.space, intent: Intent::ReadWrite, version: v },
                        );
                        proof {
                            let k = choose|k: int|
                                0 <= k < p.len() && (#[trigger] p[k]).space == e_space as int;
                            assert(p[k].var.staged() is Some);
                            assert(has_staged_on(p, e_space as int));
                            assert(group_ok(groups@[glen - 1], p2));
                        }
                    } else {
                        if v != g.version {
                            // Two reads of one space group observed different
                            // versions: no current version can match both.
                            proof {
                                let s = e_space as int;
                                let k = choose|k: int|
                                    0 <= k < p.len() && (#[trigger] p[k]).space == s
                                        && p[k].var.observed() is Some;
                                assert(p[k] == log[k]);
                                assert(log[k].var.observed() matches Some(w) ==> w == g.version);
                                assert(!self.commit_ok(stm));
                            }
                            return None;
                        }
                        if stg && g.intent == Intent::ReadOnly {
                            groups.set(
                                glen - 1,
                                Group {
                                    space: g.space,
                                    intent: Intent::ReadWrite,
                                    version: g.version,
                                },
                            );
                        }
                        proof {
                            assert(group_ok(groups@[glen - 1], p2));
                        }
                    }
                } else {
                    // A blind write joins the group: a read-only group
                    // becomes read-write, keeping its validated version.
                    if g.intent == Intent::ReadOnly {
                        groups.set(
                            glen - 1,
                            Group { space: g.space, intent: Intent::ReadWrite, version: g.version },
                        );
                    }
                    proof {
                        assert(group_ok(groups@[glen - 1], p2));
                    }
                }
                proof {
                    assert(groups@.len() == gs0.len());
                    assert forall|j: int| 0 <= j < gs0.len() implies (#[trigger] groups@[j]).space
                        == gs0[j].space by {}
                    assert forall|k: int| 0 <= k < p2.len() implies has_group_on(
                        groups@,
                        (#[trigger] p2[k]).space,
                    ) by {
                        if k < p.len() {
                            assert(p2[k] == p[k]);
                            assert(has_group_on(gs0, p[k].space));
                            let j = choose|j: int|
                                0 <= j < gs0.len() && (#[trigger] gs0[j]).space as int
                                    == p[k].space;
                            assert(groups@[j].space as int == p2[k].space);
                        } else {
                            assert(p2[k] == x);
                            assert(groups@[glen - 1].space as int == p2[k].space);
                        }
                    }
                }
            } else {
                // The entry opens a new group for its space.
                proof {
                    if glen > 0 {
                        let s_last = groups@.last().space as int;
                        if s_last == e_space as int {
                            // Only a single-variable space could repeat here,
                            // and such a space owns a single cell.
                            assert(e_id == 0);
                            assert(log[i as int - 1].space == x.space);
                            assert(log[i as int - 1].cell != x.cell);
                            assert(entry_compat(log[i as int - 1], stm));
                            assert(stm.cell_space(log[i as int - 1].cell) == stm.cell_space(
                                x.cell,
                            ));
                            assert(false);
                        }
                        // The log is sorted, so every earlier entry lies on a
                        // strictly smaller space.
                        assert forall|k: int| 0 <= k < i as int implies (#[trigger] log[k]).space
                            < e_space as int by {
                            if k < i as int - 1 {
                                assert(entry_lt(log[k], log[i as int - 1]));
                            }
                            assert(entry_lt(log[i as int - 1], x));
                        }
                        assert forall|j: int| 0 <= j < glen implies (#[trigger] groups@[j]).space
                            < e_space by {
                            let k = choose|k: int|
                                0 <= k < p.len() && (#[trigger] p[k]).space == groups@[j].space
                                    as int;
                            assert(p[k] == log[k]);
                        }
                        assert(!has_entry_on(p, e_space as int)) by {
                            if has_entry_on(p, e_space as int) {
                                let k = choose|k: int|
                                    0 <= k < p.len() && (#[trigger] p[k]).space == e_space as int;
                                assert(p[k] == log[k]);
                            }
                        }
                    } else {
                        assert(p =~= Seq::<EntryModel>::empty());
                    }
                }
                let intent = if obs.is_some() {
                    if stg {
                        Intent::ReadWrite
                    } else {
                        Intent::ReadOnly
                    }
                } else {
                    Intent::WriteOnly
                };
                let version = match obs {
                    Some(v) => v,
                    None => 0,
                };
                groups.push(Group { space: e_space, intent, version });
                proof {
                    assert forall|j: int| 0 <= j < glen implies group_ok(#[trigger] groups@[j], p2)
                        && has_entry_on(p2, groups@[j].space as int) by {
                        lemma_on_push(p, x, groups@[j].space as int);
                    }
                    lemma_on_push(p, x, e_space as int);
                    assert(!has_read_on(p, e_space as int));
                    assert(!has_staged_on(p, e_space as int));
                    assert(group_ok(groups@[glen as int], p2));
                    assert forall|k: int| 0 <= k < p2.len() implies has_group_on(
                        groups@,
                        (#[trigger] p2[k]).space,
                    ) by {
                        if k < p.len() {
                            assert(p2[k] == p[k]);
                            assert(has_group_on(gs0, p[k].space));
                            let j = choose|j: int|
                                0 <= j < gs0.len() && (#[trigger] gs0[j]).space as int
                                    == p[k].space;
                            assert(groups@[j] == gs0[j]);
                        } else {
                            assert(p2[k] == x);
                            assert(groups@[glen as int].space as int == p2[k].space);
                        }
                    }
                }
            }
            i += 1;
        }
        proof {
            assert(log.take(log.len() as int) =~= log);
        }
        Some(groups)
    }

    /// Commit phase B: validates each group against the store.  A write-only
    /// group claims its space without any check; a group that read compares
    /// its validated version with the space's current version.  Reports
    /// whether every group passed — exactly the commit success condition.
    fn validate(&self, groups: &Vec<Group>, stm: &Stm) -> (ok: bool)
        requires
            self.wf(),
            stm.wf(),
            self.compat(*stm),
            groups_ok(groups@, self.log()),
        ensures
            ok == self.commit_ok(*stm),
    {
        let ghost log = self.log();
        let mut j: usize = 0;
        while j < groups.len()
            invariant
                self.wf(),
                stm.wf(),
                self.compat(*stm),
                log == self.log(),
                groups_ok(groups@, log),
                0 <= j <= groups@.len(),
                forall|jj: int|
                    0 <= jj < j ==> ((#[trigger] groups@[jj]).intent is WriteOnly
                        || groups@[jj].version == stm.version(groups@[jj].space as int)),
            decreases groups@.len() - j,
        {
            let g = groups[j];
            if g.intent != Intent::WriteOnly {
                proof {
                    assert(has_entry_on(log, g.space as int));
                    let k = choose|k: int|
                        0 <= k < log.len() && (#[trigger] log[k]).space == g.space as int;
                    assert(entry_compat(log[k], *stm));
                }
                let current = stm.space_version(g.space);
                if current != g.version {
                    proof {
                        // Some read in this group observed `g.version`,
                        // which no longer matches the space's version.
                        assert(has_read_on(log, g.space as int));
                        let k = choose|k: int|
                            0 <= k < log.len() && (#[trigger] log[k]).space == g.space as int
                                && log[k].var.observed() is Some;
                        assert(log[k].var.observed() matches Some(w) ==> w == g.version);
                        assert(!self.commit_ok(*stm));
                    }
                    return false;
                }
            }
            j += 1;
        }
        proof {
            assert forall|i: int| 0 <= i < log.len() implies ((#[trigger] log[i]).var.observed()
                matches Some(v) ==> v == stm.version(log[i].space)) by {
                if log[i].var.observed() is Some {
                    let s = log[i].space;
                    assert(has_group_on(groups@, s));
                    let jj = choose|jj: int|
                        0 <= jj < groups@.len() && (#[trigger] groups@[jj]).space as int == s;
                    assert(group_ok(groups@[jj], log));
                    assert(has_read_on(log, s));
                    assert(groups@[jj].intent != Intent::WriteOnly);
                    assert(groups@[jj].version == stm.version(s));
                }
            }
        }
        true
    }

    /// Commit phase C: publishes every pending write into its cell.
    #[verifier::rlimit(60)]
    fn publish(&self, stm: &mut Stm)
        requires
            self.wf(),
            old(stm).wf(),
            self.compat(*old(stm)),
        ensures
            final(stm).wf(),
            final(stm).extends(*old(stm)),
            final(stm).same_spaces(*old(stm)),
            final(stm).same_output(*old(stm)),
            final(stm).cell_count() == old(stm).cell_count(),
            forall|c: int|
                old(stm).is_cell(c) && self.has_cell(c) ==> (#[trigger] self.entry_for(c).staged()
                    matches Some(w) ==> final(stm).cell_value(c) == w),
            forall|c: int|
                old(stm).is_cell(c) && !(self.has_cell(c) && self.entry_for(c).staged() is Some)
                    ==> #[trigger] final(stm).cell_value(c) == old(stm).cell_value(c),
    {
        let ghost log = self.log();
        let mut i: usize = 0;
        while i < self.entries.len()
            invariant
                self.wf(),
                old(stm).wf(),
                self.compat(*old(stm)),
                log == self.log(),
                self.entries@.len() == log.len(),
                0 <= i <= log.len(),
                stm.wf(),
                stm.extends(*old(stm)),
                stm.same_spaces(*old(stm)),
                stm.same_output(*old(stm)),
                stm.cell_count() == old(stm).cell_count(),
                forall|k: int|
                    0 <= k < i ==> ((#[trigger] log[k]).var.staged() matches Some(w)
                        ==> stm.cell_value(log[k].cell) == w),
                forall|c: int|
                    old(stm).is_cell(c) && !(exists|k: int|
                        0 <= k < i && (#[trigger] log[k]).cell == c && log[k].var.staged()
                            is Some) ==> #[trigger] stm.cell_value(c) == old(stm).cell_value(c),
            decreases log.len() - i,
        {
            let ghost pre = *stm;
            if self.entries[i].var.stages_write() {
                let value = self.entries[i].var.read();
                proof {
                    assert(log[i as int] == self.entries@[i as int].model());
                    assert(entry_compat(log[i as int], *old(stm)));
                    assert(value@ == log[i as int].var.staged()->Some_0);
                    assert(value@.tag() == old(stm).cell_value(log[i as int].cell).tag());
                }
                stm.set_cell(self.entries[i].cell, value);
                proof {
                    assert forall|k: int|
                        0 <= k < i + 1 implies ((#[trigger] log[k]).var.staged() matches Some(w)
                        ==> stm.cell_value(log[k].cell) == w) by {
                        if k < i as int && log[k].var.staged() is Some {
                            assert(log[k].cell != log[i as int].cell);
                            assert(pre.is_cell(log[k].cell));
                        }
                    }
                    assert forall|c: int|
                        old(stm).is_cell(c) && !(exists|k: int|
                            0 <= k < i + 1 && (#[trigger] log[k]).cell == c && log[k].var.staged()
                                is Some) implies #[trigger] stm.cell_value(c) == old(
                        stm,
                    ).cell_value(c) by {
                        assert(c != log[i as int].cell);
                        assert(!(exists|k: int|
                            0 <= k < i && (#[trigger] log[k]).cell == c && log[k].var.staged()
                                is Some));
                    }
                }
            } else {
                proof {
                    assert forall|k: int|
                        0 <= k < i + 1 implies ((#[trigger] log[k]).var.staged() matches Some(w)
                        ==> stm.cell_value(log[k].cell) == w) by {}
                    assert forall|c: int|
                        old(stm).is_cell(c) && !(exists|k: int|
                            0 <= k < i + 1 && (#[trigger] log[k]).cell == c && log[k].var.staged()
                                is Some) implies #[trigger] stm.cell_value(c) == old(
                        stm,
                    ).cell_value(c) by {
                        assert(!(exists|k: int|
                            0 <= k < i && (#[trigger] log[k]).cell == c && log[k].var.staged()
                                is Some));
                    }
                }
            }
            i += 1;
        }
        proof {
            assert forall|c: int| old(stm).is_cell(c) && self.has_cell(c) implies (
            #[trigger] self.entry_for(c).staged() matches Some(w) ==> final(stm).cell_value(c)
                == w) by {
                if self.has_cell(c) && self.entry_for(c).staged() is Some {
                    let k = choose|k: int| 0 <= k < log.len() && (#[trigger] log[k]).cell == c;
                    self.lemma_entry_at(k);
                }
            }
            assert forall|c: int|
                old(stm).is_cell(c) && !(self.has_cell(c) && self.entry_for(c).staged()
                    is Some) implies #[trigger] final(stm).cell_value(c) == old(stm).cell_value(
                c,
            ) by {
                if exists|k: int|
                    0 <= k < log.len() && (#[trigger] log[k]).cell == c && log[k].var.staged()
                        is Some {
                    let k = choose|k: int|
                        0 <= k < log.len() && (#[trigger] log[k]).cell == c && log[k].var.staged()
                            is Some;
                    self.lemma_entry_at(k);
                }
            }
        }
    }

    /// Publishes the queued messages to the store's output log, in queue
    /// order.  Runs only on a successful commit.
    fn publish_msgs(&self, stm: &mut Stm)
        requires
            old(stm).wf(),
        ensures
            final(stm).wf(),
            final(stm).extends(*old(stm)),
            final(stm).same_spaces(*old(stm)),
            final(stm).same_cells(*old(stm)),
            final(stm).output_model() == old(stm).output_model() + self.msgs(),
    {
        let mut j: usize = 0;
        while j < self.msg_log.len()
            invariant
                0 <= j <= self.msg_log@.len(),
                self.msgs().len() == self.msg_log@.len(),
                stm.wf(),
                stm.extends(*old(stm)),
                stm.same_spaces(*old(stm)),
                stm.same_cells(*old(stm)),
                stm.output_model() == old(stm).output_model() + self.msgs().take(j as int),
            decreases self.msg_log@.len() - j,
        {
            let m = self.msg_log[j].clone();
            proof {
                assert(m@ == self.msgs()[j as int]);
            }
            stm.push_output(m);
            proof {
                assert(stm.output_model() =~= old(stm).output_model() + self.msgs().take(
                    j as int + 1,
                ));
            }
            j += 1;
        }
        proof {
            assert(self.msgs().take(self.msgs().len() as int) =~= self.msgs());
        }
    }

    /// Commit phase D: bumps the version of every space a group wrote to.
    fn bump_written(&self, groups: &Vec<Group>, stm: &mut Stm)
        requires
            self.wf(),
            old(stm).wf(),
            self.compat(*old(stm)),
            groups_ok(groups@, self.log()),
        ensures
            final(stm).wf(),
            final(stm).extends(*old(stm)),
            final(stm).same_cells(*old(stm)),
            final(stm).same_output(*old(stm)),
            final(stm).space_count() == old(stm).space_count(),
            forall|s: int|
                old(stm).is_space(s) ==> #[trigger] final(stm).version(s) == (if has_staged_on(
                    self.log(),
                    s,
                ) {
                    bump1(old(stm).version(s))
                } else {
                    old(stm).version(s)
                }),
    {
        let ghost log = self.log();
        let mut j: usize = 0;
        while j < groups.len()
            invariant
                self.wf(),
                old(stm).wf(),
                self.compat(*old(stm)),
                log == self.log(),
                groups_ok(groups@, log),
                0 <= j <= groups@.len(),
                stm.wf(),
                stm.extends(*old(stm)),
                stm.same_cells(*old(stm)),
                stm.same_output(*old(stm)),
                stm.space_count() == old(stm).space_count(),
                forall|s: int|
                    old(stm).is_space(s) ==> #[trigger] stm.version(s) == (if (exists|jj: int|
                        0 <= jj < j && (#[trigger] groups@[jj]).space as int == s
                            && !(groups@[jj].intent is ReadOnly)) {
                        bump1(old(stm).version(s))
                    } else {
                        old(stm).version(s)
                    }),
            decreases groups@.len() - j,
        {
            let ghost pre = *stm;
            let g = groups[j];
            proof {
                assert(has_entry_on(log, g.space as int));
                let k = choose|k: int|
                    0 <= k < log.len() && (#[trigger] log[k]).space == g.space as int;
                assert(entry_compat(log[k], *old(stm)));
            }
            if g.intent != Intent::ReadOnly {
                proof {
                    // No earlier group claims this space, so it is unbumped.
                    if exists|jj: int|
                        0 <= jj < j && (#[trigger] groups@[jj]).space as int == g.space as int
                            && !(groups@[jj].intent is ReadOnly) {
                        let jj = choose|jj: int|
                            0 <= jj < j && (#[trigger] groups@[jj]).space as int == g.space as int
                                && !(groups@[jj].intent is ReadOnly);
                        assert(groups@[jj].space < groups@[j as int].space);
                    }
                }
                stm.bump_space(g.space);
                proof {
                    assert forall|s: int| old(stm).is_space(s) implies #[trigger] stm.version(s)
                        == (if (exists|jj: int|
                        0 <= jj < j + 1 && (#[trigger] groups@[jj]).space as int == s
                            && !(groups@[jj].intent is ReadOnly)) {
                        bump1(old(stm).version(s))
                    } else {
                        old(stm).version(s)
                    }) by {
                        if s == g.space as int {
                            assert(groups@[j as int].space as int == s && !(groups@[j as int].intent
                                is ReadOnly));
                        } else {
                            assert(stm.version(s) == pre.version(s));
                            if exists|jj: int|
                                0 <= jj < j + 1 && (#[trigger] groups@[jj]).space as int == s && !(
                                groups@[jj].intent is ReadOnly) {
                                let jj = choose|jj: int|
                                    0 <= jj < j + 1 && (#[trigger] groups@[jj]).space as int == s
                                        && !(groups@[jj].intent is ReadOnly);
                                assert(jj < j);
                                assert(exists|jj: int|
                                    0 <= jj < j && (#[trigger] groups@[jj]).space as int == s && !(
                                    groups@[jj].intent is ReadOnly));
                            } else {
                                assert(!(exists|jj: int|
                                    0 <= jj < j && (#[trigger] groups@[jj]).space as int == s && !(
                                    groups@[jj].intent is ReadOnly)));
                            }
                        }
                    }
                }
            } else {
                proof {
                    assert forall|s: int| old(stm).is_space(s) implies #[trigger] stm.version(s)
                        == (if (exists|jj: int|
                        0 <= jj < j + 1 && (#[trigger] groups@[jj]).space as int == s
                            && !(groups@[jj].intent is ReadOnly)) {
                        bump1(old(stm).version(s))
                    } else {
                        old(stm).version(s)
                    }) by {
                        if exists|jj: int|
                            0 <= jj < j + 1 && (#[trigger] groups@[jj]).space as int == s && !(
                            groups@[jj].intent is ReadOnly) {
                            let jj = choose|jj: int|
                                0 <= jj < j + 1 && (#[trigger] groups@[jj]).space as int == s && !(
                                groups@[jj].intent is ReadOnly);
                            assert(jj < j);
                            assert(exists|jj: int|
                                0 <= jj < j && (#[trigger] groups@[jj]).space as int == s && !(
                                groups@[jj].intent is ReadOnly));
                        } else {
                            assert(!(exists|jj: int|
                                0 <= jj < j && (#[trigger] groups@[jj]).space as int == s && !(
                                groups@[jj].intent is ReadOnly)));
                        }
                    }
                }
            }
            j += 1;
        }
        proof {
            // A space was bumped exactly when some entry staged a write there.
            assert forall|s: int| old(stm).is_space(s) implies #[trigger] final(stm).version(s)
                == (if has_staged_on(log, s) {
                bump1(old(stm).version(s))
            } else {
                old(stm).version(s)
            }) by {
                if exists|jj: int|
                    0 <= jj < groups@.len() && (#[trigger] groups@[jj]).space as int == s && !(
                    groups@[jj].intent is ReadOnly) {
                    let jj = choose|jj: int|
                        0 <= jj < groups@.len() && (#[trigger] groups@[jj]).space as int == s && !(
                        groups@[jj].intent is ReadOnly);
                    let g = groups@[jj];
                    assert(group_ok(g, log));
                    if g.intent is WriteOnly {
                        assert(has_entry_on(log, s));
                        let k = choose|k: int|
                            0 <= k < log.len() && (#[trigger] log[k]).space == s;
                        assert(log[k].var.observed() is None);
                        assert(log[k].var.staged() is Some);
                        assert(has_staged_on(log, s));
                    } else {
                        assert(has_read_on(log, s) && has_staged_on(log, s));
                    }
                } else {
                    if has_staged_on(log, s) {
                        let k = choose|k: int|
                            0 <= k < log.len() && (#[trigger] log[k]).space == s
                                && log[k].var.staged() is Some;
                        assert(has_group_on(groups@, s));
                        let jj = choose|jj: int|
                            0 <= jj < groups@.len() && (#[trigger] groups@[jj]).space as int == s;
                        assert(group_ok(groups@[jj], log));
                        assert(!(groups@[jj].intent is ReadOnly));
                        assert(false);
                    }
                }
            }
        }
    }

    /// Commits the transaction against the store: classifies the log's
    /// space groups in canonical order, validates every observed version,
    /// and — only if all of them still match — publishes the pending writes
    /// and the queued messages and bumps the version of every space written
    /// to, all as one atomic effect.  Returns whether it committed; on
    /// failure the store is untouched and the caller re-runs the closure.
    pub fn commit(&self, stm: &mut Stm) -> (r: bool)
        requires
            self.wf(),
            old(stm).wf(),
            self.compat(*old(stm)),
        ensures
            final(stm).wf(),
            final(stm).extends(*old(stm)),
            final(stm).space_count() == old(stm).space_count(),
            final(stm).cell_count() == old(stm).cell_count(),
            r == self.commit_ok(*old(stm)),
            !r ==> *final(stm) == *old(stm),
            r ==> final(stm).output_model() == old(stm).output_model() + self.msgs(),
            r ==> forall|c: int|
                old(stm).is_cell(c) && self.has_cell(c) ==> (#[trigger] self.entry_for(c).staged()
                    matches Some(w) ==> final(stm).cell_value(c) == w),
            r ==> forall|c: int|
                old(stm).is_cell(c) && !(self.has_cell(c) && self.entry_for(c).staged() is Some)
                    ==> #[trigger] final(stm).cell_value(c) == old(stm).cell_value(c),
            r ==> forall|s: int|
                old(stm).is_space(s) ==> #[trigger] final(stm).version(s) == (if has_staged_on(
                    self.log(),
                    s,
                ) {
                    bump1(old(stm).version(s))
                } else {
                    old(stm).version(s)
                }),
    {
        let ghost stm0 = *old(stm);
        match self.classify(Ghost(stm0)) {
            None => false,
            Some(groups) => {
                if !self.validate(&groups, stm) {
                    false
                } else {
                    self.publish(stm);
                    proof {
                        self.lemma_compat_extends(stm0, *stm);
                    }
                    let ghost mid1 = *stm;
                    self.publish_msgs(stm);
                    proof {
                        self.lemma_compat_extends(mid1, *stm);
                    }
                    let ghost mid2 = *stm;
                    self.bump_written(&groups, stm);
                    proof {
                        // Chain the three phases back to the initial store.
                        assert(final(stm).output_model() == stm0.output_model() + self.msgs());
                        assert forall|c: int|
                            stm0.is_cell(c) && self.has_cell(c) implies (
                        #[trigger] self.entry_for(c).staged() matches Some(w) ==> final(stm).cell_value(c) == w) by {
                            if self.entry_for(c).staged() is Some {
                                assert(mid1.is_cell(c));
                                assert(mid2.cell_value(c) == mid1.cell_value(c));
                                assert(final(stm).cell_value(c) == mid2.cell_value(c));
                            }
                        }
                        assert forall|s: int| stm0.is_space(s) implies #[trigger] final(stm).version(s) == (if has_staged_on(self.log(), s) {
                            bump1(stm0.version(s))
                        } else {
                            stm0.version(s)
                        }) by {
                            assert(mid2.is_space(s));
                            assert(mid2.version(s) == stm0.version(s));
                        }
                    }
                    true
                }
            },
        }
    }

    /// Runs `f` as one transaction against the store and returns its value.
    /// `f` gets the store and a fresh (empty) transaction and hands the
    /// transaction back with its result; the commit then publishes the whole
    /// effect atomically.  The caller vouches that `f` accepts any empty
    /// transaction on this store, hands back a well-formed log over it that
    /// still validates, and does not signal abort.  A log built against the
    /// store through `read` and `write` always validates, because nothing
    /// can move a version while the store is borrowed; so one attempt
    /// commits, and the retry protocol of `commit` and `clear` is never
    /// entered from here.
    pub fn atomically<F, R>(stm: &mut Stm, f: F) -> (r: R) where
        F: Fn(&Stm, Transaction) -> (Transaction, Result<R, usize>),

        requires
            old(stm).wf(),
            forall|s: &Stm, t: Transaction|
                *s == *old(stm) && t.log() == Seq::<EntryModel>::empty() && t.msgs()
                    == Seq::<Seq<char>>::empty() ==> #[trigger] call_requires(f, (s, t)),
            forall|s: &Stm, t: Transaction, out: (Transaction, Result<R, usize>)|
                *s == *old(stm) && #[trigger] call_ensures(f, (s, t), out) ==> out.0.wf()
                    && out.0.compat(*old(stm)) && out.0.commit_ok(*old(stm)) && out.1 is Ok,
        ensures
            final(stm).wf(),
            final(stm).extends(*old(stm)),
            exists|s: &Stm, t0: Transaction, t1: Transaction|
                {
                    &&& *s == *old(stm)
                    &&& t0.log() == Seq::<EntryModel>::empty()
                    &&& t0.msgs() == Seq::<Seq<char>>::empty()
                    &&& #[trigger] call_ensures(f, (s, t0), (t1, Ok(r)))
                    &&& t1.commit_ok(*old(stm))
                    &&& final(stm).output_model() == old(stm).output_model() + t1.msgs()
                    &&& forall|c: int|
                        old(stm).is_cell(c) && t1.has_cell(c) ==> (#[trigger] t1.entry_for(
                            c,
                        ).staged() matches Some(w) ==> final(stm).cell_value(c) == w)
                    &&& forall|c: int|
                        old(stm).is_cell(c) && !(t1.has_cell(c) && t1.entry_for(c).staged()
                            is Some) ==> #[trigger] final(stm).cell_value(c) == old(
                            stm,
                        ).cell_value(c)
                    &&& forall|sp: int|
                        old(stm).is_space(sp) ==> #[trigger] final(stm).version(sp) == (
                        if has_staged_on(t1.log(), sp) {
                            bump1(old(stm).version(sp))
                        } else {
                            old(stm).version(sp)
                        })
                },
    {
        let tx = Transaction::new();
        let (tx2, res) = f(&*stm, tx);
        match res {
            Ok(val) => {
                let committed = tx2.commit(stm);
                if committed {
                    val
                } else {
                    proof {
                        assert(false);
                    }
                    vstd::pervasive::unreached()
                }
            },
            Err(_) => {
                proof {
                    assert(false);
                }
                vstd::pervasive::unreached()
            },
        }
    }
}

} // verus!
