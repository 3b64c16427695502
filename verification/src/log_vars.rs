//! Per-cell log entries of a transaction.
//!
//! Each cell a transaction touches is classified by one [`LogVar`]: a read
//! with its observed version, a blind write, or a read followed by a write
//! (which keeps the version observed at the first read).

use vstd::prelude::*;

use crate::value::Tag;
use crate::value::Value;
use crate::value::ValueModel;

verus! {

/// Mathematical model of a log entry.
pub ghost enum LogVarModel {
    Read(ValueModel, u64),
    Write(ValueModel),
    ReadWrite(ValueModel, ValueModel, u64),
}

impl LogVarModel {
    /// The value the transaction currently sees for the cell: the pending
    /// write if there is one, else the observed value.
    pub open spec fn current(self) -> ValueModel {
        match self {
            LogVarModel::Read(r, _) => r,
            LogVarModel::Write(w) => w,
            LogVarModel::ReadWrite(_, w, _) => w,
        }
    }

    /// The pending write, if any.
    pub open spec fn staged(self) -> Option<ValueModel> {
        match self {
            LogVarModel::Read(_, _) => None,
            LogVarModel::Write(w) => Some(w),
            LogVarModel::ReadWrite(_, w, _) => Some(w),
        }
    }

    /// The version observed when the cell was first read, if it was read.
    pub open spec fn observed(self) -> Option<u64> {
        match self {
            LogVarModel::Read(_, v) => Some(v),
            LogVarModel::Write(_) => None,
            LogVarModel::ReadWrite(_, _, v) => Some(v),
        }
    }

    /// Every payload in the entry carries tag `t`.
    pub open spec fn tag_ok(self, t: Tag) -> bool {
        match self {
            LogVarModel::Read(r, _) => r.tag() == t,
            LogVarModel::Write(w) => w.tag() == t,
            LogVarModel::ReadWrite(r, w, _) => r.tag() == t && w.tag() == t,
        }
    }

    /// The entry after staging a write of `v`: a read is promoted to a
    /// read-write keeping its observed version; a pending write is replaced.
    pub open spec fn after_write(self, v: ValueModel) -> LogVarModel {
        match self {
            LogVarModel::Read(r, ver) => LogVarModel::ReadWrite(r, v, ver),
            LogVarModel::Write(_) => LogVarModel::Write(v),
            LogVarModel::ReadWrite(r, _, ver) => LogVarModel::ReadWrite(r, v, ver),
        }
    }
}

/// Read-your-writes: after a write of `v` is staged on an entry, the value
/// the transaction sees for that cell is `v`, whatever the cell held
/// outside the transaction; a fresh blind write shows `v` as well.
pub proof fn lemma_read_your_writes(e: LogVarModel, v: ValueModel)
    ensures
        e.after_write(v).current() == v,
        LogVarModel::Write(v).current() == v,
{
}

/// One cell's participation in a transaction.
pub enum LogVar {
    /// Observed value and the version it was observed under.
    Read(Value, u64),
    /// Pending write; the cell was never read.
    Write(Value),
    /// Observed value, pending write, and the version of the first read.
    ReadWrite(Value, Value, u64),
}

impl View for LogVar {
    type V = LogVarModel;

    open spec fn view(&self) -> LogVarModel {
        match self {
            LogVar::Read(r, v) => LogVarModel::Read(r@, *v),
            LogVar::Write(w) => LogVarModel::Write(w@),
            LogVar::ReadWrite(r, w, v) => LogVarModel::ReadWrite(r@, w@, *v),
        }
    }
}

impl LogVar {
    /// Stages a write of `val` on this entry.
    pub fn write(&mut self, val: Value)
        ensures
            final(self)@ == old(self)@.after_write(val@),
    {
        match &*self {
            LogVar::Read(r, v) => {
                let observed = r.duplicate();
                let ver: u64 = *v;
                *self = LogVar::ReadWrite(observed, val, ver);
            },
            LogVar::Write(_) => {
                *self = LogVar::Write(val);
            },
            LogVar::ReadWrite(r, _, v) => {
                let observed = r.duplicate();
                let ver: u64 = *v;
                *self = LogVar::ReadWrite(observed, val, ver);
            },
        }
    }

    /// The version observed when the cell was first read, if it was read.
    pub fn observed_version(&self) -> (r: Option<u64>)
        ensures
            r == self@.observed(),
    {
        match self {
            LogVar::Read(_, v) => Some(*v),
            LogVar::Write(_) => None,
            LogVar::ReadWrite(_, _, v) => Some(*v),
        }
    }

    /// Whether the entry stages a write.
    pub fn stages_write(&self) -> (r: bool)
        ensures
            r == (self@.staged() is Some),
    {
        match self {
            LogVar::Read(_, _) => false,
            LogVar::Write(_) => true,
            LogVar::ReadWrite(_, _, _) => true,
        }
    }

    /// The value the transaction currently sees for the cell.
    pub fn read(&self) -> (r: Value)
        ensures
            r@ == self@.current(),
    {
        match self {
            LogVar::Read(r, _) => r.duplicate(),
            LogVar::Write(w) => w.duplicate(),
            LogVar::ReadWrite(_, w, _) => w.duplicate(),
        }
    }
}

} // verus!
