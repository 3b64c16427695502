//! A software transactional memory core: transactional variables grouped
//! into versioned spaces, with an optimistic commit protocol.

use vstd::prelude::*;

mod log_vars;
mod render;
mod transaction;
mod space;
mod stm;
mod tvar;
mod value;

pub use log_vars::LogVar;
pub use log_vars::lemma_read_your_writes;
pub use log_vars::LogVarModel;
pub use space::Space;
pub use transaction::EntryModel;
pub use transaction::Transaction;
pub use tvar::Mtx;
pub use tvar::TVar;
pub use stm::Stm;
pub use stm::bump1;
pub use value::Payload;
pub use value::Tag;
pub use render::debug_model;
pub use render::dec_digits;
pub use render::dec_int;
pub use render::digit_char;
pub use render::display_model;
pub use render::joined;
pub use render::list_text;
pub use render::render_debug;
pub use render::render_display;
pub use render::render_i64;
pub use render::render_u64;
pub use transaction::cells_unique;
pub use transaction::entry_compat;
pub use transaction::entry_lt;
pub use transaction::has_entry_on;
pub use transaction::has_read_on;
pub use transaction::has_staged_on;
pub use transaction::log_sorted;
pub use transaction::observed_ok;
pub use value::Value;
pub use value::ValueModel;

verus! {

/// Runs `f` as one transaction against the store and returns its value; the
/// whole effect is published atomically by the commit.  See
/// [`Transaction::atomically`], whose contract this repeats.
pub fn atomically<F, R>(stm: &mut Stm, f: F) -> (r: R) where
    F: Fn(&Stm, Transaction) -> (Transaction, Result<R, usize>),

    requires
        old(stm).wf(),
        forall|s: &Stm, t: Transaction|
            *s == *old(stm) && t.log() == Seq::<EntryModel>::empty() && t.msgs()
                == Seq::<Seq<char>>::empty() ==> #[trigger] call_requires(f, (s, t)),
        forall|s: &Stm, t: Transaction, out: (Transaction, Result<R, usize>)|
            *s == *old(stm) && #[trigger] call_ensures(f, (s, t), out) ==> out.0.wf()
                && out.0.compat(*old(stm)) && out.0.commit_ok(*old(stm)) && out.1 is Ok,
    ensures
        final(stm).wf(),
        final(stm).extends(*old(stm)),
        exists|s: &Stm, t0: Transaction, t1: Transaction|
            {
                &&& *s == *old(stm)
                &&& t0.log() == Seq::<EntryModel>::empty()
                &&& t0.msgs() == Seq::<Seq<char>>::empty()
                &&& #[trigger] call_ensures(f, (s, t0), (t1, Ok(r)))
                &&& t1.commit_ok(*old(stm))
                &&& final(stm).output_model() == old(stm).output_model() + t1.msgs()
                &&& forall|c: int|
                    old(stm).is_cell(c) && t1.has_cell(c) ==> (#[trigger] t1.entry_for(c).staged()
                        matches Some(w) ==> final(stm).cell_value(c) == w)
                &&& forall|c: int|
                    old(stm).is_cell(c) && !(t1.has_cell(c) && t1.entry_for(c).staged() is Some)
                        ==> #[trigger] final(stm).cell_value(c) == old(stm).cell_value(c)
                &&& forall|sp: int|
                    old(stm).is_space(sp) ==> #[trigger] final(stm).version(sp) == (
                    if has_staged_on(t1.log(), sp) {
                        bump1(old(stm).version(sp))
                    } else {
                        old(stm).version(sp)
                    })
            },
{
    Transaction::atomically(stm, f)
}

} // verus!
