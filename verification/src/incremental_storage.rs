//! Bookkeeping of incremental saves: how many symbols and files a save
//! wrote, updated or removed, the one-line report of it, and the test of
//! whether a file is touched by an update.
use vstd::prelude::*;

use crate::text::{push_decimal, push_str, str_eq, spec_decimal};

verus! {

/// What one save of the index did.
#[derive(Clone, Copy, Debug)]
pub struct StorageMetrics {
    pub duration_ms: u64,
    pub symbols_written: usize,
    pub symbols_updated: usize,
    pub symbols_removed: usize,
    pub files_updated: usize,
    pub is_full_save: bool,
}

impl Default for StorageMetrics {
    /// No work done: every count zero, not a full save.
    fn default() -> (r: Self)
        ensures
            r.duration_ms == 0,
            r.symbols_written == 0,
            r.symbols_updated == 0,
            r.symbols_removed == 0,
            r.files_updated == 0,
            !r.is_full_save,
    {
        StorageMetrics {
            duration_ms: 0,
            symbols_written: 0,
            symbols_updated: 0,
            symbols_removed: 0,
            files_updated: 0,
            is_full_save: false,
        }
    }
}

/// The report of a full save.
pub open spec fn full_summary(m: StorageMetrics) -> Seq<char> {
    "Full save: "@ + spec_decimal(m.symbols_written as nat) + " symbols, "@ + spec_decimal(m.files_updated as nat)
        + " files in "@ + spec_decimal(m.duration_ms as nat) + "ms"@
}

/// The report of an incremental save.
pub open spec fn incremental_summary(m: StorageMetrics) -> Seq<char> {
    "Incremental save: +"@ + spec_decimal(m.symbols_written as nat) + " ~"@ + spec_decimal(m.symbols_updated as nat)
        + " -"@ + spec_decimal(m.symbols_removed as nat) + " symbols, "@ + spec_decimal(m.files_updated as nat)
        + " files in "@ + spec_decimal(m.duration_ms as nat) + "ms"@
}

impl StorageMetrics {
    /// One line describing the save: `Full save: W symbols, F files in Dms`
    /// for a full save, otherwise
    /// `Incremental save: +W ~U -R symbols, F files in Dms`.
    pub fn summary(&self) -> (r: String)
        ensures
            r@ == if self.is_full_save { full_summary(*self) } else { incremental_summary(*self) },
    {
        let mut s = String::new();
        if self.is_full_save {
            push_str(&mut s, "Full save: ");
            push_decimal(&mut s, self.symbols_written as u64);
            push_str(&mut s, " symbols, ");
            push_decimal(&mut s, self.files_updated as u64);
            push_str(&mut s, " files in ");
            push_decimal(&mut s, self.duration_ms);
            push_str(&mut s, "ms");
            proof { assert(s@ =~= full_summary(*self)); }
        } else {
            push_str(&mut s, "Incremental save: +");
            push_decimal(&mut s, self.symbols_written as u64);
            push_str(&mut s, " ~");
            push_decimal(&mut s, self.symbols_updated as u64);
            push_str(&mut s, " -");
            push_decimal(&mut s, self.symbols_removed as u64);
            push_str(&mut s, " symbols, ");
            push_decimal(&mut s, self.files_updated as u64);
            push_str(&mut s, " files in ");
            push_decimal(&mut s, self.duration_ms);
            push_str(&mut s, "ms");
            proof { assert(s@ =~= incremental_summary(*self)); }
        }
        s
    }
}

/// Whether `id` is one of `ids`.
pub open spec fn listed(ids: Seq<String>, id: Seq<char>) -> bool {
    exists|i: int| 0 <= i < ids.len() && ids[i]@ == id
}

fn is_listed(ids: &[String], id: &str) -> (r: bool)
    ensures
        r == listed(ids@, id@),
{
    let mut i: usize = 0;
    while i < ids.len()
        invariant
            i <= ids.len(),
            forall|k: int| 0 <= k < i ==> ids@[k]@ != id@,
        decreases ids.len() - i,
    {
        if str_eq(ids[i].as_str(), id) {
            return true;
        }
        i = i + 1;
    }
    false
}

/// A file is touched by an update when one of its symbols was added,
/// updated or removed by it.
pub fn is_file_affected(file_symbols: &[String], added: &[String], updated: &[String], removed: &[String]) -> (r: bool)
    ensures
        r == exists|i: int| 0 <= i < file_symbols.len() && {
            let id = #[trigger] file_symbols@[i]@;
            listed(added@, id) || listed(updated@, id) || listed(removed@, id)
        },
{
    let mut i: usize = 0;
    while i < file_symbols.len()
        invariant
            i <= file_symbols.len(),
            forall|k: int| 0 <= k < i ==> {
                let id = #[trigger] file_symbols@[k]@;
                !listed(added@, id) && !listed(updated@, id) && !listed(removed@, id)
            },
        decreases file_symbols.len() - i,
    {
        let id = file_symbols[i].as_str();
        if is_listed(added, id) || is_listed(updated, id) || is_listed(removed, id) {
            return true;
        }
        i = i + 1;
    }
    false
}

} // verus!
