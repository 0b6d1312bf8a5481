//! Laws of the registry, stated over the same spec vocabulary the
//! operations' contracts use, and proved once and for all.

use vstd::prelude::*;

verus! {

use crate::store::{
    CmdView, contains_name, unique_names, idx_of, row_of, new_row, bumped,
};
use crate::service::{import_fold, import_added, import_step, entry_ok};

/// Creating a fresh command and then looking its name up returns exactly
/// the created row: the given name, response and owner, a usage count of
/// zero, and the creation time it was stamped with.
pub proof fn lemma_add_then_get(
    rows: Seq<CmdView>,
    name: Seq<char>,
    response: Seq<char>,
    owner_id: u64,
    created_at: i64,
)
    requires
        unique_names(rows),
        !contains_name(rows, name),
    ensures
        ({
            let rows2 = rows.push(new_row(name, response, owner_id, created_at));
            unique_names(rows2) && contains_name(rows2, name) && row_of(rows2, name) == new_row(
                name,
                response,
                owner_id,
                created_at,
            ) && row_of(rows2, name).use_count == 0
        }),
{
    let rows2 = rows.push(new_row(name, response, owner_id, created_at));
    assert forall|i: int, j: int| 0 <= i < j < rows2.len() implies rows2[i].name
        != rows2[j].name by {
        if j == rows2.len() - 1 {
            assert(rows2[i] == rows[i]);
        }
    }
    crate::store::lemma_idx_of(rows2, name, rows.len() as int);
}

/// A name can be taken only once: after one creation succeeds, the name
/// is present, so a second creation of the same name is rejected by the
/// store's contract and writes nothing. Of two callers racing on a fresh
/// name, exactly one succeeds.
pub proof fn lemma_second_add_rejected(
    rows: Seq<CmdView>,
    name: Seq<char>,
    response: Seq<char>,
    owner_id: u64,
    created_at: i64,
)
    requires
        !contains_name(rows, name),
    ensures
        contains_name(rows.push(new_row(name, response, owner_id, created_at)), name),
{
    let rows2 = rows.push(new_row(name, response, owner_id, created_at));
    assert(rows2[rows.len() as int].name == name);
}

/// The table after one successful lookup of `n`: its counter bumped,
/// everything else untouched.
pub open spec fn incremented(rows: Seq<CmdView>, n: Seq<char>) -> Seq<CmdView> {
    rows.update(idx_of(rows, n), bumped(row_of(rows, n)))
}

/// The table after `k` successful lookups of `n` in a row.
pub open spec fn incremented_k(rows: Seq<CmdView>, n: Seq<char>, k: nat) -> Seq<CmdView>
    decreases k,
{
    if k == 0 {
        rows
    } else {
        incremented(incremented_k(rows, n, (k - 1) as nat), n)
    }
}

/// One increment changes exactly the counted row: same names everywhere,
/// the counter of `n` bumped, every other field and row kept.
pub proof fn lemma_incremented(rows: Seq<CmdView>, n: Seq<char>)
    requires
        unique_names(rows),
        contains_name(rows, n),
    ensures
        unique_names(incremented(rows, n)),
        contains_name(incremented(rows, n), n),
        incremented(rows, n).len() == rows.len(),
        row_of(incremented(rows, n), n) == bumped(row_of(rows, n)),
        idx_of(incremented(rows, n), n) == idx_of(rows, n),
        forall|j: int|
            0 <= j < rows.len() && j != idx_of(rows, n) ==> #[trigger] incremented(rows, n)[j]
                == rows[j],
{
    let i = idx_of(rows, n);
    assert(0 <= i < rows.len() && rows[i].name == n);
    let rows2 = incremented(rows, n);
    assert forall|p: int, q: int| 0 <= p < q < rows2.len() implies rows2[p].name
        != rows2[q].name by {
        assert(rows2[p].name == rows[p].name);
        assert(rows2[q].name == rows[q].name);
    }
    crate::store::lemma_idx_of(rows2, n, i);
}

/// Applying the increment `k` times in a row to one command raises its
/// usage count by exactly `k` — no update is lost — and touches nothing
/// else of the row.
pub proof fn lemma_increment_accumulates(rows: Seq<CmdView>, n: Seq<char>, k: nat)
    requires
        unique_names(rows),
        contains_name(rows, n),
        row_of(rows, n).use_count + k <= u64::MAX,
    ensures
        unique_names(incremented_k(rows, n, k)),
        contains_name(incremented_k(rows, n, k), n),
        row_of(incremented_k(rows, n, k), n) == (CmdView {
            use_count: (row_of(rows, n).use_count + k) as u64,
            ..row_of(rows, n)
        }),
    decreases k,
{
    if k == 0 {
        assert(row_of(rows, n) == (CmdView {
            use_count: (row_of(rows, n).use_count + 0) as u64,
            ..row_of(rows, n)
        }));
    } else {
        lemma_increment_accumulates(rows, n, (k - 1) as nat);
        let prev = incremented_k(rows, n, (k - 1) as nat);
        lemma_incremented(prev, n);
        assert(row_of(prev, n).use_count < u64::MAX);
    }
}

/// Importing `n` well-formed entries with pairwise distinct names, none
/// of them already present, inserts every one of them: the table grows
/// by `n` rows, `n` are counted as added and none as skipped.
pub proof fn lemma_import_all_fresh(
    rows: Seq<CmdView>,
    entries: Seq<(Seq<char>, Seq<char>)>,
    importer_id: u64,
    created_at: i64,
)
    requires
        forall|i: int, j: int|
            0 <= i < j < entries.len() ==> (#[trigger] entries[i]).0 != (#[trigger] entries[j]).0,
        forall|i: int| 0 <= i < entries.len() ==> !contains_name(rows, (#[trigger] entries[i]).0),
        forall|i: int| 0 <= i < entries.len() ==> entry_ok(#[trigger] entries[i]),
    ensures
        import_fold(rows, entries, importer_id, created_at).len() == rows.len() + entries.len(),
        import_added(rows, entries, importer_id, created_at) == entries.len(),
    decreases entries.len(),
{
    if entries.len() == 0 {
    } else {
        let e = entries[0];
        assert(!contains_name(rows, e.0));
        assert(entry_ok(e));
        let rows2 = import_step(rows, e, importer_id, created_at);
        assert(rows2 == rows.push(new_row(e.0, e.1, importer_id, created_at)));
        let rest = entries.drop_first();
        assert forall|i: int| 0 <= i < rest.len() implies !contains_name(
            rows2,
            (#[trigger] rest[i]).0,
        ) by {
            assert(rest[i] == entries[i + 1]);
            assert(entries[i + 1].0 != e.0);
            assert(!contains_name(rows, entries[i + 1].0));
            assert forall|p: int| 0 <= p < rows2.len() implies rows2[p].name != rest[i].0 by {
                if p < rows.len() {
                    assert(rows2[p] == rows[p]);
                    assert(!(0 <= p < rows.len() && rows[p].name == entries[i + 1].0));
                }
            }
        }
        assert forall|i: int, j: int| 0 <= i < j < rest.len() implies (#[trigger] rest[i]).0 != (
        #[trigger] rest[j]).0 by {
            assert(rest[i] == entries[i + 1]);
            assert(rest[j] == entries[j + 1]);
        }
        assert forall|i: int| 0 <= i < rest.len() implies entry_ok(#[trigger] rest[i]) by {
            assert(rest[i] == entries[i + 1]);
        }
        lemma_import_all_fresh(rows2, rest, importer_id, created_at);
    }
}

/// A full-replace import of `n` well-formed entries with distinct names
/// leaves exactly those `n` commands: everything is added, nothing is
/// skipped.
pub proof fn lemma_import_replace_distinct(
    entries: Seq<(Seq<char>, Seq<char>)>,
    importer_id: u64,
    created_at: i64,
)
    requires
        forall|i: int, j: int|
            0 <= i < j < entries.len() ==> (#[trigger] entries[i]).0 != (#[trigger] entries[j]).0,
        forall|i: int| 0 <= i < entries.len() ==> entry_ok(#[trigger] entries[i]),
    ensures
        import_fold(Seq::<CmdView>::empty(), entries, importer_id, created_at).len()
            == entries.len(),
        import_added(Seq::<CmdView>::empty(), entries, importer_id, created_at) == entries.len(),
{
    let empty = Seq::<CmdView>::empty();
    assert forall|i: int| 0 <= i < entries.len() implies !contains_name(
        empty,
        (#[trigger] entries[i]).0,
    ) by {
        assert(empty.len() == 0);
    }
    lemma_import_all_fresh(empty, entries, importer_id, created_at);
}

} // verus!
