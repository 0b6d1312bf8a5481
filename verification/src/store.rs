//! The command store: a table of named commands with unique names,
//! usage counters and creation times, and the CRUD operations over it.
//! Every operation keeps the uniqueness invariant and says exactly how
//! the table changes.

use vstd::prelude::*;

verus! {

use crate::text::{name_leq, name_leq_exec, lemma_name_leq_total, lemma_name_leq_transitive};
use crate::text::{has_substring, contains_sub_fold, fold_key, lemma_self_substring};

/// One persisted command row.
#[derive(Debug)]
pub struct CustomCommand {
    /// The lookup key; unique across the store.
    pub name: String,
    /// The text returned when the command is invoked.
    pub response: String,
    /// The creator's identifier; `0` is the reserved "no owner" sentinel.
    pub owner_id: u64,
    /// How many times the command was successfully looked up.
    pub use_count: u64,
    /// Unix timestamp set once at creation.
    pub created_at: i64,
}

/// The mathematical image of one row.
pub struct CmdView {
    pub name: Seq<char>,
    pub response: Seq<char>,
    pub owner_id: u64,
    pub use_count: u64,
    pub created_at: i64,
}

impl View for CustomCommand {
    type V = CmdView;

    open spec fn view(&self) -> CmdView {
        CmdView {
            name: self.name@,
            response: self.response@,
            owner_id: self.owner_id,
            use_count: self.use_count,
            created_at: self.created_at,
        }
    }
}

impl CustomCommand {
    /// Whether `id` is the creator of this command.
    pub fn is_owner(&self, id: u64) -> (r: bool)
        ensures
            r == (id == self@.owner_id),
    {
        id == self.owner_id
    }

    /// An identical copy of the row.
    pub fn duplicate(&self) -> (r: CustomCommand)
        ensures
            r@ == self@,
    {
        CustomCommand {
            name: self.name.clone(),
            response: self.response.clone(),
            owner_id: self.owner_id,
            use_count: self.use_count,
            created_at: self.created_at,
        }
    }
}

/// The errors the store itself can signal; a backend fault cannot arise
/// here, so no storage-error kind is ever produced.
#[derive(Debug, Clone, Copy, PartialEq, Eq, Structural)]
pub enum StoreError {
    /// The named command is absent.
    NotFound,
    /// A command of that name already exists.
    AlreadyExists,
    /// The new name of an edit already names a different command.
    NameConflict,
    /// A row breaks the data rules: an empty name or an empty response.
    Validation,
}

/// No two rows share a name.
pub open spec fn unique_names(rows: Seq<CmdView>) -> bool {
    forall|i: int, j: int| 0 <= i < j < rows.len() ==> rows[i].name != rows[j].name
}

/// Every row carries a non-empty name and a non-empty response.
pub open spec fn rows_valid(rows: Seq<CmdView>) -> bool {
    forall|i: int|
        0 <= i < rows.len() ==> (#[trigger] rows[i]).name.len() > 0 && rows[i].response.len() > 0
}

/// The table's data rules: names unique, names and responses non-empty.
pub open spec fn table_wf(rows: Seq<CmdView>) -> bool {
    unique_names(rows) && rows_valid(rows)
}

/// Some row carries the name `n`.
pub open spec fn contains_name(rows: Seq<CmdView>, n: Seq<char>) -> bool {
    exists|i: int| 0 <= i < rows.len() && rows[i].name == n
}

/// The index of the row named `n` (meaningful only when present and unique).
pub open spec fn idx_of(rows: Seq<CmdView>, n: Seq<char>) -> int {
    choose|i: int| 0 <= i < rows.len() && rows[i].name == n
}

/// The row named `n`.
pub open spec fn row_of(rows: Seq<CmdView>, n: Seq<char>) -> CmdView {
    rows[idx_of(rows, n)]
}

/// With unique names, any index holding `n` is the index of `n`.
pub proof fn lemma_idx_of(rows: Seq<CmdView>, n: Seq<char>, i: int)
    requires
        unique_names(rows),
        0 <= i < rows.len(),
        rows[i].name == n,
    ensures
        contains_name(rows, n),
        idx_of(rows, n) == i,
{
    assert(contains_name(rows, n));
    let j = idx_of(rows, n);
    assert(0 <= j < rows.len() && rows[j].name == n);
    if i < j {
        assert(rows[i].name != rows[j].name);
    } else if j < i {
        assert(rows[j].name != rows[i].name);
    }
}

/// A freshly created row: usage count zero.
pub open spec fn new_row(name: Seq<char>, response: Seq<char>, owner_id: u64, created_at: i64) -> CmdView {
    CmdView { name, response, owner_id, use_count: 0, created_at }
}

/// The row after one successful lookup: the counter grows by one and
/// saturates at its maximum, so it never decreases and never wraps.
pub open spec fn bumped(c: CmdView) -> CmdView {
    CmdView {
        use_count: if c.use_count < u64::MAX {
            (c.use_count + 1) as u64
        } else {
            c.use_count
        },
        ..c
    }
}

/// The row after an edit: name and response replaced, identity kept.
pub open spec fn renamed(c: CmdView, new_name: Seq<char>, new_response: Seq<char>) -> CmdView {
    CmdView { name: new_name, response: new_response, ..c }
}

/// The images of a sequence of rows.
pub open spec fn list_view(v: Seq<CustomCommand>) -> Seq<CmdView> {
    v.map_values(|c: CustomCommand| c@)
}

/// Listing order: names non-decreasing under the case-insensitive collation.
pub open spec fn name_sorted(rows: Seq<CmdView>) -> bool {
    forall|i: int, j: int| 0 <= i < j < rows.len() ==> name_leq(rows[i].name, rows[j].name)
}

/// Popularity order: usage counts non-increasing.
pub open spec fn count_sorted(rows: Seq<CmdView>) -> bool {
    forall|i: int, j: int| 0 <= i < j < rows.len() ==> rows[i].use_count >= rows[j].use_count
}

/// A row matches a search term when its name equals the term or holds it
/// as a substring, compared under the case-insensitive collation, as the
/// lookup pattern matching does.
pub open spec fn search_match(c: CmdView, term: Seq<char>) -> bool {
    fold_key(c.name) == fold_key(term) || has_substring(fold_key(c.name), fold_key(term))
}

/// The predicate a search with `term` applies to each row.
pub open spec fn search_pred(term: Seq<char>) -> spec_fn(CmdView) -> bool {
    |c: CmdView| search_match(c, term)
}

/// Inserts `c` in front of the first element of the sorted `out` that is
/// greater under the name collation, keeping the order.
fn insert_by_name(out: &mut Vec<CustomCommand>, c: CustomCommand)
    requires
        name_sorted(list_view(old(out)@)),
    ensures
        name_sorted(list_view(final(out)@)),
        list_view(final(out)@).to_multiset() == list_view(old(out)@).to_multiset().insert(c@),
{
    let len = out.len();
    let mut p: usize = 0;
    let mut stop = false;
    while p < len && !stop
        invariant
            p <= len,
            len == out@.len(),
            out@ == old(out)@,
            forall|j: int| 0 <= j < p ==> name_leq(#[trigger] list_view(out@)[j].name, c@.name),
            stop ==> p < len && !name_leq(list_view(out@)[p as int].name, c@.name),
        decreases len - p + (if stop { 0int } else { 1int }),
    {
        if !name_leq_exec(out[p].name.as_str(), c.name.as_str()) {
            stop = true;
        } else {
            p = p + 1;
        }
    }
    out.insert(p, c);
    proof {
        let ov = list_view(old(out)@);
        let nv = list_view(out@);
        old(out)@.insert_ensures(p as int, c);
        assert(nv =~= ov.insert(p as int, c@));
        ov.insert_ensures(p as int, c@);
        lemma_insert_to_multiset(ov, p as int, c@);
        assert forall|i: int, j: int| 0 <= i < j < nv.len() implies name_leq(
            nv[i].name,
            nv[j].name,
        ) by {
            if j < p {
            } else if i < p && j == p {
                assert(nv[i] == ov[i]);
            } else if i < p && j > p {
                assert(nv[i] == ov[i] && nv[j] == ov[j - 1]);
            } else if i == p && j > p {
                assert(nv[j] == ov[j - 1]);
                lemma_name_leq_total(ov[p as int].name, c@.name);
                if j - 1 > p {
                    lemma_name_leq_transitive(c@.name, ov[p as int].name, ov[j - 1].name);
                }
            } else {
                assert(nv[i] == ov[i - 1] && nv[j] == ov[j - 1]);
            }
        }
    }
}

/// Inserts `c` in front of the first element of `out` with a smaller usage
/// count, keeping the counts non-increasing.
fn insert_by_count(out: &mut Vec<CustomCommand>, c: CustomCommand)
    requires
        count_sorted(list_view(old(out)@)),
    ensures
        count_sorted(list_view(final(out)@)),
        list_view(final(out)@).to_multiset() == list_view(old(out)@).to_multiset().insert(c@),
{
    let len = out.len();
    let mut p: usize = 0;
    let mut stop = false;
    while p < len && !stop
        invariant
            p <= len,
            len == out@.len(),
            out@ == old(out)@,
            forall|j: int| 0 <= j < p ==> #[trigger] list_view(out@)[j].use_count >= c@.use_count,
            stop ==> p < len && !(list_view(out@)[p as int].use_count >= c@.use_count),
        decreases len - p + (if stop { 0int } else { 1int }),
    {
        if out[p].use_count < c.use_count {
            stop = true;
        } else {
            p = p + 1;
        }
    }
    out.insert(p, c);
    proof {
        let ov = list_view(old(out)@);
        let nv = list_view(out@);
        old(out)@.insert_ensures(p as int, c);
        assert(nv =~= ov.insert(p as int, c@));
        ov.insert_ensures(p as int, c@);
        lemma_insert_to_multiset(ov, p as int, c@);
        assert forall|i: int, j: int| 0 <= i < j < nv.len() implies nv[i].use_count
            >= nv[j].use_count by {
            if j < p {
            } else if i < p && j == p {
                assert(nv[i] == ov[i]);
            } else if i < p && j > p {
                assert(nv[i] == ov[i] && nv[j] == ov[j - 1]);
            } else if i == p && j > p {
                assert(nv[j] == ov[j - 1]);
            } else {
                assert(nv[i] == ov[i - 1] && nv[j] == ov[j - 1]);
            }
        }
    }
}

/// Inserting an element anywhere adds exactly it to the sequence's multiset.
pub proof fn lemma_insert_to_multiset<A>(s: Seq<A>, p: int, e: A)
    requires
        0 <= p <= s.len(),
    ensures
        s.insert(p, e).to_multiset() == s.to_multiset().insert(e),
{
    broadcast use vstd::seq_lib::group_to_multiset_ensures;

    let t = s.insert(p, e);
    assert(t.remove(p) =~= s);
    assert(t[p] == e);
    assert(t.to_multiset().count(e) > 0) by {
        assert(t.contains(e));
    }
    assert(s.to_multiset() =~= t.to_multiset().remove(e));
    assert(t.to_multiset() =~= s.to_multiset().insert(e));
}

/// The command table. Rows appear in insertion order; names are unique.
pub struct Database {
    rows: Vec<CustomCommand>,
}

impl View for Database {
    type V = Seq<CmdView>;

    closed spec fn view(&self) -> Seq<CmdView> {
        list_view(self.rows@)
    }
}

impl Database {
    /// The store's invariant: names unique, names and responses non-empty.
    pub open spec fn wf(&self) -> bool {
        table_wf(self@)
    }

    /// An empty store.
    pub fn new() -> (d: Database)
        ensures
            d@ =~= Seq::<CmdView>::empty(),
            d.wf(),
    {
        let d = Database { rows: Vec::new() };
        proof {
            assert(d@ =~= Seq::<CmdView>::empty());
        }
        d
    }

    /// Rebuilds a store from persisted rows, usage counts and creation
    /// times included; rejected when two rows share a name or a row
    /// breaks the data rules, which would break the table's invariant.
    pub fn from_rows(rows: Vec<CustomCommand>) -> (r: Result<Database, StoreError>)
        ensures
            match r {
                Ok(d) => d.wf() && d@ == list_view(rows@),
                Err(e) => (match e {
                    StoreError::AlreadyExists => !unique_names(list_view(rows@)),
                    StoreError::Validation => !rows_valid(list_view(rows@)),
                    _ => false,
                }),
            },
    {
        let mut d = Database::new();
        let len = rows.len();
        let mut i: usize = 0;
        proof {
            assert(d@ =~= list_view(rows@).take(0));
        }
        while i < len
            invariant
                i <= len,
                len == rows@.len(),
                d.wf(),
                d@ == list_view(rows@).take(i as int),
            decreases len - i,
        {
            let row = &rows[i];
            let ghost lv = list_view(rows@);
            proof {
                assert(lv[i as int] == rows@[i as int]@);
            }
            if row.name.as_str().is_empty() || row.response.as_str().is_empty() {
                proof {
                    assert(!(lv[i as int].name.len() > 0 && lv[i as int].response.len() > 0));
                }
                return Err(StoreError::Validation);
            }
            if d.is_command(&row.name) {
                proof {
                    let j = choose|j: int| 0 <= j < d@.len() && d@[j].name == row.name@;
                    assert(lv[j].name == lv[i as int].name);
                    assert(!unique_names(lv));
                }
                return Err(StoreError::AlreadyExists);
            }
            let dup = row.duplicate();
            d.rows.push(dup);
            proof {
                assert(d@ =~= lv.take(i + 1));
                assert forall|p: int, q: int| 0 <= p < q < d@.len() implies d@[p].name
                    != d@[q].name by {
                    if q == i as int {
                        assert(d@[p] == lv.take(i as int)[p]);
                        assert(!(0 <= p < lv.take(i as int).len() && lv.take(i as int)[p].name
                            == row.name@));
                    }
                }
                assert forall|p: int| 0 <= p < d@.len() implies (#[trigger] d@[p]).name.len() > 0
                    && d@[p].response.len() > 0 by {
                    if p < i as int {
                        assert(d@[p] == lv.take(i as int)[p]);
                    } else {
                        assert(d@[p] == lv[i as int]);
                    }
                }
            }
            i = i + 1;
        }
        proof {
            assert(list_view(rows@).take(len as int) =~= list_view(rows@));
        }
        Ok(d)
    }

    /// The index of the row named `name`, if any.
    fn find_index(&self, name: &String) -> (r: Option<usize>)
        ensures
            match r {
                Some(i) => i < self@.len() && self@[i as int].name == name@,
                None => !contains_name(self@, name@),
            },
    {
        let mut idx: usize = 0;
        let len = self.rows.len();
        while idx < len
            invariant
                len == self@.len(),
                idx <= len,
                forall|j: int| 0 <= j < idx ==> self@[j].name != name@,
            decreases len - idx,
        {
            if self.rows[idx].name == *name {
                return Some(idx);
            }
            idx = idx + 1;
        }
        None
    }

    /// Fast existence probe: is a command of this exact name present?
    pub fn is_command(&self, name: &String) -> (r: bool)
        ensures
            r == contains_name(self@, name@),
    {
        let r = self.find_index(name);
        proof {
            if r is Some {
                assert(contains_name(self@, name@));
            }
        }
        r.is_some()
    }

    /// Exact-name lookup; a snapshot of the row, or `NotFound`.
    pub fn get(&self, name: &String) -> (r: Result<CustomCommand, StoreError>)
        requires
            self.wf(),
        ensures
            match r {
                Ok(c) => contains_name(self@, name@) && c@ == row_of(self@, name@),
                Err(e) => e == StoreError::NotFound && !contains_name(self@, name@),
            },
    {
        match self.find_index(name) {
            Some(i) => {
                proof {
                    lemma_idx_of(self@, name@, i as int);
                }
                Ok(self.rows[i].duplicate())
            },
            None => Err(StoreError::NotFound),
        }
    }

    /// Creates a command; rejected when the name is already taken, with
    /// no row created. The duplicate check and the write form one step.
    pub fn add(&mut self, name: &String, response: &String, owner_id: u64, created_at: i64) -> (r: Result<
        (),
        StoreError,
    >)
        requires
            old(self).wf(),
            name@.len() > 0,
            response@.len() > 0,
        ensures
            final(self).wf(),
            match r {
                Ok(()) => !contains_name(old(self)@, name@) && final(self)@ == old(self)@.push(
                    new_row(name@, response@, owner_id, created_at),
                ),
                Err(e) => e == StoreError::AlreadyExists && contains_name(old(self)@, name@)
                    && final(self)@ == old(self)@,
            },
    {
        if self.is_command(name) {
            return Err(StoreError::AlreadyExists);
        }
        let row = CustomCommand {
            name: name.clone(),
            response: response.clone(),
            owner_id,
            use_count: 0,
            created_at,
        };
        proof {
            assert(row@ == new_row(name@, response@, owner_id, created_at));
        }
        self.rows.push(row);
        proof {
            assert(self@ =~= old(self)@.push(new_row(name@, response@, owner_id, created_at)));
            assert forall|i: int, j: int| 0 <= i < j < self@.len() implies self@[i].name
                != self@[j].name by {
                if j == self@.len() - 1 {
                    assert(self@[i] == old(self)@[i]);
                }
            }
            assert forall|i: int| 0 <= i < self@.len() implies (#[trigger] self@[i]).name.len() > 0
                && self@[i].response.len() > 0 by {
                if i < self@.len() - 1 {
                    assert(self@[i] == old(self)@[i]);
                }
            }
        }
        Ok(())
    }

    /// Removes the named command; absence is an error, not a no-op.
    pub fn delete(&mut self, name: &String) -> (r: Result<(), StoreError>)
        requires
            old(self).wf(),
        ensures
            final(self).wf(),
            match r {
                Ok(()) => contains_name(old(self)@, name@) && final(self)@ == old(self)@.remove(
                    idx_of(old(self)@, name@),
                ),
                Err(e) => e == StoreError::NotFound && !contains_name(old(self)@, name@)
                    && final(self)@ == old(self)@,
            },
    {
        match self.find_index(name) {
            Some(i) => {
                proof {
                    lemma_idx_of(self@, name@, i as int);
                }
                self.rows.remove(i);
                proof {
                    assert(self@ =~= old(self)@.remove(i as int));
                    assert forall|p: int, q: int| 0 <= p < q < self@.len() implies self@[p].name
                        != self@[q].name by {
                        let op = if p < i { p } else { p + 1 };
                        let oq = if q < i { q } else { q + 1 };
                        assert(self@[p] == old(self)@[op]);
                        assert(self@[q] == old(self)@[oq]);
                    }
                }
                Ok(())
            },
            None => Err(StoreError::NotFound),
        }
    }

    /// Unconditional truncate; only the import-replace path uses it.
    pub fn delete_all(&mut self)
        ensures
            final(self)@ =~= Seq::<CmdView>::empty(),
            final(self).wf(),
    {
        self.rows.clear();
    }

    /// Records one successful lookup of the named command.
    pub fn increment(&mut self, name: &String) -> (r: Result<(), StoreError>)
        requires
            old(self).wf(),
        ensures
            final(self).wf(),
            match r {
                Ok(()) => contains_name(old(self)@, name@) && final(self)@ == old(self)@.update(
                    idx_of(old(self)@, name@),
                    bumped(row_of(old(self)@, name@)),
                ),
                Err(e) => e == StoreError::NotFound && !contains_name(old(self)@, name@)
                    && final(self)@ == old(self)@,
            },
    {
        match self.find_index(name) {
            Some(i) => {
                proof {
                    lemma_idx_of(self@, name@, i as int);
                }
                let row = &mut self.rows[i];
                if row.use_count < u64::MAX {
                    row.use_count = row.use_count + 1;
                }
                proof {
                    assert(self@ =~= old(self)@.update(i as int, bumped(old(self)@[i as int])));
                    assert forall|p: int, q: int| 0 <= p < q < self@.len() implies self@[p].name
                        != self@[q].name by {
                        assert(old(self)@[p].name != old(self)@[q].name);
                    }
                }
                Ok(())
            },
            None => Err(StoreError::NotFound),
        }
    }

    /// Renames and rewrites the named command. Fails with `NotFound` when
    /// absent, with `NameConflict` when the new name already names a
    /// different command; the owner and the creation time are kept.
    pub fn edit(&mut self, name: &String, new_name: &String, new_response: &String) -> (r: Result<
        (),
        StoreError,
    >)
        requires
            old(self).wf(),
            new_name@.len() > 0,
            new_response@.len() > 0,
        ensures
            final(self).wf(),
            match r {
                Ok(()) => contains_name(old(self)@, name@) && (new_name@ == name@ || !contains_name(
                    old(self)@,
                    new_name@,
                )) && final(self)@ == old(self)@.update(
                    idx_of(old(self)@, name@),
                    renamed(row_of(old(self)@, name@), new_name@, new_response@),
                ),
                Err(e) => final(self)@ == old(self)@ && (match e {
                    StoreError::NotFound => !contains_name(old(self)@, name@),
                    StoreError::NameConflict => contains_name(old(self)@, name@) && new_name@
                        != name@ && contains_name(old(self)@, new_name@),
                    _ => false,
                }),
            },
    {
        match self.find_index(name) {
            Some(i) => {
                proof {
                    lemma_idx_of(self@, name@, i as int);
                }
                let same = *new_name == *name;
                if !same && self.is_command(new_name) {
                    return Err(StoreError::NameConflict);
                }
                let fresh = {
                    let row = &self.rows[i];
                    CustomCommand {
                        name: new_name.clone(),
                        response: new_response.clone(),
                        owner_id: row.owner_id,
                        use_count: row.use_count,
                        created_at: row.created_at,
                    }
                };
                proof {
                    assert(fresh@ == renamed(row_of(self@, name@), new_name@, new_response@));
                }
                let slot = &mut self.rows[i];
                *slot = fresh;
                proof {
                    assert(self@ =~= old(self)@.update(
                        i as int,
                        renamed(row_of(old(self)@, name@), new_name@, new_response@),
                    ));
                    assert forall|p: int, q: int| 0 <= p < q < self@.len() implies self@[p].name
                        != self@[q].name by {
                        assert(old(self)@[p].name != old(self)@[q].name);
                        if p != i as int && q != i as int {
                        } else if p == i as int {
                            assert(self@[q] == old(self)@[q]);
                            if new_name@ != name@ {
                                assert(!(0 <= q < old(self)@.len() && old(self)@[q].name
                                    == new_name@));
                            }
                        } else {
                            assert(self@[p] == old(self)@[p]);
                            if new_name@ != name@ {
                                assert(!(0 <= p < old(self)@.len() && old(self)@[p].name
                                    == new_name@));
                            }
                        }
                    }
                }
                Ok(())
            },
            None => Err(StoreError::NotFound),
        }
    }

    /// Every command, ordered by name under the case-insensitive collation.
    pub fn all(&self) -> (r: Vec<CustomCommand>)
        ensures
            list_view(r@).to_multiset() == self@.to_multiset(),
            name_sorted(list_view(r@)),
    {
        let mut out: Vec<CustomCommand> = Vec::new();
        proof {
            broadcast use vstd::seq_lib::group_to_multiset_ensures;

            assert(list_view(out@) =~= Seq::<CmdView>::empty());
            assert(self@.take(0) =~= Seq::<CmdView>::empty());
        }
        let len = self.rows.len();
        let mut i: usize = 0;
        while i < len
            invariant
                i <= len,
                len == self@.len(),
                name_sorted(list_view(out@)),
                list_view(out@).to_multiset() == self@.take(i as int).to_multiset(),
            decreases len - i,
        {
            let c = self.rows[i].duplicate();
            proof {
                broadcast use vstd::seq_lib::group_to_multiset_ensures;

                assert(self@.take(i + 1) =~= self@.take(i as int).push(self@[i as int]));
            }
            insert_by_name(&mut out, c);
            i = i + 1;
        }
        proof {
            assert(self@.take(len as int) =~= self@);
        }
        out
    }

    /// Every command, the most used first; the caller truncates to its
    /// top N.
    pub fn top(&self) -> (r: Vec<CustomCommand>)
        ensures
            list_view(r@).to_multiset() == self@.to_multiset(),
            count_sorted(list_view(r@)),
    {
        let mut out: Vec<CustomCommand> = Vec::new();
        proof {
            broadcast use vstd::seq_lib::group_to_multiset_ensures;

            assert(list_view(out@) =~= Seq::<CmdView>::empty());
            assert(self@.take(0) =~= Seq::<CmdView>::empty());
        }
        let len = self.rows.len();
        let mut i: usize = 0;
        while i < len
            invariant
                i <= len,
                len == self@.len(),
                count_sorted(list_view(out@)),
                list_view(out@).to_multiset() == self@.take(i as int).to_multiset(),
            decreases len - i,
        {
            let c = self.rows[i].duplicate();
            proof {
                broadcast use vstd::seq_lib::group_to_multiset_ensures;

                assert(self@.take(i + 1) =~= self@.take(i as int).push(self@[i as int]));
            }
            insert_by_count(&mut out, c);
            i = i + 1;
        }
        proof {
            assert(self@.take(len as int) =~= self@);
        }
        out
    }

    /// The commands whose name equals the term or holds it as a substring,
    /// ordered by name under the case-insensitive collation.
    pub fn search(&self, term: &String) -> (r: Vec<CustomCommand>)
        ensures
            list_view(r@).to_multiset() == self@.filter(search_pred(term@)).to_multiset(),
            name_sorted(list_view(r@)),
    {
        let mut out: Vec<CustomCommand> = Vec::new();
        proof {
            broadcast use vstd::seq_lib::group_to_multiset_ensures;

            reveal_with_fuel(Seq::<_>::filter, 1);
            assert(list_view(out@) =~= Seq::<CmdView>::empty());
            assert(self@.take(0) =~= Seq::<CmdView>::empty());
            assert(self@.take(0).filter(search_pred(term@)) =~= Seq::<CmdView>::empty());
        }
        let len = self.rows.len();
        let mut i: usize = 0;
        while i < len
            invariant
                i <= len,
                len == self@.len(),
                name_sorted(list_view(out@)),
                list_view(out@).to_multiset() == self@.take(i as int).filter(
                    search_pred(term@),
                ).to_multiset(),
            decreases len - i,
        {
            let row = &self.rows[i];
            let hit = contains_sub_fold(row.name.as_str(), term.as_str());
            proof {
                if fold_key(self@[i as int].name) == fold_key(term@) {
                    lemma_self_substring(fold_key(term@));
                }
                broadcast use vstd::seq_lib::group_to_multiset_ensures;

                reveal_with_fuel(Seq::<_>::filter, 1);
                let pre = self@.take(i as int);
                let post = self@.take(i + 1);
                assert(post.drop_last() =~= pre);
                assert(post.last() == self@[i as int]);
                assert(hit == search_pred(term@)(self@[i as int]));
                assert(post.filter(search_pred(term@)) == (if search_pred(term@)(post.last()) {
                    pre.filter(search_pred(term@)).push(post.last())
                } else {
                    pre.filter(search_pred(term@))
                }));
            }
            if hit {
                let c = self.rows[i].duplicate();
                insert_by_name(&mut out, c);
            }
            i = i + 1;
        }
        proof {
            assert(self@.take(len as int) =~= self@);
        }
        out
    }
}

} // verus!
