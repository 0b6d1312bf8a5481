//! The registry service: permission enforcement, import merge semantics,
//! and the user-facing outcomes. It owns the store and never silently
//! swallows a denied operation: every call reports an explicit outcome.

use vstd::prelude::*;

verus! {

use crate::store::{
    CustomCommand, CmdView, Database, StoreError, contains_name, table_wf, idx_of, row_of,
    new_row, bumped, renamed, list_view, name_sorted, count_sorted, search_pred,
};

/// Outcome of creating a command.
#[derive(Debug, Clone, Copy, PartialEq, Eq, Structural)]
pub enum AddOutcome {
    /// The command was created.
    Added,
    /// A command of that name already exists; nothing was written.
    AlreadyExists,
    /// Creation is restricted to the designated home scope.
    ScopeDenied,
}

/// Outcome of deleting a command.
#[derive(Debug, Clone, Copy, PartialEq, Eq, Structural)]
pub enum DeleteOutcome {
    /// The command was removed.
    Deleted,
    /// No command of that name exists.
    NotFound,
    /// The requester neither owns the command nor holds the override.
    PermissionDenied,
}

/// Outcome of editing a command.
#[derive(Debug, Clone, Copy, PartialEq, Eq, Structural)]
pub enum EditOutcome {
    /// The command was renamed and rewritten.
    Updated,
    /// No command of that name exists.
    NotFound,
    /// The requester neither owns the command nor holds the override.
    PermissionDenied,
    /// The new name already names a different command.
    NameConflict,
}

/// Outcome of a search.
#[derive(Debug)]
pub enum SearchOutcome {
    /// Nothing matched the term.
    NoResults,
    /// The matching commands, ordered by name.
    Results(Vec<CustomCommand>),
}

/// Outcome of looking a command up on an inbound message.
#[derive(Debug)]
pub enum InvokeOutcome {
    /// The command's response text; its usage count was incremented.
    Response(String),
    /// No command of that name exists; nothing changed.
    NotFound,
}

/// Outcome of a bulk import from a raw payload.
#[derive(Debug, Clone, Copy, PartialEq, Eq, Structural)]
pub enum ImportOutcome {
    /// The payload was valid; the report says what was written.
    Done(ImportReport),
    /// The payload was malformed; nothing was written.
    Invalid,
}

/// What a bulk import did.
#[derive(Debug, Clone, Copy, PartialEq, Eq, Structural)]
pub struct ImportReport {
    /// Entries inserted as new commands.
    pub added: usize,
    /// Entries skipped because their name was already taken.
    pub skipped_existing: usize,
}

/// A mutation is permitted to the command's owner, or to a requester
/// holding the externally computed override capability.
pub open spec fn may_modify(row: CmdView, requester_id: u64, has_override: bool) -> bool {
    requester_id == row.owner_id || has_override
}

/// The names and responses of a sequence of import entries.
pub open spec fn entries_view(v: Seq<(String, String)>) -> Seq<(Seq<char>, Seq<char>)> {
    Seq::new(v.len(), |i: int| (v[i].0@, v[i].1@))
}

/// An import entry the store may take: a non-empty name mapped to a
/// non-empty response.
pub open spec fn entry_ok(e: (Seq<char>, Seq<char>)) -> bool {
    e.0.len() > 0 && e.1.len() > 0
}

/// One import entry applied to the table: inserted when it keeps the
/// data rules and the name is free, otherwise left alone.
pub open spec fn import_step(
    rows: Seq<CmdView>,
    e: (Seq<char>, Seq<char>),
    importer_id: u64,
    created_at: i64,
) -> Seq<CmdView> {
    if !entry_ok(e) || contains_name(rows, e.0) {
        rows
    } else {
        rows.push(new_row(e.0, e.1, importer_id, created_at))
    }
}

/// The table after importing the entries in order.
pub open spec fn import_fold(
    rows: Seq<CmdView>,
    entries: Seq<(Seq<char>, Seq<char>)>,
    importer_id: u64,
    created_at: i64,
) -> Seq<CmdView>
    decreases entries.len(),
{
    if entries.len() == 0 {
        rows
    } else {
        import_fold(
            import_step(rows, entries[0], importer_id, created_at),
            entries.drop_first(),
            importer_id,
            created_at,
        )
    }
}

/// How many of the entries are inserted when imported in order.
pub open spec fn import_added(
    rows: Seq<CmdView>,
    entries: Seq<(Seq<char>, Seq<char>)>,
    importer_id: u64,
    created_at: i64,
) -> int
    decreases entries.len(),
{
    if entries.len() == 0 {
        0
    } else {
        (if !entry_ok(entries[0]) || contains_name(rows, entries[0].0) {
            0int
        } else {
            1int
        }) + import_added(
            import_step(rows, entries[0], importer_id, created_at),
            entries.drop_first(),
            importer_id,
            created_at,
        )
    }
}

/// The registry service. It holds the store; callers pass in the scope
/// and permission facts they computed, and receive explicit outcomes.
pub struct RegistryService {
    db: Database,
}

impl View for RegistryService {
    type V = Seq<CmdView>;

    closed spec fn view(&self) -> Seq<CmdView> {
        self.db@
    }
}

impl RegistryService {
    /// The service's invariant: the store's data rules hold.
    pub open spec fn wf(&self) -> bool {
        table_wf(self@)
    }

    /// Takes ownership of the store.
    pub fn new(db: Database) -> (s: RegistryService)
        requires
            db.wf(),
        ensures
            s.wf(),
            s@ == db@,
    {
        RegistryService { db }
    }

    /// Creates a command owned by its author. Only permitted inside the
    /// designated home scope; an existing name is reported, not overwritten.
    pub fn add_command(
        &mut self,
        name: &String,
        response: &String,
        author_id: u64,
        in_home_scope: bool,
        created_at: i64,
    ) -> (r: AddOutcome)
        requires
            old(self).wf(),
            name@.len() > 0,
            response@.len() > 0,
        ensures
            final(self).wf(),
            match r {
                AddOutcome::ScopeDenied => !in_home_scope && final(self)@ == old(self)@,
                AddOutcome::AlreadyExists => in_home_scope && contains_name(old(self)@, name@)
                    && final(self)@ == old(self)@,
                AddOutcome::Added => in_home_scope && !contains_name(old(self)@, name@) && final(self)@ == old(self)@.push(new_row(name@, response@, author_id, created_at)),
            },
    {
        if !in_home_scope {
            return AddOutcome::ScopeDenied;
        }
        match self.db.add(name, response, author_id, created_at) {
            Ok(()) => AddOutcome::Added,
            Err(_) => AddOutcome::AlreadyExists,
        }
    }

    /// Creates a command stamped with the current time. The clock is read
    /// outside the store, so everything but the timestamp is pinned here.
    pub fn add_command_now(
        &mut self,
        name: &String,
        response: &String,
        author_id: u64,
        in_home_scope: bool,
    ) -> (r: AddOutcome)
        requires
            old(self).wf(),
            name@.len() > 0,
            response@.len() > 0,
        ensures
            final(self).wf(),
            match r {
                AddOutcome::ScopeDenied => !in_home_scope && final(self)@ == old(self)@,
                AddOutcome::AlreadyExists => in_home_scope && contains_name(old(self)@, name@)
                    && final(self)@ == old(self)@,
                AddOutcome::Added => in_home_scope && !contains_name(old(self)@, name@) && final(self)@.len() == old(self)@.len() + 1 && final(self)@ == old(self)@.push(
                    new_row(name@, response@, author_id, final(self)@.last().created_at),
                ),
            },
    {
        let t = crate::clock::now_timestamp();
        let r = self.add_command(name, response, author_id, in_home_scope, t);
        proof {
            match r {
                AddOutcome::Added => {
                    assert(self@.last() == new_row(name@, response@, author_id, t));
                },
                _ => {},
            }
        }
        r
    }

    /// Deletes a command for the requester. Denials are explicit: a
    /// non-owner without the override is told so, and nothing changes.
    pub fn delete_command(
        &mut self,
        name: &String,
        requester_id: u64,
        requester_has_override: bool,
    ) -> (r: DeleteOutcome)
        requires
            old(self).wf(),
        ensures
            final(self).wf(),
            match r {
                DeleteOutcome::NotFound => !contains_name(old(self)@, name@) && final(self)@ == old(
                    self,
                )@,
                DeleteOutcome::PermissionDenied => contains_name(old(self)@, name@) && !may_modify(
                    row_of(old(self)@, name@),
                    requester_id,
                    requester_has_override,
                ) && final(self)@ == old(self)@,
                DeleteOutcome::Deleted => contains_name(old(self)@, name@) && may_modify(
                    row_of(old(self)@, name@),
                    requester_id,
                    requester_has_override,
                ) && final(self)@ == old(self)@.remove(idx_of(old(self)@, name@)),
            },
    {
        let cmd = match self.db.get(name) {
            Ok(c) => c,
            Err(_) => {
                return DeleteOutcome::NotFound;
            },
        };
        if !(cmd.is_owner(requester_id) || requester_has_override) {
            return DeleteOutcome::PermissionDenied;
        }
        match self.db.delete(name) {
            Ok(()) => DeleteOutcome::Deleted,
            Err(_) => {
                proof {
                    assert(false);
                }
                DeleteOutcome::NotFound
            },
        }
    }

    /// Renames and rewrites a command for the requester, under the same
    /// permission gate as deletion; a colliding new name is rejected.
    pub fn edit_command(
        &mut self,
        name: &String,
        new_name: &String,
        new_response: &String,
        requester_id: u64,
        requester_has_override: bool,
    ) -> (r: EditOutcome)
        requires
            old(self).wf(),
            new_name@.len() > 0,
            new_response@.len() > 0,
        ensures
            final(self).wf(),
            match r {
                EditOutcome::NotFound => !contains_name(old(self)@, name@) && final(self)@ == old(
                    self,
                )@,
                EditOutcome::PermissionDenied => contains_name(old(self)@, name@) && !may_modify(
                    row_of(old(self)@, name@),
                    requester_id,
                    requester_has_override,
                ) && final(self)@ == old(self)@,
                EditOutcome::NameConflict => contains_name(old(self)@, name@) && may_modify(
                    row_of(old(self)@, name@),
                    requester_id,
                    requester_has_override,
                ) && new_name@ != name@ && contains_name(old(self)@, new_name@) && final(self)@
                    == old(self)@,
                EditOutcome::Updated => contains_name(old(self)@, name@) && may_modify(
                    row_of(old(self)@, name@),
                    requester_id,
                    requester_has_override,
                ) && (new_name@ == name@ || !contains_name(old(self)@, new_name@)) && final(self)@
                    == old(self)@.update(
                    idx_of(old(self)@, name@),
                    renamed(row_of(old(self)@, name@), new_name@, new_response@),
                ),
            },
    {
        let cmd = match self.db.get(name) {
            Ok(c) => c,
            Err(_) => {
                return EditOutcome::NotFound;
            },
        };
        if !(cmd.is_owner(requester_id) || requester_has_override) {
            return EditOutcome::PermissionDenied;
        }
        match self.db.edit(name, new_name, new_response) {
            Ok(()) => EditOutcome::Updated,
            Err(StoreError::NameConflict) => EditOutcome::NameConflict,
            Err(_) => {
                proof {
                    assert(false);
                }
                EditOutcome::NotFound
            },
        }
    }

    /// A snapshot of the named command's row, or `NotFound`.
    pub fn get_stats(&self, name: &String) -> (r: Result<CustomCommand, StoreError>)
        requires
            self.wf(),
        ensures
            match r {
                Ok(c) => contains_name(self@, name@) && c@ == row_of(self@, name@),
                Err(e) => e == StoreError::NotFound && !contains_name(self@, name@),
            },
    {
        self.db.get(name)
    }

    /// Looks a command up on an inbound message: returns its response and
    /// records the successful lookup, whatever becomes of the delivery.
    pub fn invoke_command(&mut self, name: &String) -> (r: InvokeOutcome)
        requires
            old(self).wf(),
        ensures
            final(self).wf(),
            match r {
                InvokeOutcome::Response(text) => contains_name(old(self)@, name@) && text@ == row_of(
                    old(self)@,
                    name@,
                ).response && final(self)@ == old(self)@.update(
                    idx_of(old(self)@, name@),
                    bumped(row_of(old(self)@, name@)),
                ),
                InvokeOutcome::NotFound => !contains_name(old(self)@, name@) && final(self)@ == old(
                    self,
                )@,
            },
    {
        let cmd = match self.db.get(name) {
            Ok(c) => c,
            Err(_) => {
                return InvokeOutcome::NotFound;
            },
        };
        match self.db.increment(name) {
            Ok(()) => {},
            Err(_) => {
                proof {
                    assert(false);
                }
            },
        }
        InvokeOutcome::Response(cmd.response)
    }

    /// Every command, ordered by name under the case-insensitive collation.
    pub fn list_commands(&self) -> (r: Vec<CustomCommand>)
        ensures
            list_view(r@).to_multiset() == self@.to_multiset(),
            name_sorted(list_view(r@)),
    {
        self.db.all()
    }

    /// The at most `n` most used commands, ordered by usage count
    /// descending: the head of a full popularity ordering of the store.
    pub fn top_commands(&self, n: usize) -> (r: Vec<CustomCommand>)
        ensures
            count_sorted(list_view(r@)),
            r@.len() == (if n <= self@.len() {
                n as int
            } else {
                self@.len() as int
            }),
            exists|full: Seq<CmdView>|
                (#[trigger] full.to_multiset()) == self@.to_multiset() && count_sorted(full)
                    && list_view(r@) == full.take(r@.len() as int),
    {
        let mut v = self.db.top();
        let ghost full = list_view(v@);
        proof {
            broadcast use vstd::seq_lib::group_to_multiset_ensures;

            assert(full.to_multiset().len() == full.len());
            assert(self@.to_multiset().len() == self@.len());
            assert(full.len() == self@.len());
        }
        v.truncate(n);
        proof {
            assert(list_view(v@) =~= full.take(v@.len() as int));
        }
        v
    }

    /// The commands matching the term, ordered by name; an empty result
    /// is reported as such.
    pub fn search_commands(&self, term: &String) -> (r: SearchOutcome)
        ensures
            match r {
                SearchOutcome::NoResults => self@.filter(search_pred(term@)).len() == 0,
                SearchOutcome::Results(v) => v@.len() > 0 && list_view(v@).to_multiset() == self@
                    .filter(search_pred(term@)).to_multiset() && name_sorted(list_view(v@)),
            },
    {
        let v = self.db.search(term);
        if v.len() == 0 {
            proof {
                broadcast use vstd::seq_lib::group_to_multiset_ensures;

                assert(list_view(v@).len() == 0);
                assert(list_view(v@).to_multiset().len() == list_view(v@).len());
                assert(self@.filter(search_pred(term@)).to_multiset().len() == self@.filter(
                    search_pred(term@),
                ).len());
                assert(self@.filter(search_pred(term@)).len() == 0);
            }
            SearchOutcome::NoResults
        } else {
            SearchOutcome::Results(v)
        }
    }

    /// Imports a name-to-response mapping. With `replace_existing` the
    /// store is cleared first. Entries whose name is already taken, and
    /// entries with an empty name or response, are counted as skipped,
    /// and nothing of them is written.
    pub fn import_commands(
        &mut self,
        entries: &Vec<(String, String)>,
        importer_id: u64,
        replace_existing: bool,
        created_at: i64,
    ) -> (r: ImportReport)
        requires
            old(self).wf(),
        ensures
            final(self).wf(),
            final(self)@ == import_fold(
                (if replace_existing {
                    Seq::<CmdView>::empty()
                } else {
                    old(self)@
                }),
                entries_view(entries@),
                importer_id,
                created_at,
            ),
            r.added + r.skipped_existing == entries@.len(),
            r.added == import_added(
                (if replace_existing {
                    Seq::<CmdView>::empty()
                } else {
                    old(self)@
                }),
                entries_view(entries@),
                importer_id,
                created_at,
            ),
    {
        if replace_existing {
            self.db.delete_all();
        }
        let ghost start = self@;
        let ghost ev = entries_view(entries@);
        let len = entries.len();
        let mut i: usize = 0;
        let mut added: usize = 0;
        let mut skipped: usize = 0;
        proof {
            assert(ev.skip(0) =~= ev);
        }
        while i < len
            invariant
                self.wf(),
                i <= len,
                len == ev.len(),
                len == entries@.len(),
                ev == entries_view(entries@),
                added + skipped == i,
                import_fold(start, ev, importer_id, created_at) == import_fold(
                    self@,
                    ev.skip(i as int),
                    importer_id,
                    created_at,
                ),
                import_added(start, ev, importer_id, created_at) == added + import_added(
                    self@,
                    ev.skip(i as int),
                    importer_id,
                    created_at,
                ),
            decreases len - i,
        {
            let e = &entries[i];
            proof {
                let es = ev.skip(i as int);
                assert(es[0] == (e.0@, e.1@));
                assert(es.drop_first() =~= ev.skip(i + 1));
            }
            if e.0.as_str().is_empty() || e.1.as_str().is_empty() {
                skipped = skipped + 1;
            } else if self.db.is_command(&e.0) {
                skipped = skipped + 1;
            } else {
                match self.db.add(&e.0, &e.1, importer_id, created_at) {
                    Ok(()) => {},
                    Err(_) => {
                        proof {
                            assert(false);
                        }
                    },
                }
                added = added + 1;
            }
            i = i + 1;
        }
        proof {
            assert(ev.skip(len as int) =~= Seq::<(Seq<char>, Seq<char>)>::empty());
        }
        ImportReport { added, skipped_existing: skipped }
    }

    /// Imports a raw JSON payload: decodes and validates it as a flat
    /// string-to-string mapping before the first write, so a malformed
    /// payload aborts the whole import with the store untouched.
    pub fn import_from_json(
        &mut self,
        raw: &str,
        importer_id: u64,
        replace_existing: bool,
        created_at: i64,
    ) -> (r: ImportOutcome)
        requires
            old(self).wf(),
        ensures
            final(self).wf(),
            match r {
                ImportOutcome::Done(rep) => crate::json::import_entries_of(raw@) matches Some(es)
                    && final(self)@ == import_fold(
                    (if replace_existing {
                        Seq::<CmdView>::empty()
                    } else {
                        old(self)@
                    }),
                    es,
                    importer_id,
                    created_at,
                ) && rep.added == import_added(
                    (if replace_existing {
                        Seq::<CmdView>::empty()
                    } else {
                        old(self)@
                    }),
                    es,
                    importer_id,
                    created_at,
                ) && rep.added + rep.skipped_existing == es.len(),
                ImportOutcome::Invalid => crate::json::import_entries_of(raw@) is None && final(self)@ == old(self)@,
            },
    {
        match crate::json::parse_import(raw) {
            Some(entries) => {
                let report = self.import_commands(&entries, importer_id, replace_existing, created_at);
                ImportOutcome::Done(report)
            },
            None => ImportOutcome::Invalid,
        }
    }
}

} // verus!
