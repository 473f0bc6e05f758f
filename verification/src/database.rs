use vstd::prelude::*;
use crate::errors::DbError;
use crate::errors::DbErrorView;
use crate::json::JsonValue;
use crate::json::JsonView;
use crate::table::Table;
use crate::table::TableView;
use crate::table::tv_wf;
use crate::table::table_new_spec;
use crate::table::read_table_view;
use crate::table::extract_pair;
use crate::table::data_insert;
use crate::table::data_delete;
use crate::table::merge_doc;
use crate::table::update_base;
use crate::table::content_of;

verus! {

/// A named collection of tables, bound to the snapshot path it was
/// opened from. Tables stand in creation order; their names are unique.
pub struct Database {
    tables: Vec<Table>,
    path: String,
}

/// Ghost twin of `Database`.
pub struct DatabaseView {
    pub tables: Seq<TableView>,
    pub path: Seq<char>,
}

/// The views of a table list.
pub open spec fn tables_view(ts: Seq<Table>) -> Seq<TableView> {
    Seq::new(ts.len(), |i: int| ts[i]@)
}

impl View for Database {
    type V = DatabaseView;

    closed spec fn view(&self) -> DatabaseView {
        DatabaseView { tables: tables_view(self.tables@), path: self.path@ }
    }
}

/// The database invariant: table names pairwise distinct, every table
/// well formed.
pub open spec fn db_wf(d: DatabaseView) -> bool {
    &&& forall|i: int, j: int|
        0 <= i < j < d.tables.len() ==> d.tables[i].table_name != d.tables[j].table_name
    &&& forall|i: int| 0 <= i < d.tables.len() ==> tv_wf(#[trigger] d.tables[i])
}

/// The first table of the given name, if any.
pub open spec fn tbl_lookup(tables: Seq<TableView>, name: Seq<char>) -> Option<TableView>
    decreases tables.len(),
{
    if tables.len() == 0 {
        None
    } else if tables[0].table_name == name {
        Some(tables[0])
    } else {
        tbl_lookup(tables.skip(1), name)
    }
}

/// The index of the first table of the given name; meaningful only when
/// `tbl_lookup` finds one.
pub open spec fn tbl_index_of(tables: Seq<TableView>, name: Seq<char>) -> int
    decreases tables.len(),
{
    if tables.len() == 0 {
        0
    } else if tables[0].table_name == name {
        0
    } else {
        1 + tbl_index_of(tables.skip(1), name)
    }
}

/// The table list with `tv` bound under its name: the table of the same
/// name is replaced in place, or `tv` is appended, new, at the end.
pub open spec fn tbl_put(tables: Seq<TableView>, tv: TableView) -> Seq<TableView>
    decreases tables.len(),
{
    if tables.len() == 0 {
        seq![tv]
    } else if tables[0].table_name == tv.table_name {
        seq![tv] + tables.skip(1)
    } else {
        seq![tables[0]] + tbl_put(tables.skip(1), tv)
    }
}

/// The table list without the first table of the given name, if any.
pub open spec fn tbl_remove(tables: Seq<TableView>, name: Seq<char>) -> Seq<TableView>
    decreases tables.len(),
{
    if tables.len() == 0 {
        tables
    } else if tables[0].table_name == name {
        tables.skip(1)
    } else {
        seq![tables[0]] + tbl_remove(tables.skip(1), name)
    }
}

/// The detail string of every table-not-found failure.
pub open spec fn msg_no_table() -> Seq<char> {
    "Table does not exist"@
}

/// What `read_db` returns: the list of table names, in stored order.
pub open spec fn read_db_view(tables: Seq<TableView>) -> JsonView {
    JsonView::Obj(
        seq![
            (
                "tables"@,
                JsonView::Arr(
                    Seq::new(tables.len(), |i: int| JsonView::Text(tables[i].table_name)),
                ),
            ),
        ],
    )
}

/// What the snapshot holds: one `read_table` value per table, in stored
/// order.
pub open spec fn snapshot_view(tables: Seq<TableView>) -> JsonView {
    JsonView::Arr(Seq::new(tables.len(), |i: int| read_table_view(tables[i])))
}


proof fn lemma_tbl_lookup_at(tables: Seq<TableView>, name: Seq<char>, i: int)
    requires
        0 <= i < tables.len(),
        forall|k: int| 0 <= k < i ==> (#[trigger] tables[k]).table_name != name,
        tables[i].table_name == name,
    ensures
        tbl_lookup(tables, name) == Some(tables[i]),
        tbl_index_of(tables, name) == i,
    decreases i,
{
    if i > 0 {
        let tail = tables.skip(1);
        assert(forall|k: int| 0 <= k < tail.len() ==> #[trigger] tail[k] == tables[k + 1]);
        lemma_tbl_lookup_at(tail, name, i - 1);
    }
}

proof fn lemma_tbl_lookup_missing(tables: Seq<TableView>, name: Seq<char>)
    requires
        forall|k: int| 0 <= k < tables.len() ==> (#[trigger] tables[k]).table_name != name,
    ensures
        tbl_lookup(tables, name) is None,
    decreases tables.len(),
{
    if tables.len() > 0 {
        let tail = tables.skip(1);
        assert(forall|k: int| 0 <= k < tail.len() ==> #[trigger] tail[k] == tables[k + 1]);
        lemma_tbl_lookup_missing(tail, name);
    }
}

proof fn lemma_tbl_put_found(tables: Seq<TableView>, tv: TableView, i: int)
    requires
        0 <= i < tables.len(),
        forall|k: int| 0 <= k < i ==> (#[trigger] tables[k]).table_name != tv.table_name,
        tables[i].table_name == tv.table_name,
    ensures
        tbl_put(tables, tv) == tables.update(i, tv),
    decreases i,
{
    if i == 0 {
        assert(seq![tv] + tables.skip(1) =~= tables.update(0, tv));
    } else {
        let tail = tables.skip(1);
        assert(forall|k: int| 0 <= k < tail.len() ==> #[trigger] tail[k] == tables[k + 1]);
        lemma_tbl_put_found(tail, tv, i - 1);
        assert(seq![tables[0]] + tail.update(i - 1, tv) =~= tables.update(i, tv));
    }
}

proof fn lemma_tbl_put_missing(tables: Seq<TableView>, tv: TableView)
    requires
        forall|k: int| 0 <= k < tables.len() ==> (#[trigger] tables[k]).table_name
            != tv.table_name,
    ensures
        tbl_put(tables, tv) == tables.push(tv),
    decreases tables.len(),
{
    if tables.len() == 0 {
        assert(seq![tv] =~= tables.push(tv));
    } else {
        let tail = tables.skip(1);
        assert(forall|k: int| 0 <= k < tail.len() ==> #[trigger] tail[k] == tables[k + 1]);
        lemma_tbl_put_missing(tail, tv);
        assert(seq![tables[0]] + tail.push(tv) =~= tables.push(tv));
    }
}

proof fn lemma_tbl_remove_found(tables: Seq<TableView>, name: Seq<char>, i: int)
    requires
        0 <= i < tables.len(),
        forall|k: int| 0 <= k < i ==> (#[trigger] tables[k]).table_name != name,
        tables[i].table_name == name,
    ensures
        tbl_remove(tables, name) == tables.remove(i),
    decreases i,
{
    if i == 0 {
        assert(tables.skip(1) =~= tables.remove(0));
    } else {
        let tail = tables.skip(1);
        assert(forall|k: int| 0 <= k < tail.len() ==> #[trigger] tail[k] == tables[k + 1]);
        lemma_tbl_remove_found(tail, name, i - 1);
        assert(seq![tables[0]] + tail.remove(i - 1) =~= tables.remove(i));
    }
}

impl Database {
    /// The database invariant, at the view level.
    pub open spec fn wf(&self) -> bool {
        db_wf(self@)
    }

    /// A database with no tables, bound to a snapshot path: the state a
    /// cold start opens with.
    pub fn empty(path: String) -> (d: Database)
        ensures
            d@.tables == Seq::<TableView>::empty(),
            d@.path == path@,
            d.wf(),
    {
        let d = Database { tables: Vec::new(), path };
        proof {
            assert(tables_view(d.tables@) =~= Seq::<TableView>::empty());
        }
        d
    }

    /// The index of the table of the given name, if one is stored.
    #[verifier::loop_isolation(false)]
    fn find_table(&self, name: &String) -> (r: Option<usize>)
        ensures
            match r {
                Some(i) => 0 <= i < self@.tables.len() && self@.tables[i as int].table_name
                    == name@ && forall|k: int|
                    0 <= k < i ==> (#[trigger] self@.tables[k]).table_name != name@,
                None => forall|k: int|
                    0 <= k < self@.tables.len() ==> (#[trigger] self@.tables[k]).table_name
                        != name@,
            },
    {
        let n = self.tables.len();
        let mut i: usize = 0;
        while i < n
            invariant
                0 <= i <= n,
                forall|k: int| 0 <= k < i ==> (#[trigger] self@.tables[k]).table_name != name@,
            decreases n - i,
        {
            if crate::keys::str_eq(self.tables[i].name_of().as_str(), name.as_str()) {
                return Some(i);
            }
            i += 1;
        }
        None
    }

    /// Binds a table under its name: the stored table of the same name
    /// is replaced in place, or the new table is appended.
    fn put_table(&mut self, t: Table)
        requires
            old(self).wf(),
            tv_wf(t@),
        ensures
            final(self).wf(),
            final(self)@.path == old(self)@.path,
            final(self)@.tables == tbl_put(old(self)@.tables, t@),
    {
        let ghost gtables = self@.tables;
        let ghost gt = t@;
        let tname = t.name_of().clone();
        let found = self.find_table(&tname);
        match found {
            Some(i) => {
                proof {
                    lemma_tbl_put_found(gtables, gt, i as int);
                }
                let ghost gvec = self.tables@;
                self.tables[i] = t;
                proof {
                    assert(tables_view(self.tables@) =~= gtables.update(i as int, gt)) by {
                        assert(forall|k: int|
                            0 <= k < gvec.len() && k != i as int ==> self.tables@[k] == gvec[k]);
                        assert(forall|k: int|
                            0 <= k < gvec.len() ==> #[trigger] gtables[k] == gvec[k]@);
                    }
                }
            },
            None => {
                proof {
                    lemma_tbl_put_missing(gtables, gt);
                }
                let ghost gvec = self.tables@;
                self.tables.push(t);
                proof {
                    assert(tables_view(self.tables@) =~= gtables.push(gt)) by {
                        assert(forall|k: int|
                            0 <= k < gvec.len() ==> self.tables@[k] == gvec[k]);
                        assert(forall|k: int|
                            0 <= k < gvec.len() ==> #[trigger] gtables[k] == gvec[k]@);
                    }
                }
            },
        }
    }

    /// Builds a table from the definition payload and binds it under its
    /// name, replacing without warning any table already of that name.
    /// Returns the null sentinel; fails exactly when the definition is
    /// rejected, leaving the table map unchanged.
    pub fn create_table(&mut self, info: JsonValue) -> (r: Result<JsonValue, DbError>)
        requires
            old(self).wf(),
        ensures
            final(self).wf(),
            final(self)@.path == old(self)@.path,
            match table_new_spec(info@) {
                Ok(tv) => {
                    &&& r matches Ok(v) && v@ == JsonView::Null
                    &&& final(self)@.tables == tbl_put(old(self)@.tables, tv)
                },
                Err(e) => {
                    &&& r matches Err(er) && er@ == e
                    &&& final(self)@ == old(self)@
                },
            },
    {
        let t = match Table::new(&info) {
            Ok(t) => t,
            Err(e) => {
                return Err(e);
            },
        };
        self.put_table(t);
        Ok(JsonValue::Null)
    }

    /// Drops the named table. Returns the null sentinel, or the
    /// table-not-found failure when no table has that name.
    pub fn delete_table(&mut self, table_name: &String) -> (r: Result<JsonValue, DbError>)
        requires
            old(self).wf(),
        ensures
            final(self).wf(),
            final(self)@.path == old(self)@.path,
            match tbl_lookup(old(self)@.tables, table_name@) {
                None => {
                    &&& r matches Err(e) && e@ == DbErrorView::TableNotFound(msg_no_table())
                    &&& final(self)@ == old(self)@
                },
                Some(_) => {
                    &&& r matches Ok(v) && v@ == JsonView::Null
                    &&& final(self)@.tables == tbl_remove(old(self)@.tables, table_name@)
                },
            },
    {
        let ghost gtables = self@.tables;
        match self.find_table(table_name) {
            None => {
                proof {
                    lemma_tbl_lookup_missing(gtables, table_name@);
                }
                Err(DbError::TableNotFound(String::from_str("Table does not exist")))
            },
            Some(i) => {
                proof {
                    lemma_tbl_lookup_at(gtables, table_name@, i as int);
                    lemma_tbl_remove_found(gtables, table_name@, i as int);
                }
                let ghost gvec = self.tables@;
                self.tables.remove(i);
                proof {
                    assert(tables_view(self.tables@) =~= gtables.remove(i as int)) by {
                        assert(forall|k: int|
                            0 <= k < self.tables@.len() ==> self.tables@[k] == if k < i as int {
                                gvec[k]
                            } else {
                                gvec[k + 1]
                            });
                        assert(forall|k: int|
                            0 <= k < gvec.len() ==> #[trigger] gtables[k] == gvec[k]@);
                    }
                }
                Ok(JsonValue::Null)
            },
        }
    }

    /// The stored table of the given name, read whole, or the
    /// table-not-found failure.
    pub fn read_table(&self, table_name: &String) -> (r: Result<JsonValue, DbError>)
        requires
            self.wf(),
        ensures
            match tbl_lookup(self@.tables, table_name@) {
                None => r matches Err(e) && e@ == DbErrorView::TableNotFound(msg_no_table()),
                Some(tv) => r matches Ok(v) && v@ == read_table_view(tv),
            },
    {
        let ghost gtables = self@.tables;
        match self.find_table(table_name) {
            None => {
                proof {
                    lemma_tbl_lookup_missing(gtables, table_name@);
                }
                Err(DbError::TableNotFound(String::from_str("Table does not exist")))
            },
            Some(i) => {
                proof {
                    lemma_tbl_lookup_at(gtables, table_name@, i as int);
                }
                self.tables[i].read_table()
            },
        }
    }

    /// Stores a document in the named table, as the table's own
    /// `create_document` does, or fails with the table-not-found
    /// failure.
    pub fn create_document(&mut self, table_name: &String, info: JsonValue) -> (r: Result<
        JsonValue,
        DbError,
    >)
        requires
            old(self).wf(),
        ensures
            final(self).wf(),
            final(self)@.path == old(self)@.path,
            match tbl_lookup(old(self)@.tables, table_name@) {
                None => {
                    &&& r matches Err(e) && e@ == DbErrorView::TableNotFound(msg_no_table())
                    &&& final(self)@ == old(self)@
                },
                Some(tv) => match extract_pair(tv.primary_key, tv.sort_key, info@) {
                    Ok(ps) => {
                        &&& r matches Ok(v) && v@ == JsonView::Null
                        &&& final(self)@.tables == old(self)@.tables.update(
                            tbl_index_of(old(self)@.tables, table_name@),
                            TableView { data: data_insert(tv.data, ps.0, ps.1, info@), ..tv },
                        )
                    },
                    Err(e) => {
                        &&& r matches Err(er) && er@ == e
                        &&& final(self)@ == old(self)@
                    },
                },
            },
    {
        let ghost gtables = self@.tables;
        let i = match self.find_table(table_name) {
            None => {
                proof {
                    lemma_tbl_lookup_missing(gtables, table_name@);
                }
                return Err(DbError::TableNotFound(String::from_str("Table does not exist")));
            },
            Some(i) => i,
        };
        proof {
            lemma_tbl_lookup_at(gtables, table_name@, i as int);
        }
        let ghost gvec = self.tables@;
        let mut t = self.tables.remove(i);
        let r = t.create_document(info);
        let ghost gt = t@;
        self.tables.insert(i, t);
        proof {
            let x = self.tables@[i as int];
            assert(x@ == gt);
            assert(self.tables@ =~= gvec.update(i as int, x));
            assert(tables_view(self.tables@) =~= gtables.update(i as int, gt)) by {
                assert(forall|k: int|
                    0 <= k < gvec.len() && k != i as int ==> self.tables@[k] == gvec[k]);
                assert(forall|k: int| 0 <= k < gvec.len() ==> #[trigger] gtables[k] == gvec[k]@);
            }
            if gt == gtables[i as int] {
                assert(tables_view(self.tables@) =~= gtables);
            }
        }
        r
    }

    /// Reads a document from the named table, as the table's own
    /// `read_document` does, or fails with the table-not-found failure.
    pub fn read_document(&self, table_name: &String, info: JsonValue) -> (r: Result<
        JsonValue,
        DbError,
    >)
        requires
            self.wf(),
        ensures
            match tbl_lookup(self@.tables, table_name@) {
                None => r matches Err(e) && e@ == DbErrorView::TableNotFound(msg_no_table()),
                Some(tv) => match extract_pair(tv.primary_key, tv.sort_key, info@) {
                    Ok(ps) => r matches Ok(v) && v@ == crate::table::read_doc_spec(
                        content_of(tv.data),
                        ps.0,
                        ps.1,
                    ),
                    Err(e) => r matches Err(er) && er@ == e,
                },
            },
    {
        let ghost gtables = self@.tables;
        match self.find_table(table_name) {
            None => {
                proof {
                    lemma_tbl_lookup_missing(gtables, table_name@);
                }
                Err(DbError::TableNotFound(String::from_str("Table does not exist")))
            },
            Some(i) => {
                proof {
                    lemma_tbl_lookup_at(gtables, table_name@, i as int);
                }
                self.tables[i].read_document(info)
            },
        }
    }

    /// Merges a patch into a document of the named table, as the table's
    /// own `update_document` does, or fails with the table-not-found
    /// failure.
    pub fn update_document(&mut self, table_name: &String, info: JsonValue) -> (r: Result<
        JsonValue,
        DbError,
    >)
        requires
            old(self).wf(),
            info@ matches JsonView::Obj(pf) ==> crate::json::fields_unique(pf),
        ensures
            final(self).wf(),
            final(self)@.path == old(self)@.path,
            match tbl_lookup(old(self)@.tables, table_name@) {
                None => {
                    &&& r matches Err(e) && e@ == DbErrorView::TableNotFound(msg_no_table())
                    &&& final(self)@ == old(self)@
                },
                Some(tv) => match extract_pair(tv.primary_key, tv.sort_key, info@) {
                    Ok(ps) => {
                        &&& r matches Ok(v) && v@ == JsonView::Null
                        &&& final(self)@.tables == old(self)@.tables.update(
                            tbl_index_of(old(self)@.tables, table_name@),
                            TableView {
                                data: data_insert(
                                    tv.data,
                                    ps.0,
                                    ps.1,
                                    merge_doc(update_base(content_of(tv.data), ps.0, ps.1), info@),
                                ),
                                ..tv
                            },
                        )
                    },
                    Err(e) => {
                        &&& r matches Err(er) && er@ == e
                        &&& final(self)@ == old(self)@
                    },
                },
            },
    {
        let ghost gtables = self@.tables;
        let i = match self.find_table(table_name) {
            None => {
                proof {
                    lemma_tbl_lookup_missing(gtables, table_name@);
                }
                return Err(DbError::TableNotFound(String::from_str("Table does not exist")));
            },
            Some(i) => i,
        };
        proof {
            lemma_tbl_lookup_at(gtables, table_name@, i as int);
        }
        let ghost gvec = self.tables@;
        let mut t = self.tables.remove(i);
        let r = t.update_document(info);
        let ghost gt = t@;
        self.tables.insert(i, t);
        proof {
            let x = self.tables@[i as int];
            assert(x@ == gt);
            assert(self.tables@ =~= gvec.update(i as int, x));
            assert(tables_view(self.tables@) =~= gtables.update(i as int, gt)) by {
                assert(forall|k: int|
                    0 <= k < gvec.len() && k != i as int ==> self.tables@[k] == gvec[k]);
                assert(forall|k: int| 0 <= k < gvec.len() ==> #[trigger] gtables[k] == gvec[k]@);
            }
            if gt == gtables[i as int] {
                assert(tables_view(self.tables@) =~= gtables);
            }
        }
        r
    }

    /// Removes a document from the named table, as the table's own
    /// `delete_document` does, or fails with the table-not-found
    /// failure.
    pub fn delete_document(&mut self, table_name: &String, info: JsonValue) -> (r: Result<
        JsonValue,
        DbError,
    >)
        requires
            old(self).wf(),
        ensures
            final(self).wf(),
            final(self)@.path == old(self)@.path,
            match tbl_lookup(old(self)@.tables, table_name@) {
                None => {
                    &&& r matches Err(e) && e@ == DbErrorView::TableNotFound(msg_no_table())
                    &&& final(self)@ == old(self)@
                },
                Some(tv) => match extract_pair(tv.primary_key, tv.sort_key, info@) {
                    Ok(ps) => {
                        &&& r matches Ok(v) && v@ == JsonView::Null
                        &&& final(self)@.tables == old(self)@.tables.update(
                            tbl_index_of(old(self)@.tables, table_name@),
                            TableView { data: data_delete(tv.data, ps.0, ps.1), ..tv },
                        )
                    },
                    Err(e) => {
                        &&& r matches Err(er) && er@ == e
                        &&& final(self)@ == old(self)@
                    },
                },
            },
    {
        let ghost gtables = self@.tables;
        let i = match self.find_table(table_name) {
            None => {
                proof {
                    lemma_tbl_lookup_missing(gtables, table_name@);
                }
                return Err(DbError::TableNotFound(String::from_str("Table does not exist")));
            },
            Some(i) => i,
        };
        proof {
            lemma_tbl_lookup_at(gtables, table_name@, i as int);
        }
        let ghost gvec = self.tables@;
        let mut t = self.tables.remove(i);
        let r = t.delete_document(info);
        let ghost gt = t@;
        self.tables.insert(i, t);
        proof {
            let x = self.tables@[i as int];
            assert(x@ == gt);
            assert(self.tables@ =~= gvec.update(i as int, x));
            assert(tables_view(self.tables@) =~= gtables.update(i as int, gt)) by {
                assert(forall|k: int|
                    0 <= k < gvec.len() && k != i as int ==> self.tables@[k] == gvec[k]);
                assert(forall|k: int| 0 <= k < gvec.len() ==> #[trigger] gtables[k] == gvec[k]@);
            }
            if gt == gtables[i as int] {
                assert(tables_view(self.tables@) =~= gtables);
            }
        }
        r
    }

    /// The names of every stored table, in stored order. Always
    /// succeeds.
    #[verifier::loop_isolation(false)]
    pub fn read_db(&self) -> (r: Result<JsonValue, DbError>)
        ensures
            r matches Ok(v) && v@ == read_db_view(self@.tables),
    {
        let ghost gtables = self@.tables;
        let ghost target = Seq::new(
            gtables.len(),
            |k: int| JsonView::Text(gtables[k].table_name),
        );
        let mut names: Vec<JsonValue> = Vec::new();
        proof {
            assert(crate::json::elems_view(names@) =~= target.subrange(0, 0));
        }
        let n = self.tables.len();
        let mut i: usize = 0;
        while i < n
            invariant
                0 <= i <= n,
                crate::json::elems_view(names@) =~= target.subrange(0, i as int),
            decreases n - i,
        {
            let ghost oldnames = names@;
            names.push(JsonValue::Text(self.tables[i].name_of().clone()));
            proof {
                crate::json::lemma_elems_view_push(oldnames, names@.last());
                assert(names@.last()@ == target[i as int]);
                assert(crate::json::elems_view(names@) =~= target.subrange(0, i as int + 1));
            }
            i += 1;
        }
        proof {
            assert(target.subrange(0, n as int) =~= target);
        }
        let arr = JsonValue::Arr(names);
        proof {
            assert(arr@ == JsonView::Arr(target));
        }
        let mut top: Vec<(String, JsonValue)> = Vec::new();
        top.push((String::from_str("tables"), arr));
        proof {
            assert(crate::json::fields_view(top@) =~= read_db_view(gtables)->Obj_0);
        }
        Ok(JsonValue::Obj(top))
    }

    /// The whole store as one snapshot value: one table snapshot per
    /// stored table, in stored order. What `save` writes out.
    #[verifier::loop_isolation(false)]
    pub fn snapshot_value(&self) -> (r: JsonValue)
        requires
            self.wf(),
        ensures
            r@ == snapshot_view(self@.tables),
    {
        let ghost gtables = self@.tables;
        let ghost target = Seq::new(gtables.len(), |k: int| read_table_view(gtables[k]));
        let mut out: Vec<JsonValue> = Vec::new();
        proof {
            assert(crate::json::elems_view(out@) =~= target.subrange(0, 0));
        }
        let n = self.tables.len();
        let mut i: usize = 0;
        while i < n
            invariant
                0 <= i <= n,
                crate::json::elems_view(out@) =~= target.subrange(0, i as int),
            decreases n - i,
        {
            let ghost oldout = out@;
            let snap = match self.tables[i].read_table() {
                Ok(v) => v,
                Err(_) => unreached(),
            };
            out.push(snap);
            proof {
                crate::json::lemma_elems_view_push(oldout, out@.last());
                assert(out@.last()@ == target[i as int]);
                assert(crate::json::elems_view(out@) =~= target.subrange(0, i as int + 1));
            }
            i += 1;
        }
        proof {
            assert(target.subrange(0, n as int) =~= target);
        }
        let r = JsonValue::Arr(out);
        proof {
            assert(r@ == JsonView::Arr(target));
        }
        r
    }
}

/// What rebuilding the table list from snapshot elements yields: each
/// element in order becomes a table, bound under its name; the first
/// rejected definition is the result.
pub open spec fn tables_from_snapshot(elems: Seq<JsonView>, acc: Seq<TableView>) -> Result<
    Seq<TableView>,
    DbErrorView,
>
    decreases elems.len(),
{
    if elems.len() == 0 {
        Ok(acc)
    } else {
        match table_new_spec(elems[0]) {
            Err(e) => Err(e),
            Ok(tv) => tables_from_snapshot(elems.skip(1), tbl_put(acc, tv)),
        }
    }
}

/// The detail string reporting a snapshot that is not an array.
pub open spec fn msg_snapshot_shape() -> Seq<char> {
    "Snapshot must be a JSON array"@
}

/// What opening a snapshot value yields: the rebuilt table list, or the
/// failure on which the caller falls back to a cold start.
pub open spec fn from_snapshot_spec(snap: JsonView) -> Result<Seq<TableView>, DbErrorView> {
    match snap {
        JsonView::Arr(elems) => tables_from_snapshot(elems, Seq::empty()),
        _ => Err(DbErrorView::BadInput(msg_snapshot_shape())),
    }
}

impl Database {
    /// Rebuilds a store from a parsed snapshot value: one table per
    /// element, bound under its name. Any rejected element fails the
    /// whole load; the caller then cold-starts instead.
    #[verifier::loop_isolation(false)]
    pub fn from_snapshot(path: String, snapshot: &JsonValue) -> (r: Result<Database, DbError>)
        ensures
            match from_snapshot_spec(snapshot@) {
                Ok(ts) => r matches Ok(d) && d@.tables == ts && d@.path == path@ && d.wf(),
                Err(e) => r matches Err(er) && er@ == e,
            },
    {
        let ghost gpath = path@;
        let elems = match snapshot.as_array() {
            None => {
                return Err(DbError::BadInput(String::from_str("Snapshot must be a JSON array")));
            },
            Some(a) => a,
        };
        let ghost gelems = snapshot@->Arr_0;
        let mut db = Database::empty(path);
        proof {
            assert(gelems.skip(0) =~= gelems);
            assert(forall|k: int| 0 <= k < gelems.len() ==> #[trigger] gelems[k] == elems@[k]@);
        }
        let n = elems.len();
        let mut i: usize = 0;
        while i < n
            invariant
                0 <= i <= n,
                n == elems.len(),
                db.wf(),
                db@.path == gpath,
                tables_from_snapshot(gelems.skip(i as int), db@.tables) == tables_from_snapshot(
                    gelems,
                    Seq::empty(),
                ),
            decreases n - i,
        {
            proof {
                assert(gelems.skip(i as int)[0] == gelems[i as int]);
                assert(gelems.skip(i as int).skip(1) =~= gelems.skip(i as int + 1));
            }
            let t = match Table::new(&elems[i]) {
                Ok(t) => t,
                Err(e) => {
                    return Err(e);
                },
            };
            db.put_table(t);
            i += 1;
        }
        proof {
            assert(gelems.skip(n as int) =~= Seq::<JsonView>::empty());
        }
        Ok(db)
    }
}


proof fn lemma_db_reload(done: Seq<TableView>, rest: Seq<TableView>)
    requires
        forall|i: int, j: int|
            0 <= i < done.len() && 0 <= j < rest.len() ==> (#[trigger] done[i]).table_name != (
            #[trigger] rest[j]).table_name,
        forall|i: int, j: int|
            0 <= i < j < rest.len() ==> rest[i].table_name != rest[j].table_name,
        forall|j: int| 0 <= j < rest.len() ==> tv_wf(#[trigger] rest[j]),
    ensures
        tables_from_snapshot(
            Seq::new(rest.len(), |i: int| read_table_view(rest[i])),
            done,
        ) == Ok::<_, DbErrorView>(done + rest),
    decreases rest.len(),
{
    let elems = Seq::new(rest.len(), |i: int| read_table_view(rest[i]));
    if rest.len() == 0 {
        assert(done + rest =~= done);
    } else {
        assert(elems[0] == read_table_view(rest[0]));
        crate::table::lemma_table_round_trip(rest[0]);
        lemma_tbl_put_missing(done, rest[0]);
        let done2 = done.push(rest[0]);
        let rest2 = rest.skip(1);
        assert(forall|k: int| 0 <= k < rest2.len() ==> #[trigger] rest2[k] == rest[k + 1]);
        lemma_db_reload(done2, rest2);
        assert(elems.skip(1) =~= Seq::new(rest2.len(), |i: int| read_table_view(rest2[i])));
        assert(done2 + rest2 =~= done + rest);
    }
}

/// Law: a store written out whole and reopened from its own snapshot is
/// recovered exactly: the same tables, under the same names, with the
/// same key descriptors and documents, in the same order.
pub proof fn lemma_snapshot_round_trip(d: DatabaseView)
    requires
        db_wf(d),
    ensures
        from_snapshot_spec(snapshot_view(d.tables)) == Ok::<_, DbErrorView>(d.tables),
{
    lemma_db_reload(Seq::empty(), d.tables);
    assert(Seq::empty() + d.tables =~= d.tables);
}

} // verus!
