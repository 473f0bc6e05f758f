use vstd::prelude::*;
use crate::errors::DbError;
use crate::errors::DbErrorView;
use crate::json::JsonValue;
use crate::json::JsonView;
use crate::json::spec_get;
use crate::json::obj_set;
use crate::json::obj_get;
use crate::keys::Key;
use crate::keys::KeyView;
use crate::keys::KeyValView;
use crate::keys::KeyDatatype;
use crate::keys::kv_lt;
use crate::keys::same_variant;
use crate::keys::canon;
use crate::keys::dt_name;
use crate::keys::spec_extract;

verus! {

/// One named collection of documents, organised by a declared partition
/// key and sort key: a list of partitions in insertion order, each
/// holding its documents sorted by sort value ascending.
pub struct Table {
    pub table_name: String,
    primary_key: Key,
    sort_key: Key,
    data: Vec<(KeyDatatype, Vec<(KeyDatatype, JsonValue)>)>,
}

/// Ghost twin of `Table`.
pub struct TableView {
    pub table_name: Seq<char>,
    pub primary_key: KeyView,
    pub sort_key: KeyView,
    pub data: Seq<(KeyValView, Seq<(KeyValView, JsonView)>)>,
}

/// The views of one partition's document rows.
pub open spec fn rows_view(rows: Seq<(KeyDatatype, JsonValue)>) -> Seq<(KeyValView, JsonView)> {
    Seq::new(rows.len(), |i: int| (rows[i].0@, rows[i].1@))
}

/// The views of a table's partition list.
pub open spec fn parts_view(parts: Seq<(KeyDatatype, Vec<(KeyDatatype, JsonValue)>)>) -> Seq<
    (KeyValView, Seq<(KeyValView, JsonView)>),
> {
    Seq::new(parts.len(), |i: int| (parts[i].0@, rows_view(parts[i].1@)))
}

impl View for Table {
    type V = TableView;

    closed spec fn view(&self) -> TableView {
        TableView {
            table_name: self.table_name@,
            primary_key: self.primary_key@,
            sort_key: self.sort_key@,
            data: parts_view(self.data@),
        }
    }
}

/// Well-formed rows of the partition holding `pval`: sort values strictly
/// ascending, all of the sort key's variant, and every document carrying
/// exactly this partition value and its own sort value under the two key
/// fields.
pub open spec fn rows_wf(
    rows: Seq<(KeyValView, JsonView)>,
    pk: KeyView,
    sk: KeyView,
    pval: KeyValView,
) -> bool {
    &&& forall|i: int, j: int| 0 <= i < j < rows.len() ==> kv_lt(rows[i].0, rows[j].0)
    &&& forall|i: int| 0 <= i < rows.len() ==> same_variant(#[trigger] rows[i].0, sk.datatype)
    &&& forall|i: int|
        0 <= i < rows.len() ==> spec_extract(pk, #[trigger] rows[i].1) == Ok::<_, DbErrorView>(
            pval,
        )
    &&& forall|i: int|
        0 <= i < rows.len() ==> spec_extract(sk, #[trigger] rows[i].1) == Ok::<_, DbErrorView>(
            rows[i].0,
        )
}

/// Well-formed table data: partition values pairwise distinct and of the
/// partition key's variant, no partition empty, and each partition's rows
/// well formed.
pub open spec fn data_wf(
    data: Seq<(KeyValView, Seq<(KeyValView, JsonView)>)>,
    pk: KeyView,
    sk: KeyView,
) -> bool {
    &&& forall|i: int, j: int| 0 <= i < j < data.len() ==> data[i].0 != data[j].0
    &&& forall|i: int| 0 <= i < data.len() ==> same_variant(#[trigger] data[i].0, pk.datatype)
    &&& forall|i: int| 0 <= i < data.len() ==> (#[trigger] data[i].1).len() > 0
    &&& forall|i: int|
        0 <= i < data.len() ==> rows_wf((#[trigger] data[i]).1, pk, sk, data[i].0)
}

/// The table invariant: parsed key descriptors carry default values, and
/// the partition data is well formed.
pub open spec fn tv_wf(t: TableView) -> bool {
    &&& t.primary_key.datatype == canon(t.primary_key.datatype)
    &&& t.sort_key.datatype == canon(t.sort_key.datatype)
    &&& data_wf(t.data, t.primary_key, t.sort_key)
}

/// A partition's rows as a map from sort value to document.
pub open spec fn rows_map(rows: Seq<(KeyValView, JsonView)>) -> Map<KeyValView, JsonView>
    decreases rows.len(),
{
    if rows.len() == 0 {
        Map::empty()
    } else {
        rows_map(rows.skip(1)).insert(rows[0].0, rows[0].1)
    }
}

/// A table's data as a map from partition value to a map of its
/// documents: what the document operations are stated over.
pub open spec fn content_of(data: Seq<(KeyValView, Seq<(KeyValView, JsonView)>)>) -> Map<
    KeyValView,
    Map<KeyValView, JsonView>,
>
    decreases data.len(),
{
    if data.len() == 0 {
        Map::empty()
    } else {
        content_of(data.skip(1)).insert(data[0].0, rows_map(data[0].1))
    }
}

/// What creating a document does to a table's content: the document is
/// bound to its sort value inside its partition, which is created empty
/// first if absent; any prior document at the same pair is replaced.
pub open spec fn create_doc_spec(
    m: Map<KeyValView, Map<KeyValView, JsonView>>,
    p: KeyValView,
    s: KeyValView,
    d: JsonView,
) -> Map<KeyValView, Map<KeyValView, JsonView>> {
    let inner = if m.contains_key(p) {
        m[p]
    } else {
        Map::empty()
    };
    m.insert(p, inner.insert(s, d))
}

/// What reading a document yields: the stored document, or the null
/// sentinel when either the partition or the sort value is absent.
pub open spec fn read_doc_spec(
    m: Map<KeyValView, Map<KeyValView, JsonView>>,
    p: KeyValView,
    s: KeyValView,
) -> JsonView {
    if m.contains_key(p) && m[p].contains_key(s) {
        m[p][s]
    } else {
        JsonView::Null
    }
}

/// What deleting a document does: the entry leaves its partition if
/// present, and a partition emptied by the deletion is dropped; absence
/// changes nothing.
pub open spec fn delete_doc_spec(
    m: Map<KeyValView, Map<KeyValView, JsonView>>,
    p: KeyValView,
    s: KeyValView,
) -> Map<KeyValView, Map<KeyValView, JsonView>> {
    if !m.contains_key(p) {
        m
    } else {
        let inner = m[p].remove(s);
        if inner.dom() =~= Set::<KeyValView>::empty() {
            m.remove(p)
        } else {
            m.insert(p, inner)
        }
    }
}

/// The object an update merges the patch into: the stored document at
/// the pair, or an empty object when none is stored (the update then
/// inserts the patch, an upsert).
pub open spec fn update_base(
    m: Map<KeyValView, Map<KeyValView, JsonView>>,
    p: KeyValView,
    s: KeyValView,
) -> JsonView {
    if m.contains_key(p) && m[p].contains_key(s) {
        m[p][s]
    } else {
        JsonView::Obj(Seq::empty())
    }
}

/// The shallow merge of a patch's top-level fields into a target object:
/// new names are appended, existing names overwritten in place, nested
/// values replaced wholesale.
pub open spec fn merge_fields(
    target: Seq<(Seq<char>, JsonView)>,
    patch: Seq<(Seq<char>, JsonView)>,
) -> Seq<(Seq<char>, JsonView)>
    decreases patch.len(),
{
    if patch.len() == 0 {
        target
    } else {
        merge_fields(obj_set(target, patch[0].0, patch[0].1), patch.skip(1))
    }
}

/// The shallow merge of two objects; a non-object leaves the target
/// unchanged.
pub open spec fn merge_doc(target: JsonView, patch: JsonView) -> JsonView {
    match (target, patch) {
        (JsonView::Obj(t), JsonView::Obj(p)) => JsonView::Obj(merge_fields(t, p)),
        _ => target,
    }
}

/// What updating a document does to a table's content: the patch is
/// merged into the stored document at the pair (or into an empty object
/// when none is stored) and the result replaces it.
pub open spec fn update_doc_spec(
    m: Map<KeyValView, Map<KeyValView, JsonView>>,
    p: KeyValView,
    s: KeyValView,
    patch: JsonView,
) -> Map<KeyValView, Map<KeyValView, JsonView>> {
    create_doc_spec(m, p, s, merge_doc(update_base(m, p, s), patch))
}

/// Extraction of the partition and sort values from a payload, partition
/// key first: the pair, or the first extraction error.
pub open spec fn extract_pair(pk: KeyView, sk: KeyView, doc: JsonView) -> Result<
    (KeyValView, KeyValView),
    DbErrorView,
> {
    match spec_extract(pk, doc) {
        Err(e) => Err(e),
        Ok(p) => match spec_extract(sk, doc) {
            Err(e) => Err(e),
            Ok(s) => Ok((p, s)),
        },
    }
}


/// A partition's rows with the document `d` bound to sort value `s`:
/// inserted at its place in ascending order, replacing any prior row of
/// the same sort value.
pub open spec fn rows_insert(
    rows: Seq<(KeyValView, JsonView)>,
    s: KeyValView,
    d: JsonView,
) -> Seq<(KeyValView, JsonView)>
    decreases rows.len(),
{
    if rows.len() == 0 {
        seq![(s, d)]
    } else if kv_lt(s, rows[0].0) {
        seq![(s, d)] + rows
    } else if s == rows[0].0 {
        seq![(s, d)] + rows.skip(1)
    } else {
        seq![rows[0]] + rows_insert(rows.skip(1), s, d)
    }
}

/// A partition's rows without the first row of sort value `s`, if any.
pub open spec fn rows_remove(rows: Seq<(KeyValView, JsonView)>, s: KeyValView) -> Seq<
    (KeyValView, JsonView),
>
    decreases rows.len(),
{
    if rows.len() == 0 {
        rows
    } else if s == rows[0].0 {
        rows.skip(1)
    } else {
        seq![rows[0]] + rows_remove(rows.skip(1), s)
    }
}

/// A table's partitions with document `d` bound to `(p, s)`: the
/// partition of value `p` gains the row in place, or is appended, new,
/// at the end of the partition list.
pub open spec fn data_insert(
    data: Seq<(KeyValView, Seq<(KeyValView, JsonView)>)>,
    p: KeyValView,
    s: KeyValView,
    d: JsonView,
) -> Seq<(KeyValView, Seq<(KeyValView, JsonView)>)>
    decreases data.len(),
{
    if data.len() == 0 {
        seq![(p, seq![(s, d)])]
    } else if data[0].0 == p {
        seq![(p, rows_insert(data[0].1, s, d))] + data.skip(1)
    } else {
        seq![data[0]] + data_insert(data.skip(1), p, s, d)
    }
}

/// A table's partitions without the row at `(p, s)`; a partition the
/// removal empties is dropped.
pub open spec fn data_delete(
    data: Seq<(KeyValView, Seq<(KeyValView, JsonView)>)>,
    p: KeyValView,
    s: KeyValView,
) -> Seq<(KeyValView, Seq<(KeyValView, JsonView)>)>
    decreases data.len(),
{
    if data.len() == 0 {
        data
    } else if data[0].0 == p {
        let rest = rows_remove(data[0].1, s);
        if rest.len() == 0 {
            data.skip(1)
        } else {
            seq![(p, rest)] + data.skip(1)
        }
    } else {
        seq![data[0]] + data_delete(data.skip(1), p, s)
    }
}

/// Pairwise-distinct row keys.
pub open spec fn rows_unique(rows: Seq<(KeyValView, JsonView)>) -> bool {
    forall|i: int, j: int| 0 <= i < j < rows.len() ==> rows[i].0 != rows[j].0
}

pub proof fn lemma_sorted_rows_unique(rows: Seq<(KeyValView, JsonView)>)
    requires
        forall|i: int, j: int| 0 <= i < j < rows.len() ==> kv_lt(rows[i].0, rows[j].0),
    ensures
        rows_unique(rows),
{
    assert forall|i: int, j: int| 0 <= i < j < rows.len() implies rows[i].0 != rows[j].0 by {
        crate::keys::lemma_kv_lt_asym(rows[i].0, rows[j].0);
    }
}

pub proof fn lemma_rows_map_absent(rows: Seq<(KeyValView, JsonView)>, s: KeyValView)
    requires
        forall|i: int| 0 <= i < rows.len() ==> (#[trigger] rows[i]).0 != s,
    ensures
        !rows_map(rows).contains_key(s),
    decreases rows.len(),
{
    if rows.len() > 0 {
        lemma_rows_map_absent(rows.skip(1), s);
    }
}

pub proof fn lemma_rows_map_index(rows: Seq<(KeyValView, JsonView)>, j: int)
    requires
        rows_unique(rows),
        0 <= j < rows.len(),
    ensures
        rows_map(rows).contains_key(rows[j].0),
        rows_map(rows)[rows[j].0] == rows[j].1,
    decreases rows.len(),
{
    if j > 0 {
        lemma_rows_map_index(rows.skip(1), j - 1);
    }
}

pub proof fn lemma_content_absent(
    data: Seq<(KeyValView, Seq<(KeyValView, JsonView)>)>,
    p: KeyValView,
)
    requires
        forall|i: int| 0 <= i < data.len() ==> (#[trigger] data[i]).0 != p,
    ensures
        !content_of(data).contains_key(p),
    decreases data.len(),
{
    if data.len() > 0 {
        lemma_content_absent(data.skip(1), p);
    }
}

pub proof fn lemma_content_index(data: Seq<(KeyValView, Seq<(KeyValView, JsonView)>)>, j: int)
    requires
        forall|i: int, k: int| 0 <= i < k < data.len() ==> data[i].0 != data[k].0,
        0 <= j < data.len(),
    ensures
        content_of(data).contains_key(data[j].0),
        content_of(data)[data[j].0] == rows_map(data[j].1),
    decreases data.len(),
{
    if j > 0 {
        lemma_content_index(data.skip(1), j - 1);
    }
}


pub proof fn lemma_rows_map_empty()
    ensures
        rows_map(Seq::<(KeyValView, JsonView)>::empty()) == Map::<KeyValView, JsonView>::empty(),
{
}

pub proof fn lemma_content_empty()
    ensures
        content_of(Seq::<(KeyValView, Seq<(KeyValView, JsonView)>)>::empty()) == Map::<
            KeyValView,
            Map<KeyValView, JsonView>,
        >::empty(),
{
}

pub proof fn lemma_rows_insert_map(rows: Seq<(KeyValView, JsonView)>, s: KeyValView, d: JsonView)
    requires
        rows_unique(rows),
    ensures
        rows_map(rows_insert(rows, s, d)) == rows_map(rows).insert(s, d),
    decreases rows.len(),
{
    if rows.len() == 0 {
        assert(seq![(s, d)].skip(1) =~= Seq::<(KeyValView, JsonView)>::empty());
        lemma_rows_map_empty();
        assert(rows =~= Seq::<(KeyValView, JsonView)>::empty());
        assert(rows_map(rows_insert(rows, s, d)) =~= rows_map(rows).insert(s, d));
    } else if kv_lt(s, rows[0].0) {
        let r = seq![(s, d)] + rows;
        assert(r.skip(1) =~= rows);
        assert(r[0] == (s, d));
        assert(rows_map(r) == rows_map(rows).insert(s, d));
        assert(rows_map(rows_insert(rows, s, d)) =~= rows_map(rows).insert(s, d));
    } else if s == rows[0].0 {
        let r = seq![(s, d)] + rows.skip(1);
        assert(r.skip(1) =~= rows.skip(1));
        assert(r[0] == (s, d));
        assert(rows_map(r) == rows_map(rows.skip(1)).insert(s, d));
        assert(rows_map(rows_insert(rows, s, d)) =~= rows_map(rows).insert(s, d));
    } else {
        let tail = rows.skip(1);
        assert(rows_unique(tail)) by {
            assert(forall|i: int, j: int|
                0 <= i < j < tail.len() ==> tail[i] == rows[i + 1] && tail[j] == rows[j + 1]);
        }
        lemma_rows_insert_map(tail, s, d);
        let r = seq![rows[0]] + rows_insert(tail, s, d);
        assert(r.skip(1) =~= rows_insert(tail, s, d));
        assert(rows_map(rows_insert(rows, s, d)) =~= rows_map(rows).insert(s, d));
    }
}

pub proof fn lemma_rows_remove_map(rows: Seq<(KeyValView, JsonView)>, s: KeyValView)
    requires
        rows_unique(rows),
    ensures
        rows_map(rows_remove(rows, s)) == rows_map(rows).remove(s),
    decreases rows.len(),
{
    if rows.len() == 0 {
        assert(rows_map(rows_remove(rows, s)) =~= rows_map(rows).remove(s));
    } else if s == rows[0].0 {
        assert(forall|i: int|
            0 <= i < rows.skip(1).len() ==> (#[trigger] rows.skip(1)[i]).0 == rows[i + 1].0);
        lemma_rows_map_absent(rows.skip(1), s);
        assert(rows_map(rows_remove(rows, s)) =~= rows_map(rows).remove(s));
    } else {
        let tail = rows.skip(1);
        assert(rows_unique(tail)) by {
            assert(forall|i: int, j: int|
                0 <= i < j < tail.len() ==> tail[i] == rows[i + 1] && tail[j] == rows[j + 1]);
        }
        lemma_rows_remove_map(tail, s);
        let r = seq![rows[0]] + rows_remove(tail, s);
        assert(r.skip(1) =~= rows_remove(tail, s));
        assert(rows_map(rows_remove(rows, s)) =~= rows_map(rows).remove(s));
    }
}

/// Distinct partition values, stated of the raw partition list.
pub open spec fn parts_unique(data: Seq<(KeyValView, Seq<(KeyValView, JsonView)>)>) -> bool {
    forall|i: int, j: int| 0 <= i < j < data.len() ==> data[i].0 != data[j].0
}

/// Every partition's row keys are distinct.
pub open spec fn all_rows_unique(data: Seq<(KeyValView, Seq<(KeyValView, JsonView)>)>) -> bool {
    forall|i: int| 0 <= i < data.len() ==> rows_unique((#[trigger] data[i]).1)
}

pub proof fn lemma_data_insert_content(
    data: Seq<(KeyValView, Seq<(KeyValView, JsonView)>)>,
    p: KeyValView,
    s: KeyValView,
    d: JsonView,
)
    requires
        parts_unique(data),
        all_rows_unique(data),
    ensures
        content_of(data_insert(data, p, s, d)) == create_doc_spec(content_of(data), p, s, d),
    decreases data.len(),
{
    if data.len() == 0 {
        assert(seq![(p, seq![(s, d)])].skip(1) =~= Seq::<
            (KeyValView, Seq<(KeyValView, JsonView)>),
        >::empty());
        assert(seq![(s, d)].skip(1) =~= Seq::<(KeyValView, JsonView)>::empty());
        assert(seq![(s, d)][0] == (s, d));
        assert(seq![(s, d)].len() == 1);
        lemma_rows_map_empty();
        lemma_content_empty();
        assert(data =~= Seq::<(KeyValView, Seq<(KeyValView, JsonView)>)>::empty());
        assert(seq![(p, seq![(s, d)])].skip(1) =~= Seq::<(KeyValView, Seq<(KeyValView, JsonView)>)>::empty());
        assert(rows_map(seq![(s, d)]) =~= Map::<KeyValView, JsonView>::empty().insert(s, d));
        let single = seq![(p, seq![(s, d)])];
        assert(single[0] == (p, seq![(s, d)]));
        assert(single.len() == 1);
        assert(content_of(single) == content_of(single.skip(1)).insert(p, rows_map(seq![(s, d)])));
        assert(content_of(data_insert(data, p, s, d)) =~= create_doc_spec(
            content_of(data),
            p,
            s,
            d,
        ));
    } else if data[0].0 == p {
        let r = seq![(p, rows_insert(data[0].1, s, d))] + data.skip(1);
        assert(r.skip(1) =~= data.skip(1));
        lemma_rows_insert_map(data[0].1, s, d);
        assert(content_of(data)[p] == rows_map(data[0].1));
        assert(content_of(data_insert(data, p, s, d)) =~= create_doc_spec(
            content_of(data),
            p,
            s,
            d,
        ));
    } else {
        let tail = data.skip(1);
        assert(forall|i: int| 0 <= i < tail.len() ==> #[trigger] tail[i] == data[i + 1]);
        lemma_data_insert_content(tail, p, s, d);
        let r = seq![data[0]] + data_insert(tail, p, s, d);
        assert(r.skip(1) =~= data_insert(tail, p, s, d));
        assert(content_of(data_insert(data, p, s, d)) =~= create_doc_spec(
            content_of(data),
            p,
            s,
            d,
        ));
    }
}

pub proof fn lemma_data_delete_content(
    data: Seq<(KeyValView, Seq<(KeyValView, JsonView)>)>,
    p: KeyValView,
    s: KeyValView,
)
    requires
        parts_unique(data),
        all_rows_unique(data),
    ensures
        content_of(data_delete(data, p, s)) == delete_doc_spec(content_of(data), p, s),
    decreases data.len(),
{
    if data.len() == 0 {
        lemma_content_absent(data, p);
        assert(content_of(data_delete(data, p, s)) =~= delete_doc_spec(content_of(data), p, s));
    } else if data[0].0 == p {
        let rest = rows_remove(data[0].1, s);
        lemma_rows_remove_map(data[0].1, s);
        assert(content_of(data)[p] == rows_map(data[0].1));
        assert(forall|i: int|
            0 <= i < data.skip(1).len() ==> (#[trigger] data.skip(1)[i]).0 == data[i + 1].0);
        lemma_content_absent(data.skip(1), p);
        if rest.len() == 0 {
            assert(rows_map(rest).dom() =~= Set::<KeyValView>::empty());
            assert(content_of(data_delete(data, p, s)) =~= delete_doc_spec(
                content_of(data),
                p,
                s,
            ));
        } else {
            assert(rows_unique(rest)) by {
                lemma_rows_remove_unique(data[0].1, s);
            }
            lemma_rows_map_index(rest, 0);
            assert(rows_map(rest).contains_key(rest[0].0));
            assert(!(rows_map(rest).dom() =~= Set::<KeyValView>::empty()));
            let r = seq![(p, rest)] + data.skip(1);
            assert(r.skip(1) =~= data.skip(1));
            assert(content_of(data_delete(data, p, s)) =~= delete_doc_spec(
                content_of(data),
                p,
                s,
            ));
        }
    } else {
        let tail = data.skip(1);
        assert(forall|i: int| 0 <= i < tail.len() ==> #[trigger] tail[i] == data[i + 1]);
        lemma_data_delete_content(tail, p, s);
        let r = seq![data[0]] + data_delete(tail, p, s);
        assert(r.skip(1) =~= data_delete(tail, p, s));
        assert(content_of(data_delete(data, p, s)) =~= delete_doc_spec(content_of(data), p, s));
    }
}

pub proof fn lemma_rows_remove_unique(rows: Seq<(KeyValView, JsonView)>, s: KeyValView)
    requires
        rows_unique(rows),
    ensures
        rows_unique(rows_remove(rows, s)),
    decreases rows.len(),
{
    if rows.len() == 0 {
    } else if s == rows[0].0 {
        assert(forall|i: int|
            0 <= i < rows.skip(1).len() ==> #[trigger] rows.skip(1)[i] == rows[i + 1]);
    } else {
        let tail = rows.skip(1);
        assert(forall|i: int| 0 <= i < tail.len() ==> #[trigger] tail[i] == rows[i + 1]);
        lemma_rows_remove_unique(tail, s);
        lemma_rows_remove_keys(tail, s);
        let r = seq![rows[0]] + rows_remove(tail, s);
        assert(forall|i: int|
            1 <= i < r.len() ==> #[trigger] r[i] == rows_remove(tail, s)[i - 1]);
    }
}

/// Removal introduces no new row key.
pub proof fn lemma_rows_remove_keys(rows: Seq<(KeyValView, JsonView)>, s: KeyValView)
    ensures
        forall|k: int|
            0 <= k < rows_remove(rows, s).len() ==> exists|i: int|
                0 <= i < rows.len() && #[trigger] rows_remove(rows, s)[k] == rows[i],
    decreases rows.len(),
{
    if rows.len() == 0 {
    } else if s == rows[0].0 {
        assert(forall|k: int|
            0 <= k < rows.skip(1).len() ==> #[trigger] rows.skip(1)[k] == rows[k + 1]);
    } else {
        let tail = rows.skip(1);
        lemma_rows_remove_keys(tail, s);
        let r = seq![rows[0]] + rows_remove(tail, s);
        assert forall|k: int| 0 <= k < r.len() implies exists|i: int|
            0 <= i < rows.len() && #[trigger] r[k] == rows[i] by {
            if k == 0 {
                assert(r[0] == rows[0]);
            } else {
                assert(r[k] == rows_remove(tail, s)[k - 1]);
                let i = choose|i: int|
                    0 <= i < tail.len() && #[trigger] rows_remove(tail, s)[k - 1] == tail[i];
                assert(tail[i] == rows[i + 1]);
            }
        }
    }
}


pub proof fn lemma_rows_insert_lower_bound(
    rows: Seq<(KeyValView, JsonView)>,
    s: KeyValView,
    d: JsonView,
    x: KeyValView,
)
    requires
        kv_lt(x, s),
        forall|i: int| 0 <= i < rows.len() ==> kv_lt(x, (#[trigger] rows[i]).0),
    ensures
        forall|k: int|
            0 <= k < rows_insert(rows, s, d).len() ==> kv_lt(
                x,
                (#[trigger] rows_insert(rows, s, d)[k]).0,
            ),
    decreases rows.len(),
{
    if rows.len() == 0 {
    } else if kv_lt(s, rows[0].0) {
    } else if s == rows[0].0 {
        assert(forall|k: int|
            1 <= k < rows_insert(rows, s, d).len() ==> rows_insert(rows, s, d)[k]
                == rows.skip(1)[k - 1]);
    } else {
        let tail = rows.skip(1);
        assert(forall|i: int| 0 <= i < tail.len() ==> #[trigger] tail[i] == rows[i + 1]);
        lemma_rows_insert_lower_bound(tail, s, d, x);
        assert(forall|k: int|
            1 <= k < rows_insert(rows, s, d).len() ==> rows_insert(rows, s, d)[k]
                == rows_insert(tail, s, d)[k - 1]);
    }
}

pub proof fn lemma_rows_insert_wf(
    rows: Seq<(KeyValView, JsonView)>,
    pk: KeyView,
    sk: KeyView,
    pval: KeyValView,
    s: KeyValView,
    d: JsonView,
)
    requires
        rows_wf(rows, pk, sk, pval),
        same_variant(s, sk.datatype),
        spec_extract(pk, d) == Ok::<_, DbErrorView>(pval),
        spec_extract(sk, d) == Ok::<_, DbErrorView>(s),
    ensures
        rows_wf(rows_insert(rows, s, d), pk, sk, pval),
        rows_insert(rows, s, d).len() > 0,
    decreases rows.len(),
{
    if rows.len() == 0 {
    } else if kv_lt(s, rows[0].0) {
        let r = seq![(s, d)] + rows;
        assert(forall|k: int| 1 <= k < r.len() ==> #[trigger] r[k] == rows[k - 1]);
        assert forall|i: int, j: int| 0 <= i < j < r.len() implies kv_lt(r[i].0, r[j].0) by {
            if i == 0 && j > 1 {
                crate::keys::lemma_kv_lt_trans(s, rows[0].0, rows[j - 1].0);
            }
        }
    } else if s == rows[0].0 {
        let r = seq![(s, d)] + rows.skip(1);
        assert(forall|k: int| 1 <= k < r.len() ==> #[trigger] r[k] == rows[k]);
    } else {
        let h = rows[0];
        let tail = rows.skip(1);
        assert(forall|i: int| 0 <= i < tail.len() ==> #[trigger] tail[i] == rows[i + 1]);
        crate::keys::lemma_kv_trichotomy(s, h.0);
        assert(kv_lt(h.0, s));
        lemma_rows_insert_wf(tail, pk, sk, pval, s, d);
        lemma_rows_insert_lower_bound(tail, s, d, h.0);
        let r = seq![h] + rows_insert(tail, s, d);
        assert(forall|k: int| 1 <= k < r.len() ==> #[trigger] r[k] == rows_insert(tail, s, d)[k
            - 1]);
    }
}

pub proof fn lemma_rows_remove_wf(
    rows: Seq<(KeyValView, JsonView)>,
    pk: KeyView,
    sk: KeyView,
    pval: KeyValView,
    s: KeyValView,
)
    requires
        rows_wf(rows, pk, sk, pval),
    ensures
        rows_wf(rows_remove(rows, s), pk, sk, pval),
    decreases rows.len(),
{
    if rows.len() == 0 {
    } else if s == rows[0].0 {
        assert(forall|k: int|
            0 <= k < rows.skip(1).len() ==> #[trigger] rows.skip(1)[k] == rows[k + 1]);
    } else {
        let h = rows[0];
        let tail = rows.skip(1);
        assert(forall|i: int| 0 <= i < tail.len() ==> #[trigger] tail[i] == rows[i + 1]);
        lemma_rows_remove_wf(tail, pk, sk, pval, s);
        lemma_rows_remove_keys(tail, s);
        let rr = rows_remove(tail, s);
        let r = seq![h] + rr;
        assert(forall|k: int| 1 <= k < r.len() ==> #[trigger] r[k] == rr[k - 1]);
        assert forall|i: int, j: int| 0 <= i < j < r.len() implies kv_lt(r[i].0, r[j].0) by {
            if i == 0 {
                let w = choose|w: int| 0 <= w < tail.len() && #[trigger] rr[j - 1] == tail[w];
                assert(kv_lt(h.0, tail[w].0));
            }
        }
    }
}

pub proof fn lemma_data_insert_not_introduced(
    data: Seq<(KeyValView, Seq<(KeyValView, JsonView)>)>,
    p: KeyValView,
    s: KeyValView,
    d: JsonView,
    x: KeyValView,
)
    requires
        x != p,
        forall|i: int| 0 <= i < data.len() ==> (#[trigger] data[i]).0 != x,
    ensures
        forall|k: int|
            0 <= k < data_insert(data, p, s, d).len() ==> (#[trigger] data_insert(
                data,
                p,
                s,
                d,
            )[k]).0 != x,
    decreases data.len(),
{
    if data.len() == 0 {
    } else if data[0].0 == p {
        assert(forall|k: int|
            1 <= k < data_insert(data, p, s, d).len() ==> data_insert(data, p, s, d)[k]
                == data.skip(1)[k - 1]);
    } else {
        let tail = data.skip(1);
        assert(forall|i: int| 0 <= i < tail.len() ==> #[trigger] tail[i] == data[i + 1]);
        lemma_data_insert_not_introduced(tail, p, s, d, x);
        assert(forall|k: int|
            1 <= k < data_insert(data, p, s, d).len() ==> data_insert(data, p, s, d)[k]
                == data_insert(tail, p, s, d)[k - 1]);
    }
}

pub proof fn lemma_data_insert_wf(
    data: Seq<(KeyValView, Seq<(KeyValView, JsonView)>)>,
    pk: KeyView,
    sk: KeyView,
    p: KeyValView,
    s: KeyValView,
    d: JsonView,
)
    requires
        data_wf(data, pk, sk),
        same_variant(p, pk.datatype),
        same_variant(s, sk.datatype),
        spec_extract(pk, d) == Ok::<_, DbErrorView>(p),
        spec_extract(sk, d) == Ok::<_, DbErrorView>(s),
    ensures
        data_wf(data_insert(data, p, s, d), pk, sk),
    decreases data.len(),
{
    if data.len() == 0 {
        let single = seq![(s, d)];
        assert(rows_wf(single, pk, sk, p));
        assert(data_insert(data, p, s, d) == seq![(p, single)]);
    } else if data[0].0 == p {
        lemma_rows_insert_wf(data[0].1, pk, sk, p, s, d);
        let r = seq![(p, rows_insert(data[0].1, s, d))] + data.skip(1);
        assert(forall|k: int| 1 <= k < r.len() ==> #[trigger] r[k] == data[k]);
    } else {
        let tail = data.skip(1);
        assert(forall|i: int| 0 <= i < tail.len() ==> #[trigger] tail[i] == data[i + 1]);
        lemma_data_insert_wf(tail, pk, sk, p, s, d);
        lemma_data_insert_not_introduced(tail, p, s, d, data[0].0);
        let r = seq![data[0]] + data_insert(tail, p, s, d);
        assert(forall|k: int| 1 <= k < r.len() ==> #[trigger] r[k] == data_insert(tail, p, s, d)[k
            - 1]);
    }
}

pub proof fn lemma_data_delete_not_introduced(
    data: Seq<(KeyValView, Seq<(KeyValView, JsonView)>)>,
    p: KeyValView,
    s: KeyValView,
    x: KeyValView,
)
    requires
        forall|i: int| 0 <= i < data.len() ==> (#[trigger] data[i]).0 != x,
    ensures
        forall|k: int|
            0 <= k < data_delete(data, p, s).len() ==> (#[trigger] data_delete(data, p, s)[k]).0
                != x,
    decreases data.len(),
{
    if data.len() == 0 {
    } else if data[0].0 == p {
        assert(forall|k: int|
            0 <= k < data.skip(1).len() ==> #[trigger] data.skip(1)[k] == data[k + 1]);
        let rest = rows_remove(data[0].1, s);
        if rest.len() > 0 {
            assert(forall|k: int|
                1 <= k < data_delete(data, p, s).len() ==> data_delete(data, p, s)[k]
                    == data.skip(1)[k - 1]);
        }
    } else {
        let tail = data.skip(1);
        assert(forall|i: int| 0 <= i < tail.len() ==> #[trigger] tail[i] == data[i + 1]);
        lemma_data_delete_not_introduced(tail, p, s, x);
        assert(forall|k: int|
            1 <= k < data_delete(data, p, s).len() ==> data_delete(data, p, s)[k]
                == data_delete(tail, p, s)[k - 1]);
    }
}

pub proof fn lemma_data_delete_wf(
    data: Seq<(KeyValView, Seq<(KeyValView, JsonView)>)>,
    pk: KeyView,
    sk: KeyView,
    p: KeyValView,
    s: KeyValView,
)
    requires
        data_wf(data, pk, sk),
    ensures
        data_wf(data_delete(data, p, s), pk, sk),
    decreases data.len(),
{
    if data.len() == 0 {
    } else if data[0].0 == p {
        assert(forall|k: int|
            0 <= k < data.skip(1).len() ==> #[trigger] data.skip(1)[k] == data[k + 1]);
        let rest = rows_remove(data[0].1, s);
        lemma_rows_remove_wf(data[0].1, pk, sk, p, s);
        if rest.len() > 0 {
            let r = seq![(p, rest)] + data.skip(1);
            assert(forall|k: int| 1 <= k < r.len() ==> #[trigger] r[k] == data[k]);
        }
    } else {
        let tail = data.skip(1);
        assert(forall|i: int| 0 <= i < tail.len() ==> #[trigger] tail[i] == data[i + 1]);
        lemma_data_delete_wf(tail, pk, sk, p, s);
        lemma_data_delete_not_introduced(tail, p, s, data[0].0);
        let r = seq![data[0]] + data_delete(tail, p, s);
        assert(forall|k: int| 1 <= k < r.len() ==> #[trigger] r[k] == data_delete(tail, p, s)[k
            - 1]);
    }
}


pub proof fn lemma_rows_insert_prefix(
    rows: Seq<(KeyValView, JsonView)>,
    s: KeyValView,
    d: JsonView,
    j: int,
)
    requires
        0 <= j <= rows.len(),
        forall|k: int| 0 <= k < j ==> kv_lt((#[trigger] rows[k]).0, s),
    ensures
        rows_insert(rows, s, d) == rows.subrange(0, j) + rows_insert(rows.skip(j), s, d),
    decreases j,
{
    if j == 0 {
        assert(rows.skip(0) =~= rows);
        assert(rows.subrange(0, 0) + rows_insert(rows, s, d) =~= rows_insert(rows, s, d));
    } else {
        crate::keys::lemma_kv_lt_asym(rows[0].0, s);
        let tail = rows.skip(1);
        assert(forall|k: int| 0 <= k < tail.len() ==> #[trigger] tail[k] == rows[k + 1]);
        lemma_rows_insert_prefix(tail, s, d, j - 1);
        assert(tail.skip(j - 1) =~= rows.skip(j));
        assert(seq![rows[0]] + (tail.subrange(0, j - 1) + rows_insert(rows.skip(j), s, d))
            =~= rows.subrange(0, j) + rows_insert(rows.skip(j), s, d));
    }
}

/// Inserting a sort value greater than every stored one appends the row.
pub proof fn lemma_rows_insert_end(rows: Seq<(KeyValView, JsonView)>, s: KeyValView, d: JsonView)
    requires
        forall|k: int| 0 <= k < rows.len() ==> kv_lt((#[trigger] rows[k]).0, s),
    ensures
        rows_insert(rows, s, d) == rows.push((s, d)),
    decreases rows.len(),
{
    lemma_rows_insert_prefix(rows, s, d, rows.len() as int);
    assert(rows.skip(rows.len() as int) =~= Seq::<(KeyValView, JsonView)>::empty());
    assert(rows.subrange(0, rows.len() as int) + rows_insert(
        Seq::<(KeyValView, JsonView)>::empty(),
        s,
        d,
    ) =~= rows.push((s, d)));
}

/// Inserting an already-stored sort value replaces its row in place.
pub proof fn lemma_rows_insert_replace(
    rows: Seq<(KeyValView, JsonView)>,
    s: KeyValView,
    d: JsonView,
    j: int,
)
    requires
        0 <= j < rows.len(),
        forall|k: int| 0 <= k < j ==> kv_lt((#[trigger] rows[k]).0, s),
        rows[j].0 == s,
    ensures
        rows_insert(rows, s, d) == rows.update(j, (s, d)),
{
    lemma_rows_insert_prefix(rows, s, d, j);
    let tail = rows.skip(j);
    assert(tail[0] == rows[j]);
    crate::keys::lemma_kv_lt_irrefl(s);
    assert(rows_insert(tail, s, d) == seq![(s, d)] + tail.skip(1));
    assert(rows.subrange(0, j) + (seq![(s, d)] + tail.skip(1)) =~= rows.update(j, (s, d)));
}

/// Inserting a sort value below the row at `j` (and above all before it)
/// places the new row at `j`.
pub proof fn lemma_rows_insert_before(
    rows: Seq<(KeyValView, JsonView)>,
    s: KeyValView,
    d: JsonView,
    j: int,
)
    requires
        0 <= j < rows.len(),
        forall|k: int| 0 <= k < j ==> kv_lt((#[trigger] rows[k]).0, s),
        kv_lt(s, rows[j].0),
    ensures
        rows_insert(rows, s, d) == rows.insert(j, (s, d)),
{
    lemma_rows_insert_prefix(rows, s, d, j);
    let tail = rows.skip(j);
    assert(tail[0] == rows[j]);
    assert(rows_insert(tail, s, d) == seq![(s, d)] + tail);
    assert(rows.subrange(0, j) + (seq![(s, d)] + tail) =~= rows.insert(j, (s, d)));
}

pub proof fn lemma_rows_remove_found(rows: Seq<(KeyValView, JsonView)>, s: KeyValView, j: int)
    requires
        0 <= j < rows.len(),
        forall|k: int| 0 <= k < j ==> (#[trigger] rows[k]).0 != s,
        rows[j].0 == s,
    ensures
        rows_remove(rows, s) == rows.remove(j),
    decreases j,
{
    if j == 0 {
        assert(rows.skip(1) =~= rows.remove(0));
    } else {
        let tail = rows.skip(1);
        assert(forall|k: int| 0 <= k < tail.len() ==> #[trigger] tail[k] == rows[k + 1]);
        lemma_rows_remove_found(tail, s, j - 1);
        assert(seq![rows[0]] + tail.remove(j - 1) =~= rows.remove(j));
    }
}

pub proof fn lemma_rows_remove_missing(rows: Seq<(KeyValView, JsonView)>, s: KeyValView)
    requires
        forall|k: int| 0 <= k < rows.len() ==> (#[trigger] rows[k]).0 != s,
    ensures
        rows_remove(rows, s) == rows,
    decreases rows.len(),
{
    if rows.len() > 0 {
        let tail = rows.skip(1);
        assert(forall|k: int| 0 <= k < tail.len() ==> #[trigger] tail[k] == rows[k + 1]);
        lemma_rows_remove_missing(tail, s);
        assert(seq![rows[0]] + tail =~= rows);
    }
}

pub proof fn lemma_data_insert_found(
    data: Seq<(KeyValView, Seq<(KeyValView, JsonView)>)>,
    p: KeyValView,
    s: KeyValView,
    d: JsonView,
    i: int,
)
    requires
        0 <= i < data.len(),
        forall|k: int| 0 <= k < i ==> (#[trigger] data[k]).0 != p,
        data[i].0 == p,
    ensures
        data_insert(data, p, s, d) == data.update(i, (p, rows_insert(data[i].1, s, d))),
    decreases i,
{
    if i == 0 {
        assert(seq![(p, rows_insert(data[0].1, s, d))] + data.skip(1) =~= data.update(
            0,
            (p, rows_insert(data[0].1, s, d)),
        ));
    } else {
        let tail = data.skip(1);
        assert(forall|k: int| 0 <= k < tail.len() ==> #[trigger] tail[k] == data[k + 1]);
        lemma_data_insert_found(tail, p, s, d, i - 1);
        assert(seq![data[0]] + tail.update(i - 1, (p, rows_insert(data[i].1, s, d)))
            =~= data.update(i, (p, rows_insert(data[i].1, s, d))));
    }
}

pub proof fn lemma_data_insert_new(
    data: Seq<(KeyValView, Seq<(KeyValView, JsonView)>)>,
    p: KeyValView,
    s: KeyValView,
    d: JsonView,
)
    requires
        forall|k: int| 0 <= k < data.len() ==> (#[trigger] data[k]).0 != p,
    ensures
        data_insert(data, p, s, d) == data.push((p, seq![(s, d)])),
    decreases data.len(),
{
    if data.len() == 0 {
        assert(seq![(p, seq![(s, d)])] =~= data.push((p, seq![(s, d)])));
    } else {
        let tail = data.skip(1);
        assert(forall|k: int| 0 <= k < tail.len() ==> #[trigger] tail[k] == data[k + 1]);
        lemma_data_insert_new(tail, p, s, d);
        assert(seq![data[0]] + tail.push((p, seq![(s, d)])) =~= data.push((p, seq![(s, d)])));
    }
}

pub proof fn lemma_data_delete_found(
    data: Seq<(KeyValView, Seq<(KeyValView, JsonView)>)>,
    p: KeyValView,
    s: KeyValView,
    i: int,
)
    requires
        0 <= i < data.len(),
        forall|k: int| 0 <= k < i ==> (#[trigger] data[k]).0 != p,
        data[i].0 == p,
    ensures
        data_delete(data, p, s) == if rows_remove(data[i].1, s).len() == 0 {
            data.remove(i)
        } else {
            data.update(i, (p, rows_remove(data[i].1, s)))
        },
    decreases i,
{
    if i == 0 {
        let rest = rows_remove(data[0].1, s);
        if rest.len() == 0 {
            assert(data.skip(1) =~= data.remove(0));
        } else {
            assert(seq![(p, rest)] + data.skip(1) =~= data.update(0, (p, rest)));
        }
    } else {
        let tail = data.skip(1);
        assert(forall|k: int| 0 <= k < tail.len() ==> #[trigger] tail[k] == data[k + 1]);
        lemma_data_delete_found(tail, p, s, i - 1);
        let rest = rows_remove(data[i].1, s);
        if rest.len() == 0 {
            assert(seq![data[0]] + tail.remove(i - 1) =~= data.remove(i));
        } else {
            assert(seq![data[0]] + tail.update(i - 1, (p, rest)) =~= data.update(i, (p, rest)));
        }
    }
}

pub proof fn lemma_data_delete_missing(
    data: Seq<(KeyValView, Seq<(KeyValView, JsonView)>)>,
    p: KeyValView,
    s: KeyValView,
)
    requires
        forall|k: int| 0 <= k < data.len() ==> (#[trigger] data[k]).0 != p,
    ensures
        data_delete(data, p, s) == data,
    decreases data.len(),
{
    if data.len() > 0 {
        let tail = data.skip(1);
        assert(forall|k: int| 0 <= k < tail.len() ==> #[trigger] tail[k] == data[k + 1]);
        lemma_data_delete_missing(tail, p, s);
        assert(seq![data[0]] + tail =~= data);
    }
}


/// The JSON descriptor of a key, as `key_desc_view` describes it.
fn key_descriptor(k: &Key) -> (r: JsonValue)
    ensures
        r@ == key_desc_view(k@),
{
    let mut fields: Vec<(String, JsonValue)> = Vec::new();
    fields.push((String::from_str("name"), JsonValue::Text(k.name.clone())));
    fields.push((String::from_str("datatype"), JsonValue::Text(k.datatype.to_str().to_owned())));
    proof {
        assert(crate::json::fields_view(fields@) =~= key_desc_view(k@)->Obj_0);
    }
    let r = JsonValue::Obj(fields);
    r
}

impl Table {
    /// The table invariant, at the view level.
    pub open spec fn wf(&self) -> bool {
        tv_wf(self@)
    }

    /// The table's documents as a two-level map.
    pub open spec fn content(&self) -> Map<KeyValView, Map<KeyValView, JsonView>> {
        content_of(self@.data)
    }

    /// The table's name.
    pub fn name_of(&self) -> (r: &String)
        ensures
            r@ == self@.table_name,
    {
        &self.table_name
    }

    /// The index of the partition holding `p`, if one does.
    #[verifier::loop_isolation(false)]
    fn find_partition(&self, p: &KeyDatatype) -> (r: Option<usize>)
        ensures
            match r {
                Some(i) => 0 <= i < self@.data.len() && self@.data[i as int].0 == p@ && forall|
                    k: int,
                |
                    0 <= k < i ==> (#[trigger] self@.data[k]).0 != p@,
                None => forall|k: int|
                    0 <= k < self@.data.len() ==> (#[trigger] self@.data[k]).0 != p@,
            },
    {
        let n = self.data.len();
        let mut i: usize = 0;
        while i < n
            invariant
                0 <= i <= n,
                forall|k: int| 0 <= k < i ==> (#[trigger] self@.data[k]).0 != p@,
            decreases n - i,
        {
            if self.data[i].0.key_eq(p) {
                return Some(i);
            }
            i += 1;
        }
        None
    }

    /// Binds `doc` to `(p, s)` in the structure: the partition gains the
    /// row at its sorted place, or is created at the end of the list.
    #[verifier::loop_isolation(false)]
    fn insert_row(&mut self, p: KeyDatatype, s: KeyDatatype, doc: JsonValue)
        requires
            old(self).wf(),
            same_variant(p@, old(self)@.primary_key.datatype),
            same_variant(s@, old(self)@.sort_key.datatype),
            spec_extract(old(self)@.primary_key, doc@) == Ok::<_, DbErrorView>(p@),
            spec_extract(old(self)@.sort_key, doc@) == Ok::<_, DbErrorView>(s@),
        ensures
            final(self).wf(),
            final(self)@.table_name == old(self)@.table_name,
            final(self)@.primary_key == old(self)@.primary_key,
            final(self)@.sort_key == old(self)@.sort_key,
            final(self)@.data == data_insert(old(self)@.data, p@, s@, doc@),
            final(self).content() == create_doc_spec(old(self).content(), p@, s@, doc@),
    {
        let ghost gdata = self@.data;
        let ghost pk = self@.primary_key;
        let ghost sk = self@.sort_key;
        proof {
            assert(forall|i: int|
                0 <= i < gdata.len() ==> #[trigger] gdata[i] == (self.data@[i].0@, rows_view(
                    self.data@[i].1@,
                )));
        }
        let found = self.find_partition(&p);
        match found {
            None => {
                let ghost gp = p@;
                let ghost gs = s@;
                let ghost gdoc = doc@;
                let ghost gvec = self.data@;
                let mut rows: Vec<(KeyDatatype, JsonValue)> = Vec::new();
                rows.push((s, doc));
                let ghost gnewrows = rows@;
                proof {
                    assert(rows_view(gnewrows) =~= seq![(gs, gdoc)]);
                }
                self.data.push((p, rows));
                proof {
                    lemma_data_insert_new(gdata, gp, gs, gdoc);
                    let x = self.data@[gvec.len() as int];
                    assert(x.0@ == gp && x.1@ == gnewrows);
                    assert forall|k: int| 0 <= k < self.data@.len() implies parts_view(
                        self.data@,
                    )[k] == data_insert(gdata, gp, gs, gdoc)[k] by {
                        if k < gvec.len() {
                            assert(self.data@[k] == gvec[k]);
                            assert(gdata[k] == (gvec[k].0@, rows_view(gvec[k].1@)));
                        }
                    }
                    assert(parts_view(self.data@) =~= data_insert(gdata, gp, gs, gdoc));
                    lemma_data_insert_wf(gdata, pk, sk, gp, gs, gdoc);
                    lemma_all_rows_unique_of_wf(gdata, pk, sk);
                    lemma_data_insert_content(gdata, gp, gs, gdoc);
                }
            },
            Some(pi) => {
                let ghost gvec = self.data@;
                let entry = self.data.remove(pi);
                let pkey = entry.0;
                let mut rows = entry.1;
                let ghost grows = rows_view(rows@);
                proof {
                    assert(gdata[pi as int] == (pkey@, grows));
                    assert(rows_wf(grows, pk, sk, pkey@));
                }
                let n = rows.len();
                let mut j: usize = 0;
                while j < n && rows[j].0.key_lt(&s)
                    invariant
                        0 <= j <= n,
                        n == rows.len(),
                        forall|k: int| 0 <= k < j ==> kv_lt((#[trigger] grows[k]).0, s@),
                    decreases n - j,
                {
                    proof {
                        assert(grows[j as int] == (rows@[j as int].0@, rows@[j as int].1@));
                    }
                    j += 1;
                }
                let ghost gdoc = doc@;
                proof {
                    if j < n {
                        assert(grows[j as int] == (rows@[j as int].0@, rows@[j as int].1@));
                    }
                }
                if j < n && rows[j].0.key_eq(&s) {
                    proof {
                        lemma_rows_insert_replace(grows, s@, gdoc, j as int);
                    }
                    rows[j] = (s, doc);
                    proof {
                        assert(rows_view(rows@) =~= rows_insert(grows, s@, gdoc));
                    }
                } else if j < n {
                    proof {
                        crate::keys::lemma_kv_trichotomy(s@, grows[j as int].0);
                        assert(kv_lt(s@, grows[j as int].0));
                        lemma_rows_insert_before(grows, s@, gdoc, j as int);
                    }
                    rows.insert(j, (s, doc));
                    proof {
                        assert(rows_view(rows@) =~= rows_insert(grows, s@, gdoc));
                    }
                } else {
                    proof {
                        lemma_rows_insert_end(grows, s@, gdoc);
                    }
                    rows.push((s, doc));
                    proof {
                        assert(rows_view(rows@) =~= rows_insert(grows, s@, gdoc));
                    }
                }
                let ghost gnewrows = rows@;
                self.data.insert(pi, (pkey, rows));
                proof {
                    lemma_data_insert_found(gdata, p@, s@, gdoc, pi as int);
                    let x = self.data@[pi as int];
                    assert(x.1@ == gnewrows);
                    assert(self.data@ =~= gvec.update(pi as int, x));
                    assert(rows_view(gnewrows) == rows_insert(grows, s@, gdoc));
                    assert forall|k: int| 0 <= k < self.data@.len() implies parts_view(
                        self.data@,
                    )[k] == data_insert(gdata, p@, s@, gdoc)[k] by {
                        if k != pi as int {
                            assert(self.data@[k] == gvec[k]);
                            assert(gdata[k] == (gvec[k].0@, rows_view(gvec[k].1@)));
                        }
                    }
                    assert(parts_view(self.data@) =~= data_insert(gdata, p@, s@, gdoc));
                    lemma_data_insert_wf(gdata, pk, sk, p@, s@, gdoc);
                    lemma_all_rows_unique_of_wf(gdata, pk, sk);
                    lemma_data_insert_content(gdata, p@, s@, gdoc);
                }
            },
        }
    }

    /// Stores a document: its partition and sort values are extracted
    /// from the payload itself, and the document is bound to that pair,
    /// replacing any prior document there (an upsert). Returns the null
    /// sentinel; fails exactly when extraction does, leaving the table
    /// unchanged.
    pub fn create_document(&mut self, info: JsonValue) -> (r: Result<JsonValue, DbError>)
        requires
            old(self).wf(),
        ensures
            final(self).wf(),
            final(self)@.table_name == old(self)@.table_name,
            final(self)@.primary_key == old(self)@.primary_key,
            final(self)@.sort_key == old(self)@.sort_key,
            match extract_pair(old(self)@.primary_key, old(self)@.sort_key, info@) {
                Ok(ps) => {
                    &&& r matches Ok(v) && v@ == JsonView::Null
                    &&& final(self)@.data == data_insert(old(self)@.data, ps.0, ps.1, info@)
                    &&& final(self).content() == create_doc_spec(
                        old(self).content(),
                        ps.0,
                        ps.1,
                        info@,
                    )
                },
                Err(e) => {
                    &&& r matches Err(er) && er@ == e
                    &&& final(self)@ == old(self)@
                },
            },
    {
        let pk_val = match crate::keys::extract_key(&self.primary_key, &info) {
            Ok(v) => v,
            Err(e) => {
                return Err(e);
            },
        };
        let sk_val = match crate::keys::extract_key(&self.sort_key, &info) {
            Ok(v) => v,
            Err(e) => {
                return Err(e);
            },
        };
        proof {
            crate::keys::lemma_extract_same_variant(self@.primary_key, info@);
            crate::keys::lemma_extract_same_variant(self@.sort_key, info@);
        }
        self.insert_row(pk_val, sk_val, info);
        Ok(JsonValue::Null)
    }

    /// Looks a document up by the key values carried in the query payload:
    /// the stored document, or the null sentinel when none is stored
    /// there; absence is success, not an error. Fails exactly when
    /// extraction does.
    pub fn read_document(&self, info: JsonValue) -> (r: Result<JsonValue, DbError>)
        requires
            self.wf(),
        ensures
            match extract_pair(self@.primary_key, self@.sort_key, info@) {
                Ok(ps) => r matches Ok(v) && v@ == read_doc_spec(self.content(), ps.0, ps.1),
                Err(e) => r matches Err(er) && er@ == e,
            },
    {
        let pk_val = match crate::keys::extract_key(&self.primary_key, &info) {
            Ok(v) => v,
            Err(e) => {
                return Err(e);
            },
        };
        let sk_val = match crate::keys::extract_key(&self.sort_key, &info) {
            Ok(v) => v,
            Err(e) => {
                return Err(e);
            },
        };
        let ghost gdata = self@.data;
        proof {
            assert(forall|i: int|
                0 <= i < gdata.len() ==> #[trigger] gdata[i] == (self.data@[i].0@, rows_view(
                    self.data@[i].1@,
                )));
            lemma_all_rows_unique_of_wf(gdata, self@.primary_key, self@.sort_key);
        }
        match self.find_partition(&pk_val) {
            None => {
                proof {
                    lemma_content_absent(gdata, pk_val@);
                }
                Ok(JsonValue::Null)
            },
            Some(pi) => {
                proof {
                    lemma_content_index(gdata, pi as int);
                }
                let rows = &self.data[pi].1;
                let ghost grows = gdata[pi as int].1;
                proof {
                    assert(grows == rows_view(rows@));
                    assert(forall|k: int|
                        0 <= k < grows.len() ==> #[trigger] grows[k] == (rows@[k].0@, rows@[k].1@));
                }
                match find_row(rows, &sk_val) {
                    None => {
                        proof {
                            lemma_rows_map_absent(grows, sk_val@);
                        }
                        Ok(JsonValue::Null)
                    },
                    Some(j) => {
                        proof {
                            lemma_rows_map_index(grows, j as int);
                        }
                        Ok(rows[j].1.deep_clone())
                    },
                }
            },
        }
    }

    /// Builds the structure an embedded `data` array describes, against
    /// this table's keys: `MissingFields` when the field is absent,
    /// `BadInput` when it is not an array, the first extraction error
    /// when a document fails; otherwise the loaded partitions.
    #[verifier::loop_isolation(false)]
    pub fn load(&self, info: &JsonValue) -> (r: Result<
        Vec<(KeyDatatype, Vec<(KeyDatatype, JsonValue)>)>,
        DbError,
    >)
        requires
            self@.primary_key.datatype == canon(self@.primary_key.datatype),
            self@.sort_key.datatype == canon(self@.sort_key.datatype),
        ensures
            match load_spec(self@.primary_key, self@.sort_key, info@) {
                Ok(d) => r matches Ok(v) && parts_view(v@) == d && data_wf(
                    d,
                    self@.primary_key,
                    self@.sort_key,
                ),
                Err(e) => r matches Err(er) && er@ == e,
            },
    {
        let ghost pk = self@.primary_key;
        let ghost sk = self@.sort_key;
        let got = match info.get("data") {
            None => {
                return Err(
                    DbError::MissingFields(String::from_str("Must contain field data")),
                );
            },
            Some(d) => d,
        };
        let docs = match got.as_array() {
            None => {
                return Err(
                    DbError::BadInput(String::from_str("data must be valid JSON array")),
                );
            },
            Some(docs) => docs,
        };
        let ghost gdocs = got@->Arr_0;
        let mut tmp = Table {
            table_name: String::new(),
            primary_key: self.primary_key.key_clone(),
            sort_key: self.sort_key.key_clone(),
            data: Vec::new(),
        };
        proof {
            assert(parts_view(tmp.data@) =~= Seq::<
                (KeyValView, Seq<(KeyValView, JsonView)>),
            >::empty());
            assert(tmp.wf());
            assert(gdocs.skip(0) =~= gdocs);
            assert(forall|k: int|
                0 <= k < gdocs.len() ==> #[trigger] gdocs[k] == docs@[k]@);
        }
        let n = docs.len();
        let mut i: usize = 0;
        while i < n
            invariant
                0 <= i <= n,
                n == docs.len(),
                tmp.wf(),
                tmp@.primary_key == pk,
                tmp@.sort_key == sk,
                bulk_load_rec(pk, sk, gdocs.skip(i as int), tmp@.data) == bulk_load_rec(
                    pk,
                    sk,
                    gdocs,
                    Seq::empty(),
                ),
            decreases n - i,
        {
            proof {
                assert(gdocs.skip(i as int)[0] == gdocs[i as int]);
                assert(gdocs.skip(i as int).skip(1) =~= gdocs.skip(i as int + 1));
            }
            let doc = docs[i].deep_clone();
            match tmp.create_document(doc) {
                Ok(_) => {},
                Err(e) => {
                    return Err(e);
                },
            }
            i += 1;
        }
        proof {
            assert(gdocs.skip(n as int) =~= Seq::<JsonView>::empty());
        }
        Ok(tmp.data)
    }

    /// Builds a table from a definition payload: its name, its two key
    /// descriptors, and, when the payload embeds a loadable `data`
    /// array, that array's documents; a failing bulk load leaves the
    /// table created but empty.
    pub fn new(info: &JsonValue) -> (r: Result<Table, DbError>)
        ensures
            match r {
                Ok(t) => table_new_spec(info@) matches Ok(tv) && t@ == tv && t.wf(),
                Err(e) => table_new_spec(info@) matches Err(ev) && e@ == ev,
            },
    {
        let f1: [&str; 1] = ["table_name"];
        proof {
            assert(crate::validation::strs_view(f1@) =~= seq!["table_name"@]);
        }
        if let Err(e) = crate::validation::check_string_fields_exist(info, f1.as_slice()) {
            return Err(e);
        }
        let f2: [&str; 2] = ["primary_key", "sort_key"];
        proof {
            assert(crate::validation::strs_view(f2@) =~= seq!["primary_key"@, "sort_key"@]);
        }
        if let Err(e) = crate::validation::check_key_fields_exist(info, f2.as_slice()) {
            return Err(e);
        }
        proof {
            crate::validation::lemma_check_string_fields_ok(info@, seq!["table_name"@]);
            assert(seq!["table_name"@][0] == "table_name"@);
            crate::validation::lemma_check_key_fields_ok(
                info@,
                seq!["primary_key"@, "sort_key"@],
            );
            assert(seq!["primary_key"@, "sort_key"@][0] == "primary_key"@);
            assert(seq!["primary_key"@, "sort_key"@][1] == "sort_key"@);
        }
        let name: String = match info.get("table_name") {
            Some(v) => match v.as_str() {
                Some(s) => s.to_owned(),
                None => unreached(),
            },
            None => unreached(),
        };
        let pkey = parse_key_desc(info, "primary_key");
        let skey = parse_key_desc(info, "sort_key");
        proof {
            crate::keys::lemma_dt_of_name_canon(
                match spec_get(spec_get(info@, "primary_key"@)->Some_0, "datatype"@) {
                    Some(JsonView::Text(s)) => s,
                    _ => Seq::empty(),
                },
            );
            crate::keys::lemma_dt_of_name_canon(
                match spec_get(spec_get(info@, "sort_key"@)->Some_0, "datatype"@) {
                    Some(JsonView::Text(s)) => s,
                    _ => Seq::empty(),
                },
            );
        }
        let mut table = Table {
            table_name: name,
            primary_key: pkey,
            sort_key: skey,
            data: Vec::new(),
        };
        proof {
            assert(parts_view(table.data@) =~= Seq::<
                (KeyValView, Seq<(KeyValView, JsonView)>),
            >::empty());
            assert(table.wf());
        }
        match table.load(info) {
            Ok(d) => {
                table.data = d;
            },
            Err(_) => {},
        }
        Ok(table)
    }

    /// The table's full snapshot: name, key descriptors, and every
    /// stored document, ordered ascending within each partition,
    /// partitions in insertion order. Always succeeds.
    #[verifier::loop_isolation(false)]
    pub fn read_table(&self) -> (r: Result<JsonValue, DbError>)
        ensures
            r matches Ok(v) && v@ == read_table_view(self@),
    {
        let ghost gdata = self@.data;
        proof {
            assert(forall|i: int|
                0 <= i < gdata.len() ==> #[trigger] gdata[i] == (self.data@[i].0@, rows_view(
                    self.data@[i].1@,
                )));
            assert(gdata.skip(0) =~= gdata);
            assert(crate::json::elems_view(Seq::<JsonValue>::empty()) =~= Seq::<
                JsonView,
            >::empty());
        }
        let mut docs: Vec<JsonValue> = Vec::new();
        let n = self.data.len();
        let mut i: usize = 0;
        while i < n
            invariant
                0 <= i <= n,
                crate::json::elems_view(docs@) + all_docs(gdata.skip(i as int)) =~= all_docs(
                    gdata,
                ),
            decreases n - i,
        {
            let ghost grows = gdata[i as int].1;
            let ghost base = crate::json::elems_view(docs@);
            proof {
                lemma_all_docs_split(gdata, i as int);
                assert(grows == rows_view(self.data@[i as int].1@));
                assert(forall|k: int|
                    0 <= k < grows.len() ==> #[trigger] grows[k] == (self.data@[i as int].1@[k].0@,
                        self.data@[i as int].1@[k].1@));
                assert(base + row_docs(grows).subrange(0, 0) =~= base);
            }
            let rows = &self.data[i].1;
            let m = rows.len();
            let mut j: usize = 0;
            while j < m
                invariant
                    0 <= j <= m,
                    m == rows.len(),
                    crate::json::elems_view(docs@) =~= base + row_docs(grows).subrange(
                        0,
                        j as int,
                    ),
                decreases m - j,
            {
                let ghost olddocs = docs@;
                docs.push(rows[j].1.deep_clone());
                proof {
                    crate::json::lemma_elems_view_push(olddocs, docs@.last());
                    assert(docs@.last()@ == grows[j as int].1);
                    assert(crate::json::elems_view(docs@) =~= base + row_docs(grows).subrange(
                        0,
                        j as int + 1,
                    ));
                }
                j += 1;
            }
            proof {
                assert(row_docs(grows).subrange(0, m as int) =~= row_docs(grows));
                assert(crate::json::elems_view(docs@) + all_docs(gdata.skip(i as int + 1))
                    =~= all_docs(gdata));
            }
            i += 1;
        }
        proof {
            assert(gdata.skip(n as int) =~= Seq::<
                (KeyValView, Seq<(KeyValView, JsonView)>),
            >::empty());
            assert(crate::json::elems_view(docs@) =~= all_docs(gdata));
        }
        let arr = JsonValue::Arr(docs);
        proof {
            assert(arr@ == JsonView::Arr(all_docs(gdata)));
        }
        let pk_desc = key_descriptor(&self.primary_key);
        let sk_desc = key_descriptor(&self.sort_key);
        let mut top: Vec<(String, JsonValue)> = Vec::new();
        top.push((String::from_str("table_name"), JsonValue::Text(self.table_name.clone())));
        top.push((String::from_str("primary_key"), pk_desc));
        top.push((String::from_str("sort_key"), sk_desc));
        top.push((String::from_str("data"), arr));
        proof {
            assert(crate::json::fields_view(top@) =~= read_table_view(self@)->Obj_0);
        }
        let r = JsonValue::Obj(top);
        Ok(r)
    }

    /// Merges the patch payload into the document stored at the key
    /// values the patch itself carries: patch fields overwrite or extend
    /// the stored document's top level, nested values wholesale. When no
    /// document is stored at that pair the patch is inserted as the
    /// document (an upsert). Returns the null sentinel; fails exactly
    /// when extraction does, leaving the table unchanged.
    pub fn update_document(&mut self, info: JsonValue) -> (r: Result<JsonValue, DbError>)
        requires
            old(self).wf(),
            info@ matches JsonView::Obj(pf) ==> crate::json::fields_unique(pf),
        ensures
            final(self).wf(),
            final(self)@.table_name == old(self)@.table_name,
            final(self)@.primary_key == old(self)@.primary_key,
            final(self)@.sort_key == old(self)@.sort_key,
            match extract_pair(old(self)@.primary_key, old(self)@.sort_key, info@) {
                Ok(ps) => {
                    &&& r matches Ok(v) && v@ == JsonView::Null
                    &&& final(self)@.data == data_insert(
                        old(self)@.data,
                        ps.0,
                        ps.1,
                        merge_doc(update_base(old(self).content(), ps.0, ps.1), info@),
                    )
                    &&& final(self).content() == update_doc_spec(
                        old(self).content(),
                        ps.0,
                        ps.1,
                        info@,
                    )
                },
                Err(e) => {
                    &&& r matches Err(er) && er@ == e
                    &&& final(self)@ == old(self)@
                },
            },
    {
        let pk_val = match crate::keys::extract_key(&self.primary_key, &info) {
            Ok(v) => v,
            Err(e) => {
                return Err(e);
            },
        };
        let sk_val = match crate::keys::extract_key(&self.sort_key, &info) {
            Ok(v) => v,
            Err(e) => {
                return Err(e);
            },
        };
        proof {
            crate::keys::lemma_extract_same_variant(self@.primary_key, info@);
            crate::keys::lemma_extract_same_variant(self@.sort_key, info@);
        }
        let ghost gdata = self@.data;
        proof {
            assert(forall|i: int|
                0 <= i < gdata.len() ==> #[trigger] gdata[i] == (self.data@[i].0@, rows_view(
                    self.data@[i].1@,
                )));
            lemma_all_rows_unique_of_wf(gdata, self@.primary_key, self@.sort_key);
        }
        let base: JsonValue = match self.find_partition(&pk_val) {
            None => {
                proof {
                    lemma_content_absent(gdata, pk_val@);
                }
                JsonValue::Obj(Vec::new())
            },
            Some(pi) => {
                proof {
                    lemma_content_index(gdata, pi as int);
                }
                let rows = &self.data[pi].1;
                let ghost grows = gdata[pi as int].1;
                proof {
                    assert(grows == rows_view(rows@));
                    assert(forall|k: int|
                        0 <= k < grows.len() ==> #[trigger] grows[k] == (rows@[k].0@, rows@[k].1@));
                }
                match find_row(rows, &sk_val) {
                    None => {
                        proof {
                            lemma_rows_map_absent(grows, sk_val@);
                        }
                        JsonValue::Obj(Vec::new())
                    },
                    Some(j) => {
                        proof {
                            lemma_rows_map_index(grows, j as int);
                        }
                        rows[j].1.deep_clone()
                    },
                }
            },
        };
        proof {
            assert(crate::json::fields_view(Seq::<(String, JsonValue)>::empty()) =~= Seq::<
                (Seq<char>, JsonView),
            >::empty());
            assert(base@ == update_base(self.content(), pk_val@, sk_val@));
            assert(base@ is Obj);
        }
        let merged = merge_docs(&base, &info);
        proof {
            lemma_merge_extract(self@.primary_key, base@->Obj_0, info@, pk_val@);
            lemma_merge_extract(self@.sort_key, base@->Obj_0, info@, sk_val@);
        }
        self.insert_row(pk_val, sk_val, merged);
        Ok(JsonValue::Null)
    }

    /// Removes the document at the key values carried in the query
    /// payload, if one is stored there; absence is not an error. A
    /// partition the removal empties is dropped. Returns the null
    /// sentinel; fails exactly when extraction does, leaving the table
    /// unchanged.
    #[verifier::loop_isolation(false)]
    pub fn delete_document(&mut self, info: JsonValue) -> (r: Result<JsonValue, DbError>)
        requires
            old(self).wf(),
        ensures
            final(self).wf(),
            final(self)@.table_name == old(self)@.table_name,
            final(self)@.primary_key == old(self)@.primary_key,
            final(self)@.sort_key == old(self)@.sort_key,
            match extract_pair(old(self)@.primary_key, old(self)@.sort_key, info@) {
                Ok(ps) => {
                    &&& r matches Ok(v) && v@ == JsonView::Null
                    &&& final(self)@.data == data_delete(old(self)@.data, ps.0, ps.1)
                    &&& final(self).content() == delete_doc_spec(old(self).content(), ps.0, ps.1)
                },
                Err(e) => {
                    &&& r matches Err(er) && er@ == e
                    &&& final(self)@ == old(self)@
                },
            },
    {
        let pk_val = match crate::keys::extract_key(&self.primary_key, &info) {
            Ok(v) => v,
            Err(e) => {
                return Err(e);
            },
        };
        let sk_val = match crate::keys::extract_key(&self.sort_key, &info) {
            Ok(v) => v,
            Err(e) => {
                return Err(e);
            },
        };
        let ghost gdata = self@.data;
        let ghost pk = self@.primary_key;
        let ghost sk = self@.sort_key;
        proof {
            assert(forall|i: int|
                0 <= i < gdata.len() ==> #[trigger] gdata[i] == (self.data@[i].0@, rows_view(
                    self.data@[i].1@,
                )));
            lemma_all_rows_unique_of_wf(gdata, pk, sk);
        }
        match self.find_partition(&pk_val) {
            None => {
                proof {
                    lemma_data_delete_missing(gdata, pk_val@, sk_val@);
                    lemma_data_delete_content(gdata, pk_val@, sk_val@);
                }
                Ok(JsonValue::Null)
            },
            Some(pi) => {
                let ghost grows = gdata[pi as int].1;
                proof {
                    assert(grows == rows_view(self.data@[pi as int].1@));
                    assert(forall|k: int|
                        0 <= k < grows.len() ==> #[trigger] grows[k] == (self.data@[pi as int].1@[k].0@,
                            self.data@[pi as int].1@[k].1@));
                }
                let found = find_row(&self.data[pi].1, &sk_val);
                match found {
                    None => {
                        proof {
                            lemma_rows_remove_missing(grows, sk_val@);
                            lemma_data_delete_found(gdata, pk_val@, sk_val@, pi as int);
                            assert(data_delete(gdata, pk_val@, sk_val@) =~= gdata);
                            lemma_data_delete_content(gdata, pk_val@, sk_val@);
                        }
                        Ok(JsonValue::Null)
                    },
                    Some(j) => {
                        let ghost gvec = self.data@;
                        let entry = self.data.remove(pi);
                        let pkey = entry.0;
                        let mut rows = entry.1;
                        proof {
                            lemma_rows_remove_found(grows, sk_val@, j as int);
                            lemma_data_delete_found(gdata, pk_val@, sk_val@, pi as int);
                        }
                        rows.remove(j);
                        proof {
                            assert(rows_view(rows@) =~= grows.remove(j as int));
                        }
                        if rows.len() == 0 {
                            proof {
                                assert(rows_remove(grows, sk_val@).len() == 0);
                                assert(self.data@ =~= gvec.remove(pi as int));
                                assert forall|k: int|
                                    0 <= k < self.data@.len() implies parts_view(self.data@)[k]
                                    == data_delete(gdata, pk_val@, sk_val@)[k] by {
                                    if k < pi as int {
                                        assert(self.data@[k] == gvec[k]);
                                        assert(gdata[k] == (gvec[k].0@, rows_view(gvec[k].1@)));
                                    } else {
                                        assert(self.data@[k] == gvec[k + 1]);
                                        assert(gdata[k + 1] == (gvec[k + 1].0@, rows_view(
                                            gvec[k + 1].1@,
                                        )));
                                    }
                                }
                                assert(parts_view(self.data@) =~= data_delete(
                                    gdata,
                                    pk_val@,
                                    sk_val@,
                                ));
                                lemma_data_delete_wf(gdata, pk, sk, pk_val@, sk_val@);
                                lemma_data_delete_content(gdata, pk_val@, sk_val@);
                            }
                        } else {
                            let ghost gnewrows = rows@;
                            self.data.insert(pi, (pkey, rows));
                            proof {
                                let x = self.data@[pi as int];
                                assert(x.1@ == gnewrows);
                                assert(self.data@ =~= gvec.update(pi as int, x));
                                assert forall|k: int|
                                    0 <= k < self.data@.len() implies parts_view(self.data@)[k]
                                    == data_delete(gdata, pk_val@, sk_val@)[k] by {
                                    if k != pi as int {
                                        assert(self.data@[k] == gvec[k]);
                                        assert(gdata[k] == (gvec[k].0@, rows_view(gvec[k].1@)));
                                    }
                                }
                                assert(parts_view(self.data@) =~= data_delete(
                                    gdata,
                                    pk_val@,
                                    sk_val@,
                                ));
                                lemma_data_delete_wf(gdata, pk, sk, pk_val@, sk_val@);
                                lemma_data_delete_content(gdata, pk_val@, sk_val@);
                            }
                        }
                        Ok(JsonValue::Null)
                    },
                }
            },
        }
    }
}

/// The index of the row holding sort value `s`, if one does.
#[verifier::loop_isolation(false)]
fn find_row(rows: &Vec<(KeyDatatype, JsonValue)>, s: &KeyDatatype) -> (r: Option<usize>)
    ensures
        match r {
            Some(j) => 0 <= j < rows@.len() && rows@[j as int].0@ == s@ && forall|k: int|
                0 <= k < j ==> (#[trigger] rows@[k]).0@ != s@,
            None => forall|k: int| 0 <= k < rows@.len() ==> (#[trigger] rows@[k]).0@ != s@,
        },
{
    let n = rows.len();
    let mut j: usize = 0;
    while j < n
        invariant
            0 <= j <= n,
            forall|k: int| 0 <= k < j ==> (#[trigger] rows@[k]).0@ != s@,
        decreases n - j,
    {
        if rows[j].0.key_eq(s) {
            return Some(j);
        }
        j += 1;
    }
    None
}

/// In well-formed data every partition's row keys are distinct.
pub proof fn lemma_all_rows_unique_of_wf(
    data: Seq<(KeyValView, Seq<(KeyValView, JsonView)>)>,
    pk: KeyView,
    sk: KeyView,
)
    requires
        data_wf(data, pk, sk),
    ensures
        parts_unique(data),
        all_rows_unique(data),
{
    assert forall|i: int| 0 <= i < data.len() implies rows_unique((#[trigger] data[i]).1) by {
        lemma_sorted_rows_unique(data[i].1);
    }
}


/// Merging never changes a field the patch does not name.
pub proof fn lemma_merge_get_out(
    target: Seq<(Seq<char>, JsonView)>,
    patch: Seq<(Seq<char>, JsonView)>,
    name: Seq<char>,
)
    requires
        forall|j: int| 0 <= j < patch.len() ==> (#[trigger] patch[j]).0 != name,
    ensures
        obj_get(merge_fields(target, patch), name) == obj_get(target, name),
    decreases patch.len(),
{
    if patch.len() > 0 {
        let tail = patch.skip(1);
        assert(forall|j: int| 0 <= j < tail.len() ==> #[trigger] tail[j] == patch[j + 1]);
        lemma_merge_get_out(obj_set(target, patch[0].0, patch[0].1), tail, name);
        crate::json::lemma_obj_get_set(target, patch[0].0, patch[0].1, name);
    }
}

/// With a patch of distinct names, merging binds each patched name to its
/// patch value.
pub proof fn lemma_merge_get_in(
    target: Seq<(Seq<char>, JsonView)>,
    patch: Seq<(Seq<char>, JsonView)>,
    j: int,
)
    requires
        crate::json::fields_unique(patch),
        0 <= j < patch.len(),
    ensures
        obj_get(merge_fields(target, patch), patch[j].0) == Some(patch[j].1),
    decreases patch.len(),
{
    let tail = patch.skip(1);
    assert(forall|k: int| 0 <= k < tail.len() ==> #[trigger] tail[k] == patch[k + 1]);
    let set0 = obj_set(target, patch[0].0, patch[0].1);
    if j == 0 {
        lemma_merge_get_out(set0, tail, patch[0].0);
        crate::json::lemma_obj_get_set(target, patch[0].0, patch[0].1, patch[0].0);
    } else {
        lemma_merge_get_in(set0, tail, j - 1);
    }
}

/// Extraction reads through a merge: a key value extracted from the patch
/// is extracted unchanged from the merged document, for any target object.
pub proof fn lemma_merge_extract(
    key: KeyView,
    target: Seq<(Seq<char>, JsonView)>,
    patch: JsonView,
    v: KeyValView,
)
    requires
        patch matches JsonView::Obj(pf) && crate::json::fields_unique(pf),
        spec_extract(key, patch) == Ok::<_, DbErrorView>(v),
    ensures
        spec_extract(key, JsonView::Obj(merge_fields(target, patch->Obj_0))) == Ok::<
            _,
            DbErrorView,
        >(v),
{
    let pf = patch->Obj_0;
    let merged = JsonView::Obj(merge_fields(target, pf));
    if !(key.datatype is Null) {
        assert(spec_get(patch, key.name) is Some);
        crate::json::lemma_obj_get_exists(pf, key.name);
        let j = choose|j: int| 0 <= j < pf.len() && (#[trigger] pf[j]).0 == key.name;
        crate::json::lemma_obj_get_unique(pf, j);
        lemma_merge_get_in(target, pf, j);
        assert(spec_get(merged, key.name) == spec_get(patch, key.name));
    }
}


proof fn lemma_obj_set_prefix(
    fields: Seq<(Seq<char>, JsonView)>,
    name: Seq<char>,
    val: JsonView,
    i: int,
)
    requires
        0 <= i <= fields.len(),
        forall|j: int| 0 <= j < i ==> (#[trigger] fields[j]).0 != name,
    ensures
        obj_set(fields, name, val) == fields.subrange(0, i) + obj_set(fields.skip(i), name, val),
    decreases i,
{
    if i == 0 {
        assert(fields.skip(0) =~= fields);
        assert(fields.subrange(0, 0) + obj_set(fields, name, val) =~= obj_set(fields, name, val));
    } else {
        let tail = fields.skip(1);
        assert(forall|j: int| 0 <= j < tail.len() ==> #[trigger] tail[j] == fields[j + 1]);
        lemma_obj_set_prefix(tail, name, val, i - 1);
        assert(tail.skip(i - 1) =~= fields.skip(i));
        assert(seq![fields[0]] + (tail.subrange(0, i - 1) + obj_set(fields.skip(i), name, val))
            =~= fields.subrange(0, i) + obj_set(fields.skip(i), name, val));
    }
}

/// Binds `name` to `val` in an object's field list, replacing the first
/// field of that name in place or appending the pair.
#[verifier::loop_isolation(false)]
fn set_field(fields: &mut Vec<(String, JsonValue)>, name: &String, val: JsonValue)
    ensures
        crate::json::fields_view(final(fields)@) == obj_set(
            crate::json::fields_view(old(fields)@),
            name@,
            val@,
        ),
{
    let ghost gf = crate::json::fields_view(fields@);
    proof {
        assert(forall|k: int|
            0 <= k < gf.len() ==> #[trigger] gf[k] == (fields@[k].0@, fields@[k].1@));
    }
    let n = fields.len();
    let mut i: usize = 0;
    while i < n
        invariant
            0 <= i <= n,
            n == fields.len(),
            fields@ == old(fields)@,
            forall|k: int| 0 <= k < i ==> (#[trigger] gf[k]).0 != name@,
        decreases n - i,
    {
        if crate::keys::str_eq(fields[i].0.as_str(), name.as_str()) {
            proof {
                lemma_obj_set_prefix(gf, name@, val@, i as int);
                assert(gf.skip(i as int)[0] == gf[i as int]);
            }
            fields[i] = (name.clone(), val);
            proof {
                assert(gf.skip(i as int).skip(1) =~= gf.skip(i as int + 1));
                assert(crate::json::fields_view(fields@) =~= obj_set(gf, name@, val@));
            }
            return ;
        }
        i += 1;
    }
    proof {
        lemma_obj_set_prefix(gf, name@, val@, n as int);
        assert(gf.skip(n as int) =~= Seq::<(Seq<char>, JsonView)>::empty());
    }
    fields.push((name.clone(), val));
    proof {
        assert(crate::json::fields_view(fields@) =~= obj_set(gf, name@, val@));
    }
}

/// The shallow merge of two documents, as `merge_doc` describes it.
#[verifier::loop_isolation(false)]
fn merge_docs(target: &JsonValue, patch: &JsonValue) -> (r: JsonValue)
    ensures
        r@ == merge_doc(target@, patch@),
{
    match patch.as_object() {
        Some(pf) => {
            if !target.is_object() {
                return target.deep_clone();
            }
            let base = target.deep_clone();
            let acc0 = match base {
                JsonValue::Obj(f) => Some(f),
                _ => None,
            };
            let mut acc = match acc0 {
                Some(f) => f,
                None => unreached(),
            };
            let ghost tfv = target@->Obj_0;
            let ghost pfv = patch@->Obj_0;
            proof {
                assert(pfv == crate::json::fields_view(pf@));
                assert(forall|k: int|
                    0 <= k < pfv.len() ==> #[trigger] pfv[k] == (pf@[k].0@, pf@[k].1@));
                assert(pfv.skip(0) =~= pfv);
                assert(crate::json::fields_view(acc@) == tfv);
            }
            let n = pf.len();
            let mut i: usize = 0;
            while i < n
                invariant
                    0 <= i <= n,
                    n == pf.len(),
                    merge_fields(crate::json::fields_view(acc@), pfv.skip(i as int))
                        == merge_fields(tfv, pfv),
                decreases n - i,
            {
                let ghost gacc = crate::json::fields_view(acc@);
                let nm = &pf[i].0;
                let v = pf[i].1.deep_clone();
                proof {
                    assert(pfv.skip(i as int)[0] == pfv[i as int]);
                    assert(pfv.skip(i as int).skip(1) =~= pfv.skip(i as int + 1));
                }
                set_field(&mut acc, nm, v);
                i += 1;
            }
            proof {
                assert(pfv.skip(n as int) =~= Seq::<(Seq<char>, JsonView)>::empty());
            }
            JsonValue::Obj(acc)
        },
        _ => target.deep_clone(),
    }
}


/// The JSON descriptor of one key role: its field name and the wire name
/// of its datatype.
pub open spec fn key_desc_view(k: KeyView) -> JsonView {
    JsonView::Obj(
        seq![
            ("name"@, JsonView::Text(k.name)),
            ("datatype"@, JsonView::Text(dt_name(k.datatype))),
        ],
    )
}

/// The documents of one partition, in stored (ascending) order.
pub open spec fn row_docs(rows: Seq<(KeyValView, JsonView)>) -> Seq<JsonView> {
    Seq::new(rows.len(), |i: int| rows[i].1)
}

/// Every stored document, partition by partition, ascending within each.
pub open spec fn all_docs(data: Seq<(KeyValView, Seq<(KeyValView, JsonView)>)>) -> Seq<JsonView>
    decreases data.len(),
{
    if data.len() == 0 {
        Seq::empty()
    } else {
        row_docs(data[0].1) + all_docs(data.skip(1))
    }
}

/// What `read_table` returns: the table's name, both key descriptors,
/// and every stored document.
pub open spec fn read_table_view(t: TableView) -> JsonView {
    JsonView::Obj(
        seq![
            ("table_name"@, JsonView::Text(t.table_name)),
            ("primary_key"@, key_desc_view(t.primary_key)),
            ("sort_key"@, key_desc_view(t.sort_key)),
            ("data"@, JsonView::Arr(all_docs(t.data))),
        ],
    )
}

proof fn lemma_all_docs_split(data: Seq<(KeyValView, Seq<(KeyValView, JsonView)>)>, i: int)
    requires
        0 <= i < data.len(),
    ensures
        all_docs(data.skip(i)) == row_docs(data[i].1) + all_docs(data.skip(i + 1)),
{
    let tail = data.skip(i);
    assert(tail[0] == data[i]);
    assert(tail.skip(1) =~= data.skip(i + 1));
}


/// The key a descriptor object declares: its `name` string, and the
/// datatype its `datatype` string denotes.
pub open spec fn key_from_desc(desc: JsonView) -> KeyView {
    KeyView {
        name: match spec_get(desc, "name"@) {
            Some(JsonView::Text(s)) => s,
            _ => Seq::empty(),
        },
        datatype: match spec_get(desc, "datatype"@) {
            Some(JsonView::Text(s)) => crate::keys::dt_of_name(s),
            _ => KeyValView::Null,
        },
    }
}

/// What bulk-loading a document list into `acc` yields: each document in
/// order is bound to its own extracted pair, the last document of a pair
/// winning; the first extraction failure is the result.
pub open spec fn bulk_load_rec(
    pk: KeyView,
    sk: KeyView,
    docs: Seq<JsonView>,
    acc: Seq<(KeyValView, Seq<(KeyValView, JsonView)>)>,
) -> Result<Seq<(KeyValView, Seq<(KeyValView, JsonView)>)>, DbErrorView>
    decreases docs.len(),
{
    if docs.len() == 0 {
        Ok(acc)
    } else {
        match extract_pair(pk, sk, docs[0]) {
            Err(e) => Err(e),
            Ok(ps) => bulk_load_rec(pk, sk, docs.skip(1), data_insert(acc, ps.0, ps.1, docs[0])),
        }
    }
}

/// What loading a definition's `data` array yields: `MissingFields` when
/// the field is absent, `BadInput` when it is not an array, else the
/// bulk load of its documents into an empty structure.
pub open spec fn load_spec(pk: KeyView, sk: KeyView, info: JsonView) -> Result<
    Seq<(KeyValView, Seq<(KeyValView, JsonView)>)>,
    DbErrorView,
> {
    match spec_get(info, "data"@) {
        None => Err(DbErrorView::MissingFields("Must contain field data"@)),
        Some(d) => if !(d is Arr) {
            Err(DbErrorView::BadInput("data must be valid JSON array"@))
        } else {
            bulk_load_rec(pk, sk, d->Arr_0, Seq::empty())
        },
    }
}

/// What building a table from a definition payload yields: the payload
/// must carry a string `table_name` and two key descriptors; an embedded
/// `data` array is bulk-loaded, and any failure there leaves the new
/// table empty rather than failing it.
pub open spec fn table_new_spec(info: JsonView) -> Result<TableView, DbErrorView> {
    match crate::validation::spec_check_string_fields(info, seq!["table_name"@]) {
        Err(e) => Err(e),
        Ok(_) => match crate::validation::spec_check_key_fields(
            info,
            seq!["primary_key"@, "sort_key"@],
        ) {
            Err(e) => Err(e),
            Ok(_) => {
                let name = match spec_get(info, "table_name"@) {
                    Some(JsonView::Text(s)) => s,
                    _ => Seq::empty(),
                };
                let pk = key_from_desc(
                    match spec_get(info, "primary_key"@) {
                        Some(d) => d,
                        None => JsonView::Null,
                    },
                );
                let sk = key_from_desc(
                    match spec_get(info, "sort_key"@) {
                        Some(d) => d,
                        None => JsonView::Null,
                    },
                );
                let data = match load_spec(pk, sk, info) {
                    Ok(d) => d,
                    Err(_) => Seq::empty(),
                };
                Ok(TableView { table_name: name, primary_key: pk, sort_key: sk, data })
            },
        },
    }
}

/// The key a validated descriptor field declares.
fn parse_key_desc(info: &JsonValue, field: &str) -> (k: Key)
    requires
        spec_get(info@, field@) matches Some(d) && d is Obj
            && crate::validation::spec_check_string_fields(
            d,
            seq!["name"@, "datatype"@],
        ) is Ok,
    ensures
        k@ == key_from_desc(spec_get(info@, field@)->Some_0),
{
    let desc = match info.get(field) {
        Some(d) => d,
        None => unreached(),
    };
    proof {
        crate::validation::lemma_check_string_fields_ok(desc@, seq!["name"@, "datatype"@]);
        assert(seq!["name"@, "datatype"@][0] == "name"@);
        assert(seq!["name"@, "datatype"@][1] == "datatype"@);
    }
    let nm: String = match desc.get("name") {
        Some(v) => match v.as_str() {
            Some(s) => s.to_owned(),
            None => unreached(),
        },
        None => unreached(),
    };
    let dt: KeyDatatype = match desc.get("datatype") {
        Some(v) => match v.as_str() {
            Some(s) => KeyDatatype::from_str(s),
            None => unreached(),
        },
        None => unreached(),
    };
    Key { name: nm, datatype: dt }
}


/// Law: a document bound by a create is read back unchanged.
pub proof fn lemma_create_then_read(
    m: Map<KeyValView, Map<KeyValView, JsonView>>,
    p: KeyValView,
    s: KeyValView,
    d: JsonView,
)
    ensures
        read_doc_spec(create_doc_spec(m, p, s, d), p, s) == d,
{
}

/// Law: a create touches no other key pair, so a stored document stays
/// readable unchanged until it is itself overwritten or deleted.
pub proof fn lemma_create_preserves_others(
    m: Map<KeyValView, Map<KeyValView, JsonView>>,
    p: KeyValView,
    s: KeyValView,
    d: JsonView,
    p2: KeyValView,
    s2: KeyValView,
)
    requires
        p2 != p || s2 != s,
    ensures
        read_doc_spec(create_doc_spec(m, p, s, d), p2, s2) == read_doc_spec(m, p2, s2),
{
}

/// Law: creating the same document twice at the same pair leaves the
/// state of one create; the upsert is idempotent.
pub proof fn lemma_create_idempotent(
    m: Map<KeyValView, Map<KeyValView, JsonView>>,
    p: KeyValView,
    s: KeyValView,
    d: JsonView,
)
    ensures
        create_doc_spec(create_doc_spec(m, p, s, d), p, s, d) == create_doc_spec(m, p, s, d),
{
    assert(create_doc_spec(create_doc_spec(m, p, s, d), p, s, d) =~~= create_doc_spec(
        m,
        p,
        s,
        d,
    ));
}

/// Law: creating twice at one pair with two documents leaves the second
/// stored, exactly as one create of the second.
pub proof fn lemma_create_overwrites(
    m: Map<KeyValView, Map<KeyValView, JsonView>>,
    p: KeyValView,
    s: KeyValView,
    d1: JsonView,
    d2: JsonView,
)
    ensures
        create_doc_spec(create_doc_spec(m, p, s, d1), p, s, d2) == create_doc_spec(m, p, s, d2),
{
    assert(create_doc_spec(create_doc_spec(m, p, s, d1), p, s, d2) =~~= create_doc_spec(
        m,
        p,
        s,
        d2,
    ));
}

/// Law: after a delete, reading the pair yields the null sentinel.
pub proof fn lemma_delete_then_read(
    m: Map<KeyValView, Map<KeyValView, JsonView>>,
    p: KeyValView,
    s: KeyValView,
)
    ensures
        read_doc_spec(delete_doc_spec(m, p, s), p, s) == JsonView::Null,
{
}

/// Law: after an update, reading the pair yields the stored document
/// with the patch's fields merged in.
pub proof fn lemma_update_then_read(
    m: Map<KeyValView, Map<KeyValView, JsonView>>,
    p: KeyValView,
    s: KeyValView,
    patch: JsonView,
)
    ensures
        read_doc_spec(update_doc_spec(m, p, s, patch), p, s) == merge_doc(
            update_base(m, p, s),
            patch,
        ),
{
    lemma_create_then_read(m, p, s, merge_doc(update_base(m, p, s), patch));
}

/// Law: creates into two distinct partitions commute; neither loses the
/// other's write.
pub proof fn lemma_create_commutes_partitions(
    m: Map<KeyValView, Map<KeyValView, JsonView>>,
    p1: KeyValView,
    s1: KeyValView,
    d1: JsonView,
    p2: KeyValView,
    s2: KeyValView,
    d2: JsonView,
)
    requires
        p1 != p2,
    ensures
        create_doc_spec(create_doc_spec(m, p1, s1, d1), p2, s2, d2) == create_doc_spec(
            create_doc_spec(m, p2, s2, d2),
            p1,
            s1,
            d1,
        ),
{
    assert(create_doc_spec(create_doc_spec(m, p1, s1, d1), p2, s2, d2) =~~= create_doc_spec(
        create_doc_spec(m, p2, s2, d2),
        p1,
        s1,
        d1,
    ));
}

/// Law: creates at two distinct sort values of one partition commute;
/// neither loses the other's write.
pub proof fn lemma_create_commutes_sort_values(
    m: Map<KeyValView, Map<KeyValView, JsonView>>,
    p: KeyValView,
    s1: KeyValView,
    d1: JsonView,
    s2: KeyValView,
    d2: JsonView,
)
    requires
        s1 != s2,
    ensures
        create_doc_spec(create_doc_spec(m, p, s1, d1), p, s2, d2) == create_doc_spec(
            create_doc_spec(m, p, s2, d2),
            p,
            s1,
            d1,
        ),
{
    assert(create_doc_spec(create_doc_spec(m, p, s1, d1), p, s2, d2) =~~= create_doc_spec(
        create_doc_spec(m, p, s2, d2),
        p,
        s1,
        d1,
    ));
}


proof fn lemma_bulk_concat(
    pk: KeyView,
    sk: KeyView,
    d1: Seq<JsonView>,
    d2: Seq<JsonView>,
    acc: Seq<(KeyValView, Seq<(KeyValView, JsonView)>)>,
)
    ensures
        bulk_load_rec(pk, sk, d1 + d2, acc) == match bulk_load_rec(pk, sk, d1, acc) {
            Err(e) => Err(e),
            Ok(m) => bulk_load_rec(pk, sk, d2, m),
        },
    decreases d1.len(),
{
    if d1.len() == 0 {
        assert(d1 + d2 =~= d2);
    } else {
        assert((d1 + d2)[0] == d1[0]);
        match extract_pair(pk, sk, d1[0]) {
            Err(_) => {
            },
            Ok(ps) => {
                lemma_bulk_concat(
                    pk,
                    sk,
                    d1.skip(1),
                    d2,
                    data_insert(acc, ps.0, ps.1, d1[0]),
                );
                assert((d1 + d2).skip(1) =~= d1.skip(1) + d2);
            },
        }
    }
}

proof fn lemma_reload_rows(
    pk: KeyView,
    sk: KeyView,
    p: KeyValView,
    done: Seq<(KeyValView, Seq<(KeyValView, JsonView)>)>,
    prefix: Seq<(KeyValView, JsonView)>,
    rest: Seq<(KeyValView, JsonView)>,
)
    requires
        forall|i: int| 0 <= i < done.len() ==> (#[trigger] done[i]).0 != p,
        forall|k: int|
            0 <= k < rest.len() ==> spec_extract(pk, (#[trigger] rest[k]).1) == Ok::<
                _,
                DbErrorView,
            >(p),
        forall|k: int|
            0 <= k < rest.len() ==> spec_extract(sk, (#[trigger] rest[k]).1) == Ok::<
                _,
                DbErrorView,
            >(rest[k].0),
        forall|i: int, k: int|
            0 <= i < prefix.len() && 0 <= k < rest.len() ==> kv_lt(prefix[i].0, rest[k].0),
        forall|i: int, k: int| 0 <= i < k < rest.len() ==> kv_lt(rest[i].0, rest[k].0),
    ensures
        bulk_load_rec(pk, sk, row_docs(rest), done + seq![(p, prefix)]) == Ok::<_, DbErrorView>(
            done + seq![(p, prefix + rest)],
        ),
    decreases rest.len(),
{
    let acc = done + seq![(p, prefix)];
    if rest.len() == 0 {
        assert(prefix + rest =~= prefix);
        assert(bulk_load_rec(pk, sk, row_docs(rest), acc) == Ok::<_, DbErrorView>(acc));
    } else {
        let s0 = rest[0].0;
        let d0 = rest[0].1;
        assert(row_docs(rest)[0] == d0);
        assert(extract_pair(pk, sk, d0) == Ok::<_, DbErrorView>((p, s0)));
        assert(acc[done.len() as int] == (p, prefix));
        lemma_data_insert_found(acc, p, s0, d0, done.len() as int);
        lemma_rows_insert_end(prefix, s0, d0);
        assert(prefix.push((s0, d0)) =~= prefix.push(rest[0]));
        assert(acc.update(done.len() as int, (p, prefix.push(rest[0]))) =~= done + seq![
            (p, prefix.push(rest[0])),
        ]);
        let prefix2 = prefix.push(rest[0]);
        let rest2 = rest.skip(1);
        assert(forall|k: int| 0 <= k < rest2.len() ==> #[trigger] rest2[k] == rest[k + 1]);
        lemma_reload_rows(pk, sk, p, done, prefix2, rest2);
        assert(row_docs(rest).skip(1) =~= row_docs(rest2));
        assert(prefix2 + rest2 =~= prefix + rest);
    }
}

proof fn lemma_reload_parts(
    pk: KeyView,
    sk: KeyView,
    done: Seq<(KeyValView, Seq<(KeyValView, JsonView)>)>,
    rest: Seq<(KeyValView, Seq<(KeyValView, JsonView)>)>,
)
    requires
        forall|i: int, j: int|
            0 <= i < done.len() && 0 <= j < rest.len() ==> (#[trigger] done[i]).0 != (
            #[trigger] rest[j]).0,
        forall|i: int, j: int| 0 <= i < j < rest.len() ==> rest[i].0 != rest[j].0,
        forall|j: int| 0 <= j < rest.len() ==> (#[trigger] rest[j]).1.len() > 0,
        forall|j: int|
            0 <= j < rest.len() ==> rows_wf((#[trigger] rest[j]).1, pk, sk, rest[j].0),
    ensures
        bulk_load_rec(pk, sk, all_docs(rest), done) == Ok::<_, DbErrorView>(done + rest),
    decreases rest.len(),
{
    if rest.len() == 0 {
        assert(done + rest =~= done);
        assert(all_docs(rest) =~= Seq::<JsonView>::empty());
    } else {
        let p = rest[0].0;
        let rows = rest[0].1;
        assert(rows_wf(rows, pk, sk, p));
        assert(all_docs(rest) == row_docs(rows) + all_docs(rest.skip(1)));
        lemma_bulk_concat(pk, sk, row_docs(rows), all_docs(rest.skip(1)), done);
        // first: bulk over this partition's documents
        let s0 = rows[0].0;
        let d0 = rows[0].1;
        assert(row_docs(rows)[0] == d0);
        assert(extract_pair(pk, sk, d0) == Ok::<_, DbErrorView>((p, s0)));
        lemma_data_insert_new(done, p, s0, d0);
        assert(done.push((p, seq![(s0, d0)])) =~= done + seq![(p, seq![rows[0]])]);
        let rows2 = rows.skip(1);
        assert(forall|k: int| 0 <= k < rows2.len() ==> #[trigger] rows2[k] == rows[k + 1]);
        lemma_reload_rows(pk, sk, p, done, seq![rows[0]], rows2);
        assert(row_docs(rows).skip(1) =~= row_docs(rows2));
        assert(seq![rows[0]] + rows2 =~= rows);
        assert(bulk_load_rec(pk, sk, row_docs(rows), done) == Ok::<_, DbErrorView>(
            done + seq![(p, rows)],
        ));
        // then: the remaining partitions
        let done2 = done + seq![(p, rows)];
        assert(done2 =~= done.push(rest[0]));
        let rest2 = rest.skip(1);
        assert(forall|k: int| 0 <= k < rest2.len() ==> #[trigger] rest2[k] == rest[k + 1]);
        lemma_reload_parts(pk, sk, done2, rest2);
        assert(done2 + rest2 =~= done + rest);
    }
}

/// Law: a table written out whole and rebuilt from its own snapshot is
/// recovered exactly: same name, same key descriptors, same documents.
pub proof fn lemma_table_round_trip(t: TableView)
    requires
        tv_wf(t),
    ensures
        table_new_spec(read_table_view(t)) == Ok::<_, DbErrorView>(t),
{
    reveal_strlit("table_name");
    reveal_strlit("primary_key");
    reveal_strlit("sort_key");
    reveal_strlit("data");
    reveal_strlit("name");
    reveal_strlit("datatype");
    assert("table_name"@.len() == 10);
    assert("primary_key"@.len() == 11);
    assert("sort_key"@.len() == 8);
    assert("data"@.len() == 4);
    assert("name"@.len() == 4);
    assert("datatype"@.len() == 8);
    let rt = read_table_view(t);
    let fields = rt->Obj_0;
    reveal_with_fuel(obj_get, 6);
    reveal_with_fuel(crate::validation::spec_check_string_fields, 4);
    reveal_with_fuel(crate::validation::spec_check_key_fields, 4);
    assert(fields[0] == ("table_name"@, JsonView::Text(t.table_name)));
    assert(fields[1] == ("primary_key"@, key_desc_view(t.primary_key)));
    assert(fields[2] == ("sort_key"@, key_desc_view(t.sort_key)));
    assert(fields[3] == ("data"@, JsonView::Arr(all_docs(t.data))));
    assert(fields.skip(1)[0] == fields[1]);
    assert(fields.skip(1).skip(1)[0] == fields[2]);
    assert(fields.skip(1).skip(1).skip(1)[0] == fields[3]);
    assert(spec_get(rt, "table_name"@) == Some(JsonView::Text(t.table_name)));
    assert(spec_get(rt, "primary_key"@) == Some(key_desc_view(t.primary_key)));
    assert(spec_get(rt, "sort_key"@) == Some(key_desc_view(t.sort_key)));
    assert(spec_get(rt, "data"@) == Some(JsonView::Arr(all_docs(t.data))));
    // the name check
    assert(seq!["table_name"@].skip(1) =~= Seq::<Seq<char>>::empty());
    assert(crate::validation::spec_check_string_fields(rt, seq!["table_name"@]) is Ok);
    // the descriptor checks
    lemma_key_desc_checks(t.primary_key);
    lemma_key_desc_checks(t.sort_key);
    assert(seq!["primary_key"@, "sort_key"@].skip(1) =~= seq!["sort_key"@]);
    assert(seq!["sort_key"@].skip(1) =~= Seq::<Seq<char>>::empty());
    assert(crate::validation::spec_check_key_fields(
        rt,
        seq!["primary_key"@, "sort_key"@],
    ) is Ok);
    // the key descriptors parse back to the keys themselves
    crate::keys::lemma_dt_name_round_trip(t.primary_key.datatype);
    crate::keys::lemma_dt_name_round_trip(t.sort_key.datatype);
    assert(key_from_desc(key_desc_view(t.primary_key)) == t.primary_key);
    assert(key_from_desc(key_desc_view(t.sort_key)) == t.sort_key);
    // the data array reloads to the same partitions
    lemma_reload_parts(t.primary_key, t.sort_key, Seq::empty(), t.data);
    assert(Seq::empty() + t.data =~= t.data);
    assert(load_spec(t.primary_key, t.sort_key, rt) == Ok::<_, DbErrorView>(t.data));
    match table_new_spec(rt) {
        Ok(tv) => {
            assert(tv.table_name == t.table_name);
            assert(tv.primary_key == t.primary_key);
            assert(tv.sort_key == t.sort_key);
            assert(tv.data == t.data);
        },
        Err(_) => {
            assert(false);
        },
    }
}

proof fn lemma_key_desc_checks(k: KeyView)
    ensures
        key_desc_view(k) is Obj,
        crate::validation::spec_check_string_fields(
            key_desc_view(k),
            seq!["name"@, "datatype"@],
        ) is Ok,
{
    reveal_strlit("name");
    reveal_strlit("datatype");
    assert("name"@.len() == 4);
    assert("datatype"@.len() == 8);
    let desc = key_desc_view(k);
    let fields = desc->Obj_0;
    reveal_with_fuel(obj_get, 4);
    reveal_with_fuel(crate::validation::spec_check_string_fields, 4);
    assert(fields[0] == ("name"@, JsonView::Text(k.name)));
    assert(fields[1] == ("datatype"@, JsonView::Text(dt_name(k.datatype))));
    assert(fields.skip(1)[0] == fields[1]);
    assert(spec_get(desc, "name"@) == Some(JsonView::Text(k.name)));
    assert(spec_get(desc, "datatype"@) == Some(JsonView::Text(dt_name(k.datatype))));
    assert(seq!["name"@, "datatype"@].skip(1) =~= seq!["datatype"@]);
    assert(seq!["datatype"@].skip(1) =~= Seq::<Seq<char>>::empty());
}

} // verus!
