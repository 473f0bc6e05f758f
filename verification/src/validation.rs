use vstd::prelude::*;
use crate::errors::DbError;
use crate::errors::DbErrorView;
use crate::errors::unit_res_view;
use crate::json::JsonValue;
use crate::json::JsonView;
use crate::json::spec_get;

verus! {

/// The detail string reporting an absent field.
pub open spec fn msg_missing(field: Seq<char>) -> Seq<char> {
    field + " field is missing or null"@
}

/// The detail string reporting a field that is not a string.
pub open spec fn msg_not_string(field: Seq<char>) -> Seq<char> {
    field + " field must be a string"@
}

/// The detail string reporting a field that is not an object.
pub open spec fn msg_not_object(field: Seq<char>) -> Seq<char> {
    field + " must be a valid JSON object"@
}

/// The views of a list of field names.
pub open spec fn strs_view(fields: Seq<&str>) -> Seq<Seq<char>> {
    Seq::new(fields.len(), |i: int| fields[i]@)
}

/// What requiring string fields of a document yields: walking the names
/// in order, the first absent one gives `MissingFields`, the first
/// non-string one gives `BadInput`; `Ok` when every named field is a
/// string.
pub open spec fn spec_check_string_fields(doc: JsonView, fields: Seq<Seq<char>>) -> Result<
    (),
    DbErrorView,
>
    decreases fields.len(),
{
    if fields.len() == 0 {
        Ok(())
    } else {
        match spec_get(doc, fields[0]) {
            None => Err(DbErrorView::MissingFields(msg_missing(fields[0]))),
            Some(v) => if !(v is Text) {
                Err(DbErrorView::BadInput(msg_not_string(fields[0])))
            } else {
                spec_check_string_fields(doc, fields.skip(1))
            },
        }
    }
}

/// What requiring key-descriptor fields of a document yields: each named
/// field must exist (`MissingFields`), be an object (`BadInput`), and
/// carry string fields `name` and `datatype`, checked as
/// `spec_check_string_fields` does.
pub open spec fn spec_check_key_fields(doc: JsonView, fields: Seq<Seq<char>>) -> Result<
    (),
    DbErrorView,
>
    decreases fields.len(),
{
    if fields.len() == 0 {
        Ok(())
    } else {
        match spec_get(doc, fields[0]) {
            None => Err(DbErrorView::MissingFields(msg_missing(fields[0]))),
            Some(v) => if !(v is Obj) {
                Err(DbErrorView::BadInput(msg_not_object(fields[0])))
            } else {
                match spec_check_string_fields(v, seq!["name"@, "datatype"@]) {
                    Err(e) => Err(e),
                    Ok(_) => spec_check_key_fields(doc, fields.skip(1)),
                }
            },
        }
    }
}

proof fn lemma_check_string_skip(doc: JsonView, fields: Seq<Seq<char>>, i: int)
    requires
        0 <= i <= fields.len(),
        forall|j: int|
            0 <= j < i ==> (#[trigger] spec_get(doc, fields[j]) matches Some(v) && v is Text),
    ensures
        spec_check_string_fields(doc, fields) == spec_check_string_fields(doc, fields.skip(i)),
    decreases i,
{
    if i == 0 {
        assert(fields.skip(0) =~= fields);
    } else {
        lemma_check_string_skip(doc, fields.skip(1), i - 1);
        assert(fields.skip(1).skip(i - 1) =~= fields.skip(i));
    }
}

proof fn lemma_check_key_skip(doc: JsonView, fields: Seq<Seq<char>>, i: int)
    requires
        0 <= i <= fields.len(),
        forall|j: int|
            0 <= j < i ==> (#[trigger] spec_get(doc, fields[j]) matches Some(v) && v is Obj
                && spec_check_string_fields(v, seq!["name"@, "datatype"@]) is Ok),
    ensures
        spec_check_key_fields(doc, fields) == spec_check_key_fields(doc, fields.skip(i)),
    decreases i,
{
    if i == 0 {
        assert(fields.skip(0) =~= fields);
    } else {
        lemma_check_key_skip(doc, fields.skip(1), i - 1);
        assert(fields.skip(1).skip(i - 1) =~= fields.skip(i));
    }
}

fn msg_missing_exec(field: &str) -> (r: String)
    ensures
        r@ == msg_missing(field@),
{
    let mut s: String = field.to_owned();
    s.append(" field is missing or null");
    s
}

/// Requires each named field to exist in the payload and be a string.
#[verifier::loop_isolation(false)]
pub fn check_string_fields_exist(value: &JsonValue, fields: &[&str]) -> (r: Result<(), DbError>)
    ensures
        unit_res_view(r) == spec_check_string_fields(value@, strs_view(fields@)),
{
    let ghost gnames = strs_view(fields@);
    let n = fields.len();
    let mut i: usize = 0;
    while i < n
        invariant
            0 <= i <= n,
            forall|j: int|
                0 <= j < i ==> (#[trigger] spec_get(value@, gnames[j]) matches Some(v)
                    && v is Text),
        decreases n - i,
    {
        let field = fields[i];
        match value.get(field) {
            None => {
                proof {
                    lemma_check_string_skip(value@, gnames, i as int);
                }
                return Err(DbError::MissingFields(msg_missing_exec(field)));
            },
            Some(got) => {
                if !got.is_string() {
                    proof {
                        lemma_check_string_skip(value@, gnames, i as int);
                    }
                    let mut s: String = field.to_owned();
                    s.append(" field must be a string");
                    return Err(DbError::BadInput(s));
                }
            },
        }
        i += 1;
    }
    proof {
        lemma_check_string_skip(value@, gnames, n as int);
    }
    Ok(())
}

/// Requires each named field to exist in the payload and be a key
/// descriptor: an object carrying string fields `name` and `datatype`.
#[verifier::loop_isolation(false)]
pub fn check_key_fields_exist(value: &JsonValue, fields: &[&str]) -> (r: Result<(), DbError>)
    ensures
        unit_res_view(r) == spec_check_key_fields(value@, strs_view(fields@)),
{
    let ghost gnames = strs_view(fields@);
    let n = fields.len();
    let mut i: usize = 0;
    while i < n
        invariant
            0 <= i <= n,
            forall|j: int|
                0 <= j < i ==> (#[trigger] spec_get(value@, gnames[j]) matches Some(v) && v is Obj
                    && spec_check_string_fields(v, seq!["name"@, "datatype"@]) is Ok),
        decreases n - i,
    {
        let field = fields[i];
        match value.get(field) {
            None => {
                proof {
                    lemma_check_key_skip(value@, gnames, i as int);
                }
                return Err(DbError::MissingFields(msg_missing_exec(field)));
            },
            Some(key_obj) => {
                if !key_obj.is_object() {
                    proof {
                        lemma_check_key_skip(value@, gnames, i as int);
                    }
                    let mut s: String = field.to_owned();
                    s.append(" must be a valid JSON object");
                    return Err(DbError::BadInput(s));
                }
                let inner: [&str; 2] = ["name", "datatype"];
                let checked = check_string_fields_exist(key_obj, inner.as_slice());
                proof {
                    assert(strs_view(inner@) =~= seq!["name"@, "datatype"@]);
                }
                if let Err(e) = checked {
                    proof {
                        lemma_check_key_skip(value@, gnames, i as int);
                    }
                    return Err(e);
                }
            },
        }
        i += 1;
    }
    proof {
        lemma_check_key_skip(value@, gnames, n as int);
    }
    Ok(())
}


/// A passed string-fields check means each named field is a string.
pub proof fn lemma_check_string_fields_ok(doc: JsonView, fields: Seq<Seq<char>>)
    requires
        spec_check_string_fields(doc, fields) is Ok,
    ensures
        forall|j: int|
            0 <= j < fields.len() ==> (#[trigger] spec_get(doc, fields[j]) matches Some(v)
                && v is Text),
    decreases fields.len(),
{
    if fields.len() > 0 {
        let tail = fields.skip(1);
        lemma_check_string_fields_ok(doc, tail);
        assert(forall|j: int| 0 <= j < tail.len() ==> #[trigger] tail[j] == fields[j + 1]);
        assert forall|j: int|
            0 <= j < fields.len() implies (#[trigger] spec_get(doc, fields[j]) matches Some(v)
                && v is Text) by {
            if j > 0 {
                assert(tail[j - 1] == fields[j]);
                assert(spec_get(doc, tail[j - 1]) matches Some(v) && v is Text);
            }
        }
    }
}

/// A passed key-fields check means each named field is an object whose
/// `name` and `datatype` fields are strings.
pub proof fn lemma_check_key_fields_ok(doc: JsonView, fields: Seq<Seq<char>>)
    requires
        spec_check_key_fields(doc, fields) is Ok,
    ensures
        forall|j: int|
            0 <= j < fields.len() ==> (#[trigger] spec_get(doc, fields[j]) matches Some(v)
                && v is Obj && spec_check_string_fields(v, seq!["name"@, "datatype"@]) is Ok),
    decreases fields.len(),
{
    if fields.len() > 0 {
        let tail = fields.skip(1);
        lemma_check_key_fields_ok(doc, tail);
        assert(forall|j: int| 0 <= j < tail.len() ==> #[trigger] tail[j] == fields[j + 1]);
        assert forall|j: int|
            0 <= j < fields.len() implies (#[trigger] spec_get(doc, fields[j]) matches Some(v)
                && v is Obj && spec_check_string_fields(v, seq!["name"@, "datatype"@]) is Ok) by {
            if j > 0 {
                assert(tail[j - 1] == fields[j]);
                assert(spec_get(doc, tail[j - 1]) matches Some(v) && v is Obj
                    && spec_check_string_fields(v, seq!["name"@, "datatype"@]) is Ok);
            }
        }
    }
}

} // verus!
