use vstd::prelude::*;
use crate::errors::DbError;
use crate::errors::DbErrorView;
use crate::errors::unit_res_view;
use crate::json::JsonValue;
use crate::json::JsonView;
use crate::json::spec_get;
use crate::json::view_is_i64;
use crate::json::view_is_u64;

verus! {

/// The closed, typed key value: a tag naming one of the admitted key
/// datatypes, carrying a concrete value of that kind. Equality and order
/// are meaningful within one variant only; every table fixes one variant
/// per key role, so values of two variants never meet.
#[derive(Debug)]
pub enum KeyDatatype {
    Null(()),
    Boolean(bool),
    SignedInt(i64),
    UnsignedInt(u64),
    Text(String),
}

/// Ghost twin of `KeyDatatype` over mathematical values.
pub enum KeyValView {
    Null,
    Boolean(bool),
    SignedInt(int),
    UnsignedInt(int),
    Text(Seq<char>),
}

impl View for KeyDatatype {
    type V = KeyValView;

    open spec fn view(&self) -> KeyValView {
        match self {
            KeyDatatype::Null(_) => KeyValView::Null,
            KeyDatatype::Boolean(b) => KeyValView::Boolean(*b),
            KeyDatatype::SignedInt(n) => KeyValView::SignedInt(*n as int),
            KeyDatatype::UnsignedInt(n) => KeyValView::UnsignedInt(*n as int),
            KeyDatatype::Text(s) => KeyValView::Text(s@),
        }
    }
}

/// Names a document field and the datatype every value of that field
/// must have, for one key role (partition or sort) of one table.
pub struct Key {
    pub name: String,
    pub datatype: KeyDatatype,
}

/// Ghost twin of `Key`.
pub struct KeyView {
    pub name: Seq<char>,
    pub datatype: KeyValView,
}

impl View for Key {
    type V = KeyView;

    open spec fn view(&self) -> KeyView {
        KeyView { name: self.name@, datatype: self.datatype@ }
    }
}

/// The wire name of a datatype, as table definitions spell it.
pub open spec fn dt_name(v: KeyValView) -> Seq<char> {
    match v {
        KeyValView::Null => "Null"@,
        KeyValView::Boolean(_) => "Boolean"@,
        KeyValView::SignedInt(_) => "SignedInt"@,
        KeyValView::UnsignedInt(_) => "UnsignedInt"@,
        KeyValView::Text(_) => "String"@,
    }
}

/// The numeric tag of a datatype.
pub open spec fn dt_code(v: KeyValView) -> int {
    match v {
        KeyValView::Null => 0,
        KeyValView::Boolean(_) => 1,
        KeyValView::SignedInt(_) => 2,
        KeyValView::UnsignedInt(_) => 3,
        KeyValView::Text(_) => 5,
    }
}

/// The datatype a numeric tag denotes, with its default value;
/// an unknown tag denotes `Null`.
pub open spec fn dt_of_code(n: int) -> KeyValView {
    if n == 1 {
        KeyValView::Boolean(false)
    } else if n == 2 {
        KeyValView::SignedInt(0)
    } else if n == 3 {
        KeyValView::UnsignedInt(0)
    } else if n == 5 {
        KeyValView::Text(Seq::empty())
    } else {
        KeyValView::Null
    }
}

/// The datatype a wire name denotes, with its default value;
/// an unknown name denotes `Null`.
pub open spec fn dt_of_name(s: Seq<char>) -> KeyValView {
    if s == "Boolean"@ {
        KeyValView::Boolean(false)
    } else if s == "UnsignedInt"@ {
        KeyValView::UnsignedInt(0)
    } else if s == "SignedInt"@ {
        KeyValView::SignedInt(0)
    } else if s == "String"@ {
        KeyValView::Text(Seq::empty())
    } else {
        KeyValView::Null
    }
}

/// Two key values of the same variant.
pub open spec fn same_variant(a: KeyValView, b: KeyValView) -> bool {
    match (a, b) {
        (KeyValView::Null, KeyValView::Null) => true,
        (KeyValView::Boolean(_), KeyValView::Boolean(_)) => true,
        (KeyValView::SignedInt(_), KeyValView::SignedInt(_)) => true,
        (KeyValView::UnsignedInt(_), KeyValView::UnsignedInt(_)) => true,
        (KeyValView::Text(_), KeyValView::Text(_)) => true,
        _ => false,
    }
}

/// The default value of a datatype's variant: what a parsed key
/// descriptor carries.
pub open spec fn canon(v: KeyValView) -> KeyValView {
    match v {
        KeyValView::Null => KeyValView::Null,
        KeyValView::Boolean(_) => KeyValView::Boolean(false),
        KeyValView::SignedInt(_) => KeyValView::SignedInt(0),
        KeyValView::UnsignedInt(_) => KeyValView::UnsignedInt(0),
        KeyValView::Text(_) => KeyValView::Text(Seq::empty()),
    }
}

/// Strict lexicographic order on character sequences, by code point.
pub open spec fn lex_lt(a: Seq<char>, b: Seq<char>) -> bool
    decreases a.len(),
{
    if b.len() == 0 {
        false
    } else if a.len() == 0 {
        true
    } else if a[0] != b[0] {
        (a[0] as int) < (b[0] as int)
    } else {
        lex_lt(a.skip(1), b.skip(1))
    }
}

/// Strict order on key values, defined within one variant: the natural
/// order on booleans, integers and text. Values of two variants are
/// never related.
pub open spec fn kv_lt(a: KeyValView, b: KeyValView) -> bool {
    match (a, b) {
        (KeyValView::Boolean(x), KeyValView::Boolean(y)) => !x && y,
        (KeyValView::SignedInt(x), KeyValView::SignedInt(y)) => x < y,
        (KeyValView::UnsignedInt(x), KeyValView::UnsignedInt(y)) => x < y,
        (KeyValView::Text(x), KeyValView::Text(y)) => lex_lt(x, y),
        _ => false,
    }
}

pub proof fn lemma_lex_lt_irrefl(a: Seq<char>)
    ensures
        !lex_lt(a, a),
    decreases a.len(),
{
    if a.len() > 0 {
        lemma_lex_lt_irrefl(a.skip(1));
    }
}

pub proof fn lemma_lex_trichotomy(a: Seq<char>, b: Seq<char>)
    ensures
        lex_lt(a, b) || lex_lt(b, a) || a == b,
    decreases a.len(),
{
    if a.len() == 0 && b.len() == 0 {
        assert(a =~= b);
    } else if a.len() > 0 && b.len() > 0 && a[0] == b[0] {
        lemma_lex_trichotomy(a.skip(1), b.skip(1));
        if a.skip(1) == b.skip(1) {
            assert(a.skip(1).len() == b.skip(1).len());
            assert(a.len() == b.len());
            assert forall|i: int| 0 <= i < a.len() implies a[i] == b[i] by {
                if i > 0 {
                    assert(a.skip(1)[i - 1] == a[i]);
                    assert(b.skip(1)[i - 1] == b[i]);
                }
            }
            assert(a =~= b);
        }
    }
}

pub proof fn lemma_lex_lt_trans(a: Seq<char>, b: Seq<char>, c: Seq<char>)
    requires
        lex_lt(a, b),
        lex_lt(b, c),
    ensures
        lex_lt(a, c),
    decreases a.len() + b.len() + c.len(),
{
    if a.len() > 0 && b.len() > 0 && c.len() > 0 {
        if a[0] == b[0] && b[0] == c[0] {
            lemma_lex_lt_trans(a.skip(1), b.skip(1), c.skip(1));
        }
    }
}

/// Within one variant the strict order is irreflexive, connected and
/// transitive: a strict total order.
pub proof fn lemma_kv_lt_irrefl(a: KeyValView)
    ensures
        !kv_lt(a, a),
{
    if a is Text {
        lemma_lex_lt_irrefl(a->Text_0);
    }
}

pub proof fn lemma_kv_trichotomy(a: KeyValView, b: KeyValView)
    requires
        same_variant(a, b),
    ensures
        kv_lt(a, b) || kv_lt(b, a) || a == b,
{
    if a is Text && b is Text {
        lemma_lex_trichotomy(a->Text_0, b->Text_0);
    }
}

pub proof fn lemma_kv_lt_trans(a: KeyValView, b: KeyValView, c: KeyValView)
    requires
        kv_lt(a, b),
        kv_lt(b, c),
    ensures
        kv_lt(a, c),
{
    if a is Text && b is Text && c is Text {
        lemma_lex_lt_trans(a->Text_0, b->Text_0, c->Text_0);
    }
}

pub proof fn lemma_kv_lt_asym(a: KeyValView, b: KeyValView)
    requires
        kv_lt(a, b),
    ensures
        !kv_lt(b, a),
        a != b,
{
    if kv_lt(b, a) {
        lemma_kv_lt_trans(a, b, a);
        lemma_kv_lt_irrefl(a);
    }
    lemma_kv_lt_irrefl(a);
}

/// Equality of character sequences, decided on their owned copies.
pub fn str_eq(a: &str, b: &str) -> (r: bool)
    ensures
        r == (a@ == b@),
{
    let x: String = a.to_owned();
    let y: String = b.to_owned();
    x == y
}

/// Strict lexicographic comparison of character sequences.
#[verifier::loop_isolation(false)]
pub fn str_lt(a: &str, b: &str) -> (r: bool)
    ensures
        r == lex_lt(a@, b@),
{
    let alen = a.unicode_len();
    let blen = b.unicode_len();
    let mut i: usize = 0;
    proof {
        assert(a@.skip(0) =~= a@);
        assert(b@.skip(0) =~= b@);
    }
    loop
        invariant
            0 <= i <= alen,
            0 <= i <= blen,
            forall|j: int| 0 <= j < i ==> a@[j] == b@[j],
            lex_lt(a@, b@) == lex_lt(a@.skip(i as int), b@.skip(i as int)),
        decreases alen - i,
    {
        if i == alen {
            return i < blen;
        }
        if i == blen {
            return false;
        }
        let ca = a.get_char(i);
        let cb = b.get_char(i);
        if ca != cb {
            return (ca as u32) < (cb as u32);
        }
        proof {
            assert(a@.skip(i as int).skip(1) =~= a@.skip(i as int + 1));
            assert(b@.skip(i as int).skip(1) =~= b@.skip(i as int + 1));
        }
        i += 1;
    }
}

impl KeyDatatype {
    /// The wire name of this value's datatype.
    pub fn to_str(&self) -> (r: &str)
        ensures
            r@ == dt_name(self@),
    {
        match self {
            KeyDatatype::Null(_) => "Null",
            KeyDatatype::Boolean(_) => "Boolean",
            KeyDatatype::SignedInt(_) => "SignedInt",
            KeyDatatype::UnsignedInt(_) => "UnsignedInt",
            KeyDatatype::Text(_) => "String",
        }
    }

    /// The numeric tag of this value's datatype.
    pub fn to_int(&self) -> (r: u8)
        ensures
            r as int == dt_code(self@),
    {
        match self {
            KeyDatatype::Null(_) => 0,
            KeyDatatype::Boolean(_) => 1,
            KeyDatatype::SignedInt(_) => 2,
            KeyDatatype::UnsignedInt(_) => 3,
            KeyDatatype::Text(_) => 5,
        }
    }

    /// The datatype a numeric tag denotes, with its default value.
    pub fn from_int(n: u8) -> (r: Self)
        ensures
            r@ == dt_of_code(n as int),
    {
        if n == 1 {
            KeyDatatype::Boolean(false)
        } else if n == 2 {
            KeyDatatype::SignedInt(0)
        } else if n == 3 {
            KeyDatatype::UnsignedInt(0)
        } else if n == 5 {
            KeyDatatype::Text(String::new())
        } else {
            KeyDatatype::Null(())
        }
    }

    /// The datatype a wire name denotes, with its default value.
    pub fn from_str(s: &str) -> (r: Self)
        ensures
            r@ == dt_of_name(s@),
    {
        if str_eq(s, "Boolean") {
            KeyDatatype::Boolean(false)
        } else if str_eq(s, "UnsignedInt") {
            KeyDatatype::UnsignedInt(0)
        } else if str_eq(s, "SignedInt") {
            KeyDatatype::SignedInt(0)
        } else if str_eq(s, "String") {
            KeyDatatype::Text(String::new())
        } else {
            KeyDatatype::Null(())
        }
    }

    /// Equality of two key values: true exactly when the variants and
    /// their carried values agree.
    pub fn key_eq(&self, other: &KeyDatatype) -> (r: bool)
        ensures
            r == (self@ == other@),
    {
        match self {
            KeyDatatype::Null(_) => match other {
                KeyDatatype::Null(_) => true,
                _ => false,
            },
            KeyDatatype::Boolean(x) => match other {
                KeyDatatype::Boolean(y) => *x == *y,
                _ => false,
            },
            KeyDatatype::SignedInt(x) => match other {
                KeyDatatype::SignedInt(y) => *x == *y,
                _ => false,
            },
            KeyDatatype::UnsignedInt(x) => match other {
                KeyDatatype::UnsignedInt(y) => *x == *y,
                _ => false,
            },
            KeyDatatype::Text(x) => match other {
                KeyDatatype::Text(y) => str_eq(x.as_str(), y.as_str()),
                _ => false,
            },
        }
    }

    /// A copy of the key value, equal at the view level.
    pub fn dt_clone(&self) -> (r: KeyDatatype)
        ensures
            r@ == self@,
    {
        match self {
            KeyDatatype::Null(_) => KeyDatatype::Null(()),
            KeyDatatype::Boolean(b) => KeyDatatype::Boolean(*b),
            KeyDatatype::SignedInt(n) => KeyDatatype::SignedInt(*n),
            KeyDatatype::UnsignedInt(n) => KeyDatatype::UnsignedInt(*n),
            KeyDatatype::Text(s) => KeyDatatype::Text(s.clone()),
        }
    }

    /// Strict comparison of two key values, meaningful within one variant.
    pub fn key_lt(&self, other: &KeyDatatype) -> (r: bool)
        ensures
            r == kv_lt(self@, other@),
    {
        match self {
            KeyDatatype::Null(_) => false,
            KeyDatatype::Boolean(x) => match other {
                KeyDatatype::Boolean(y) => !*x && *y,
                _ => false,
            },
            KeyDatatype::SignedInt(x) => match other {
                KeyDatatype::SignedInt(y) => x < y,
                _ => false,
            },
            KeyDatatype::UnsignedInt(x) => match other {
                KeyDatatype::UnsignedInt(y) => x < y,
                _ => false,
            },
            KeyDatatype::Text(x) => match other {
                KeyDatatype::Text(y) => str_lt(x.as_str(), y.as_str()),
                _ => false,
            },
        }
    }
}

/// The detail string reporting a payload that is not an object.
pub open spec fn msg_bad_payload() -> Seq<char> {
    "Payload must be a valid JSON object!"@
}

/// The detail string reporting a key field that is absent or wrongly typed.
pub open spec fn msg_field_type(name: Seq<char>, dt: Seq<char>) -> Seq<char> {
    "Field "@ + name + " must exist and be of type "@ + dt + "."@
}

/// What checking a key against a document yields: `BadInput` when the
/// payload is not an object; for every datatype but `Null`, `MissingFields`
/// when the named field is absent or its value does not match the
/// datatype; `Ok` otherwise. A `Null` key asks nothing of the document.
pub open spec fn spec_validate(key: KeyView, doc: JsonView) -> Result<(), DbErrorView> {
    if !(doc is Obj) {
        Err(DbErrorView::BadInput(msg_bad_payload()))
    } else {
        let field_err = Err(
            DbErrorView::MissingFields(msg_field_type(key.name, dt_name(key.datatype))),
        );
        match key.datatype {
            KeyValView::Null => Ok(()),
            KeyValView::Boolean(_) => if spec_get(doc, key.name) matches Some(v) && v is Bool {
                Ok(())
            } else {
                field_err
            },
            KeyValView::SignedInt(_) => if spec_get(doc, key.name) matches Some(v)
                && view_is_i64(v) {
                Ok(())
            } else {
                field_err
            },
            KeyValView::UnsignedInt(_) => if spec_get(doc, key.name) matches Some(v)
                && view_is_u64(v) {
                Ok(())
            } else {
                field_err
            },
            KeyValView::Text(_) => if spec_get(doc, key.name) matches Some(v) && v is Text {
                Ok(())
            } else {
                field_err
            },
        }
    }
}

/// What extracting a key value from a document yields: the error of
/// `spec_validate` when the check fails, else the typed value of the
/// named field (and the `Null` value for a `Null` key).
pub open spec fn spec_extract(key: KeyView, doc: JsonView) -> Result<KeyValView, DbErrorView> {
    match spec_validate(key, doc) {
        Err(e) => Err(e),
        Ok(_) => Ok(
            match key.datatype {
                KeyValView::Null => KeyValView::Null,
                KeyValView::Boolean(_) => match spec_get(doc, key.name) {
                    Some(JsonView::Bool(b)) => KeyValView::Boolean(b),
                    _ => KeyValView::Boolean(false),
                },
                KeyValView::SignedInt(_) => match spec_get(doc, key.name) {
                    Some(JsonView::Int(n)) => KeyValView::SignedInt(n),
                    _ => KeyValView::SignedInt(0),
                },
                KeyValView::UnsignedInt(_) => match spec_get(doc, key.name) {
                    Some(JsonView::Int(n)) => KeyValView::UnsignedInt(n),
                    _ => KeyValView::UnsignedInt(0),
                },
                KeyValView::Text(_) => match spec_get(doc, key.name) {
                    Some(JsonView::Text(s)) => KeyValView::Text(s),
                    _ => KeyValView::Text(Seq::empty()),
                },
            },
        ),
    }
}

/// An extracted key value always has its key's variant.
pub proof fn lemma_extract_same_variant(key: KeyView, doc: JsonView)
    ensures
        spec_extract(key, doc) matches Ok(v) ==> same_variant(v, key.datatype),
{
}

/// The view of a key-extraction result.
pub open spec fn kd_res_view(r: Result<KeyDatatype, DbError>) -> Result<KeyValView, DbErrorView> {
    match r {
        Ok(v) => Ok(v@),
        Err(e) => Err(e@),
    }
}

/// The `MissingFields` error naming the field and datatype a check wanted.
fn field_type_err(key: &Key) -> (e: DbError)
    ensures
        e@ == DbErrorView::MissingFields(msg_field_type(key@.name, dt_name(key@.datatype))),
{
    let mut s = String::from_str("Field ");
    s.append(key.name.as_str());
    s.append(" must exist and be of type ");
    s.append(key.datatype.to_str());
    s.append(".");
    DbError::MissingFields(s)
}

/// Checks that `info` is an object whose field named by `key` exists and
/// matches the key's datatype; a `Null` key asks only that `info` be an
/// object.
pub fn validate(key: &Key, info: &JsonValue) -> (r: Result<(), DbError>)
    ensures
        unit_res_view(r) == spec_validate(key@, info@),
{
    if !info.is_object() {
        return Err(DbError::BadInput(String::from_str("Payload must be a valid JSON object!")));
    }
    let ok = match &key.datatype {
        KeyDatatype::Null(_) => true,
        KeyDatatype::Boolean(_) => match info.get(key.name.as_str()) {
            Some(v) => v.is_boolean(),
            None => false,
        },
        KeyDatatype::SignedInt(_) => match info.get(key.name.as_str()) {
            Some(v) => v.is_i64(),
            None => false,
        },
        KeyDatatype::UnsignedInt(_) => match info.get(key.name.as_str()) {
            Some(v) => v.is_u64(),
            None => false,
        },
        KeyDatatype::Text(_) => match info.get(key.name.as_str()) {
            Some(v) => v.is_string(),
            None => false,
        },
    };
    if ok {
        Ok(())
    } else {
        Err(field_type_err(key))
    }
}

/// Extracts the typed value of the key's field from a document, after
/// checking shape and type as `validate` does.
pub fn extract_key(key: &Key, info: &JsonValue) -> (r: Result<KeyDatatype, DbError>)
    ensures
        kd_res_view(r) == spec_extract(key@, info@),
{
    if let Err(e) = validate(key, info) {
        return Err(e);
    }
    match &key.datatype {
        KeyDatatype::Null(_) => Ok(KeyDatatype::Null(())),
        KeyDatatype::Boolean(_) => match info.get(key.name.as_str()) {
            Some(v) => match v.as_bool() {
                Some(b) => Ok(KeyDatatype::Boolean(b)),
                None => unreached(),
            },
            None => unreached(),
        },
        KeyDatatype::SignedInt(_) => match info.get(key.name.as_str()) {
            Some(v) => match v.as_i64() {
                Some(n) => Ok(KeyDatatype::SignedInt(n)),
                None => unreached(),
            },
            None => unreached(),
        },
        KeyDatatype::UnsignedInt(_) => match info.get(key.name.as_str()) {
            Some(v) => match v.as_u64() {
                Some(n) => Ok(KeyDatatype::UnsignedInt(n)),
                None => unreached(),
            },
            None => unreached(),
        },
        KeyDatatype::Text(_) => match info.get(key.name.as_str()) {
            Some(v) => match v.as_str() {
                Some(s) => Ok(KeyDatatype::Text(s.to_owned())),
                None => unreached(),
            },
            None => unreached(),
        },
    }
}

/// The round trip of a datatype through its wire name: parsing the name
/// written for a value yields the same datatype with its default value.
pub proof fn lemma_dt_name_round_trip(v: KeyValView)
    ensures
        dt_of_name(dt_name(v)) == canon(v),
{
    reveal_strlit("Null");
    reveal_strlit("Boolean");
    reveal_strlit("SignedInt");
    reveal_strlit("UnsignedInt");
    reveal_strlit("String");
    assert("Null"@.len() == 4);
    assert("Boolean"@.len() == 7);
    assert("SignedInt"@.len() == 9);
    assert("UnsignedInt"@.len() == 11);
    assert("String"@.len() == 6);
}


impl Key {
    /// A copy of the key descriptor, equal at the view level.
    pub fn key_clone(&self) -> (r: Key)
        ensures
            r@ == self@,
    {
        Key { name: self.name.clone(), datatype: self.datatype.dt_clone() }
    }
}

/// Parsing a wire name yields a datatype carrying its default value.
pub proof fn lemma_dt_of_name_canon(s: Seq<char>)
    ensures
        canon(dt_of_name(s)) == dt_of_name(s),
{
}

} // verus!
