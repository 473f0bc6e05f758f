use vstd::prelude::*;

verus! {

/// The document model: a closed, semantic JSON-like value.
///
/// Numbers are whole numbers held in an `i128`, wide enough for every
/// signed or unsigned 64-bit value a payload may carry; objects keep their
/// fields in insertion order.
#[derive(Debug, PartialEq)]
pub enum JsonValue {
    Null,
    Bool(bool),
    Int(i128),
    Text(String),
    Arr(Vec<JsonValue>),
    Obj(Vec<(String, JsonValue)>),
}

/// Ghost twin of `JsonValue`: the same shape over mathematical integers,
/// character sequences and sequences. Every contract of the store speaks
/// of documents through this view.
pub enum JsonView {
    Null,
    Bool(bool),
    Int(int),
    Text(Seq<char>),
    Arr(Seq<JsonView>),
    Obj(Seq<(Seq<char>, JsonView)>),
}

impl View for JsonValue {
    type V = JsonView;

    open spec fn view(&self) -> JsonView
        decreases self,
    {
        match self {
            JsonValue::Null => JsonView::Null,
            JsonValue::Bool(b) => JsonView::Bool(*b),
            JsonValue::Int(n) => JsonView::Int(*n as int),
            JsonValue::Text(s) => JsonView::Text(s@),
            JsonValue::Arr(items) => JsonView::Arr(elems_view(items@)),
            JsonValue::Obj(fields) => JsonView::Obj(fields_view(fields@)),
        }
    }
}

/// The views of a sequence of values, element by element.
pub open spec fn elems_view(items: Seq<JsonValue>) -> Seq<JsonView>
    decreases items,
{
    Seq::new(
        items.len(),
        |i: int|
            if 0 <= i < items.len() {
                items[i]@
            } else {
                JsonView::Null
            },
    )
}

/// The views of an object's field list, pair by pair.
pub open spec fn fields_view(fields: Seq<(String, JsonValue)>) -> Seq<(Seq<char>, JsonView)>
    decreases fields,
{
    Seq::new(
        fields.len(),
        |i: int|
            if 0 <= i < fields.len() {
                (fields[i].0@, fields[i].1@)
            } else {
                (Seq::empty(), JsonView::Null)
            },
    )
}

/// First field of the given name in an object's field list, if any.
pub open spec fn obj_get(fields: Seq<(Seq<char>, JsonView)>, name: Seq<char>) -> Option<JsonView>
    decreases fields.len(),
{
    if fields.len() == 0 {
        None
    } else if fields[0].0 == name {
        Some(fields[0].1)
    } else {
        obj_get(fields.skip(1), name)
    }
}

/// What looking a field up in a value returns: `Some` only on objects.
pub open spec fn spec_get(v: JsonView, name: Seq<char>) -> Option<JsonView> {
    match v {
        JsonView::Obj(fields) => obj_get(fields, name),
        _ => None,
    }
}

/// The field list with `name` bound to `val`: the first field of that name
/// is replaced in place, or the pair is appended if the name is new.
pub open spec fn obj_set(
    fields: Seq<(Seq<char>, JsonView)>,
    name: Seq<char>,
    val: JsonView,
) -> Seq<(Seq<char>, JsonView)>
    decreases fields.len(),
{
    if fields.len() == 0 {
        seq![(name, val)]
    } else if fields[0].0 == name {
        seq![(name, val)] + fields.skip(1)
    } else {
        seq![fields[0]] + obj_set(fields.skip(1), name, val)
    }
}

/// A number within the range of a signed 64-bit integer.
pub open spec fn view_is_i64(v: JsonView) -> bool {
    v matches JsonView::Int(n) && i64::MIN <= n <= i64::MAX
}

/// A number within the range of an unsigned 64-bit integer.
pub open spec fn view_is_u64(v: JsonView) -> bool {
    v matches JsonView::Int(n) && 0 <= n <= u64::MAX
}

proof fn lemma_obj_get_skip(fields: Seq<(Seq<char>, JsonView)>, name: Seq<char>, i: int)
    requires
        0 <= i <= fields.len(),
        forall|j: int| 0 <= j < i ==> fields[j].0 != name,
    ensures
        obj_get(fields, name) == obj_get(fields.skip(i), name),
    decreases i,
{
    if i == 0 {
        assert(fields.skip(0) =~= fields);
    } else {
        lemma_obj_get_skip(fields.skip(1), name, i - 1);
        assert(fields.skip(1).skip(i - 1) =~= fields.skip(i));
    }
}

impl JsonValue {
    pub fn is_object(&self) -> (r: bool)
        ensures
            r == (self@ is Obj),
    {
        matches!(self, JsonValue::Obj(_))
    }

    pub fn is_array(&self) -> (r: bool)
        ensures
            r == (self@ is Arr),
    {
        matches!(self, JsonValue::Arr(_))
    }

    pub fn is_string(&self) -> (r: bool)
        ensures
            r == (self@ is Text),
    {
        matches!(self, JsonValue::Text(_))
    }

    pub fn is_boolean(&self) -> (r: bool)
        ensures
            r == (self@ is Bool),
    {
        matches!(self, JsonValue::Bool(_))
    }

    pub fn is_i64(&self) -> (r: bool)
        ensures
            r == view_is_i64(self@),
    {
        match self {
            JsonValue::Int(n) => i64::MIN as i128 <= *n && *n <= i64::MAX as i128,
            _ => false,
        }
    }

    pub fn is_u64(&self) -> (r: bool)
        ensures
            r == view_is_u64(self@),
    {
        match self {
            JsonValue::Int(n) => 0 <= *n && *n <= u64::MAX as i128,
            _ => false,
        }
    }

    pub fn as_bool(&self) -> (r: Option<bool>)
        ensures
            (r is Some) == (self@ is Bool),
            r matches Some(b) ==> self@ == JsonView::Bool(b),
    {
        match self {
            JsonValue::Bool(b) => Some(*b),
            _ => None,
        }
    }

    pub fn as_str<'a>(&'a self) -> (r: Option<&'a str>)
        ensures
            (r is Some) == (self@ is Text),
            r matches Some(s) ==> self@ == JsonView::Text(s@),
    {
        match self {
            JsonValue::Text(s) => Some(s.as_str()),
            _ => None,
        }
    }

    pub fn as_i64(&self) -> (r: Option<i64>)
        ensures
            (r is Some) == view_is_i64(self@),
            r matches Some(n) ==> self@ == JsonView::Int(n as int),
    {
        match self {
            JsonValue::Int(n) => {
                if i64::MIN as i128 <= *n && *n <= i64::MAX as i128 {
                    Some(*n as i64)
                } else {
                    None
                }
            },
            _ => None,
        }
    }

    pub fn as_u64(&self) -> (r: Option<u64>)
        ensures
            (r is Some) == view_is_u64(self@),
            r matches Some(n) ==> self@ == JsonView::Int(n as int),
    {
        match self {
            JsonValue::Int(n) => {
                if 0 <= *n && *n <= u64::MAX as i128 {
                    Some(*n as u64)
                } else {
                    None
                }
            },
            _ => None,
        }
    }

    pub fn as_array<'a>(&'a self) -> (r: Option<&'a Vec<JsonValue>>)
        ensures
            (r is Some) == (self@ is Arr),
            r matches Some(items) ==> self@ == JsonView::Arr(elems_view(items@)),
    {
        match self {
            JsonValue::Arr(items) => Some(items),
            _ => None,
        }
    }

    pub fn as_object<'a>(&'a self) -> (r: Option<&'a Vec<(String, JsonValue)>>)
        ensures
            (r is Some) == (self@ is Obj),
            r matches Some(fields) ==> self@ == JsonView::Obj(fields_view(fields@)),
    {
        match self {
            JsonValue::Obj(fields) => Some(fields),
            _ => None,
        }
    }

    /// Field lookup, as on a JSON object: `None` when `self` is not an
    /// object or carries no field of that name.
    #[verifier::loop_isolation(false)]
    pub fn get<'a>(&'a self, name: &str) -> (r: Option<&'a JsonValue>)
        ensures
            r matches Some(x) ==> spec_get(self@, name@) == Some(x@),
            r is None ==> spec_get(self@, name@) is None,
    {
        match self {
            JsonValue::Obj(fields) => {
                let ghost gf = fields_view(fields@);
                let wanted: String = name.to_owned();
                let n = fields.len();
                let mut i: usize = 0;
                while i < n
                    invariant
                        n == fields.len(),
                        0 <= i <= n,
                        wanted@ == name@,
                        gf == fields_view(fields@),
                        forall|j: int| 0 <= j < i ==> gf[j].0 != name@,
                    decreases n - i,
                {
                    if fields[i].0 == wanted {
                        proof {
                            assert(gf[i as int] == (fields@[i as int].0@, fields@[i as int].1@));
                            assert(gf[i as int].0 == name@);
                            lemma_obj_get_skip(gf, name@, i as int);
                            assert(gf.skip(i as int).len() > 0);
                            assert(gf.skip(i as int)[0] == gf[i as int]);
                            assert(obj_get(gf, name@) == Some(gf[i as int].1));
                        }
                        return Some(&fields[i].1);
                    }
                    i += 1;
                }
                proof {
                    lemma_obj_get_skip(gf, name@, n as int);
                }
                None
            },
            _ => None,
        }
    }

    /// A structurally equal copy of the value.
    #[verifier::loop_isolation(false)]
    pub fn deep_clone(&self) -> (r: JsonValue)
        ensures
            r@ == self@,
        decreases self,
    {
        match self {
            JsonValue::Null => JsonValue::Null,
            JsonValue::Bool(b) => JsonValue::Bool(*b),
            JsonValue::Int(n) => JsonValue::Int(*n),
            JsonValue::Text(s) => JsonValue::Text(s.clone()),
            JsonValue::Arr(items) => {
                let n = items.len();
                let mut out: Vec<JsonValue> = Vec::new();
                let mut i: usize = 0;
                while i < n
                    invariant
                        n == items.len(),
                        0 <= i <= n,
                        out@.len() == i,
                        forall|j: int| 0 <= j < i ==> out@[j]@ == items@[j]@,
                    decreases n - i,
                {
                    out.push(items[i].deep_clone());
                    i += 1;
                }
                let r = JsonValue::Arr(out);
                proof {
                    assert(elems_view(out@) =~= elems_view(items@));
                }
                r
            },
            JsonValue::Obj(fields) => {
                let n = fields.len();
                let mut out: Vec<(String, JsonValue)> = Vec::new();
                let mut i: usize = 0;
                while i < n
                    invariant
                        n == fields.len(),
                        0 <= i <= n,
                        out@.len() == i,
                        forall|j: int| 0 <= j < i ==> out@[j].0@ == fields@[j].0@
                            && out@[j].1@ == fields@[j].1@,
                    decreases n - i,
                {
                    let name = fields[i].0.clone();
                    let val = fields[i].1.deep_clone();
                    out.push((name, val));
                    i += 1;
                }
                let r = JsonValue::Obj(out);
                proof {
                    assert(fields_view(out@) =~= fields_view(fields@));
                }
                r
            },
        }
    }
}


/// Pairwise-distinct field names, as a JSON object has by construction.
pub open spec fn fields_unique(fields: Seq<(Seq<char>, JsonView)>) -> bool {
    forall|i: int, j: int| 0 <= i < j < fields.len() ==> fields[i].0 != fields[j].0
}

/// Setting a field then looking one up: the set name answers with the new
/// value, any other name as before.
pub proof fn lemma_obj_get_set(
    fields: Seq<(Seq<char>, JsonView)>,
    name: Seq<char>,
    val: JsonView,
    name2: Seq<char>,
)
    ensures
        obj_get(obj_set(fields, name, val), name2) == if name2 == name {
            Some(val)
        } else {
            obj_get(fields, name2)
        },
    decreases fields.len(),
{
    reveal_with_fuel(obj_get, 3);
    reveal_with_fuel(obj_set, 3);
    if fields.len() == 0 {
        let r = seq![(name, val)];
        assert(r[0] == (name, val));
        assert(r.skip(1) =~= Seq::<(Seq<char>, JsonView)>::empty());
    } else if fields[0].0 == name {
        let r = seq![(name, val)] + fields.skip(1);
        assert(r[0] == (name, val));
        assert(r.skip(1) =~= fields.skip(1));
    } else {
        lemma_obj_get_set(fields.skip(1), name, val, name2);
        let r = seq![fields[0]] + obj_set(fields.skip(1), name, val);
        assert(r[0] == fields[0]);
        assert(r.skip(1) =~= obj_set(fields.skip(1), name, val));
    }
}

/// With distinct names, looking up any field's name answers with its
/// value.
pub proof fn lemma_obj_get_unique(fields: Seq<(Seq<char>, JsonView)>, j: int)
    requires
        fields_unique(fields),
        0 <= j < fields.len(),
    ensures
        obj_get(fields, fields[j].0) == Some(fields[j].1),
    decreases fields.len(),
{
    if j > 0 {
        let tail = fields.skip(1);
        assert(forall|k: int| 0 <= k < tail.len() ==> #[trigger] tail[k] == fields[k + 1]);
        lemma_obj_get_unique(tail, j - 1);
    }
}

/// A found field stands in the list.
pub proof fn lemma_obj_get_exists(fields: Seq<(Seq<char>, JsonView)>, name: Seq<char>)
    requires
        obj_get(fields, name) is Some,
    ensures
        exists|j: int| 0 <= j < fields.len() && (#[trigger] fields[j]).0 == name,
    decreases fields.len(),
{
    if fields.len() > 0 && fields[0].0 != name {
        let tail = fields.skip(1);
        lemma_obj_get_exists(tail, name);
        let j = choose|j: int| 0 <= j < tail.len() && (#[trigger] tail[j]).0 == name;
        assert(fields[j + 1] == tail[j]);
    }
}


/// Appending a value appends its view.
pub proof fn lemma_elems_view_push(items: Seq<JsonValue>, x: JsonValue)
    ensures
        elems_view(items.push(x)) == elems_view(items).push(x@),
{
    assert(elems_view(items.push(x)) =~= elems_view(items).push(x@));
}

} // verus!
