//! The emitter: turns a descriptor into a JSON Schema value, choosing
//! between plain types, enumerations and constants.
use crate::literal::{LitView, Literals};
use crate::schema::{ObjectProperty, Subschema, SubschemaTypes};
use crate::text::{insert_string, sort_strs, strs_view};
use vstd::prelude::*;

verus! {

/// The meta-schema that every emitted document declares.
pub const SCHEMA_VERSION: &'static str = "https://json-schema.org/draft/2020-12/schema";

/// What the emitter may use besides plain types: a title for the document,
/// whether `enum` and `const` are allowed, and when a value set counts as an
/// enumeration.
pub struct CodegenOptions {
    pub title: Option<String>,
    pub use_enum: bool,
    pub use_const: bool,
    pub enum_threshold: u8,
    pub enum_maximum: Option<u8>,
}

impl CodegenOptions {
    /// Enums and constants allowed, threshold 1, no maximum, no title.
    pub fn new() -> (r: Self)
        ensures
            r.title is None,
            r.use_enum,
            r.use_const,
            r.enum_threshold == 1,
            r.enum_maximum is None,
    {
        CodegenOptions {
            title: None,
            use_enum: true,
            use_const: true,
            enum_threshold: 1,
            enum_maximum: None,
        }
    }
}

/// A JSON value as the emitter builds it. Object members keep their order;
/// a float is held as its bit pattern.
#[derive(PartialEq, Debug)]
pub enum JsonValue {
    Null,
    Bool(bool),
    Integer(i64),
    Float(u64),
    String(String),
    Array(Vec<JsonValue>),
    Object(Vec<(String, JsonValue)>),
}

/// The mathematical value of a `JsonValue`.
pub enum JsonView {
    Null,
    Bool(bool),
    Integer(i64),
    Float(u64),
    Str(Seq<char>),
    Array(Seq<JsonView>),
    Object(Seq<(Seq<char>, JsonView)>),
}

impl JsonValue {
    pub open spec fn view(&self) -> JsonView
        decreases self,
    {
        match self {
            JsonValue::Null => JsonView::Null,
            JsonValue::Bool(b) => JsonView::Bool(*b),
            JsonValue::Integer(i) => JsonView::Integer(*i),
            JsonValue::Float(f) => JsonView::Float(*f),
            JsonValue::String(s) => JsonView::Str(s@),
            JsonValue::Array(v) => JsonView::Array(
                Seq::new(
                    v@.len(),
                    |i: int|
                        if 0 <= i < v@.len() {
                            v@[i].view()
                        } else {
                            JsonView::Null
                        },
                ),
            ),
            JsonValue::Object(v) => JsonView::Object(
                Seq::new(
                    v@.len(),
                    |i: int|
                        if 0 <= i < v@.len() {
                            (v@[i].0@, v@[i].1.view())
                        } else {
                            (Seq::empty(), JsonView::Null)
                        },
                ),
            ),
        }
    }
}

/// The JSON Schema primitive type of a literal.
#[derive(Clone, Copy, PartialEq, Eq, Structural, Debug)]
pub enum TypePrimative {
    Null,
    Boolean,
    Integer,
    Number,
    String,
}

pub open spec fn kind_of(l: LitView) -> TypePrimative {
    match l {
        LitView::Null => TypePrimative::Null,
        LitView::Boolean(_) => TypePrimative::Boolean,
        LitView::Integer(_) => TypePrimative::Integer,
        LitView::Float(_) => TypePrimative::Number,
        LitView::Text(_) => TypePrimative::String,
    }
}

pub open spec fn kind_name(p: TypePrimative) -> Seq<char> {
    match p {
        TypePrimative::Null => "null"@,
        TypePrimative::Boolean => "boolean"@,
        TypePrimative::Integer => "integer"@,
        TypePrimative::Number => "number"@,
        TypePrimative::String => "string"@,
    }
}

impl TypePrimative {
    /// The primitive type of a literal.
    pub fn from_literal(field: &Literals) -> (r: Self)
        ensures
            r == kind_of(field@),
    {
        match field {
            Literals::Null => TypePrimative::Null,
            Literals::Boolean(_) => TypePrimative::Boolean,
            Literals::Integer(_) => TypePrimative::Integer,
            Literals::Float(_) => TypePrimative::Number,
            Literals::String(_) => TypePrimative::String,
        }
    }

    /// The JSON Schema name of the type.
    pub fn to_string(self) -> (r: &'static str)
        ensures
            r@ == kind_name(self),
    {
        match self {
            TypePrimative::Null => "null",
            TypePrimative::Boolean => "boolean",
            TypePrimative::Integer => "integer",
            TypePrimative::Number => "number",
            TypePrimative::String => "string",
        }
    }
}

/// Some value of the list has primitive type `p`.
pub open spec fn has_kind(vals: Seq<Literals>, p: TypePrimative) -> bool {
    exists|i: int| 0 <= i < vals.len() && kind_of(vals[i]@) == p
}

pub open spec fn name_if(vals: Seq<Literals>, p: TypePrimative) -> Seq<Seq<char>> {
    if has_kind(vals, p) {
        seq![kind_name(p)]
    } else {
        seq![]
    }
}

/// The distinct primitive type names of a list of values, in alphabetical
/// order.
pub open spec fn type_names(vals: Seq<Literals>) -> Seq<Seq<char>> {
    name_if(vals, TypePrimative::Boolean) + name_if(vals, TypePrimative::Integer) + name_if(
        vals,
        TypePrimative::Null,
    ) + name_if(vals, TypePrimative::Number) + name_if(vals, TypePrimative::String)
}

pub open spec fn str_array(names: Seq<Seq<char>>) -> JsonView {
    JsonView::Array(Seq::new(names.len(), |i: int| JsonView::Str(names[i])))
}

/// One type name as a string, several as a list.
pub open spec fn type_part(vals: Seq<Literals>) -> JsonView {
    let names = type_names(vals);
    if names.len() == 1 {
        JsonView::Str(names[0])
    } else {
        str_array(names)
    }
}

pub open spec fn lit_json(l: LitView) -> JsonView {
    match l {
        LitView::Null => JsonView::Null,
        LitView::Boolean(b) => JsonView::Bool(b),
        LitView::Integer(i) => JsonView::Integer(i),
        LitView::Float(f) => JsonView::Float(f),
        LitView::Text(s) => JsonView::Str(s),
    }
}

/// Every value of the list is a boolean.
pub open spec fn all_bool(vals: Seq<Literals>) -> bool {
    forall|i: int| 0 <= i < vals.len() ==> (#[trigger] vals[i]) is Boolean
}

/// The options ask for a value set to be emitted as an enumeration: enums
/// are allowed, the values are not all booleans, there are fewer distinct
/// values than the threshold share of the instances, and fewer than the
/// maximum, if any.
pub open spec fn enum_chosen(t: SubschemaTypes, o: CodegenOptions) -> bool {
    &&& o.use_enum
    &&& t.values.len() < (t.instance_count as int * o.enum_threshold as int) / 100
    &&& !all_bool(t.values@)
    &&& (o.enum_maximum matches Some(m) ==> t.values.len() < m)
}

/// The fragment for a value set: `const` for a single value when allowed,
/// else the type names under `type` with the values under `enum` when an
/// enumeration is chosen, else the plain type alone.
pub open spec fn types_json(t: SubschemaTypes, o: CodegenOptions) -> JsonView {
    if o.use_const && t.values.len() == 1 {
        JsonView::Object(seq![("const"@, lit_json(t.values@[0]@))])
    } else if enum_chosen(t, o) {
        JsonView::Object(
            seq![
                ("type"@, type_part(t.values@)),
                ("enum"@, JsonView::Array(Seq::new(t.values.len() as nat, |i: int| lit_json(t.values@[i]@)))),
            ],
        )
    } else {
        JsonView::Object(seq![("type"@, type_part(t.values@))])
    }
}

fn literal_to_value(l: &Literals) -> (r: JsonValue)
    ensures
        r@ == lit_json(l@),
{
    match l {
        Literals::Null => JsonValue::Null,
        Literals::Boolean(b) => JsonValue::Bool(*b),
        Literals::Integer(i) => JsonValue::Integer(*i),
        Literals::Float(f) => JsonValue::Float(*f),
        Literals::String(s) => JsonValue::String(s.clone()),
    }
}

fn kind_present(vals: &Vec<Literals>, p: TypePrimative) -> (r: bool)
    ensures
        r == has_kind(vals@, p),
{
    let mut i: usize = 0;
    while i < vals.len()
        invariant
            i <= vals.len(),
            forall|j: int| 0 <= j < i ==> kind_of(vals@[j]@) != p,
        decreases vals.len() - i,
    {
        if TypePrimative::from_literal(&vals[i]) == p {
            return true;
        }
        i += 1;
    }
    false
}

fn push_name_if(names: &mut Vec<String>, vals: &Vec<Literals>, p: TypePrimative)
    ensures
        final(names)@.len() == old(names)@.len() + name_if(vals@, p).len(),
        forall|i: int| 0 <= i < old(names)@.len() ==> final(names)@[i] == old(names)@[i],
        forall|i: int|
            0 <= i < name_if(vals@, p).len() ==> final(names)@[old(names)@.len() + i]@ == name_if(
                vals@,
                p,
            )[i],
{
    if kind_present(vals, p) {
        names.push(p.to_string().to_owned());
    }
}

fn strings_to_json(names: Vec<String>) -> (r: JsonValue)
    ensures
        r@ == str_array(strs_view(names@)),
{
    let ghost n0 = names@;
    let mut rest = names;
    let mut out: Vec<JsonValue> = Vec::new();
    while rest.len() > 0
        invariant
            out@.len() + rest@.len() == n0.len(),
            rest@ == n0.subrange(out@.len() as int, n0.len() as int),
            forall|j: int| 0 <= j < out@.len() ==> (#[trigger] out@[j])@ == JsonView::Str(n0[j]@),
        decreases rest.len(),
    {
        let s = rest.remove(0);
        out.push(JsonValue::String(s));
    }
    let r = JsonValue::Array(out);
    proof {
        let names = strs_view(n0);
        assert(r@->Array_0 =~= str_array(names)->Array_0);
    }
    r
}

/// The type name, or list of names, of a non-empty list of values.
fn type_part_json(vals: &Vec<Literals>) -> (r: JsonValue)
    requires
        vals.len() > 0,
    ensures
        r@ == type_part(vals@),
{
    let mut names: Vec<String> = Vec::new();
    push_name_if(&mut names, vals, TypePrimative::Boolean);
    push_name_if(&mut names, vals, TypePrimative::Integer);
    push_name_if(&mut names, vals, TypePrimative::Null);
    push_name_if(&mut names, vals, TypePrimative::Number);
    push_name_if(&mut names, vals, TypePrimative::String);
    let ghost want = type_names(vals@);
    proof {
        assert(strs_view(names@) =~= want);
        let l = vals@[0]@;
        assert(has_kind(vals@, kind_of(l)));
        assert(want.len() > 0);
    }
    if names.len() == 1 {
        let s = names.pop().unwrap();
        JsonValue::String(s)
    } else {
        strings_to_json(names)
    }
}

pub open spec fn array_frag(items: JsonView) -> JsonView {
    JsonView::Object(seq![("type"@, JsonView::Str("array"@)), ("items"@, items)])
}

pub open spec fn object_frag(props: Seq<(Seq<char>, JsonView)>, required: Seq<Seq<char>>) -> JsonView {
    JsonView::Object(
        seq![
            ("type"@, JsonView::Str("object"@)),
            ("properties"@, JsonView::Object(props)),
            ("required"@, str_array(required)),
        ],
    )
}

/// No fragment gives `{}`, one gives itself, several give their `anyOf`.
pub open spec fn combine(frags: Seq<JsonView>) -> JsonView {
    if frags.len() == 0 {
        JsonView::Object(seq![])
    } else if frags.len() == 1 {
        frags[0]
    } else {
        JsonView::Object(seq![("anyOf"@, JsonView::Array(frags))])
    }
}

/// The names of the required properties, in list order.
pub open spec fn required_names(v: Seq<(String, ObjectProperty)>) -> Seq<Seq<char>>
    decreases v.len(),
{
    if v.len() == 0 {
        seq![]
    } else {
        required_names(v.drop_last()) + if v.last().1.required {
            seq![v.last().0@]
        } else {
            seq![]
        }
    }
}

pub open spec fn types_frags(s: Subschema, o: CodegenOptions) -> Seq<JsonView> {
    match s.types {
        Some(t) => seq![types_json(t, o)],
        None => seq![],
    }
}

/// The schema of a descriptor: the fragments of its present branches, in
/// the order types, array, object, combined.
pub open spec fn emit_spec(s: Subschema, o: CodegenOptions) -> JsonView
    decreases s,
{
    combine(
        types_frags(s, o) + match s.array {
            Some(b) => seq![array_frag(emit_spec(*b, o))],
            None => seq![],
        } + match s.object {
            Some(v) => seq![object_frag(props_json(v@, o), sort_strs(required_names(v@)))],
            None => seq![],
        },
    )
}

/// Each property's name with the schema of its value, in list order.
pub open spec fn props_json(v: Seq<(String, ObjectProperty)>, o: CodegenOptions) -> Seq<
    (Seq<char>, JsonView),
>
    decreases v,
{
    Seq::new(
        v.len(),
        |i: int|
            if 0 <= i < v.len() {
                (v[i].0@, emit_spec(v[i].1.value, o))
            } else {
                (Seq::empty(), JsonView::Null)
            },
    )
}

/// The document: the root schema with the meta-schema and, if given, the
/// title added to it.
pub open spec fn document_spec(s: Subschema, o: CodegenOptions) -> JsonView {
    match emit_spec(s, o) {
        JsonView::Object(m) => JsonView::Object(
            m + seq![("$schema"@, JsonView::Str(SCHEMA_VERSION@))] + match o.title {
                Some(t) => seq![("title"@, JsonView::Str(t@))],
                None => seq![],
            },
        ),
        other => other,
    }
}

fn object1(k: &str, v: JsonValue) -> (r: JsonValue)
    ensures
        r@ == JsonView::Object(seq![(k@, v@)]),
{
    let ghost vv = v@;
    let mut m: Vec<(String, JsonValue)> = Vec::new();
    m.push((k.to_owned(), v));
    let r = JsonValue::Object(m);
    proof {
        assert(r@->Object_0 =~= seq![(k@, vv)]);
    }
    r
}

fn object2(k1: &str, v1: JsonValue, k2: &str, v2: JsonValue) -> (r: JsonValue)
    ensures
        r@ == JsonView::Object(seq![(k1@, v1@), (k2@, v2@)]),
{
    let ghost w1 = v1@;
    let ghost w2 = v2@;
    let mut m: Vec<(String, JsonValue)> = Vec::new();
    m.push((k1.to_owned(), v1));
    m.push((k2.to_owned(), v2));
    let r = JsonValue::Object(m);
    proof {
        assert(r@->Object_0 =~= seq![(k1@, w1), (k2@, w2)]);
    }
    r
}

fn all_boolean(vals: &Vec<Literals>) -> (r: bool)
    ensures
        r == all_bool(vals@),
{
    let mut i: usize = 0;
    while i < vals.len()
        invariant
            i <= vals.len(),
            forall|j: int| 0 <= j < i ==> (#[trigger] vals@[j]) is Boolean,
        decreases vals.len() - i,
    {
        match &vals[i] {
            Literals::Boolean(_) => {},
            _ => {
                return false;
            },
        }
        i += 1;
    }
    true
}

/// The fragment for a non-empty value set.
fn literals_to_json(types: SubschemaTypes, options: &CodegenOptions) -> (r: JsonValue)
    requires
        types.values.len() > 0,
    ensures
        r@ == types_json(types, *options),
{
    let n = types.values.len();
    if options.use_const && n == 1 {
        object1("const", literal_to_value(&types.values[0]))
    } else {
        let count = types.instance_count as u128;
        let threshold = options.enum_threshold as u128;
        proof {
            assert(count * threshold <= 0xffff_ffff_ffff_ffffu128 * 255) by (nonlinear_arith)
                requires
                    count <= 0xffff_ffff_ffff_ffffu128,
                    threshold <= 255,
            ;
        }
        let unique_threshold = (n as u128) < (count * threshold) / 100;
        let only_bool = all_boolean(&types.values);
        let below_maximum = match options.enum_maximum {
            Some(m) => n < m as usize,
            None => true,
        };
        let type_part = type_part_json(&types.values);
        if options.use_enum && unique_threshold && !only_bool && below_maximum {
            let mut vals: Vec<JsonValue> = Vec::new();
            let mut i: usize = 0;
            while i < n
                invariant
                    n == types.values.len(),
                    i <= n,
                    vals@.len() == i,
                    forall|j: int| 0 <= j < i ==> (#[trigger] vals@[j])@ == lit_json(types.values@[j]@),
                decreases n - i,
            {
                vals.push(literal_to_value(&types.values[i]));
                i += 1;
            }
            let arr = JsonValue::Array(vals);
            proof {
                assert(arr@->Array_0 =~= types_json(types, *options)->Object_0[1].1->Array_0);
            }
            object2("type", type_part, "enum", arr)
        } else {
            object1("type", type_part)
        }
    }
}

/// The schema of a well-formed descriptor.
pub fn subschema_to_json(s: Subschema, options: &CodegenOptions) -> (r: JsonValue)
    requires
        s.wf(),
    ensures
        r@ == emit_spec(s, *options),
    decreases s,
{
    let ghost s0 = s;
    let ghost o = *options;
    let Subschema { types, array, object } = s;
    let mut schemas: Vec<JsonValue> = Vec::new();
    if let Some(t) = types {
        schemas.push(literals_to_json(t, options));
    }
    let ghost after_types = schemas@.map_values(|j: JsonValue| j@);
    proof {
        assert(after_types =~= types_frags(s0, o));
    }
    if let Some(a) = array {
        let items = subschema_to_json(*a, options);
        schemas.push(object2("type", JsonValue::String("array".to_owned()), "items", items));
    }
    let ghost after_array = schemas@.map_values(|j: JsonValue| j@);
    proof {
        assert(after_array =~= types_frags(s0, o) + match s0.array {
            Some(b) => seq![array_frag(emit_spec(*b, o))],
            None => seq![],
        });
    }
    if let Some(v) = object {
        let ghost v0 = v@;
        let mut rest = v;
        let mut props: Vec<(String, JsonValue)> = Vec::new();
        let mut required: Vec<String> = Vec::new();
        let ghost mut i: int = 0;
        while rest.len() > 0
            invariant
                s0 == s,
                s0.object == Some(v),
                v@ == v0,
                s0.wf(),
                o == *options,
                0 <= i <= v0.len(),
                rest@ == v0.subrange(i, v0.len() as int),
                props@.len() == i,
                forall|j: int| 0 <= j < i ==> (#[trigger] props@[j]).0@ == v0[j].0@ && props@[j].1@
                    == emit_spec(v0[j].1.value, o),
                strs_view(required@) == sort_strs(required_names(v0.subrange(0, i))),
            decreases rest.len(),
        {
            let (k, p) = rest.remove(0);
            let ObjectProperty { value, required: is_required } = p;
            proof {
                assert((k, ObjectProperty { value, required: is_required }) == v0[i]);
                broadcast use vstd::std_specs::vec::axiom_vec_index_decreases;
                assert(v[i] == v0[i]);
                assert(decreases_to!(v => v[i]));
                assert(decreases_to!(s => value));
                let q = v0.subrange(0, i + 1);
                assert(q.drop_last() =~= v0.subrange(0, i));
                assert(q.last() == v0[i]);
            }
            let ghost before = required_names(v0.subrange(0, i));
            if is_required {
                insert_string(&mut required, k.clone());
                proof {
                    let q = v0.subrange(0, i + 1);
                    assert(required_names(q) == before + seq![k@]);
                    assert((before + seq![k@]).drop_last() =~= before);
                }
            } else {
                proof {
                    let q = v0.subrange(0, i + 1);
                    assert(required_names(q) =~= before);
                }
            }
            let sub = subschema_to_json(value, options);
            props.push((k, sub));
            proof {
                i = i + 1;
            }
        }
        let ghost names = required_names(v0);
        proof {
            assert(v0.subrange(0, i) =~= v0);
        }
        let props_value = JsonValue::Object(props);
        proof {
            assert(props_value@->Object_0 =~= props_json(v0, o));
        }
        let required_value = strings_to_json(required);
        let ghost pv = props_value@;
        let ghost rv = required_value@;
        proof {
            assert(pv == JsonView::Object(props_json(v0, o)));
            assert(rv == str_array(sort_strs(names)));
        }
        let mut m: Vec<(String, JsonValue)> = Vec::new();
        m.push(("type".to_owned(), JsonValue::String("object".to_owned())));
        m.push(("properties".to_owned(), props_value));
        m.push(("required".to_owned(), required_value));
        let frag = JsonValue::Object(m);
        proof {
            assert(m@[0].1@ == JsonView::Str("object"@));
            assert(m@[1].1@ == pv);
            assert(m@[2].1@ == rv);
            assert(frag@->Object_0 =~= object_frag(props_json(v0, o), sort_strs(names))->Object_0);
        }
        schemas.push(frag);
    }
    let ghost frags = schemas@.map_values(|j: JsonValue| j@);
    proof {
        assert(frags =~= types_frags(s0, o) + match s0.array {
            Some(b) => seq![array_frag(emit_spec(*b, o))],
            None => seq![],
        } + match s0.object {
            Some(v) => seq![object_frag(props_json(v@, o), sort_strs(required_names(v@)))],
            None => seq![],
        });
    }
    if schemas.len() == 0 {
        let r = JsonValue::Object(Vec::new());
        proof {
            assert(r@->Object_0 =~= seq![]);
        }
        r
    } else if schemas.len() == 1 {
        let r = schemas.pop().unwrap();
        proof {
            assert(frags[0] == r@);
        }
        r
    } else {
        let r = object1("anyOf", JsonValue::Array(schemas));
        proof {
            let arr = JsonValue::Array(schemas);
            assert(arr@->Array_0 =~= frags);
        }
        r
    }
}

/// The document for a well-formed descriptor: its schema, with the
/// meta-schema and the configured title added at the root.
pub fn schema_document(sb: Subschema, options: &CodegenOptions) -> (r: JsonValue)
    requires
        sb.wf(),
    ensures
        r@ == document_spec(sb, *options),
{
    let values = subschema_to_json(sb, options);
    match values {
        JsonValue::Object(members) => {
            let ghost before = members@;
            let ghost bv = JsonValue::Object(members)@->Object_0;
            let mut o = members;
            o.push(("$schema".to_owned(), JsonValue::String(SCHEMA_VERSION.to_owned())));
            let ghost mid = o@;
            let r = match &options.title {
                Some(title) => {
                    o.push(("title".to_owned(), JsonValue::String(title.clone())));
                    let r = JsonValue::Object(o);
                    proof {
                        let want = bv + seq![("$schema"@, JsonView::Str(SCHEMA_VERSION@))] + seq![
                            ("title"@, JsonView::Str(title@)),
                        ];
                        assert(r@->Object_0.len() == want.len());
                        assert forall|i: int| 0 <= i < want.len() implies r@->Object_0[i] == want[i] by {
                            if i < before.len() {
                                assert(o@[i] == before[i]);
                                assert(bv[i] == (before[i].0@, before[i].1@));
                            } else if i == before.len() {
                                assert(o@[i] == mid[i]);
                                assert(mid[i].0@ == "$schema"@);
                                assert(mid[i].1@ == JsonView::Str(SCHEMA_VERSION@));
                            }
                        }
                        assert(r@->Object_0 =~= want);
                    }
                    r
                },
                None => {
                    let r = JsonValue::Object(o);
                    proof {
                        let want = bv + seq![("$schema"@, JsonView::Str(SCHEMA_VERSION@))] + seq![];
                        assert(r@->Object_0.len() == want.len());
                        assert forall|i: int| 0 <= i < want.len() implies r@->Object_0[i] == want[i] by {
                            if i < before.len() {
                                assert(o@[i] == before[i]);
                                assert(bv[i] == (before[i].0@, before[i].1@));
                            } else if i == before.len() {
                                assert(o@[i] == mid[i]);
                                assert(mid[i].0@ == "$schema"@);
                                assert(mid[i].1@ == JsonView::Str(SCHEMA_VERSION@));
                            }
                        }
                        assert(r@->Object_0 =~= want);
                    }
                    r
                },
            };
            r
        },
        other => other,
    }
}

/// A generator of schema text from a descriptor.
pub trait Generation {
    fn generate(object: Subschema, options: CodegenOptions) -> (r: JsonValue)
        requires
            object.wf(),
    ;
}

/// Emits JSON Schema (draft 2020-12).
pub struct JsonSchema {}

impl Generation for JsonSchema {
    fn generate(sb: Subschema, options: CodegenOptions) -> (r: JsonValue)
        ensures
            r@ == document_spec(sb, options),
    {
        schema_document(sb, &options)
    }
}

} // verus!
