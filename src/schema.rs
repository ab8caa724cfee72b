//! Structural descriptors: built from one tree each and merged into one.
use crate::data::{
    field_names_unique, lemma_weight_fields, lemma_weight_items, weight_fields, weight_items, DataValues,
};
use crate::literal::{LitView, Literals};
use vstd::prelude::*;

verus! {

/// The literal values seen at one position, and how many literal instances
/// contributed to it.
#[derive(PartialEq, Eq, Debug)]
pub struct SubschemaTypes {
    pub values: Vec<Literals>,
    pub instance_count: usize,
}

/// A property of an object, and whether every observed object had it.
#[derive(PartialEq, Eq, Debug)]
pub struct ObjectProperty {
    pub value: Subschema,
    pub required: bool,
}

/// The structural descriptor accumulated at one position. Each branch is
/// absent until a value of that shape has been observed.
#[derive(PartialEq, Eq, Debug)]
pub struct Subschema {
    pub types: Option<SubschemaTypes>,
    pub array: Option<Box<Subschema>>,
    pub object: Option<Vec<(String, ObjectProperty)>>,
}

/// The mathematical value of a `types` branch.
pub struct TypesView {
    pub values: Set<LitView>,
    pub count: nat,
}

/// The mathematical value of an object property.
pub struct PropView {
    pub value: SchemaView,
    pub required: bool,
}

/// The mathematical value of a `Subschema`.
pub struct SchemaView {
    pub types: Option<TypesView>,
    pub array: Option<Box<SchemaView>>,
    pub object: Option<Map<Seq<char>, PropView>>,
}

pub open spec fn empty_view() -> SchemaView {
    SchemaView { types: None, array: None, object: None }
}

/// The set of values held in a list of literals.
pub open spec fn lit_set(s: Seq<Literals>) -> Set<LitView> {
    Set::new(|x: LitView| exists|i: int| 0 <= i < s.len() && s[i]@ == x)
}

/// No two literals of the list are equal.
pub open spec fn values_distinct(s: Seq<Literals>) -> bool {
    forall|i: int, j: int| 0 <= i < j < s.len() ==> s[i]@ != s[j]@
}

pub open spec fn has_key(s: Seq<(String, ObjectProperty)>, k: Seq<char>) -> bool {
    exists|i: int| 0 <= i < s.len() && s[i].0@ == k
}

pub open spec fn key_index(s: Seq<(String, ObjectProperty)>, k: Seq<char>) -> int {
    choose|i: int| 0 <= i < s.len() && s[i].0@ == k
}

/// No two properties of the list have the same name.
pub open spec fn keys_unique(s: Seq<(String, ObjectProperty)>) -> bool {
    forall|i: int, j: int| 0 <= i < j < s.len() ==> s[i].0@ != s[j].0@
}

/// Every property value of the list is well formed.
pub open spec fn props_wf(s: Seq<(String, ObjectProperty)>) -> bool {
    forall|i: int| 0 <= i < s.len() ==> (#[trigger] s[i]).1.value.wf()
}

/// The map from property name to property that a list of properties denotes.
pub open spec fn props_view(s: Seq<(String, ObjectProperty)>) -> Map<Seq<char>, PropView>
    decreases s,
{
    Map::new(
        |k: Seq<char>| has_key(s, k),
        |k: Seq<char>|
            {
                let i = key_index(s, k);
                if 0 <= i < s.len() {
                    PropView { value: s[i].1.value.view(), required: s[i].1.required }
                } else {
                    PropView { value: empty_view(), required: false }
                }
            },
    )
}

impl SubschemaTypes {
    pub open spec fn view(&self) -> TypesView {
        TypesView { values: lit_set(self.values@), count: self.instance_count as nat }
    }
}

impl Subschema {
    pub open spec fn view(&self) -> SchemaView
        decreases self,
    {
        SchemaView {
            types: match &self.types {
                Some(t) => Some(t.view()),
                None => None,
            },
            array: match &self.array {
                Some(b) => Some(Box::new((**b).view())),
                None => None,
            },
            object: match &self.object {
                Some(v) => Some(props_view(v@)),
                None => None,
            },
        }
    }

    /// Values are distinct and at most as many as the instances counted,
    /// property names are unique, and the same holds at every depth.
    pub open spec fn wf(&self) -> bool
        decreases self,
    {
        &&& match &self.types {
            Some(t) => 0 < t.values.len() <= t.instance_count && values_distinct(t.values@),
            None => true,
        }
        &&& match &self.array {
            Some(b) => (**b).wf(),
            None => true,
        }
        &&& match &self.object {
            Some(v) => keys_unique(v@) && forall|i: int|
                0 <= i < v@.len() ==> (#[trigger] v@[i]).1.value.wf(),
            None => true,
        }
    }
}

impl SchemaView {
    /// Every object branch, at every depth, has finitely many properties.
    pub open spec fn wf(self) -> bool
        decreases self,
    {
        &&& match self.array {
            Some(b) => b.wf(),
            None => true,
        }
        &&& match self.object {
            Some(m) => m.dom().finite() && forall|k: Seq<char>| #[trigger]
                m.contains_key(k) ==> m[k].value.wf(),
            None => true,
        }
    }
}

/// The merge of two descriptors: value sets are joined and counts added;
/// arrays merge their item descriptors; objects merge shared properties,
/// which stay required only if required on both sides, and keep the others
/// as optional.
pub open spec fn merge_view(a: SchemaView, b: SchemaView) -> SchemaView
    decreases a
    when a.wf()
    via merge_view_decreases
{
    SchemaView {
        types: match a.types {
            Some(x) => match b.types {
                Some(y) => Some(TypesView { values: x.values.union(y.values), count: x.count + y.count }),
                None => Some(x),
            },
            None => b.types,
        },
        array: match a.array {
            Some(x) => match b.array {
                Some(y) => Some(Box::new(merge_view(*x, *y))),
                None => Some(x),
            },
            None => b.array,
        },
        object: match a.object {
            Some(x) => match b.object {
                Some(y) => Some(
                    Map::new(
                        |k: Seq<char>| x.contains_key(k) || y.contains_key(k),
                        |k: Seq<char>|
                            if x.contains_key(k) && y.contains_key(k) {
                                PropView {
                                    value: merge_view(x[k].value, y[k].value),
                                    required: x[k].required && y[k].required,
                                }
                            } else if x.contains_key(k) {
                                PropView { value: x[k].value, required: false }
                            } else {
                                PropView { value: y[k].value, required: false }
                            },
                    ),
                ),
                None => Some(x),
            },
            None => b.object,
        },
    }
}

#[via_fn]
proof fn merge_view_decreases(a: SchemaView, b: SchemaView) {
    broadcast use vstd::map::axiom_map_index_decreases_finite;

    if let Some(x) = a.object {
        assert forall|k: Seq<char>| x.contains_key(k) implies decreases_to!(a => x[k].value) by {}
    }
}

/// The counts that a merge of `a` and `b` adds up, at every depth, fit in a
/// `usize`.
pub open spec fn addable(a: SchemaView, b: SchemaView) -> bool
    decreases a
    when a.wf()
    via addable_decreases
{
    &&& match a.types {
        Some(x) => match b.types {
            Some(y) => x.count + y.count <= usize::MAX,
            None => true,
        },
        None => true,
    }
    &&& match a.array {
        Some(x) => match b.array {
            Some(y) => addable(*x, *y),
            None => true,
        },
        None => true,
    }
    &&& match a.object {
        Some(x) => match b.object {
            Some(y) => forall|k: Seq<char>| #[trigger]
                x.contains_key(k) && #[trigger] y.contains_key(k) ==> addable(x[k].value, y[k].value),
            None => true,
        },
        None => true,
    }
}

#[via_fn]
proof fn addable_decreases(a: SchemaView, b: SchemaView) {
    broadcast use vstd::map::axiom_map_index_decreases_finite;

    if let Some(x) = a.object {
        assert forall|k: Seq<char>| x.contains_key(k) implies decreases_to!(a => x[k].value) by {}
    }
}

/// Every count in the descriptor is at most `n`.
pub open spec fn bounded(s: SchemaView, n: nat) -> bool
    decreases s
    when s.wf()
    via bounded_decreases
{
    &&& (s.types matches Some(t) ==> t.count <= n)
    &&& match s.array {
        Some(x) => bounded(*x, n),
        None => true,
    }
    &&& match s.object {
        Some(m) => forall|k: Seq<char>| #[trigger] m.contains_key(k) ==> bounded(m[k].value, n),
        None => true,
    }
}

#[via_fn]
proof fn bounded_decreases(s: SchemaView, n: nat) {
    broadcast use vstd::map::axiom_map_index_decreases_finite;

    if let Some(x) = s.object {
        assert forall|k: Seq<char>| x.contains_key(k) implies decreases_to!(s => x[k].value) by {}
    }
}

proof fn lemma_bounded_mono(s: SchemaView, n: nat, m: nat)
    requires
        s.wf(),
        bounded(s, n),
        n <= m,
    ensures
        bounded(s, m),
    decreases s,
{
    broadcast use vstd::map::axiom_map_index_decreases_finite;

    if let Some(x) = s.array {
        lemma_bounded_mono(*x, n, m);
    }
    if let Some(x) = s.object {
        assert forall|k: Seq<char>| #[trigger] x.contains_key(k) implies bounded(x[k].value, m) by {
            lemma_bounded_mono(x[k].value, n, m);
        }
    }
}

/// Merging descriptors whose counts are bounded by `n` and `m` never
/// overflows, and yields a well-formed descriptor bounded by `n + m`.
pub proof fn lemma_merge_bounded(a: SchemaView, b: SchemaView, n: nat, m: nat)
    requires
        a.wf(),
        b.wf(),
        bounded(a, n),
        bounded(b, m),
        n + m <= usize::MAX,
    ensures
        addable(a, b),
        merge_view(a, b).wf(),
        bounded(merge_view(a, b), n + m),
    decreases a,
{
    broadcast use vstd::map::axiom_map_index_decreases_finite;

    let r = merge_view(a, b);
    match a.array {
        Some(x) => match b.array {
            Some(y) => lemma_merge_bounded(*x, *y, n, m),
            None => lemma_bounded_mono(*x, n, n + m),
        },
        None => match b.array {
            Some(y) => lemma_bounded_mono(*y, m, n + m),
            None => {},
        },
    }
    match a.object {
        Some(x) => match b.object {
            Some(y) => {
                let mm = r.object->Some_0;
                assert(mm.dom() =~= x.dom().union(y.dom()));
                assert forall|k: Seq<char>| #[trigger]
                    mm.contains_key(k) implies mm[k].value.wf() && bounded(mm[k].value, n + m) by {
                    if x.contains_key(k) && y.contains_key(k) {
                        lemma_merge_bounded(x[k].value, y[k].value, n, m);
                    } else if x.contains_key(k) {
                        lemma_bounded_mono(x[k].value, n, n + m);
                    } else {
                        lemma_bounded_mono(y[k].value, m, n + m);
                    }
                }
                assert forall|k: Seq<char>| #[trigger]
                    x.contains_key(k) && #[trigger] y.contains_key(k) implies addable(x[k].value, y[k].value) by {
                    lemma_merge_bounded(x[k].value, y[k].value, n, m);
                }
            },
            None => {
                assert forall|k: Seq<char>| #[trigger] x.contains_key(k) implies bounded(x[k].value, n + m) by {
                    lemma_bounded_mono(x[k].value, n, n + m);
                }
            },
        },
        None => match b.object {
            Some(y) => {
                assert forall|k: Seq<char>| #[trigger] y.contains_key(k) implies bounded(y[k].value, n + m) by {
                    lemma_bounded_mono(y[k].value, m, n + m);
                }
            },
            None => {},
        },
    }
}

pub open spec fn field_has(s: Seq<(String, DataValues)>, k: Seq<char>) -> bool {
    exists|i: int| 0 <= i < s.len() && s[i].0@ == k
}

pub open spec fn field_index(s: Seq<(String, DataValues)>, k: Seq<char>) -> int {
    choose|i: int| 0 <= i < s.len() && s[i].0@ == k
}

/// The descriptor of one tree: a literal gives a value set of one value
/// counted once; an array gives the merge of its items' descriptors; an
/// object maps each field to its value's descriptor, required.
pub open spec fn schema_of(d: DataValues) -> SchemaView
    decreases d,
{
    match d {
        DataValues::Literal(l) => SchemaView {
            types: Some(TypesView { values: set![l@], count: 1 }),
            array: None,
            object: None,
        },
        DataValues::Array(v) => SchemaView {
            types: None,
            array: Some(Box::new(items_schema(v@))),
            object: None,
        },
        DataValues::Object(v) => SchemaView {
            types: None,
            array: None,
            object: Some(
                Map::new(
                    |k: Seq<char>| field_has(v@, k),
                    |k: Seq<char>|
                        {
                            let i = field_index(v@, k);
                            if 0 <= i < v@.len() {
                                PropView { value: schema_of(v@[i].1), required: true }
                            } else {
                                PropView { value: empty_view(), required: false }
                            }
                        },
                ),
            ),
        },
    }
}

/// The left-to-right merge of the descriptors of a list of trees; the empty
/// list gives the descriptor with every branch absent.
pub open spec fn items_schema(s: Seq<DataValues>) -> SchemaView
    decreases s,
{
    if s.len() == 0 {
        empty_view()
    } else if s.len() == 1 {
        schema_of(s[0])
    } else {
        merge_view(items_schema(s.drop_last()), schema_of(s.last()))
    }
}

impl Subschema {
    /// The descriptor with every branch absent.
    pub fn new() -> (r: Self)
        ensures
            r.wf(),
            r@ == empty_view(),
    {
        Subschema { types: None, array: None, object: None }
    }

    /// The merge, left to right, of the descriptors of `records`; no
    /// records give the descriptor with every branch absent.
    pub fn from_records(records: Vec<DataValues>) -> (r: Self)
        requires
            forall|i: int| 0 <= i < records@.len() ==> (#[trigger] records@[i]).wf(),
            weight_items(records@) <= usize::MAX,
        ensures
            r.wf(),
            r@ == items_schema(records@),
            bounded(r@, weight_items(records@)),
        decreases records,
    {
        let ghost orig = records;
        let ghost s = records@;
        let mut rest = records;
        let mut acc: Option<Subschema> = None;
        let ghost mut i: int = 0;
        while rest.len() > 0
            invariant
                orig == records,
                orig@ == s,
                forall|j: int| 0 <= j < s.len() ==> (#[trigger] s[j]).wf(),
                weight_items(s) <= usize::MAX,
                0 <= i <= s.len(),
                rest@ == s.subrange(i, s.len() as int),
                acc is None <==> i == 0,
                acc matches Some(x) ==> {
                    &&& x.wf()
                    &&& x@ == items_schema(s.subrange(0, i))
                    &&& bounded(x@, weight_items(s.subrange(0, i)))
                },
            decreases rest.len(),
        {
            let item = rest.remove(0);
            proof {
                assert(item == s[i]);
                lemma_weight_items(s, i);
                broadcast use vstd::std_specs::vec::axiom_vec_index_decreases;
                assert(orig[i] == s[i]);
                assert(decreases_to!(orig => orig[i]));
            }
            let sch = Self::from_data(item);
            proof {
                lemma_view_wf(&sch);
                assert(s.subrange(0, i + 1).drop_last() =~= s.subrange(0, i));
                assert(s.subrange(0, i + 1).last() == s[i]);
            }
            acc = match acc {
                None => {
                    proof {
                        assert(s.subrange(0, 1) =~= seq![s[0]]);
                    }
                    Some(sch)
                },
                Some(x) => {
                    proof {
                        lemma_view_wf(&x);
                        lemma_merge_bounded(x@, sch@, weight_items(s.subrange(0, i)), s[i].weight());
                    }
                    Some(crunch_schemas(x, sch))
                },
            };
            proof {
                i = i + 1;
            }
        }
        proof {
            assert(s.subrange(0, i) =~= s);
        }
        match acc {
            Some(x) => x,
            None => {
                let r = Subschema::new();
                proof {
                    lemma_view_wf(&r);
                }
                r
            },
        }
    }

    /// The descriptor of one tree.
    pub fn from_data(data: DataValues) -> (r: Self)
        requires
            data.wf(),
            data.weight() <= usize::MAX,
        ensures
            r.wf(),
            r@ == schema_of(data),
            bounded(r@, data.weight()),
        decreases data,
    {
        let ghost d = data;
        match data {
            DataValues::Literal(t) => {
                let mut values: Vec<Literals> = Vec::new();
                values.push(t);
                let r = Subschema {
                    types: Some(SubschemaTypes { values, instance_count: 1 }),
                    array: None,
                    object: None,
                };
                proof {
                    assert(lit_set(values@) =~= set![t@]) by {
                        assert(values@[0] == t);
                    }
                    lemma_view_wf(&r);
                }
                r
            },
            DataValues::Array(items) => {
                proof {
                    assert(decreases_to!(d => items));
                }
                let inner = Self::from_records(items);
                let r = Subschema { types: None, array: Some(Box::new(inner)), object: None };
                proof {
                    lemma_view_wf(&r);
                }
                r
            },
            DataValues::Object(fields) => {
                let ghost orig = fields;
                let ghost s = fields@;
                let mut rest = fields;
                let mut out: Vec<(String, ObjectProperty)> = Vec::new();
                let ghost mut i: int = 0;
                while rest.len() > 0
                    invariant
                        d == data,
                        d == DataValues::Object(orig),
                        orig@ == s,
                        d.wf(),
                        weight_fields(s) == d.weight(),
                        d.weight() <= usize::MAX,
                        0 <= i <= s.len(),
                        rest@ == s.subrange(i, s.len() as int),
                        out@.len() == i,
                        forall|j: int| 0 <= j < i ==> {
                            &&& (#[trigger] out@[j]).0 == s[j].0
                            &&& out@[j].1.value.wf()
                            &&& out@[j].1.value@ == schema_of(s[j].1)
                            &&& bounded(out@[j].1.value@, d.weight())
                            &&& out@[j].1.required
                        },
                    decreases rest.len(),
                {
                    let (k, v) = rest.remove(0);
                    proof {
                        assert((k, v) == s[i]);
                        lemma_weight_fields(s, i);
                        broadcast use vstd::std_specs::vec::axiom_vec_index_decreases;
                        assert(orig[i] == s[i]);
                        assert(decreases_to!(orig => orig[i]));
                        assert(decreases_to!(d => v));
                        assert(v.wf());
                    }
                    let sch = Self::from_data(v);
                    proof {
                        lemma_view_wf(&sch);
                        lemma_bounded_mono(sch@, s[i].1.weight(), d.weight());
                    }
                    out.push((k, ObjectProperty { value: sch, required: true }));
                    proof {
                        i = i + 1;
                    }
                }
                proof {
                    assert(keys_unique(out@)) by {
                        assert forall|x: int, y: int| 0 <= x < y < out@.len() implies out@[x].0@ != out@[y].0@ by {
                            assert(out@[x].0 == s[x].0);
                            assert(out@[y].0 == s[y].0);
                        }
                    }
                    let target = schema_of(d).object->Some_0;
                    assert forall|k: Seq<char>| #[trigger] props_view(out@).contains_key(k) <==> target.contains_key(k) by {
                        if has_key(out@, k) {
                            let x = choose|x: int| 0 <= x < out@.len() && out@[x].0@ == k;
                            assert(out@[x].0 == s[x].0);
                            assert(field_has(s, k));
                        }
                        if field_has(s, k) {
                            let x = choose|x: int| 0 <= x < s.len() && s[x].0@ == k;
                            assert(out@[x].0 == s[x].0);
                            assert(has_key(out@, k));
                        }
                    }
                    assert forall|k: Seq<char>| #[trigger] props_view(out@).contains_key(k) implies props_view(out@)[k] == target[k] by {
                        let x = choose|x: int| 0 <= x < out@.len() && out@[x].0@ == k;
                        lemma_props_index(out@, x);
                        assert(out@[x].0 == s[x].0);
                        assert(field_index(s, k) == x) by {
                            let y = field_index(s, k);
                            assert(0 <= x < s.len() && s[x].0@ == k);
                            if y != x {
                                assert(field_names_unique(s));
                            }
                        }
                    }
                    assert(props_view(out@) =~= target);
                }
                let r = Subschema { types: None, array: None, object: Some(out) };
                proof {
                    lemma_view_wf(&r);
                    let m = r@.object->Some_0;
                    assert forall|k: Seq<char>| #[trigger] m.contains_key(k) implies bounded(m[k].value, d.weight()) by {
                        let x = choose|x: int| 0 <= x < out@.len() && out@[x].0@ == k;
                        lemma_props_index(out@, x);
                    }
                }
                r
            },
        }
    }
}

proof fn lemma_props_index(s: Seq<(String, ObjectProperty)>, i: int)
    requires
        keys_unique(s),
        0 <= i < s.len(),
    ensures
        has_key(s, s[i].0@),
        key_index(s, s[i].0@) == i,
        props_view(s).contains_key(s[i].0@),
        props_view(s)[s[i].0@] == (PropView { value: s[i].1.value@, required: s[i].1.required }),
{
    assert(0 <= i < s.len() && s[i].0@ == s[i].0@);
    assert(has_key(s, s[i].0@));
}

proof fn lemma_props_push(s: Seq<(String, ObjectProperty)>, e: (String, ObjectProperty))
    requires
        keys_unique(s),
        !has_key(s, e.0@),
    ensures
        keys_unique(s.push(e)),
        props_view(s.push(e)) == props_view(s).insert(
            e.0@,
            PropView { value: e.1.value@, required: e.1.required },
        ),
{
    let t = s.push(e);
    assert forall|i: int, j: int| 0 <= i < j < t.len() implies t[i].0@ != t[j].0@ by {
        if j == s.len() {
            if s[i].0@ == e.0@ {
                assert(0 <= i < s.len() && s[i].0@ == e.0@);
            }
        }
    }
    let m1 = props_view(t);
    let m2 = props_view(s).insert(e.0@, PropView { value: e.1.value@, required: e.1.required });
    assert forall|k: Seq<char>| #[trigger] m1.contains_key(k) <==> m2.contains_key(k) by {
        if has_key(t, k) {
            let i = choose|i: int| 0 <= i < t.len() && t[i].0@ == k;
            if i < s.len() {
                assert(s[i] == t[i]);
                assert(has_key(s, k));
            }
        }
        if has_key(s, k) {
            let i = choose|i: int| 0 <= i < s.len() && s[i].0@ == k;
            assert(t[i] == s[i]);
            assert(has_key(t, k));
        }
        if k == e.0@ {
            assert(t[s.len() as int] == e);
            assert(has_key(t, k));
        }
    }
    assert forall|k: Seq<char>| #[trigger] m1.contains_key(k) implies m1[k] == m2[k] by {
        if k == e.0@ {
            assert(t[s.len() as int] == e);
            lemma_props_index(t, s.len() as int);
        } else {
            let i = choose|i: int| 0 <= i < t.len() && t[i].0@ == k;
            assert(i < s.len());
            assert(t[i] == s[i]);
            lemma_props_index(s, i);
            lemma_props_index(t, i);
        }
    }
    assert(m1 =~= m2);
}

proof fn lemma_props_remove(s: Seq<(String, ObjectProperty)>, j: int)
    requires
        keys_unique(s),
        0 <= j < s.len(),
    ensures
        keys_unique(s.remove(j)),
        props_view(s.remove(j)) == props_view(s).remove(s[j].0@),
{
    let t = s.remove(j);
    assert forall|a: int, b: int| 0 <= a < b < t.len() implies t[a].0@ != t[b].0@ by {
        let a2 = if a < j { a } else { a + 1 };
        let b2 = if b < j { b } else { b + 1 };
        assert(t[a] == s[a2]);
        assert(t[b] == s[b2]);
    }
    let m1 = props_view(t);
    let m2 = props_view(s).remove(s[j].0@);
    lemma_props_index(s, j);
    assert forall|k: Seq<char>| #[trigger] m1.contains_key(k) <==> m2.contains_key(k) by {
        if has_key(t, k) {
            let i = choose|i: int| 0 <= i < t.len() && t[i].0@ == k;
            let i2 = if i < j { i } else { i + 1 };
            assert(t[i] == s[i2]);
            assert(has_key(s, k));
            assert(k != s[j].0@);
        }
        if has_key(s, k) && k != s[j].0@ {
            let i = choose|i: int| 0 <= i < s.len() && s[i].0@ == k;
            assert(i != j);
            let i2 = if i < j { i } else { i - 1 };
            assert(t[i2] == s[i]);
            assert(has_key(t, k));
        }
    }
    assert forall|k: Seq<char>| #[trigger] m1.contains_key(k) implies m1[k] == m2[k] by {
        let i = choose|i: int| 0 <= i < t.len() && t[i].0@ == k;
        let i2 = if i < j { i } else { i + 1 };
        assert(t[i] == s[i2]);
        lemma_props_index(t, i);
        lemma_props_index(s, i2);
    }
    assert(m1 =~= m2);
}

/// A well-formed descriptor has a well-formed view.
pub proof fn lemma_view_wf(s: &Subschema)
    requires
        s.wf(),
    ensures
        s@.wf(),
    decreases s,
{
    broadcast use vstd::std_specs::vec::axiom_vec_index_decreases;

    if let Some(b) = &s.array {
        lemma_view_wf(&**b);
    }
    if let Some(v) = &s.object {
        let m = props_view(v@);
        let keys = v@.map_values(|e: (String, ObjectProperty)| e.0@).to_set();
        assert forall|k: Seq<char>| m.contains_key(k) implies #[trigger] keys.contains(k) by {
            let i = choose|i: int| 0 <= i < v@.len() && v@[i].0@ == k;
            assert(v@.map_values(|e: (String, ObjectProperty)| e.0@)[i] == k);
        }
        vstd::seq_lib::seq_to_set_is_finite(v@.map_values(|e: (String, ObjectProperty)| e.0@));
        vstd::set_lib::lemma_len_subset(m.dom(), keys);
        assert forall|k: Seq<char>| #[trigger] m.contains_key(k) implies m[k].value.wf() by {
            let i = choose|i: int| 0 <= i < v@.len() && v@[i].0@ == k;
            lemma_props_index(v@, i);
            assert(decreases_to!(v => v[i]));
            lemma_view_wf(&v@[i].1.value);
        }
    }
}

proof fn lemma_lit_set_push(s: Seq<Literals>, x: Literals)
    ensures
        lit_set(s.push(x)) == lit_set(s).insert(x@),
{
    let t = s.push(x);
    assert forall|v: LitView| lit_set(t).contains(v) implies lit_set(s).insert(x@).contains(v) by {
        let k = choose|k: int| 0 <= k < t.len() && t[k]@ == v;
        if k < s.len() {
            assert(t[k] == s[k]);
        }
    }
    assert forall|v: LitView| lit_set(s).insert(x@).contains(v) implies lit_set(t).contains(v) by {
        if v == x@ {
            assert(t[s.len() as int] == x);
        } else {
            let k = choose|k: int| 0 <= k < s.len() && s[k]@ == v;
            assert(t[k] == s[k]);
        }
    }
    assert(lit_set(t) =~= lit_set(s).insert(x@));
}

fn contains_value(v: &Vec<Literals>, x: &Literals) -> (r: bool)
    ensures
        r == lit_set(v@).contains(x@),
{
    let mut i: usize = 0;
    while i < v.len()
        invariant
            i <= v.len(),
            forall|j: int| 0 <= j < i ==> v@[j]@ != x@,
        decreases v.len() - i,
    {
        if v[i].same_as(x) {
            assert(0 <= i < v@.len() && v@[i as int]@ == x@);
            return true;
        }
        i += 1;
    }
    false
}

/// Appends to `a` each value of `b` that it does not hold yet, in order.
fn merge_values(a: Vec<Literals>, b: Vec<Literals>) -> (r: Vec<Literals>)
    requires
        values_distinct(a@),
    ensures
        values_distinct(r@),
        lit_set(r@) == lit_set(a@).union(lit_set(b@)),
        a.len() <= r.len() <= a.len() + b.len(),
{
    let mut out = a;
    let mut rest = b;
    let ghost b0 = b@;
    let ghost mut i: int = 0;
    while rest.len() > 0
        invariant
            0 <= i <= b0.len(),
            rest@ == b0.subrange(i, b0.len() as int),
            values_distinct(out@),
            lit_set(out@) == lit_set(a@).union(lit_set(b0.subrange(0, i))),
            a.len() <= out.len() <= a.len() + i,
        decreases rest.len(),
    {
        let item = rest.remove(0);
        assert(item == b0[i]);
        let ghost before = out@;
        if !contains_value(&out, &item) {
            out.push(item);
            assert forall|x: int, y: int| 0 <= x < y < out@.len() implies out@[x]@ != out@[y]@ by {
                if y == before.len() {
                    assert(before[x]@ != item@) by {
                        if before[x]@ == item@ {
                            assert(lit_set(before).contains(item@));
                        }
                    }
                }
            }
            proof {
                lemma_lit_set_push(before, item);
            }
        }
        proof {
            assert(b0.subrange(0, i + 1) =~= b0.subrange(0, i).push(item));
            lemma_lit_set_push(b0.subrange(0, i), item);
            i = i + 1;
        }
    }
    assert(b0.subrange(0, i) == b0);
    out
}

fn find_key(v: &Vec<(String, ObjectProperty)>, k: &String) -> (r: Option<usize>)
    ensures
        match r {
            Some(j) => j < v.len() && v@[j as int].0@ == k@,
            None => !has_key(v@, k@),
        },
{
    let mut i: usize = 0;
    while i < v.len()
        invariant
            i <= v.len(),
            forall|j: int| 0 <= j < i ==> v@[j].0@ != k@,
        decreases v.len() - i,
    {
        if v[i].0 == *k {
            return Some(i);
        }
        i += 1;
    }
    None
}

proof fn lemma_addable_prop(a: SchemaView, b: SchemaView, k: Seq<char>)
    requires
        a.wf(),
        addable(a, b),
        a.object matches Some(x) && x.contains_key(k),
        b.object matches Some(y) && y.contains_key(k),
    ensures
        addable(a.object->Some_0[k].value, b.object->Some_0[k].value),
{
    let x = a.object->Some_0;
    let y = b.object->Some_0;
    assert(x.contains_key(k) && y.contains_key(k));
}

/// Merges two descriptors into one that describes the observations of both.
pub fn crunch_schemas(uo_1: Subschema, uo_2: Subschema) -> (r: Subschema)
    requires
        uo_1.wf(),
        uo_2.wf(),
        addable(uo_1@, uo_2@),
    ensures
        r.wf(),
        r@ == merge_view(uo_1@, uo_2@),
    decreases uo_1,
{
    proof {
        lemma_view_wf(&uo_1);
        lemma_view_wf(&uo_2);
    }
    let ghost a = uo_1;
    let ghost b = uo_2;
    let ghost merged = merge_view(a@, b@);
    let Subschema { types: t1, array: r1, object: o1 } = uo_1;
    let Subschema { types: t2, array: r2, object: o2 } = uo_2;

    let types = match t1 {
        Some(s1) => match t2 {
            Some(s2) => Some(
                SubschemaTypes {
                    values: merge_values(s1.values, s2.values),
                    instance_count: s1.instance_count + s2.instance_count,
                },
            ),
            None => Some(s1),
        },
        None => t2,
    };

    let array = match r1 {
        Some(x) => match r2 {
            Some(y) => Some(Box::new(crunch_schemas(*x, *y))),
            None => Some(x),
        },
        None => r2,
    };

    let object = match o1 {
        Some(av_in) => match o2 {
            Some(bv_in) => {
                let mut av = av_in;
                let mut bv = bv_in;
                let ghost av0 = av@;
                let ghost big_a = props_view(av@);
                let ghost big_b = props_view(bv@);
                let ghost m = merged.object->Some_0;
                let mut out: Vec<(String, ObjectProperty)> = Vec::new();
                let ghost mut done: Set<Seq<char>> = Set::empty();
                proof {
                    assert(props_view(out@) =~= m.restrict(done));
                    assert(props_view(av@) =~= big_a.remove_keys(done));
                    assert(props_view(bv@) =~= big_b.remove_keys(done));
                }
                while av.len() > 0
                    invariant
                        uo_1 == a,
                        a.object == Some(av_in),
                        av_in@ == av0,
                        av.len() <= av0.len(),
                        av@ == av0.subrange(0, av.len() as int),
                        keys_unique(av@),
                        keys_unique(av0),
                        props_wf(av0),
                        keys_unique(bv@),
                        props_wf(bv@),
                        keys_unique(out@),
                        props_wf(out@),
                        big_a == props_view(av0),
                        a@.object == Some(big_a),
                        b@.object == Some(big_b),
                        a@.wf(),
                        merged == merge_view(a@, b@),
                        m == merged.object->Some_0,
                        addable(a@, b@),
                        done.subset_of(big_a.dom()),
                        props_view(av@) == big_a.remove_keys(done),
                        props_view(bv@) == big_b.remove_keys(done),
                        props_view(out@) == m.restrict(done),
                    decreases av.len(),
                {
                    let ghost av_old = av@;
                    let ghost n = av.len() as int;
                    let (k, pa) = av.pop().unwrap();
                    let ObjectProperty { value: va, required: ra } = pa;
                    proof {
                        assert(av_old[n - 1] == (k, ObjectProperty { value: va, required: ra }));
                        assert(av_old[n - 1] == av0[n - 1]);
                        lemma_props_index(av_old, n - 1);
                        assert(av_old.remove(n - 1) =~= av@);
                        lemma_props_remove(av_old, n - 1);
                        lemma_props_index(av0, n - 1);
                        assert(!done.contains(k@));
                        assert(big_a.contains_key(k@));
                        assert(props_view(av@) =~= big_a.remove_keys(done.insert(k@)));
                        assert(!has_key(out@, k@)) by {
                            if has_key(out@, k@) {
                                assert(props_view(out@).contains_key(k@));
                            }
                        }
                    }
                    match find_key(&bv, &k) {
                        Some(j) => {
                            let ghost bv_old = bv@;
                            let (_kb, pb) = bv.remove(j);
                            let ObjectProperty { value: vb, required: rb } = pb;
                            proof {
                                lemma_props_index(bv_old, j as int);
                                lemma_props_remove(bv_old, j as int);
                                assert(big_b.contains_key(k@));
                                assert(props_view(bv@) =~= big_b.remove_keys(done.insert(k@)));
                                assert(big_a[k@].value == va@);
                                assert(big_b[k@].value == vb@);
                                lemma_addable_prop(a@, b@, k@);
                                assert(va.wf());
                                broadcast use vstd::std_specs::vec::axiom_vec_index_decreases;
                                assert(av_in[n - 1] == av0[n - 1]);
                                assert(decreases_to!(av_in => av_in[n - 1]));
                                assert(decreases_to!(a => a.object));
                                assert(decreases_to!(a.object => av_in));
                                assert(decreases_to!(av_in[n - 1] => av_in[n - 1].1.value));
                                assert(decreases_to!(a => va));
                            }
                            let v = crunch_schemas(va, vb);
                            let prop = ObjectProperty { value: v, required: ra && rb };
                            proof {
                                lemma_props_push(out@, (k, prop));
                            }
                            out.push((k, prop));
                        },
                        None => {
                            proof {
                                assert(!big_b.contains_key(k@)) by {
                                    if big_b.contains_key(k@) {
                                        assert(props_view(bv@).contains_key(k@));
                                    }
                                }
                                assert(props_view(bv@) =~= big_b.remove_keys(done.insert(k@)));
                            }
                            let prop = ObjectProperty { value: va, required: false };
                            proof {
                                lemma_props_push(out@, (k, prop));
                            }
                            out.push((k, prop));
                        },
                    }
                    proof {
                        assert(props_view(out@) =~= m.restrict(done.insert(k@)));
                        done = done.insert(k@);
                    }
                }
                proof {
                    assert forall|k: Seq<char>| big_a.contains_key(k) implies done.contains(k) by {
                        if !done.contains(k) {
                            assert(props_view(av@).contains_key(k));
                        }
                    }
                }
                while bv.len() > 0
                    invariant
                        keys_unique(bv@),
                        props_wf(bv@),
                        keys_unique(out@),
                        props_wf(out@),
                        a@.object == Some(big_a),
                        b@.object == Some(big_b),
                        a@.wf(),
                        merged == merge_view(a@, b@),
                        m == merged.object->Some_0,
                        big_a.dom().subset_of(done),
                        props_view(bv@) == big_b.remove_keys(done),
                        props_view(out@) == m.restrict(done),
                    decreases bv.len(),
                {
                    let ghost bv_old = bv@;
                    let ghost n = bv.len() as int;
                    let (k, pb) = bv.pop().unwrap();
                    let ObjectProperty { value: vb, required: _rb } = pb;
                    proof {
                        assert(bv_old[n - 1] == (k, ObjectProperty { value: vb, required: _rb }));
                        lemma_props_index(bv_old, n - 1);
                        assert(bv_old.remove(n - 1) =~= bv@);
                        lemma_props_remove(bv_old, n - 1);
                        assert(!done.contains(k@));
                        assert(props_view(bv@) =~= big_b.remove_keys(done.insert(k@)));
                        assert(!has_key(out@, k@)) by {
                            if has_key(out@, k@) {
                                assert(props_view(out@).contains_key(k@));
                            }
                        }
                    }
                    let prop = ObjectProperty { value: vb, required: false };
                    proof {
                        lemma_props_push(out@, (k, prop));
                    }
                    out.push((k, prop));
                    proof {
                        assert(props_view(out@) =~= m.restrict(done.insert(k@)));
                        done = done.insert(k@);
                    }
                }
                proof {
                    assert forall|k: Seq<char>| big_b.contains_key(k) implies done.contains(k) by {
                        if !done.contains(k) {
                            assert(props_view(bv@).contains_key(k));
                        }
                    }
                    assert(props_view(out@) =~= m);
                }
                Some(out)
            },
            None => Some(av_in),
        },
        None => o2,
    };

    let r = Subschema { types, array, object };
    proof {
        assert(r@.types == merged.types);
        assert(r@.array == merged.array);
        assert(r@.object == merged.object);
    }
    r
}

} // verus!
