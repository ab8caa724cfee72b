//! Algebraic laws of the merge of descriptors.
use crate::schema::{addable, lemma_view_wf, merge_view, SchemaView, Subschema, TypesView};
use vstd::prelude::*;

verus! {

/// Merging two well-formed descriptors yields a well-formed descriptor.
pub proof fn lemma_merge_wf(a: SchemaView, b: SchemaView)
    requires
        a.wf(),
        b.wf(),
    ensures
        merge_view(a, b).wf(),
    decreases a,
{
    broadcast use vstd::map::axiom_map_index_decreases_finite;

    let r = merge_view(a, b);
    if let (Some(x), Some(y)) = (a.array, b.array) {
        lemma_merge_wf(*x, *y);
    }
    if let (Some(x), Some(y)) = (a.object, b.object) {
        let m = r.object->Some_0;
        assert(m.dom() =~= x.dom().union(y.dom()));
        assert forall|k: Seq<char>| #[trigger] m.contains_key(k) implies m[k].value.wf() by {
            if x.contains_key(k) && y.contains_key(k) {
                lemma_merge_wf(x[k].value, y[k].value);
            }
        }
    }
}

/// The merge is commutative: merging `a` with `b` describes the same
/// observations as merging `b` with `a`.
pub proof fn lemma_merge_commutative(a: SchemaView, b: SchemaView)
    requires
        a.wf(),
        b.wf(),
    ensures
        merge_view(a, b) == merge_view(b, a),
    decreases a,
{
    broadcast use vstd::map::axiom_map_index_decreases_finite;

    let l = merge_view(a, b);
    let r = merge_view(b, a);
    if let (Some(x), Some(y)) = (a.types, b.types) {
        assert(x.values.union(y.values) =~= y.values.union(x.values));
    }
    if let (Some(x), Some(y)) = (a.array, b.array) {
        lemma_merge_commutative(*x, *y);
    }
    if let (Some(x), Some(y)) = (a.object, b.object) {
        let ml = l.object->Some_0;
        let mr = r.object->Some_0;
        assert forall|k: Seq<char>| #[trigger] ml.contains_key(k) implies ml[k] == mr[k] by {
            if x.contains_key(k) && y.contains_key(k) {
                lemma_merge_commutative(x[k].value, y[k].value);
            }
        }
        assert(ml =~= mr);
    }
    assert(l.types == r.types);
    assert(l.array == r.array);
    assert(l.object == r.object);
}

/// The merge is associative: folding three descriptors from the left or
/// from the right gives the same descriptor.
pub proof fn lemma_merge_associative(a: SchemaView, b: SchemaView, c: SchemaView)
    requires
        a.wf(),
        b.wf(),
        c.wf(),
    ensures
        merge_view(merge_view(a, b), c) == merge_view(a, merge_view(b, c)),
    decreases a,
{
    broadcast use vstd::map::axiom_map_index_decreases_finite;

    lemma_merge_wf(a, b);
    lemma_merge_wf(b, c);
    let ab = merge_view(a, b);
    let bc = merge_view(b, c);
    let l = merge_view(ab, c);
    let r = merge_view(a, bc);
    if let (Some(x), Some(y), Some(z)) = (a.types, b.types, c.types) {
        assert(x.values.union(y.values).union(z.values) =~= x.values.union(y.values.union(z.values)));
    }
    if let (Some(x), Some(y), Some(z)) = (a.array, b.array, c.array) {
        lemma_merge_associative(*x, *y, *z);
    }
    assert(l.types == r.types);
    assert(l.array == r.array);
    match (a.object, b.object, c.object) {
        (Some(x), Some(y), Some(z)) => {
            let mab = ab.object->Some_0;
            let mbc = bc.object->Some_0;
            let ml = l.object->Some_0;
            let mr = r.object->Some_0;
            assert(ml.dom() =~= mr.dom());
            assert forall|k: Seq<char>| #[trigger] ml.contains_key(k) implies ml[k] == mr[k] by {
                if x.contains_key(k) && y.contains_key(k) && z.contains_key(k) {
                    lemma_merge_associative(x[k].value, y[k].value, z[k].value);
                }
            }
            assert(ml =~= mr);
        },
        _ => {},
    }
    assert(l.object == r.object);
}

/// Merging a descriptor with itself doubles its instance count and keeps
/// its set of values.
pub proof fn lemma_merge_self_types(a: SchemaView)
    requires
        a.wf(),
    ensures
        a.types matches Some(t) ==> merge_view(a, a).types == Some(
            TypesView { values: t.values, count: 2 * t.count },
        ),
{
    if let Some(t) = a.types {
        assert(t.values.union(t.values) =~= t.values);
    }
}

/// A property that is optional on either side of a merge is optional in the
/// result: a merge never makes an optional property required again.
pub proof fn lemma_optional_stays_optional(a: SchemaView, b: SchemaView, k: Seq<char>)
    requires
        a.wf(),
        b.wf(),
        (a.object matches Some(x) && x.contains_key(k) && !x[k].required) || (b.object matches Some(
            y,
        ) && y.contains_key(k) && !y[k].required),
    ensures
        merge_view(a, b).object matches Some(m) && m.contains_key(k) && !m[k].required,
{
}

/// Folding three descriptors gives the same result whichever way they are
/// grouped and in whichever rotation they are taken.
pub proof fn lemma_merge_order_free(a: SchemaView, b: SchemaView, c: SchemaView)
    requires
        a.wf(),
        b.wf(),
        c.wf(),
    ensures
        merge_view(merge_view(a, b), c) == merge_view(a, merge_view(b, c)),
        merge_view(a, merge_view(b, c)) == merge_view(merge_view(b, c), a),
{
    lemma_merge_associative(a, b, c);
    lemma_merge_wf(b, c);
    lemma_merge_commutative(a, merge_view(b, c));
}

/// Whether two descriptors can be merged without overflow does not depend
/// on their order.
pub proof fn lemma_addable_commutative(a: SchemaView, b: SchemaView)
    requires
        a.wf(),
        b.wf(),
        addable(a, b),
    ensures
        addable(b, a),
    decreases a,
{
    broadcast use vstd::map::axiom_map_index_decreases_finite;

    if let (Some(x), Some(y)) = (a.array, b.array) {
        lemma_addable_commutative(*x, *y);
    }
    if let (Some(x), Some(y)) = (a.object, b.object) {
        assert forall|k: Seq<char>| #[trigger]
            y.contains_key(k) && #[trigger] x.contains_key(k) implies addable(y[k].value, x[k].value) by {
            lemma_addable_commutative(x[k].value, y[k].value);
        }
    }
}

/// When three descriptors can be merged from the left without overflow,
/// they can also be merged from the right.
pub proof fn lemma_addable_associative(a: SchemaView, b: SchemaView, c: SchemaView)
    requires
        a.wf(),
        b.wf(),
        c.wf(),
        addable(a, b),
        addable(merge_view(a, b), c),
    ensures
        addable(b, c),
        addable(a, merge_view(b, c)),
    decreases a,
{
    broadcast use vstd::map::axiom_map_index_decreases_finite;

    lemma_merge_wf(a, b);
    lemma_merge_wf(b, c);
    let ab = merge_view(a, b);
    let bc = merge_view(b, c);
    if let (Some(x), Some(y), Some(z)) = (a.array, b.array, c.array) {
        lemma_addable_associative(*x, *y, *z);
    }
    match (b.object, c.object) {
        (Some(y), Some(z)) => {
            assert forall|k: Seq<char>| #[trigger]
                y.contains_key(k) && #[trigger] z.contains_key(k) implies addable(y[k].value, z[k].value) by {
                let mab = ab.object->Some_0;
                assert(mab.contains_key(k));
                assert(addable(mab[k].value, z[k].value));
                if let Some(x) = a.object {
                    if x.contains_key(k) {
                        assert(mab[k].value == merge_view(x[k].value, y[k].value));
                        assert(addable(x[k].value, y[k].value));
                        lemma_addable_associative(x[k].value, y[k].value, z[k].value);
                    }
                }
            }
        },
        _ => {},
    }
    if let Some(x) = a.object {
        if let Some(mbc) = bc.object {
            assert forall|k: Seq<char>| #[trigger]
                x.contains_key(k) && #[trigger] mbc.contains_key(k) implies addable(x[k].value, mbc[k].value) by {
                let mab = ab.object->Some_0;
                assert(mab.contains_key(k));
                if let (Some(y), Some(z)) = (b.object, c.object) {
                    if y.contains_key(k) && z.contains_key(k) {
                        assert(mab[k].value == merge_view(x[k].value, y[k].value));
                        assert(addable(mab[k].value, z[k].value));
                        assert(addable(x[k].value, y[k].value));
                        lemma_addable_associative(x[k].value, y[k].value, z[k].value);
                    } else if y.contains_key(k) {
                        assert(addable(x[k].value, y[k].value));
                    } else if z.contains_key(k) {
                        assert(addable(mab[k].value, z[k].value));
                    }
                } else if let Some(y) = b.object {
                    assert(addable(x[k].value, y[k].value));
                } else if let Some(z) = c.object {
                    assert(addable(mab[k].value, z[k].value));
                }
            }
        }
    }
}

/// Merging with `crunch_schemas` is associative and commutative: when
/// `a`, `b`, `c` can be merged from the left, they can be merged from the
/// right and in rotation too, and all three results describe the same
/// observations.
pub proof fn lemma_crunch_order_free(a: Subschema, b: Subschema, c: Subschema)
    requires
        a.wf(),
        b.wf(),
        c.wf(),
        addable(a@, b@),
        addable(merge_view(a@, b@), c@),
    ensures
        addable(b@, c@),
        addable(a@, merge_view(b@, c@)),
        addable(merge_view(b@, c@), a@),
        merge_view(merge_view(a@, b@), c@) == merge_view(a@, merge_view(b@, c@)),
        merge_view(a@, merge_view(b@, c@)) == merge_view(merge_view(b@, c@), a@),
{
    lemma_view_wf(&a);
    lemma_view_wf(&b);
    lemma_view_wf(&c);
    lemma_addable_associative(a@, b@, c@);
    lemma_merge_wf(b@, c@);
    lemma_addable_commutative(a@, merge_view(b@, c@));
    lemma_merge_order_free(a@, b@, c@);
}

/// `crunch_schemas(a, b)` and `crunch_schemas(b, a)` can both be computed
/// and describe the same observations.
pub proof fn lemma_crunch_commutative(a: Subschema, b: Subschema)
    requires
        a.wf(),
        b.wf(),
        addable(a@, b@),
    ensures
        addable(b@, a@),
        merge_view(a@, b@) == merge_view(b@, a@),
{
    lemma_view_wf(&a);
    lemma_view_wf(&b);
    lemma_addable_commutative(a@, b@);
    lemma_merge_commutative(a@, b@);
}

/// `crunch_schemas` of a descriptor with an equal copy keeps its set of
/// values and doubles its instance count.
pub proof fn lemma_crunch_self(a: Subschema)
    requires
        a.wf(),
    ensures
        a@.types matches Some(t) ==> merge_view(a@, a@).types == Some(
            TypesView { values: t.values, count: 2 * t.count },
        ),
{
    lemma_view_wf(&a);
    lemma_merge_self_types(a@);
}

/// A property that is optional in either argument of `crunch_schemas` is
/// optional in its result.
pub proof fn lemma_crunch_optional(a: Subschema, b: Subschema, k: Seq<char>)
    requires
        a.wf(),
        b.wf(),
        (a@.object matches Some(x) && x.contains_key(k) && !x[k].required) || (b@.object matches Some(
            y,
        ) && y.contains_key(k) && !y[k].required),
    ensures
        merge_view(a@, b@).object matches Some(m) && m.contains_key(k) && !m[k].required,
{
    lemma_view_wf(&a);
    lemma_view_wf(&b);
    lemma_optional_stays_optional(a@, b@, k);
}

} // verus!
