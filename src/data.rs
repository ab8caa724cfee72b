//! The tree that one input record is normalised into.
use crate::literal::Literals;
use vstd::prelude::*;

verus! {

/// One input record as a tree of literals, ordered arrays and keyed objects.
/// An object is a list of fields whose names are unique (see `wf`).
#[derive(Debug, PartialEq, Eq)]
pub enum DataValues {
    Literal(Literals),
    Array(Vec<DataValues>),
    Object(Vec<(String, DataValues)>),
}

/// True when no two fields of `s` have the same name.
pub open spec fn field_names_unique(s: Seq<(String, DataValues)>) -> bool {
    forall|i: int, j: int| 0 <= i < j < s.len() ==> s[i].0@ != s[j].0@
}

impl DataValues {
    /// Every object in the tree has unique field names.
    pub open spec fn wf(&self) -> bool
        decreases self,
    {
        match self {
            DataValues::Literal(_) => true,
            DataValues::Array(v) => forall|i: int| 0 <= i < v@.len() ==> (#[trigger] v@[i]).wf(),
            DataValues::Object(v) => {
                &&& field_names_unique(v@)
                &&& forall|i: int| 0 <= i < v@.len() ==> (#[trigger] v@[i]).1.wf()
            },
        }
    }

    /// The number of literals in the tree.
    pub open spec fn weight(&self) -> nat
        decreases self,
    {
        match self {
            DataValues::Literal(_) => 1,
            DataValues::Array(v) => weight_items(v@),
            DataValues::Object(v) => weight_fields(v@),
        }
    }
}

pub open spec fn weight_items(s: Seq<DataValues>) -> nat
    decreases s,
{
    if s.len() == 0 {
        0
    } else {
        weight_items(s.drop_last()) + s.last().weight()
    }
}

pub open spec fn weight_fields(s: Seq<(String, DataValues)>) -> nat
    decreases s,
{
    if s.len() == 0 {
        0
    } else {
        weight_fields(s.drop_last()) + s.last().1.weight()
    }
}

pub proof fn lemma_weight_items(s: Seq<DataValues>, i: int)
    requires
        0 <= i < s.len(),
    ensures
        weight_items(s.subrange(0, i)) + s[i].weight() <= weight_items(s),
        weight_items(s.subrange(0, i + 1)) == weight_items(s.subrange(0, i)) + s[i].weight(),
    decreases s.len(),
{
    assert(s.subrange(0, i + 1).drop_last() =~= s.subrange(0, i));
    if i < s.len() - 1 {
        lemma_weight_items(s.drop_last(), i);
        assert(s.drop_last().subrange(0, i) =~= s.subrange(0, i));
        assert(s.drop_last()[i] == s[i]);
    } else {
        assert(s.subrange(0, i) =~= s.drop_last());
    }
}

pub proof fn lemma_weight_fields(s: Seq<(String, DataValues)>, i: int)
    requires
        0 <= i < s.len(),
    ensures
        s[i].1.weight() <= weight_fields(s),
        weight_fields(s.subrange(0, i)) + s[i].1.weight() <= weight_fields(s),
        weight_fields(s.subrange(0, i + 1)) == weight_fields(s.subrange(0, i)) + s[i].1.weight(),
    decreases s.len(),
{
    assert(s.subrange(0, i + 1).drop_last() =~= s.subrange(0, i));
    if i < s.len() - 1 {
        lemma_weight_fields(s.drop_last(), i);
        assert(s.drop_last().subrange(0, i) =~= s.subrange(0, i));
        assert(s.drop_last()[i] == s[i]);
    } else {
        assert(s.subrange(0, i) =~= s.drop_last());
    }
}

impl DataValues {
    /// The number of literals in the tree, if it fits in a `usize`.
    pub fn count_literals(&self) -> (r: Option<usize>)
        ensures
            match r {
                Some(n) => n == self.weight(),
                None => self.weight() > usize::MAX,
            },
        decreases self,
    {
        match self {
            DataValues::Literal(_) => Some(1),
            DataValues::Array(v) => {
                let mut acc: usize = 0;
                let mut i: usize = 0;
                while i < v.len()
                    invariant
                        i <= v.len(),
                        acc == weight_items(v@.subrange(0, i as int)),
                        *self == DataValues::Array(*v),
                    decreases v.len() - i,
                {
                    proof {
                        lemma_weight_items(v@, i as int);
                        broadcast use vstd::std_specs::vec::axiom_vec_index_decreases;
                        assert(decreases_to!(v => v[i as int]));
                        let w = (*self)->Array_0;
                        assert(w == *v);
                        assert(decreases_to!(*self => w));
                        assert(decreases_to!(w => w[i as int]));
                    }
                    match v[i].count_literals() {
                        Some(c) => {
                            if c > usize::MAX - acc {
                                return None;
                            }
                            acc = acc + c;
                        },
                        None => {
                            return None;
                        },
                    }
                    i += 1;
                }
                proof {
                    assert(v@.subrange(0, i as int) =~= v@);
                }
                Some(acc)
            },
            DataValues::Object(v) => {
                let mut acc: usize = 0;
                let mut i: usize = 0;
                while i < v.len()
                    invariant
                        i <= v.len(),
                        acc == weight_fields(v@.subrange(0, i as int)),
                        *self == DataValues::Object(*v),
                    decreases v.len() - i,
                {
                    proof {
                        lemma_weight_fields(v@, i as int);
                        broadcast use vstd::std_specs::vec::axiom_vec_index_decreases;
                        assert(decreases_to!(v => v[i as int]));
                        let w = (*self)->Object_0;
                        assert(w == *v);
                        assert(decreases_to!(*self => w));
                        assert(decreases_to!(w => w[i as int]));
                    }
                    match v[i].1.count_literals() {
                        Some(c) => {
                            if c > usize::MAX - acc {
                                return None;
                            }
                            acc = acc + c;
                        },
                        None => {
                            return None;
                        },
                    }
                    i += 1;
                }
                proof {
                    assert(v@.subrange(0, i as int) =~= v@);
                }
                Some(acc)
            },
        }
    }
}

} // verus!
