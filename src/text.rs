//! Character sequences: white space, case, and lexicographic order.
use vstd::multiset::Multiset;
use vstd::prelude::*;

verus! {

/// Lexicographic order on character sequences, by code point.
pub open spec fn str_lt(a: Seq<char>, b: Seq<char>) -> bool
    decreases a.len(),
{
    if a.len() == 0 {
        b.len() > 0
    } else if b.len() == 0 {
        false
    } else if a[0] != b[0] {
        (a[0] as u32) < (b[0] as u32)
    } else {
        str_lt(a.drop_first(), b.drop_first())
    }
}

/// Inserts `x` before the first element that it precedes.
pub open spec fn insert_sorted(q: Seq<Seq<char>>, x: Seq<char>) -> Seq<Seq<char>>
    decreases q.len(),
{
    if q.len() == 0 {
        seq![x]
    } else if str_lt(x, q[0]) {
        seq![x] + q
    } else {
        seq![q[0]] + insert_sorted(q.drop_first(), x)
    }
}

/// The elements of `q` in lexicographic order (insertion sort).
pub open spec fn sort_strs(q: Seq<Seq<char>>) -> Seq<Seq<char>>
    decreases q.len(),
{
    if q.len() == 0 {
        seq![]
    } else {
        insert_sorted(sort_strs(q.drop_last()), q.last())
    }
}

/// Each element precedes the next.
pub open spec fn strictly_sorted(q: Seq<Seq<char>>) -> bool {
    forall|i: int| 0 <= i < q.len() - 1 ==> str_lt(#[trigger] q[i], q[i + 1])
}

pub open spec fn strs_view(s: Seq<String>) -> Seq<Seq<char>> {
    s.map_values(|x: String| x@)
}

proof fn lemma_str_lt_step(a: Seq<char>, b: Seq<char>, i: int)
    requires
        0 <= i < a.len(),
        i < b.len(),
        a[i] == b[i],
    ensures
        str_lt(a.subrange(i, a.len() as int), b.subrange(i, b.len() as int)) == str_lt(
            a.subrange(i + 1, a.len() as int),
            b.subrange(i + 1, b.len() as int),
        ),
{
    assert(a.subrange(i, a.len() as int).drop_first() =~= a.subrange(i + 1, a.len() as int));
    assert(b.subrange(i, b.len() as int).drop_first() =~= b.subrange(i + 1, b.len() as int));
}

/// Whether `a` precedes `b` in lexicographic order.
pub fn str_less(a: &str, b: &str) -> (r: bool)
    ensures
        r == str_lt(a@, b@),
{
    let la = a.unicode_len();
    let lb = b.unicode_len();
    let mut i: usize = 0;
    proof {
        assert(a@.subrange(0, a@.len() as int) =~= a@);
        assert(b@.subrange(0, b@.len() as int) =~= b@);
    }
    while i < la && i < lb
        invariant
            la == a@.len(),
            lb == b@.len(),
            i <= la,
            i <= lb,
            str_lt(a@, b@) == str_lt(a@.subrange(i as int, la as int), b@.subrange(i as int, lb as int)),
        decreases la - i,
    {
        let ca = a.get_char(i);
        let cb = b.get_char(i);
        if ca != cb {
            return (ca as u32) < (cb as u32);
        }
        proof {
            lemma_str_lt_step(a@, b@, i as int);
        }
        i += 1;
    }
    i == la && i < lb
}

proof fn lemma_insert_at(q: Seq<Seq<char>>, x: Seq<char>, p: int)
    requires
        0 <= p <= q.len(),
        forall|j: int| 0 <= j < p ==> !str_lt(x, #[trigger] q[j]),
        p < q.len() ==> str_lt(x, q[p]),
    ensures
        insert_sorted(q, x) == q.subrange(0, p) + seq![x] + q.subrange(p, q.len() as int),
    decreases q.len(),
{
    if q.len() == 0 {
        assert(seq![x] =~= q.subrange(0, p) + seq![x] + q.subrange(p, q.len() as int));
    } else if p == 0 {
        assert(seq![x] + q =~= q.subrange(0, p) + seq![x] + q.subrange(p, q.len() as int));
    } else {
        let t = q.drop_first();
        assert forall|j: int| 0 <= j < p - 1 implies !str_lt(x, #[trigger] t[j]) by {
            assert(t[j] == q[j + 1]);
        }
        lemma_insert_at(t, x, p - 1);
        assert(seq![q[0]] + (t.subrange(0, p - 1) + seq![x] + t.subrange(p - 1, t.len() as int))
            =~= q.subrange(0, p) + seq![x] + q.subrange(p, q.len() as int));
    }
}

/// Inserts `x` into `v` where `insert_sorted` puts it.
pub fn insert_string(v: &mut Vec<String>, x: String)
    ensures
        strs_view(final(v)@) == insert_sorted(strs_view(old(v)@), x@),
{
    let mut p: usize = 0;
    while p < v.len()
        invariant
            p <= v.len(),
            forall|j: int| 0 <= j < p ==> !str_lt(x@, #[trigger] v@[j]@),
        ensures
            p <= v.len(),
            forall|j: int| 0 <= j < p ==> !str_lt(x@, #[trigger] v@[j]@),
            p < v.len() ==> str_lt(x@, v@[p as int]@),
        decreases v.len() - p,
    {
        if str_less(x.as_str(), v[p].as_str()) {
            break;
        }
        p += 1;
    }
    let ghost q = strs_view(v@);
    proof {
        assert forall|j: int| 0 <= j < p implies !str_lt(x@, #[trigger] q[j]) by {
            assert(q[j] == v@[j]@);
        }
        if p < v.len() {
            assert(q[p as int] == v@[p as int]@);
        }
        lemma_insert_at(q, x@, p as int);
    }
    v.insert(p, x);
    proof {
        assert(strs_view(v@) =~= q.subrange(0, p as int) + seq![x@] + q.subrange(p as int, q.len() as int));
    }
}

/// No element precedes an earlier one.
pub open spec fn sorted(q: Seq<Seq<char>>) -> bool {
    forall|i: int, j: int| 0 <= i < j < q.len() ==> !str_lt(#[trigger] q[j], #[trigger] q[i])
}

/// The order is transitive.
pub proof fn lemma_str_lt_transitive(a: Seq<char>, b: Seq<char>, c: Seq<char>)
    requires
        str_lt(a, b),
        str_lt(b, c),
    ensures
        str_lt(a, c),
    decreases a.len(),
{
    if a.len() > 0 && b.len() > 0 && c.len() > 0 && a[0] == b[0] && b[0] == c[0] {
        lemma_str_lt_transitive(a.drop_first(), b.drop_first(), c.drop_first());
    }
}

/// The order is irreflexive.
pub proof fn lemma_str_lt_irreflexive(a: Seq<char>)
    ensures
        !str_lt(a, a),
    decreases a.len(),
{
    if a.len() > 0 {
        lemma_str_lt_irreflexive(a.drop_first());
    }
}

proof fn lemma_first_greater(q: Seq<Seq<char>>, x: Seq<char>) -> (p: int)
    ensures
        0 <= p <= q.len(),
        forall|j: int| 0 <= j < p ==> !str_lt(x, #[trigger] q[j]),
        p < q.len() ==> str_lt(x, q[p]),
    decreases q.len(),
{
    if q.len() == 0 {
        0
    } else if str_lt(x, q[0]) {
        0
    } else {
        let t = q.drop_first();
        let p = lemma_first_greater(t, x);
        assert forall|j: int| 0 <= j < p + 1 implies !str_lt(x, #[trigger] q[j]) by {
            if j > 0 {
                assert(q[j] == t[j - 1]);
            }
        }
        p + 1
    }
}

/// Inserting into a sorted sequence keeps it sorted and adds exactly the
/// new element.
pub proof fn lemma_insert_sorted(q: Seq<Seq<char>>, x: Seq<char>)
    requires
        sorted(q),
    ensures
        sorted(insert_sorted(q, x)),
        insert_sorted(q, x).to_multiset() == q.to_multiset().insert(x),
{
    let p = lemma_first_greater(q, x);
    lemma_insert_at(q, x, p);
    let r = insert_sorted(q, x);
    assert(r =~= q.subrange(0, p) + seq![x] + q.subrange(p, q.len() as int));
    assert forall|i: int, j: int| 0 <= i < j < r.len() implies !str_lt(#[trigger] r[j], #[trigger] r[i]) by {
        if j < p {
            assert(r[i] == q[i] && r[j] == q[j]);
        } else if j == p {
            assert(r[i] == q[i]);
        } else if i > p {
            assert(r[i] == q[i - 1] && r[j] == q[j - 1]);
        } else if i == p {
            assert(r[j] == q[j - 1]);
            if str_lt(q[j - 1], x) {
                if j - 1 > p {
                    if str_lt(q[j - 1], q[p]) {
                    } else {
                        lemma_str_lt_transitive(q[j - 1], x, q[p]);
                    }
                } else {
                    lemma_str_lt_transitive(q[p], x, q[p]);
                    lemma_str_lt_irreflexive(q[p]);
                }
            }
        } else {
            assert(r[i] == q[i] && r[j] == q[j - 1]);
        }
    }
    vstd::seq_lib::lemma_multiset_commutative(q.subrange(0, p), seq![x] + q.subrange(p, q.len() as int));
    vstd::seq_lib::lemma_multiset_commutative(seq![x], q.subrange(p, q.len() as int));
    vstd::seq_lib::lemma_multiset_commutative(q.subrange(0, p), q.subrange(p, q.len() as int));
    assert(q.subrange(0, p) + q.subrange(p, q.len() as int) =~= q);
    assert((q.subrange(0, p) + seq![x]) + q.subrange(p, q.len() as int) =~= q.subrange(0, p) + (
    seq![x] + q.subrange(p, q.len() as int)));
    assert(seq![x].to_multiset() =~= Multiset::empty().insert(x)) by {
        broadcast use vstd::seq_lib::group_to_multiset_ensures;
        assert(seq![x] =~= Seq::<Seq<char>>::empty().push(x));
    }
    assert(r.to_multiset() =~= q.to_multiset().insert(x));
}

/// Sorting orders the elements and keeps each of them, as often as it
/// occurs.
pub proof fn lemma_sort_strs(q: Seq<Seq<char>>)
    ensures
        sorted(sort_strs(q)),
        sort_strs(q).to_multiset() == q.to_multiset(),
    decreases q.len(),
{
    if q.len() > 0 {
        lemma_sort_strs(q.drop_last());
        lemma_insert_sorted(sort_strs(q.drop_last()), q.last());
        broadcast use vstd::seq_lib::group_to_multiset_ensures;
        assert(q =~= q.drop_last().push(q.last()));
    } else {
        assert(sort_strs(q).to_multiset() =~= q.to_multiset()) by {
            broadcast use vstd::seq_lib::group_to_multiset_ensures;
        }
    }
}

/// White space as Unicode defines it (the characters that `trim` removes).
pub open spec fn is_ws(c: char) -> bool {
    ||| '\u{9}' <= c <= '\u{d}'
    ||| c == ' '
    ||| c == '\u{85}'
    ||| c == '\u{a0}'
    ||| c == '\u{1680}'
    ||| '\u{2000}' <= c <= '\u{200a}'
    ||| c == '\u{2028}'
    ||| c == '\u{2029}'
    ||| c == '\u{202f}'
    ||| c == '\u{205f}'
    ||| c == '\u{3000}'
}

/// Whether `c` is white space.
pub fn is_white(c: char) -> (r: bool)
    ensures
        r == is_ws(c),
{
    ('\u{9}' <= c && c <= '\u{d}') || c == ' ' || c == '\u{85}' || c == '\u{a0}' || c == '\u{1680}'
        || ('\u{2000}' <= c && c <= '\u{200a}') || c == '\u{2028}' || c == '\u{2029}' || c
        == '\u{202f}' || c == '\u{205f}' || c == '\u{3000}'
}

/// `s` without its leading and trailing white space.
pub open spec fn trim(s: Seq<char>) -> Seq<char> {
    let a = lead(s);
    s.subrange(a, s.len() - trail(s.subrange(a, s.len() as int)))
}

/// The number of white space characters that `s` starts with.
pub open spec fn lead(s: Seq<char>) -> int
    decreases s.len(),
{
    if s.len() > 0 && is_ws(s[0]) {
        1 + lead(s.drop_first())
    } else {
        0
    }
}

/// The number of white space characters that `s` ends with.
pub open spec fn trail(s: Seq<char>) -> int
    decreases s.len(),
{
    if s.len() > 0 && is_ws(s.last()) {
        1 + trail(s.drop_last())
    } else {
        0
    }
}

pub open spec fn ascii_lower(c: char) -> char {
    if 'A' <= c <= 'Z' {
        ((c as u8) + 32) as u8 as char
    } else {
        c
    }
}

/// `s` with ASCII capitals in lower case.
pub open spec fn lower(s: Seq<char>) -> Seq<char> {
    s.map_values(|c: char| ascii_lower(c))
}

/// The characters of a string.
pub fn chars_of(s: &str) -> (r: Vec<char>)
    ensures
        r@ == s@,
{
    let n = s.unicode_len();
    let mut out: Vec<char> = Vec::new();
    let mut i: usize = 0;
    while i < n
        invariant
            n == s@.len(),
            i <= n,
            out@ == s@.subrange(0, i as int),
        decreases n - i,
    {
        out.push(s.get_char(i));
        i += 1;
    }
    proof {
        assert(out@ =~= s@);
    }
    out
}

proof fn lemma_lead(s: Seq<char>, i: int)
    requires
        0 <= i <= s.len(),
        forall|j: int| 0 <= j < i ==> is_ws(#[trigger] s[j]),
    ensures
        lead(s) == i + lead(s.subrange(i, s.len() as int)),
    decreases i,
{
    if i > 0 {
        let t = s.drop_first();
        assert forall|j: int| 0 <= j < i - 1 implies is_ws(#[trigger] t[j]) by {
            assert(t[j] == s[j + 1]);
        }
        lemma_lead(t, i - 1);
        assert(t.subrange(i - 1, t.len() as int) =~= s.subrange(i, s.len() as int));
    } else {
        assert(s.subrange(0, s.len() as int) =~= s);
    }
}

proof fn lemma_trail(s: Seq<char>, i: int)
    requires
        0 <= i <= s.len(),
        forall|j: int| s.len() - i <= j < s.len() ==> is_ws(#[trigger] s[j]),
    ensures
        trail(s) == i + trail(s.subrange(0, s.len() - i)),
    decreases i,
{
    if i > 0 {
        let t = s.drop_last();
        assert forall|j: int| t.len() - (i - 1) <= j < t.len() implies is_ws(#[trigger] t[j]) by {
            assert(t[j] == s[j]);
        }
        lemma_trail(t, i - 1);
        assert(t.subrange(0, t.len() - (i - 1)) =~= s.subrange(0, s.len() - i));
    } else {
        assert(s.subrange(0, s.len() as int) =~= s);
    }
}

/// `s` trimmed of white space, with ASCII capitals in lower case.
pub fn trim_lower(s: &Vec<char>) -> (r: Vec<char>)
    ensures
        r@ == lower(trim(s@)),
{
    let n = s.len();
    let mut a: usize = 0;
    while a < n && is_white(s[a])
        invariant
            n == s@.len(),
            a <= n,
            forall|j: int| 0 <= j < a ==> is_ws(#[trigger] s@[j]),
        decreases n - a,
    {
        a += 1;
    }
    let ghost t = s@.subrange(a as int, n as int);
    proof {
        lemma_lead(s@, a as int);
        if a < n {
            assert(t[0] == s@[a as int]);
        }
        assert(lead(t) == 0);
    }
    let mut b: usize = n;
    while b > a && is_white(s[b - 1])
        invariant
            n == s@.len(),
            a <= b <= n,
            t == s@.subrange(a as int, n as int),
            forall|j: int| b <= j < n ==> is_ws(#[trigger] s@[j]),
        decreases b,
    {
        b -= 1;
    }
    proof {
        assert forall|j: int| t.len() - (n - b) <= j < t.len() implies is_ws(#[trigger] t[j]) by {
            assert(t[j] == s@[a + j]);
        }
        lemma_trail(t, (n - b) as int);
        let u = t.subrange(0, t.len() - (n - b));
        if u.len() > 0 {
            assert(u.last() == s@[b - 1]);
        }
        assert(trail(u) == 0);
    }
    let mut out: Vec<char> = Vec::new();
    let mut i: usize = a;
    while i < b
        invariant
            a <= i <= b <= n,
            n == s@.len(),
            out@ == lower(s@.subrange(a as int, i as int)),
        decreases b - i,
    {
        let c = s[i];
        let l = if 'A' <= c && c <= 'Z' {
            ((c as u8) + 32) as char
        } else {
            c
        };
        out.push(l);
        proof {
            assert(lower(s@.subrange(a as int, i + 1)) =~= lower(s@.subrange(a as int, i as int)).push(l));
        }
        i += 1;
    }
    proof {
        assert(trim(s@) =~= s@.subrange(a as int, b as int));
    }
    out
}

} // verus!
