//! Literal values, and the classification of text cells into them.
use crate::text::{chars_of, lower, trim, trim_lower};
use vstd::prelude::*;

verus! {

/// An atomic value read from a record. A float is held as its bit pattern,
/// so that two floats are equal exactly when their encodings are.
#[derive(Clone, PartialEq, Eq, Hash, Debug)]
pub enum Literals {
    Null,
    Boolean(bool),
    Integer(i64),
    Float(u64),
    String(String),
}

/// The mathematical value of a literal.
pub enum LitView {
    Null,
    Boolean(bool),
    Integer(i64),
    Float(u64),
    Text(Seq<char>),
}

impl Literals {
    pub open spec fn view(&self) -> LitView {
        match self {
            Literals::Null => LitView::Null,
            Literals::Boolean(b) => LitView::Boolean(*b),
            Literals::Integer(i) => LitView::Integer(*i),
            Literals::Float(f) => LitView::Float(*f),
            Literals::String(s) => LitView::Text(s@),
        }
    }

    /// Compares two literals by value (floats by their bits).
    pub fn same_as(&self, other: &Literals) -> (r: bool)
        ensures
            r == (self@ == other@),
    {
        match (self, other) {
            (Literals::Null, Literals::Null) => true,
            (Literals::Boolean(a), Literals::Boolean(b)) => *a == *b,
            (Literals::Integer(a), Literals::Integer(b)) => *a == *b,
            (Literals::Float(a), Literals::Float(b)) => *a == *b,
            (Literals::String(a), Literals::String(b)) => *a == *b,
            _ => false,
        }
    }
}

pub open spec fn is_digit(c: char) -> bool {
    '0' <= c <= '9'
}

/// A non-empty run of ASCII digits.
pub open spec fn digit_run(s: Seq<char>) -> bool {
    s.len() > 0 && forall|i: int| 0 <= i < s.len() ==> is_digit(#[trigger] s[i])
}

/// The number that a run of decimal digits denotes.
pub open spec fn digits_value(s: Seq<char>) -> nat
    decreases s.len(),
{
    if s.len() == 0 {
        0
    } else {
        digits_value(s.drop_last()) * 10 + (s.last() as nat - '0' as nat) as nat
    }
}

/// Digits, a point, digits.
pub open spec fn is_decimal(s: Seq<char>) -> bool {
    exists|p: int|
        0 < p < s.len() - 1 && #[trigger] s[p] == '.' && digit_run(s.subrange(0, p)) && digit_run(
            s.subrange(p + 1, s.len() as int),
        )
}

/// `s` without spaces and `$` signs.
pub open spec fn strip_marks(s: Seq<char>) -> Seq<char>
    decreases s.len(),
{
    if s.len() == 0 {
        s
    } else {
        strip_marks(s.drop_last()) + if s.last() == ' ' || s.last() == '$' {
            Seq::<char>::empty()
        } else {
            seq![s.last()]
        }
    }
}

/// Splits a possibly negated number into its unsigned text and whether it
/// is negated: `x`, `-x` or `(x)`, where `x` has the form `form` asks for.
pub open spec fn signed_parts(d: Seq<char>, decimal: bool) -> Option<(Seq<char>, bool)> {
    let form = |x: Seq<char>| if decimal { is_decimal(x) } else { digit_run(x) };
    if form(d) {
        Some((d, false))
    } else if d.len() >= 1 && d[0] == '-' && form(d.drop_first()) {
        Some((d.drop_first(), true))
    } else if d.len() >= 2 && d[0] == '(' && d.last() == ')' && form(d.subrange(1, d.len() - 1)) {
        Some((d.subrange(1, d.len() - 1), true))
    } else {
        None
    }
}

/// The integer that a cell denotes once spaces and `$` are removed, if it
/// has integer form and fits in an `i64`.
pub open spec fn integer_of(text: Seq<char>) -> Option<i64> {
    match signed_parts(strip_marks(text), false) {
        Some((u, neg)) => {
            let v = if neg {
                -digits_value(u)
            } else {
                digits_value(u) as int
            };
            if i64::MIN <= v <= i64::MAX {
                Some(v as i64)
            } else {
                None
            }
        },
        None => None,
    }
}

/// The float bits for a decimal text whose unsigned part converts to `b`.
pub open spec fn signed_bits(b: u64, neg: bool) -> u64 {
    if neg {
        b ^ 0x8000_0000_0000_0000u64
    } else {
        b
    }
}

/// What a text cell holds, once trimmed and compared without regard to
/// ASCII case.
pub enum TextClass {
    Null,
    Boolean(bool),
    Integer(i64),
    Decimal(Seq<char>, bool),
    Text,
}

pub open spec fn text_class(data: Seq<char>) -> TextClass {
    let c = lower(trim(data));
    if c.len() == 0 || c == "null"@ || c == "none"@ || c == "nan"@ {
        TextClass::Null
    } else if c == "true"@ || c == "yes"@ {
        TextClass::Boolean(true)
    } else if c == "false"@ || c == "no"@ {
        TextClass::Boolean(false)
    } else if integer_of(c) is Some {
        TextClass::Integer(integer_of(c)->Some_0)
    } else {
        match signed_parts(strip_marks(c), true) {
            Some((u, neg)) => TextClass::Decimal(u, neg),
            None => TextClass::Text,
        }
    }
}

/// `decimal` turned the unsigned text `u` into float bits `b`, and `x` is
/// those bits negated when `neg` holds.
pub open spec fn decimal_result<F: Fn(&str) -> u64>(decimal: F, u: Seq<char>, neg: bool, x: u64) -> bool {
    exists|s: &str, b: u64| s@ == u && decimal.ensures((s,), b) && x == signed_bits(b, neg)
}

/// `l` is the literal that the text cell `data` holds, given that `decimal`
/// converts unsigned decimal texts to float bits.
pub open spec fn cell_literal<F: Fn(&str) -> u64>(decimal: F, data: Seq<char>, l: Literals) -> bool {
    match text_class(data) {
        TextClass::Null => l@ == LitView::Null,
        TextClass::Boolean(b) => l@ == LitView::Boolean(b),
        TextClass::Integer(i) => l@ == LitView::Integer(i),
        TextClass::Decimal(u, neg) => l matches Literals::Float(x) && decimal_result(decimal, u, neg, x),
        TextClass::Text => l@ == LitView::Text(data),
    }
}

/// Relies on `String: FromIterator<char>`: the characters, in order.
#[verifier::external_body]
pub(crate) fn string_from_chars(chars: &Vec<char>) -> (r: String)
    ensures
        r@ == chars@,
{
    chars.iter().collect()
}

proof fn lemma_strip_push(s: Seq<char>, c: char)
    ensures
        strip_marks(s.push(c)) == strip_marks(s) + if c == ' ' || c == '$' {
            Seq::<char>::empty()
        } else {
            seq![c]
        },
{
    assert(s.push(c).drop_last() =~= s);
}

pub(crate) fn strip_marks_exec(v: &Vec<char>) -> (r: Vec<char>)
    ensures
        r@ == strip_marks(v@),
{
    let mut out: Vec<char> = Vec::new();
    let mut i: usize = 0;
    while i < v.len()
        invariant
            i <= v.len(),
            out@ == strip_marks(v@.subrange(0, i as int)),
        decreases v.len() - i,
    {
        let c = v[i];
        proof {
            assert(v@.subrange(0, i + 1) =~= v@.subrange(0, i as int).push(c));
            lemma_strip_push(v@.subrange(0, i as int), c);
        }
        if c != ' ' && c != '$' {
            out.push(c);
        }
        proof {
            assert(out@ =~= strip_marks(v@.subrange(0, i + 1)));
        }
        i += 1;
    }
    proof {
        assert(v@.subrange(0, v@.len() as int) =~= v@);
    }
    out
}

fn digits_between(v: &Vec<char>, a: usize, b: usize) -> (r: bool)
    requires
        a <= b <= v.len(),
    ensures
        r == digit_run(v@.subrange(a as int, b as int)),
{
    if a == b {
        return false;
    }
    let mut i: usize = a;
    while i < b
        invariant
            a <= i <= b <= v.len(),
            forall|j: int| a <= j < i ==> is_digit(#[trigger] v@[j]),
        decreases b - i,
    {
        if !('0' <= v[i] && v[i] <= '9') {
            assert(v@.subrange(a as int, b as int)[i - a] == v@[i as int]);
            return false;
        }
        i += 1;
    }
    proof {
        let t = v@.subrange(a as int, b as int);
        assert forall|j: int| 0 <= j < t.len() implies is_digit(#[trigger] t[j]) by {
            assert(t[j] == v@[a + j]);
        }
    }
    true
}

fn decimal_between(v: &Vec<char>, a: usize, b: usize) -> (r: bool)
    requires
        a <= b <= v.len(),
    ensures
        r == is_decimal(v@.subrange(a as int, b as int)),
{
    let ghost t = v@.subrange(a as int, b as int);
    let mut p: usize = a;
    while p < b && v[p] != '.'
        invariant
            a <= p <= b <= v.len(),
            forall|j: int| a <= j < p ==> v@[j] != '.',
        decreases b - p,
    {
        p += 1;
    }
    let found = p < b && a < p && p + 1 < b && digits_between(v, a, p) && digits_between(v, p + 1, b);
    proof {
        let q = p - a;
        assert(t.subrange(0, q) =~= v@.subrange(a as int, p as int));
        if p < b {
            assert(t.subrange(q + 1, t.len() as int) =~= v@.subrange(p + 1, b as int));
        }
        if found {
            assert(t[q] == '.');
        } else if is_decimal(t) {
            let p2 = choose|p2: int|
                0 < p2 < t.len() - 1 && #[trigger] t[p2] == '.' && digit_run(t.subrange(0, p2))
                    && digit_run(t.subrange(p2 + 1, t.len() as int));
            if p2 < q {
                assert(v@[a + p2] == t[p2]);
            } else if p2 > q {
                assert(t.subrange(0, p2)[q] == t[q]);
                assert(t[q] == v@[p as int]);
            }
        }
    }
    found
}

proof fn lemma_digits_prefix(s: Seq<char>, i: int)
    requires
        0 <= i <= s.len(),
    ensures
        digits_value(s.subrange(0, i)) <= digits_value(s),
    decreases s.len(),
{
    if i < s.len() {
        lemma_digits_prefix(s.drop_last(), i);
        assert(s.drop_last().subrange(0, i) =~= s.subrange(0, i));
    } else {
        assert(s.subrange(0, i) =~= s);
    }
}

/// The value of the digits `v[a..b]`, if it is at most `limit`.
fn digits_upto(v: &Vec<char>, a: usize, b: usize, limit: u128) -> (r: Option<u128>)
    requires
        a <= b <= v.len(),
        digit_run(v@.subrange(a as int, b as int)),
        limit <= 0x1_0000_0000_0000_0000u128,
    ensures
        match r {
            Some(x) => x == digits_value(v@.subrange(a as int, b as int)) && x <= limit,
            None => digits_value(v@.subrange(a as int, b as int)) > limit,
        },
{
    let ghost t = v@.subrange(a as int, b as int);
    let mut acc: u128 = 0;
    let mut i: usize = a;
    while i < b
        invariant
            a <= i <= b <= v.len(),
            t == v@.subrange(a as int, b as int),
            digit_run(t),
            limit <= 0x1_0000_0000_0000_0000u128,
            acc == digits_value(t.subrange(0, i - a)),
            acc <= limit,
        decreases b - i,
    {
        let c = v[i];
        proof {
            assert(t[i - a] == c);
            assert(t.subrange(0, i - a + 1).drop_last() =~= t.subrange(0, i - a));
        }
        let d = (c as u32 - '0' as u32) as u128;
        acc = acc * 10 + d;
        if acc > limit {
            proof {
                lemma_digits_prefix(t, i - a + 1);
            }
            return None;
        }
        i += 1;
    }
    proof {
        assert(t.subrange(0, i - a) =~= t);
    }
    Some(acc)
}

/// Where the unsigned part of a possibly negated number lies in `d`, as
/// `signed_parts` splits it.
pub(crate) fn signed_span(d: &Vec<char>, decimal: bool) -> (r: Option<(usize, usize, bool)>)
    ensures
        match signed_parts(d@, decimal) {
            Some((u, neg)) => r matches Some((a, b, n)) && a <= b <= d.len() && d@.subrange(
                a as int,
                b as int,
            ) == u && n == neg,
            None => r is None,
        },
{
    let n = d.len();
    let whole = if decimal {
        decimal_between(d, 0, n)
    } else {
        digits_between(d, 0, n)
    };
    proof {
        assert(d@.subrange(0, n as int) =~= d@);
    }
    if whole {
        return Some((0, n, false));
    }
    let minus = n >= 1 && d[0] == '-' && if decimal {
        decimal_between(d, 1, n)
    } else {
        digits_between(d, 1, n)
    };
    proof {
        if n >= 1 {
            assert(d@.subrange(1, n as int) =~= d@.drop_first());
        }
    }
    if minus {
        return Some((1, n, true));
    }
    let paren = n >= 2 && d[0] == '(' && d[n - 1] == ')' && if decimal {
        decimal_between(d, 1, n - 1)
    } else {
        digits_between(d, 1, n - 1)
    };
    if paren {
        return Some((1, n - 1, true));
    }
    None
}

/// The integer that a cell denotes once spaces and `$` are removed:
/// digits, optionally negated by a leading `-` or by parentheses.
pub fn check_integer(data: &str) -> (r: Option<i64>)
    ensures
        r == integer_of(data@),
{
    let chars = chars_of(data);
    let d = strip_marks_exec(&chars);
    match signed_span(&d, false) {
        Some((a, b, neg)) => {
            let limit: u128 = if neg {
                0x8000_0000_0000_0000u128
            } else {
                0x7fff_ffff_ffff_ffffu128
            };
            match digits_upto(&d, a, b, limit) {
                Some(v) => {
                    if neg {
                        Some((0 - (v as i128)) as i64)
                    } else {
                        Some(v as i64)
                    }
                },
                None => None,
            }
        },
        None => None,
    }
}

/// The float bits that a cell denotes once spaces and `$` are removed:
/// digits, a point and digits, optionally negated by a leading `-` or by
/// parentheses. `decimal` converts the unsigned text to float bits;
/// negation flips the sign bit.
pub fn check_float<F: Fn(&str) -> u64>(data: &str, decimal: &F) -> (r: Option<u64>)
    requires
        forall|s: &str| decimal.requires((s,)),
    ensures
        match signed_parts(strip_marks(data@), true) {
            Some((u, neg)) => r matches Some(x) && decimal_result(*decimal, u, neg, x),
            None => r is None,
        },
{
    let chars = chars_of(data);
    let d = strip_marks_exec(&chars);
    match signed_span(&d, true) {
        Some((a, b, neg)) => {
            let mut unsigned: Vec<char> = Vec::new();
            let mut i: usize = a;
            while i < b
                invariant
                    a <= i <= b <= d.len(),
                    unsigned@ == d@.subrange(a as int, i as int),
                decreases b - i,
            {
                unsigned.push(d[i]);
                i += 1;
            }
            let text = string_from_chars(&unsigned);
            let text_str = text.as_str();
            let bits = decimal(text_str);
            let x = if neg {
                bits ^ 0x8000_0000_0000_0000u64
            } else {
                bits
            };
            proof {
                assert(text_str@ == signed_parts(strip_marks(data@), true)->Some_0.0);
            }
            Some(x)
        },
        None => None,
    }
}

pub(crate) fn chars_are(v: &Vec<char>, word: &str) -> (r: bool)
    ensures
        r == (v@ == word@),
{
    let n = word.unicode_len();
    if v.len() != n {
        return false;
    }
    let mut i: usize = 0;
    while i < n
        invariant
            n == word@.len(),
            n == v@.len(),
            i <= n,
            forall|j: int| 0 <= j < i ==> v@[j] == word@[j],
        decreases n - i,
    {
        if v[i] != word.get_char(i) {
            return false;
        }
        i += 1;
    }
    proof {
        assert(v@ =~= word@);
    }
    true
}

impl Literals {
    /// Classifies a text cell: blank or a null word gives `Null`, a truth
    /// word a `Boolean`, an integer form an `Integer`, a decimal form a
    /// `Float` whose bits `decimal` gives for the unsigned text, anything
    /// else the cell text unchanged.
    pub fn from_text<F: Fn(&str) -> u64>(data: &str, decimal: &F) -> (r: Literals)
        requires
            forall|s: &str| decimal.requires((s,)),
        ensures
            cell_literal(*decimal, data@, r),
    {
        let chars = chars_of(data);
        let cleaned = trim_lower(&chars);
        if cleaned.len() == 0 || chars_are(&cleaned, "null") || chars_are(&cleaned, "none")
            || chars_are(&cleaned, "nan") {
            return Literals::Null;
        }
        if chars_are(&cleaned, "true") || chars_are(&cleaned, "yes") {
            return Literals::Boolean(true);
        }
        if chars_are(&cleaned, "false") || chars_are(&cleaned, "no") {
            return Literals::Boolean(false);
        }
        let cleaned_text = string_from_chars(&cleaned);
        let cleaned_str = cleaned_text.as_str();
        if let Some(i) = check_integer(cleaned_str) {
            return Literals::Integer(i);
        }
        if let Some(f) = check_float(cleaned_str, decimal) {
            return Literals::Float(f);
        }
        Literals::String(data.to_owned())
    }
}

} // verus!
