//! The declarative schema and its validator.
//!
//! A [`Schema`] maps field names to a [`SchemaField`] (type, required flag,
//! description). Validation checks every declared field against a parsed
//! table and collects the complete list of violations instead of stopping
//! at the first.

use vstd::prelude::*;
use vstd::string::StringExecFns;

use crate::parser::SysctlConfig;
use crate::text::str_eq;

verus! {

/// An error of the schema layer: a value of the wrong type, a missing
/// required key, or an unknown type tag in the schema document.
#[derive(Debug)]
pub enum SchemaError {
    Validation { key: String, message: String },
    MissingKey { key: String },
    UnknownType { tag: String },
}

/// The mathematical value of a [`SchemaError`].
pub enum SchemaErrorV {
    Validation { key: Seq<char>, message: Seq<char> },
    MissingKey { key: Seq<char> },
    UnknownType { tag: Seq<char> },
}

impl View for SchemaError {
    type V = SchemaErrorV;

    open spec fn view(&self) -> SchemaErrorV {
        match self {
            SchemaError::Validation { key, message } => SchemaErrorV::Validation {
                key: key@,
                message: message@,
            },
            SchemaError::MissingKey { key } => SchemaErrorV::MissingKey { key: key@ },
            SchemaError::UnknownType { tag } => SchemaErrorV::UnknownType {
                tag: tag@,
            },
        }
    }
}

/// The views of a sequence of errors.
pub open spec fn errors_view(es: Seq<SchemaError>) -> Seq<SchemaErrorV> {
    es.map_values(|e: SchemaError| e@)
}

/// The human-readable text of one error.
pub open spec fn render_error(e: SchemaErrorV) -> Seq<char> {
    match e {
        SchemaErrorV::Validation { key, message } => "Validation error for key '"@ + key + "': "@
            + message,
        SchemaErrorV::MissingKey { key } => "Required key '"@ + key + "' is missing"@,
        SchemaErrorV::UnknownType { tag } => "Unknown type '"@ + tag + "' in schema"@,
    }
}

/// The renderings of a list of errors, joined with `"; "`.
pub open spec fn join_errors(es: Seq<SchemaErrorV>) -> Seq<char>
    decreases es.len(),
{
    if es.len() == 0 {
        Seq::empty()
    } else if es.len() == 1 {
        render_error(es[0])
    } else {
        render_error(es[0]) + "; "@ + join_errors(es.drop_first())
    }
}

/// Appending one error to the joined rendering.
pub proof fn lemma_join_errors_push(es: Seq<SchemaErrorV>, e: SchemaErrorV)
    ensures
        join_errors(es.push(e)) == if es.len() == 0 {
            render_error(e)
        } else {
            join_errors(es) + "; "@ + render_error(e)
        },
    decreases es.len(),
{
    let p = es.push(e);
    if es.len() == 0 {
        assert(p.len() == 1);
        assert(p[0] == e);
        assert(join_errors(p) == render_error(p[0]));
    } else if es.len() == 1 {
        assert(p[0] == es[0]);
        assert(p.drop_first() =~= seq![e]);
        assert(p.drop_first()[0] == e);
        assert(join_errors(p.drop_first()) == render_error(e));
        assert(join_errors(p) == render_error(p[0]) + "; "@ + join_errors(p.drop_first()));
        assert(join_errors(es) == render_error(es[0]));
    } else {
        assert(p[0] == es[0]);
        assert(p.drop_first() =~= es.drop_first().push(e));
        lemma_join_errors_push(es.drop_first(), e);
        assert(render_error(es[0]) + "; "@ + (join_errors(es.drop_first()) + "; "@ + render_error(
            e,
        )) =~= (render_error(es[0]) + "; "@ + join_errors(es.drop_first())) + "; "@ + render_error(
            e,
        ));
    }
}

impl SchemaError {
    /// Renders this error as the text a report shows for it.
    pub fn render(&self) -> (r: String)
        ensures
            r@ == render_error(self@),
    {
        match self {
            SchemaError::Validation { key, message } => {
                let mut s = "Validation error for key '".to_owned();
                s.append(key.as_str());
                s.append("': ");
                s.append(message.as_str());
                s
            },
            SchemaError::MissingKey { key } => {
                let mut s = "Required key '".to_owned();
                s.append(key.as_str());
                s.append("' is missing");
                s
            },
            SchemaError::UnknownType { tag } => {
                let mut s = "Unknown type '".to_owned();
                s.append(tag.as_str());
                s.append("' in schema");
                s
            },
        }
    }
}

/// The closed set of value types a schema can demand.
#[derive(Debug)]
pub enum SchemaType {
    String,
    Bool,
    Int,
    Float,
    Optional(Box<SchemaType>),
}

/// One declared field: its type, whether it must be present, and an
/// optional human-readable description.
#[derive(Debug)]
pub struct SchemaField {
    pub field_type: SchemaType,
    pub required: bool,
    pub description: Option<String>,
}

/// ASCII-case-insensitive equality of two characters.
pub open spec fn char_eq_ci(a: char, b: char) -> bool {
    a == b || (a as u32 + 32 == b as u32 && 0x41 <= a as u32 && a as u32 <= 0x5a) || (b as u32 + 32
        == a as u32 && 0x41 <= b as u32 && b as u32 <= 0x5a)
}

/// ASCII-case-insensitive equality of two strings.
pub open spec fn eq_ignore_case(a: Seq<char>, b: Seq<char>) -> bool {
    a.len() == b.len() && forall|i: int| 0 <= i < a.len() ==> char_eq_ci(a[i], b[i])
}

fn char_eq_ci_exec(a: char, b: char) -> (r: bool)
    ensures
        r == char_eq_ci(a, b),
{
    let ua = a as u32;
    let ub = b as u32;
    a == b || (ua + 32 == ub && 0x41 <= ua && ua <= 0x5a) || (ub + 32 == ua && 0x41 <= ub && ub
        <= 0x5a)
}

fn matches_ci(s: &str, lit: &str) -> (r: bool)
    ensures
        r == eq_ignore_case(s@, lit@),
{
    let n = s.unicode_len();
    if n != lit.unicode_len() {
        return false;
    }
    let mut i: usize = 0;
    while i < n
        invariant
            0 <= i <= n,
            n == s@.len() == lit@.len(),
            forall|k: int| 0 <= k < i ==> char_eq_ci(s@[k], lit@[k]),
        decreases n - i,
    {
        if !char_eq_ci_exec(s.get_char(i), lit.get_char(i)) {
            return false;
        }
        i = i + 1;
    }
    true
}

/// An ASCII decimal digit.
pub open spec fn is_digit(c: char) -> bool {
    0x30 <= c as u32 && c as u32 <= 0x39
}

/// Every character is an ASCII decimal digit.
pub open spec fn all_digits(s: Seq<char>) -> bool {
    forall|i: int| 0 <= i < s.len() ==> is_digit(s[i])
}

/// The numeric value of a digit string.
pub open spec fn digits_val(s: Seq<char>) -> nat
    decreases s.len(),
{
    if s.len() == 0 {
        0
    } else {
        digits_val(s.drop_last()) * 10 + ((s.last() as u32 - 0x30) as nat)
    }
}

/// A shorter digit string never has a larger value.
proof fn lemma_digits_val_prefix(s: Seq<char>, k: int)
    requires
        0 <= k <= s.len(),
    ensures
        digits_val(s.take(k)) <= digits_val(s),
    decreases s.len(),
{
    if k < s.len() {
        assert(s.drop_last().take(k) =~= s.take(k));
        lemma_digits_val_prefix(s.drop_last(), k);
    } else {
        assert(s.take(k) =~= s);
    }
}

/// The string with one leading `+` or `-` removed, if there is one.
pub open spec fn strip_sign(v: Seq<char>) -> Seq<char> {
    if v.len() > 0 && (v[0] == '+' || v[0] == '-') {
        v.drop_first()
    } else {
        v
    }
}

/// What a 64-bit signed integer parser accepts: an optional sign, at least
/// one digit, and a value within the signed 64-bit range.
pub open spec fn is_int_str(v: Seq<char>) -> bool {
    let body = strip_sign(v);
    body.len() > 0 && all_digits(body) && (if v.len() > 0 && v[0] == '-' {
        digits_val(body) <= 0x8000000000000000
    } else {
        digits_val(body) <= 0x7fffffffffffffff
    })
}

/// Runtime test for [`is_int_str`].
#[verifier::loop_isolation(false)]
pub fn is_valid_int(value: &str) -> (r: bool)
    ensures
        r == is_int_str(value@),
{
    let n = value.unicode_len();
    let mut start: usize = 0;
    let mut neg: bool = false;
    if n > 0 {
        let c = value.get_char(0);
        if c == '+' || c == '-' {
            start = 1;
            neg = c == '-';
        }
    }
    let ghost body = strip_sign(value@);
    proof {
        assert(body =~= value@.subrange(start as int, n as int));
    }
    if start == n {
        return false;
    }
    let mut acc: u64 = 0;
    let mut i: usize = start;
    while i < n
        invariant
            start <= i <= n,
            forall|k: int| 0 <= k < i - start ==> is_digit(body[k]),
            acc == digits_val(body.take(i - start)),
        decreases n - i,
    {
        let c = value.get_char(i);
        let u = c as u32;
        if u < 0x30 || u > 0x39 {
            proof {
                assert(body[i - start] == value@[i as int]);
                assert(!is_digit(body[i - start]));
            }
            return false;
        }
        let d: u64 = (u - 0x30) as u64;
        proof {
            assert(body.take(i - start + 1).drop_last() =~= body.take(i - start));
            assert(body.take(i - start + 1).last() == body[i - start]);
            assert(body[i - start] == value@[i as int]);
        }
        let acc10 = match acc.checked_mul(10) {
            Some(x) => x,
            None => {
                proof {
                    lemma_digits_val_prefix(body, i - start + 1);
                }
                return false;
            },
        };
        acc = match acc10.checked_add(d) {
            Some(x) => x,
            None => {
                proof {
                    lemma_digits_val_prefix(body, i - start + 1);
                }
                return false;
            },
        };
        i = i + 1;
    }
    proof {
        assert(body.take(n - start) =~= body);
    }
    if neg {
        acc <= 0x8000000000000000
    } else {
        acc <= 0x7fffffffffffffff
    }
}

/// A mantissa: digits with at most one decimal point and at least one digit.
pub open spec fn is_mantissa(s: Seq<char>) -> bool {
    s.len() > 0 && (forall|i: int| 0 <= i < s.len() ==> is_digit(s[i]) || s[i] == '.') && (forall|
        i: int,
        j: int,
    |
        0 <= i < s.len() && 0 <= j < s.len() && s[i] == '.' && s[j] == '.' ==> i == j) && (exists|
        i: int,
    | 0 <= i < s.len() && is_digit(s[i]))
}

/// An exponent part: an optional sign followed by at least one digit.
pub open spec fn is_exponent(s: Seq<char>) -> bool {
    strip_sign(s).len() > 0 && all_digits(strip_sign(s))
}

/// The index of the first `e` or `E` in `s`, or `s.len()` if there is none.
pub open spec fn find_exp(s: Seq<char>) -> int
    decreases s.len(),
{
    if s.len() == 0 {
        0
    } else if s[0] == 'e' || s[0] == 'E' {
        0
    } else {
        1 + find_exp(s.drop_first())
    }
}

proof fn lemma_find_exp_at(s: Seq<char>, i: int)
    requires
        0 <= i <= s.len(),
        forall|k: int| 0 <= k < i ==> s[k] != 'e' && s[k] != 'E',
        i < s.len() ==> s[i] == 'e' || s[i] == 'E',
    ensures
        find_exp(s) == i,
    decreases i,
{
    if s.len() == 0 {
    } else if i == 0 {
    } else {
        lemma_find_exp_at(s.drop_first(), i - 1);
    }
}

/// An unsigned decimal number: a mantissa, optionally followed by an
/// exponent introduced by `e` or `E`.
pub open spec fn is_number(s: Seq<char>) -> bool {
    let e = find_exp(s);
    if e == s.len() {
        is_mantissa(s)
    } else {
        is_mantissa(s.take(e)) && is_exponent(s.skip(e + 1))
    }
}

/// What a 64-bit floating-point parser accepts: an optional sign followed
/// by `inf`, `infinity` or `nan` in any case, or a decimal number with an
/// optional exponent. Such a parse never fails on range, only on syntax.
pub open spec fn is_float_str(v: Seq<char>) -> bool {
    let body = strip_sign(v);
    eq_ignore_case(body, "inf"@) || eq_ignore_case(body, "infinity"@) || eq_ignore_case(
        body,
        "nan"@,
    ) || is_number(body)
}

#[verifier::loop_isolation(false)]
fn check_mantissa(s: &str) -> (r: bool)
    ensures
        r == is_mantissa(s@),
{
    let n = s.unicode_len();
    if n == 0 {
        return false;
    }
    let mut seen_digit: bool = false;
    let mut seen_dot: bool = false;
    let ghost mut dot_at: int = 0;
    let ghost mut digit_at: int = 0;
    let mut i: usize = 0;
    while i < n
        invariant
            0 <= i <= n,
            forall|k: int| 0 <= k < i ==> is_digit(s@[k]) || s@[k] == '.',
            seen_dot ==> 0 <= dot_at < i && s@[dot_at] == '.',
            !seen_dot ==> forall|k: int| 0 <= k < i ==> s@[k] != '.',
            seen_dot ==> forall|k: int| 0 <= k < i && s@[k] == '.' ==> k == dot_at,
            seen_digit ==> 0 <= digit_at < i && is_digit(s@[digit_at]),
            !seen_digit ==> forall|k: int| 0 <= k < i ==> !is_digit(s@[k]),
        decreases n - i,
    {
        let c = s.get_char(i);
        let u = c as u32;
        if 0x30 <= u && u <= 0x39 {
            seen_digit = true;
            proof {
                digit_at = i as int;
            }
        } else if c == '.' {
            if seen_dot {
                return false;
            }
            seen_dot = true;
            proof {
                dot_at = i as int;
            }
        } else {
            return false;
        }
        i = i + 1;
    }
    seen_digit
}

#[verifier::loop_isolation(false)]
fn check_exponent(s: &str) -> (r: bool)
    ensures
        r == is_exponent(s@),
{
    let n = s.unicode_len();
    let mut start: usize = 0;
    if n > 0 {
        let c = s.get_char(0);
        if c == '+' || c == '-' {
            start = 1;
        }
    }
    let ghost body = strip_sign(s@);
    proof {
        assert(body =~= s@.subrange(start as int, n as int));
    }
    if start == n {
        return false;
    }
    let mut i: usize = start;
    while i < n
        invariant
            start <= i <= n,
            forall|k: int| 0 <= k < i - start ==> is_digit(body[k]),
        decreases n - i,
    {
        let u = s.get_char(i) as u32;
        if u < 0x30 || u > 0x39 {
            proof {
                assert(body[i - start] == s@[i as int]);
            }
            return false;
        }
        proof {
            assert(body[i - start] == s@[i as int]);
        }
        i = i + 1;
    }
    true
}

/// Runtime test for [`is_float_str`].
pub fn is_valid_float(value: &str) -> (r: bool)
    ensures
        r == is_float_str(value@),
{
    let n = value.unicode_len();
    let mut start: usize = 0;
    if n > 0 {
        let c = value.get_char(0);
        if c == '+' || c == '-' {
            start = 1;
        }
    }
    let body = value.substring_char(start, n);
    proof {
        assert(body@ =~= strip_sign(value@));
    }
    if matches_ci(body, "inf") || matches_ci(body, "infinity") || matches_ci(body, "nan") {
        return true;
    }
    let bn = body.unicode_len();
    let mut e: usize = 0;
    while e < bn && body.get_char(e) != 'e' && body.get_char(e) != 'E'
        invariant
            0 <= e <= bn,
            bn == body@.len(),
            forall|k: int| 0 <= k < e ==> body@[k] != 'e' && body@[k] != 'E',
        decreases bn - e,
    {
        e = e + 1;
    }
    proof {
        lemma_find_exp_at(body@, e as int);
    }
    if e == bn {
        check_mantissa(body)
    } else {
        let mant = body.substring_char(0, e);
        let exp = body.substring_char(e + 1, bn);
        proof {
            assert(mant@ =~= body@.take(e as int));
            assert(exp@ =~= body@.skip(e as int + 1));
        }
        check_mantissa(mant) && check_exponent(exp)
    }
}

/// What a case-insensitive boolean value may be.
pub open spec fn is_bool_str(v: Seq<char>) -> bool {
    eq_ignore_case(v, "true"@) || eq_ignore_case(v, "false"@) || eq_ignore_case(v, "1"@)
        || eq_ignore_case(v, "0"@) || eq_ignore_case(v, "on"@) || eq_ignore_case(v, "off"@)
        || eq_ignore_case(v, "yes"@) || eq_ignore_case(v, "no"@)
}

/// Runtime test for [`is_bool_str`].
pub fn is_valid_bool(value: &str) -> (r: bool)
    ensures
        r == is_bool_str(value@),
{
    matches_ci(value, "true") || matches_ci(value, "false") || matches_ci(value, "1") || matches_ci(
        value,
        "0",
    ) || matches_ci(value, "on") || matches_ci(value, "off") || matches_ci(value, "yes")
        || matches_ci(value, "no")
}

/// Whether a string value satisfies a schema type. `Optional` delegates to
/// its inner type: presence is governed by the `required` flag alone.
pub open spec fn valid_value(v: Seq<char>, t: SchemaType) -> bool
    decreases t,
{
    match t {
        SchemaType::String => true,
        SchemaType::Bool => is_bool_str(v),
        SchemaType::Int => is_int_str(v),
        SchemaType::Float => is_float_str(v),
        SchemaType::Optional(inner) => valid_value(v, *inner),
    }
}

/// The diagnostic for a value that fails its type check.
pub open spec fn mismatch_message(t: SchemaType, v: Seq<char>) -> Seq<char>
    decreases t,
{
    match t {
        SchemaType::String => "expected string value, got '"@ + v + "'"@,
        SchemaType::Bool => "expected boolean value, got '"@ + v + "'"@,
        SchemaType::Int => "expected integer value, got '"@ + v + "'"@,
        SchemaType::Float => "expected float value, got '"@ + v + "'"@,
        SchemaType::Optional(inner) => mismatch_message(*inner, v),
    }
}

fn quoted_msg(prefix: &str, value: &str) -> (r: String)
    ensures
        r@ == prefix@ + value@ + "'"@,
{
    let mut m = prefix.to_owned();
    m.append(value);
    m.append("'");
    m
}

/// The violations one declared field contributes: a missing-key error when
/// a required field is absent, a type-mismatch error when the present value
/// fails the check, and nothing otherwise.
pub open spec fn field_errors(
    key: Seq<char>,
    f: SchemaField,
    m: Map<Seq<char>, Seq<char>>,
) -> Seq<SchemaErrorV> {
    if m.contains_key(key) {
        if valid_value(m[key], f.field_type) {
            Seq::empty()
        } else {
            seq![
                SchemaErrorV::Validation {
                    key: key,
                    message: mismatch_message(f.field_type, m[key]),
                },
            ]
        }
    } else {
        if f.required {
            seq![SchemaErrorV::MissingKey { key: key }]
        } else {
            Seq::empty()
        }
    }
}

/// Every violation of a table against a list of declared fields, in the
/// fields' order.
pub open spec fn expected_errors(
    fs: Seq<(Seq<char>, SchemaField)>,
    m: Map<Seq<char>, Seq<char>>,
) -> Seq<SchemaErrorV>
    decreases fs.len(),
{
    if fs.len() == 0 {
        Seq::empty()
    } else {
        field_errors(fs[0].0, fs[0].1, m) + expected_errors(fs.drop_first(), m)
    }
}

/// Appending one declared field appends its own violations.
pub proof fn lemma_expected_errors_push(
    fs: Seq<(Seq<char>, SchemaField)>,
    p: (Seq<char>, SchemaField),
    m: Map<Seq<char>, Seq<char>>,
)
    ensures
        expected_errors(fs.push(p), m) == expected_errors(fs, m) + field_errors(p.0, p.1, m),
    decreases fs.len(),
{
    if fs.len() == 0 {
        assert(fs.push(p)[0] == p);
        assert(fs.push(p).drop_first() =~= Seq::<(Seq<char>, SchemaField)>::empty());
        assert(expected_errors(fs.push(p), m) == field_errors(p.0, p.1, m) + expected_errors(
            Seq::<(Seq<char>, SchemaField)>::empty(),
            m,
        ));
        assert(expected_errors(Seq::<(Seq<char>, SchemaField)>::empty(), m) == Seq::<
            SchemaErrorV,
        >::empty());
        assert(field_errors(p.0, p.1, m) + Seq::<SchemaErrorV>::empty() =~= Seq::<
            SchemaErrorV,
        >::empty() + field_errors(p.0, p.1, m));
    } else {
        assert(fs.push(p)[0] == fs[0]);
        assert(fs.push(p).drop_first() =~= fs.drop_first().push(p));
        lemma_expected_errors_push(fs.drop_first(), p, m);
        assert(field_errors(fs[0].0, fs[0].1, m) + (expected_errors(fs.drop_first(), m)
            + field_errors(p.0, p.1, m)) =~= (field_errors(fs[0].0, fs[0].1, m) + expected_errors(
            fs.drop_first(),
            m,
        )) + field_errors(p.0, p.1, m));
    }
}

/// A schema of exactly two required fields, both absent from the table,
/// reports both violations in one pass, never stopping after the first.
pub proof fn lemma_two_required_missing(
    fs: Seq<(Seq<char>, SchemaField)>,
    m: Map<Seq<char>, Seq<char>>,
)
    requires
        fs.len() == 2,
        fs[0].1.required,
        fs[1].1.required,
        !m.contains_key(fs[0].0),
        !m.contains_key(fs[1].0),
    ensures
        expected_errors(fs, m) == seq![
            SchemaErrorV::MissingKey { key: fs[0].0 },
            SchemaErrorV::MissingKey { key: fs[1].0 },
        ],
{
    assert(fs.drop_first()[0] == fs[1]);
    assert(fs.drop_first().drop_first() =~= Seq::<(Seq<char>, SchemaField)>::empty());
    assert(expected_errors(fs.drop_first().drop_first(), m) == Seq::<SchemaErrorV>::empty());
    assert(field_errors(fs[0].0, fs[0].1, m) == seq![SchemaErrorV::MissingKey { key: fs[0].0 }]);
    assert(field_errors(fs[1].0, fs[1].1, m) == seq![SchemaErrorV::MissingKey { key: fs[1].0 }]);
    assert(expected_errors(fs.drop_first(), m) == field_errors(fs[1].0, fs[1].1, m)
        + expected_errors(fs.drop_first().drop_first(), m));
    assert(expected_errors(fs, m) == field_errors(fs[0].0, fs[0].1, m) + expected_errors(
        fs.drop_first(),
        m,
    ));
    assert(seq![SchemaErrorV::MissingKey { key: fs[0].0 }] + (seq![
        SchemaErrorV::MissingKey { key: fs[1].0 },
    ] + Seq::<SchemaErrorV>::empty()) =~= seq![
        SchemaErrorV::MissingKey { key: fs[0].0 },
        SchemaErrorV::MissingKey { key: fs[1].0 },
    ]);
}

/// A table key that no schema field declares never contributes a
/// violation, whatever its value: validation ignores undeclared keys.
pub proof fn lemma_undeclared_key_ignored(
    fs: Seq<(Seq<char>, SchemaField)>,
    m: Map<Seq<char>, Seq<char>>,
    k: Seq<char>,
    v: Seq<char>,
)
    requires
        forall|i: int| 0 <= i < fs.len() ==> fs[i].0 != k,
    ensures
        expected_errors(fs, m.insert(k, v)) == expected_errors(fs, m),
    decreases fs.len(),
{
    broadcast use vstd::map::group_map_axioms;

    if fs.len() > 0 {
        assert(fs[0].0 != k);
        assert(field_errors(fs[0].0, fs[0].1, m.insert(k, v)) == field_errors(fs[0].0, fs[0].1, m));
        assert forall|i: int| 0 <= i < fs.drop_first().len() implies fs.drop_first()[i].0 != k by {
            assert(fs.drop_first()[i] == fs[i + 1]);
        }
        lemma_undeclared_key_ignored(fs.drop_first(), m, k, v);
    }
}

/// The declarative schema: a list of named fields.
#[derive(Debug)]
pub struct Schema {
    fields: Vec<(String, SchemaField)>,
}

impl Schema {
    /// The declared fields, in order.
    pub closed spec fn fields(&self) -> Seq<(Seq<char>, SchemaField)> {
        self.fields@.map_values(|p: (String, SchemaField)| (p.0@, p.1))
    }

    /// Creates a schema with no declared field.
    pub fn new() -> (r: Self)
        ensures
            r.fields() == Seq::<(Seq<char>, SchemaField)>::empty(),
    {
        let r = Schema { fields: Vec::new() };
        proof {
            assert(r.fields() =~= Seq::<(Seq<char>, SchemaField)>::empty());
        }
        r
    }

    /// Declares one more field.
    pub fn add_field(&mut self, name: String, field: SchemaField)
        ensures
            final(self).fields() == old(self).fields().push((name@, field)),
    {
        let ghost before = self.fields();
        let ghost f = field;
        self.fields.push((name, field));
        proof {
            assert(self.fields() =~= before.push((name@, f)));
        }
    }

    /// Checks one value against one declared type, recursing through
    /// `Optional`.
    fn validate_value(&self, key: &str, value: &str, expected_type: &SchemaType) -> (r: Result<
        (),
        SchemaError,
    >)
        ensures
            valid_value(value@, *expected_type) ==> r == Ok::<(), SchemaError>(()),
            !valid_value(value@, *expected_type) ==> (r matches Err(e) && e@
                == SchemaErrorV::Validation {
                key: key@,
                message: mismatch_message(*expected_type, value@),
            }),
        decreases expected_type,
    {
        match expected_type {
            SchemaType::String => Ok(()),
            SchemaType::Bool => {
                if is_valid_bool(value) {
                    Ok(())
                } else {
                    Err(
                        SchemaError::Validation {
                            key: key.to_owned(),
                            message: quoted_msg("expected boolean value, got '", value),
                        },
                    )
                }
            },
            SchemaType::Int => {
                if is_valid_int(value) {
                    Ok(())
                } else {
                    Err(
                        SchemaError::Validation {
                            key: key.to_owned(),
                            message: quoted_msg("expected integer value, got '", value),
                        },
                    )
                }
            },
            SchemaType::Float => {
                if is_valid_float(value) {
                    Ok(())
                } else {
                    Err(
                        SchemaError::Validation {
                            key: key.to_owned(),
                            message: quoted_msg("expected float value, got '", value),
                        },
                    )
                }
            },
            SchemaType::Optional(inner) => self.validate_value(key, value, &**inner),
        }
    }

    /// Checks every declared field against the table and returns either
    /// success or the complete, ordered list of violations.
    #[verifier::loop_isolation(false)]
    pub fn validate(&self, config: &SysctlConfig) -> (r: Result<(), Vec<SchemaError>>)
        requires
            config.wf(),
        ensures
            match r {
                Ok(()) => expected_errors(self.fields(), config@).len() == 0,
                Err(es) => es@.len() > 0 && errors_view(es@) == expected_errors(
                    self.fields(),
                    config@,
                ),
            },
    {
        let mut errors: Vec<SchemaError> = Vec::new();
        let n = self.fields.len();
        let mut i: usize = 0;
        proof {
            assert(self.fields().take(0) =~= Seq::<(Seq<char>, SchemaField)>::empty());
            assert(errors_view(errors@) =~= expected_errors(self.fields().take(0), config@));
        }
        while i < n
            invariant
                0 <= i <= n,
                n == self.fields.len(),
                errors_view(errors@) == expected_errors(self.fields().take(i as int), config@),
            decreases n - i,
        {
            let p = &self.fields[i];
            let ghost fv = self.fields()[i as int];
            let ghost before = errors_view(errors@);
            proof {
                assert(fv == (p.0@, p.1));
            }
            match config.get(p.0.as_str()) {
                Some(value) => {
                    match self.validate_value(p.0.as_str(), value.as_str(), &p.1.field_type) {
                        Ok(()) => {
                            proof {
                                assert(field_errors(fv.0, fv.1, config@) =~= Seq::<
                                    SchemaErrorV,
                                >::empty());
                            }
                        },
                        Err(e) => {
                            errors.push(e);
                            proof {
                                assert(errors_view(errors@) =~= before + field_errors(
                                    fv.0,
                                    fv.1,
                                    config@,
                                ));
                            }
                        },
                    }
                },
                None => {
                    if p.1.required {
                        errors.push(SchemaError::MissingKey { key: p.0.clone() });
                        proof {
                            assert(errors_view(errors@) =~= before + field_errors(
                                fv.0,
                                fv.1,
                                config@,
                            ));
                        }
                    } else {
                        proof {
                            assert(field_errors(fv.0, fv.1, config@) =~= Seq::<
                                SchemaErrorV,
                            >::empty());
                        }
                    }
                },
            }
            proof {
                assert(self.fields().take(i as int + 1) =~= self.fields().take(i as int).push(fv));
                lemma_expected_errors_push(self.fields().take(i as int), fv, config@);
                if field_errors(fv.0, fv.1, config@).len() == 0 {
                    assert(before + field_errors(fv.0, fv.1, config@) =~= before);
                }
            }
            i = i + 1;
        }
        proof {
            assert(self.fields().take(n as int) =~= self.fields());
        }
        if errors.is_empty() {
            Ok(())
        } else {
            Err(errors)
        }
    }
}

/// The tag of a scalar schema type, or the unknown-type error naming the
/// offending tag.
pub open spec fn base_type_tag(t: Seq<char>) -> Option<SchemaType> {
    if t == "string"@ {
        Some(SchemaType::String)
    } else if t == "bool"@ {
        Some(SchemaType::Bool)
    } else if t == "int"@ {
        Some(SchemaType::Int)
    } else if t == "float"@ {
        Some(SchemaType::Float)
    } else {
        None
    }
}

/// Resolves a scalar type tag from a schema document; an unrecognized tag
/// fails with an error naming it.
pub fn type_from_tag(tag: &str) -> (r: Result<SchemaType, SchemaError>)
    ensures
        match base_type_tag(tag@) {
            Some(t) => r == Ok::<SchemaType, SchemaError>(t),
            None => (r matches Err(e) && e@ == SchemaErrorV::UnknownType { tag: tag@ }),
        },
{
    if str_eq(tag, "string") {
        Ok(SchemaType::String)
    } else if str_eq(tag, "bool") {
        Ok(SchemaType::Bool)
    } else if str_eq(tag, "int") {
        Ok(SchemaType::Int)
    } else if str_eq(tag, "float") {
        Ok(SchemaType::Float)
    } else {
        Err(SchemaError::UnknownType { tag: tag.to_owned() })
    }
}

} // verus!
