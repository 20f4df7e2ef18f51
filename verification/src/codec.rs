//! The todo snapshot format.
//!
//! The snapshot file holds one object of the shape
//! `{"items":[{"description":"...","due_date":N},...]}` where each
//! description is a string with `\"`, `\\`, `\n`, `\t` and `\r` escapes and
//! each due date is a decimal integer or `null`. The encoder and the
//! decoder are verified against spec-level functions over character
//! sequences, and [`lemma_encode_decode`] proves that decoding an encoded
//! list yields the list back, whatever it holds.

use vstd::prelude::*;
use vstd::string::StrSliceExecFns;
use crate::StoreError;
use crate::todos::Todo;
use crate::todos::Todos;
use crate::todos::todo_views;

verus! {

// ---------------------------------------------------------------------
// Fixed fragments of the format.
// ---------------------------------------------------------------------

pub open spec fn obj_header() -> Seq<char> {
    seq!['{', '"', 'i', 't', 'e', 'm', 's', '"', ':', '[']
}

pub open spec fn desc_header() -> Seq<char> {
    seq!['{', '"', 'd', 'e', 's', 'c', 'r', 'i', 'p', 't', 'i', 'o', 'n', '"', ':', '"']
}

pub open spec fn due_header() -> Seq<char> {
    seq![',', '"', 'd', 'u', 'e', '_', 'd', 'a', 't', 'e', '"', ':']
}

pub open spec fn null_chars() -> Seq<char> {
    seq!['n', 'u', 'l', 'l']
}

// ---------------------------------------------------------------------
// String escaping.
// ---------------------------------------------------------------------

/// Characters the encoder writes as a two-character escape.
pub open spec fn needs_escape(c: char) -> bool {
    c == '"' || c == '\\' || c == '\n' || c == '\t' || c == '\r'
}

/// The second character of an escape pair.
pub open spec fn escape_code(c: char) -> char {
    if c == '"' {
        '"'
    } else if c == '\\' {
        '\\'
    } else if c == '\n' {
        'n'
    } else if c == '\t' {
        't'
    } else {
        'r'
    }
}

/// Valid second characters of an escape pair, as the decoder accepts them.
pub open spec fn is_escape_code(c: char) -> bool {
    c == '"' || c == '\\' || c == 'n' || c == 't' || c == 'r'
}

/// The character an escape code stands for.
pub open spec fn code_value(c: char) -> char {
    if c == '"' {
        '"'
    } else if c == '\\' {
        '\\'
    } else if c == 'n' {
        '\n'
    } else if c == 't' {
        '\t'
    } else {
        '\r'
    }
}

pub open spec fn escape_char(c: char) -> Seq<char> {
    if needs_escape(c) {
        seq!['\\', escape_code(c)]
    } else {
        seq![c]
    }
}

pub open spec fn escape_string(s: Seq<char>) -> Seq<char>
    decreases s.len(),
{
    if s.len() == 0 {
        Seq::empty()
    } else {
        escape_char(s[0]) + escape_string(s.drop_first())
    }
}

proof fn lemma_escape_snoc(s: Seq<char>, c: char)
    ensures
        escape_string(s.push(c)) == escape_string(s) + escape_char(c),
    decreases s.len(),
{
    if s.len() == 0 {
        assert(s.push(c)[0] == c);
        assert(s.push(c).drop_first() =~= Seq::<char>::empty());
        assert(escape_string(Seq::<char>::empty()) == Seq::<char>::empty());
        assert(escape_string(s.push(c)) == escape_char(c) + Seq::<char>::empty());
        assert(escape_char(c) + Seq::<char>::empty() =~= escape_char(c));
        assert(escape_string(s) + escape_char(c) =~= escape_char(c));
    } else {
        assert(s.push(c)[0] == s[0]);
        assert(s.push(c).drop_first() =~= s.drop_first().push(c));
        lemma_escape_snoc(s.drop_first(), c);
        assert(escape_string(s.push(c)) == escape_char(s[0]) + escape_string(
            s.drop_first().push(c),
        ));
        assert(escape_string(s) == escape_char(s[0]) + escape_string(s.drop_first()));
        assert(escape_char(s[0]) + (escape_string(s.drop_first()) + escape_char(c))
            =~= (escape_char(s[0]) + escape_string(s.drop_first())) + escape_char(c));
    }
}

// ---------------------------------------------------------------------
// Decimal integers.
// ---------------------------------------------------------------------

pub open spec fn digit_char(d: int) -> char {
    if d == 0 {
        '0'
    } else if d == 1 {
        '1'
    } else if d == 2 {
        '2'
    } else if d == 3 {
        '3'
    } else if d == 4 {
        '4'
    } else if d == 5 {
        '5'
    } else if d == 6 {
        '6'
    } else if d == 7 {
        '7'
    } else if d == 8 {
        '8'
    } else {
        '9'
    }
}

pub open spec fn is_digit(c: char) -> bool {
    c == '0' || c == '1' || c == '2' || c == '3' || c == '4' || c == '5' || c == '6' || c == '7'
        || c == '8' || c == '9'
}

pub open spec fn digit_value(c: char) -> int {
    if c == '0' {
        0
    } else if c == '1' {
        1
    } else if c == '2' {
        2
    } else if c == '3' {
        3
    } else if c == '4' {
        4
    } else if c == '5' {
        5
    } else if c == '6' {
        6
    } else if c == '7' {
        7
    } else if c == '8' {
        8
    } else {
        9
    }
}

/// The canonical decimal digits of a non-negative integer.
pub open spec fn dec_digits(n: nat) -> Seq<char>
    decreases n,
{
    if n < 10 {
        seq![digit_char(n as int)]
    } else {
        dec_digits(n / 10) + seq![digit_char((n % 10) as int)]
    }
}

/// The decimal form of an integer, with a leading `-` when negative.
pub open spec fn int_chars(n: int) -> Seq<char> {
    if n < 0 {
        seq!['-'] + dec_digits((-n) as nat)
    } else {
        dec_digits(n as nat)
    }
}

pub open spec fn due_chars(d: Option<i64>) -> Seq<char> {
    match d {
        Some(n) => int_chars(n as int),
        None => null_chars(),
    }
}

/// The value of a digit sequence read as a decimal number.
pub open spec fn dec_val(ds: Seq<char>) -> int
    decreases ds.len(),
{
    if ds.len() == 0 {
        0
    } else {
        dec_val(ds.drop_last()) * 10 + digit_value(ds.last())
    }
}

pub open spec fn pow10(k: nat) -> int
    decreases k,
{
    if k == 0 {
        1
    } else {
        10 * pow10((k - 1) as nat)
    }
}

// ---------------------------------------------------------------------
// The whole encoding.
// ---------------------------------------------------------------------

/// One record: `{"description":"..","due_date":..}`.
pub open spec fn todo_chars(p: (Seq<char>, Option<i64>)) -> Seq<char> {
    desc_header() + escape_string(p.0) + seq!['"'] + due_header() + due_chars(p.1) + seq!['}']
}

/// The records, comma-separated.
pub open spec fn items_chars(v: Seq<(Seq<char>, Option<i64>)>) -> Seq<char>
    decreases v.len(),
{
    if v.len() == 0 {
        Seq::empty()
    } else if v.len() == 1 {
        todo_chars(v[0])
    } else {
        todo_chars(v[0]) + seq![','] + items_chars(v.drop_first())
    }
}

/// The whole snapshot text for a record sequence.
pub open spec fn encode_chars(v: Seq<(Seq<char>, Option<i64>)>) -> Seq<char> {
    obj_header() + items_chars(v) + seq![']', '}']
}

proof fn lemma_items_snoc(w: Seq<(Seq<char>, Option<i64>)>, p: (Seq<char>, Option<i64>))
    ensures
        w.len() == 0 ==> items_chars(w.push(p)) == todo_chars(p),
        w.len() > 0 ==> items_chars(w.push(p)) == items_chars(w) + seq![','] + todo_chars(p),
    decreases w.len(),
{
    if w.len() == 0 {
        assert(w.push(p)[0] == p);
    } else if w.len() == 1 {
        assert(w.push(p)[0] == w[0]);
        assert(w.push(p).drop_first() =~= seq![p]);
        assert(items_chars(seq![p]) == todo_chars(p));
        assert(items_chars(w.push(p)) == todo_chars(w[0]) + seq![','] + todo_chars(p));
        assert(items_chars(w) == todo_chars(w[0]));
    } else {
        assert(w.push(p)[0] == w[0]);
        assert(w.push(p).drop_first() =~= w.drop_first().push(p));
        lemma_items_snoc(w.drop_first(), p);
        assert(items_chars(w.push(p)) == todo_chars(w[0]) + seq![','] + items_chars(
            w.drop_first().push(p),
        ));
        assert(items_chars(w) == todo_chars(w[0]) + seq![','] + items_chars(w.drop_first()));
        assert(todo_chars(w[0]) + seq![','] + ((items_chars(w.drop_first()) + seq![','])
            + todo_chars(p)) =~= ((todo_chars(w[0]) + seq![','] + items_chars(w.drop_first()))
            + seq![',']) + todo_chars(p));
    }
}

// ---------------------------------------------------------------------
// The decoder, at the spec level.
// ---------------------------------------------------------------------

/// Consumes an expected literal prefix.
pub open spec fn expect_lit(s: Seq<char>, lit: Seq<char>) -> Option<Seq<char>> {
    if lit.len() <= s.len() && s.take(lit.len() as int) == lit {
        Some(s.skip(lit.len() as int))
    } else {
        None
    }
}

/// Consumes a string body up to and including its closing quote.
pub open spec fn parse_string_body(s: Seq<char>) -> Option<(Seq<char>, Seq<char>)>
    decreases s.len(),
{
    if s.len() == 0 {
        None
    } else if s[0] == '"' {
        Some((Seq::empty(), s.drop_first()))
    } else if s[0] == '\\' {
        if s.len() >= 2 && is_escape_code(s[1]) {
            match parse_string_body(s.skip(2)) {
                Some(p) => Some((seq![code_value(s[1])] + p.0, p.1)),
                None => None,
            }
        } else {
            None
        }
    } else {
        match parse_string_body(s.drop_first()) {
            Some(p) => Some((seq![s[0]] + p.0, p.1)),
            None => None,
        }
    }
}

/// Splits off the longest digit prefix.
pub open spec fn split_digits(s: Seq<char>) -> (Seq<char>, Seq<char>)
    decreases s.len(),
{
    if s.len() == 0 || !is_digit(s[0]) {
        (Seq::empty(), s)
    } else {
        let r = split_digits(s.drop_first());
        (seq![s[0]] + r.0, r.1)
    }
}

/// Consumes a decimal integer that fits an `i64`: an optional sign and at
/// most nineteen digits, range-checked.
pub open spec fn parse_number(s: Seq<char>) -> Option<(int, Seq<char>)> {
    let neg = s.len() > 0 && s[0] == '-';
    let body = if neg {
        s.drop_first()
    } else {
        s
    };
    let p = split_digits(body);
    if p.0.len() == 0 || p.0.len() > 19 {
        None
    } else {
        let v = dec_val(p.0);
        if neg {
            if v <= 9223372036854775808 {
                Some((-v, p.1))
            } else {
                None
            }
        } else {
            if v <= 9223372036854775807 {
                Some((v, p.1))
            } else {
                None
            }
        }
    }
}

/// Consumes a due date: `null` or an integer.
pub open spec fn parse_due(s: Seq<char>) -> Option<(Option<i64>, Seq<char>)> {
    match expect_lit(s, null_chars()) {
        Some(r) => Some((Option::<i64>::None, r)),
        None => match parse_number(s) {
            Some(p) => Some((Option::<i64>::Some(p.0 as i64), p.1)),
            None => None,
        },
    }
}

/// Consumes one record object.
pub open spec fn parse_todo(s: Seq<char>) -> Option<((Seq<char>, Option<i64>), Seq<char>)> {
    match expect_lit(s, desc_header()) {
        None => None,
        Some(r1) => match parse_string_body(r1) {
            None => None,
            Some(p1) => match expect_lit(p1.1, due_header()) {
                None => None,
                Some(r3) => match parse_due(r3) {
                    None => None,
                    Some(p2) => match expect_lit(p2.1, seq!['}']) {
                        None => None,
                        Some(r5) => Some(((p1.0, p2.0), r5)),
                    },
                },
            },
        },
    }
}

/// Consumes the records of a list, up to and including the closing `]`.
/// The shrinking test on the remainder is there for termination; a
/// successful record parse always consumes at least one character.
pub open spec fn parse_items(s: Seq<char>) -> Option<
    (Seq<(Seq<char>, Option<i64>)>, Seq<char>),
>
    decreases s.len(),
{
    if s.len() == 0 {
        None
    } else if s[0] == ']' {
        Some((Seq::empty(), s.drop_first()))
    } else {
        match parse_todo(s) {
            None => None,
            Some(p) => {
                let r = p.1;
                if r.len() == 0 {
                    None
                } else if r[0] == ',' {
                    if r.len() < s.len() {
                        match parse_items(r.drop_first()) {
                            None => None,
                            Some(q) => Some((seq![p.0] + q.0, q.1)),
                        }
                    } else {
                        None
                    }
                } else if r[0] == ']' {
                    Some((seq![p.0], r.drop_first()))
                } else {
                    None
                }
            },
        }
    }
}

/// Decodes a whole snapshot text, or nothing if it is malformed.
pub open spec fn parse_top(s: Seq<char>) -> Option<Seq<(Seq<char>, Option<i64>)>> {
    match expect_lit(s, obj_header()) {
        None => None,
        Some(r) => match parse_items(r) {
            None => None,
            Some(p) => if p.1 == seq!['}'] {
                Some(p.0)
            } else {
                None
            },
        },
    }
}

// ---------------------------------------------------------------------
// Round trip: decoding an encoding yields the original records.
// ---------------------------------------------------------------------

proof fn lemma_expect_prefix(lit: Seq<char>, rest: Seq<char>)
    ensures
        expect_lit(lit + rest, lit) == Some(rest),
{
    assert((lit + rest).take(lit.len() as int) =~= lit);
    assert((lit + rest).skip(lit.len() as int) =~= rest);
}

proof fn lemma_parse_sb_round(d: Seq<char>, rest: Seq<char>)
    ensures
        parse_string_body(escape_string(d) + seq!['"'] + rest) == Some((d, rest)),
    decreases d.len(),
{
    let s = escape_string(d) + seq!['"'] + rest;
    if d.len() == 0 {
        assert(s =~= seq!['"'] + rest);
        assert(s[0] == '"');
        assert(s.drop_first() =~= rest);
    } else {
        let c = d[0];
        let t = escape_string(d.drop_first()) + seq!['"'] + rest;
        assert(escape_string(d) == escape_char(c) + escape_string(d.drop_first()));
        if needs_escape(c) {
            assert(s =~= seq!['\\', escape_code(c)] + t);
            assert(s[0] == '\\');
            assert(s[1] == escape_code(c));
            assert(is_escape_code(escape_code(c)));
            assert(s.skip(2) =~= t);
            lemma_parse_sb_round(d.drop_first(), rest);
            assert(code_value(escape_code(c)) == c);
            assert(seq![c] + d.drop_first() =~= d);
        } else {
            assert(s =~= seq![c] + t);
            assert(s[0] == c);
            assert(c != '"' && c != '\\');
            assert(s.drop_first() =~= t);
            lemma_parse_sb_round(d.drop_first(), rest);
            assert(seq![c] + d.drop_first() =~= d);
        }
    }
}

proof fn lemma_dec_digits_digits(n: nat)
    ensures
        dec_digits(n).len() >= 1,
        forall|i: int| 0 <= i < dec_digits(n).len() ==> is_digit(#[trigger] dec_digits(n)[i]),
    decreases n,
{
    if n >= 10 {
        lemma_dec_digits_digits(n / 10);
        assert(forall|i: int| 0 <= i < dec_digits(n / 10).len()
            ==> dec_digits(n)[i] == dec_digits(n / 10)[i]);
        assert(dec_digits(n).last() == digit_char((n % 10) as int));
    }
}

proof fn lemma_dec_digits_le(n: nat, k: nat)
    requires
        k >= 1,
        n < pow10(k),
    ensures
        dec_digits(n).len() <= k,
    decreases n,
{
    if n >= 10 {
        assert(pow10(k) == 10 * pow10((k - 1) as nat));
        if k == 1 {
            assert(pow10(1int as nat) == 10);
        }
        assert(k >= 2);
        assert(n >= 10 * (n / 10));
        assert(n / 10 < pow10((k - 1) as nat));
        lemma_dec_digits_le(n / 10, (k - 1) as nat);
    }
}

proof fn lemma_pow10_19()
    ensures
        pow10(19) == 10000000000000000000,
{
    reveal_with_fuel(pow10, 21);
}

proof fn lemma_digit_round(d: int)
    requires
        0 <= d < 10,
    ensures
        digit_value(digit_char(d)) == d,
        is_digit(digit_char(d)),
{
}

proof fn lemma_dec_val_round(n: nat)
    ensures
        dec_val(dec_digits(n)) == n,
    decreases n,
{
    if n < 10 {
        lemma_digit_round(n as int);
        assert(dec_digits(n).drop_last() =~= Seq::<char>::empty());
        assert(dec_val(Seq::<char>::empty()) == 0);
        assert(dec_digits(n).last() == digit_char(n as int));
    } else {
        lemma_digit_round((n % 10) as int);
        lemma_dec_val_round(n / 10);
        assert(dec_digits(n).drop_last() =~= dec_digits(n / 10));
        assert(dec_digits(n).last() == digit_char((n % 10) as int));
    }
}

proof fn lemma_dec_val_bound(ds: Seq<char>)
    requires
        forall|i: int| 0 <= i < ds.len() ==> is_digit(#[trigger] ds[i]),
    ensures
        0 <= dec_val(ds),
        dec_val(ds) < pow10(ds.len()),
    decreases ds.len(),
{
    if ds.len() > 0 {
        assert(forall|i: int| 0 <= i < ds.drop_last().len()
            ==> ds.drop_last()[i] == ds[i]);
        lemma_dec_val_bound(ds.drop_last());
        assert(pow10(ds.len()) == 10 * pow10((ds.len() - 1) as nat));
        assert(digit_value(ds.last()) <= 9);
    }
}

proof fn lemma_split_digits_at(s: Seq<char>, k: int)
    requires
        0 <= k <= s.len(),
        forall|m: int| 0 <= m < k ==> is_digit(#[trigger] s[m]),
        k == s.len() || !is_digit(s[k]),
    ensures
        split_digits(s).0 == s.take(k),
        split_digits(s).1 == s.skip(k),
    decreases k,
{
    if k == 0 {
        assert(s.take(0) =~= Seq::<char>::empty());
        assert(s.skip(0) =~= s);
        assert(split_digits(s).0 =~= s.take(0));
    } else {
        assert(is_digit(s[0]));
        let t = s.drop_first();
        assert(forall|m: int| 0 <= m < k - 1 ==> t[m] == s[m + 1]);
        lemma_split_digits_at(t, k - 1);
        assert(seq![s[0]] + t.take(k - 1) =~= s.take(k));
        assert(t.skip(k - 1) =~= s.skip(k));
    }
}

proof fn lemma_parse_number_round(n: int, rest: Seq<char>)
    requires
        -9223372036854775808 <= n <= 9223372036854775807,
        rest.len() == 0 || !is_digit(rest[0]),
    ensures
        parse_number(int_chars(n) + rest) == Some((n, rest)),
{
    lemma_pow10_19();
    let m: nat = if n < 0 {
        (-n) as nat
    } else {
        n as nat
    };
    let ds = dec_digits(m);
    lemma_dec_digits_digits(m);
    lemma_dec_digits_le(m, 19);
    lemma_dec_val_round(m);
    assert(forall|i: int| 0 <= i < (ds + rest).len() && 0 <= i < ds.len()
        ==> (ds + rest)[i] == ds[i]);
    if ds.len() < (ds + rest).len() {
        assert((ds + rest)[ds.len() as int] == rest[0]);
    }
    lemma_split_digits_at(ds + rest, ds.len() as int);
    assert((ds + rest).take(ds.len() as int) =~= ds);
    assert((ds + rest).skip(ds.len() as int) =~= rest);
    if n < 0 {
        let s = int_chars(n) + rest;
        assert(s =~= seq!['-'] + (ds + rest));
        assert(s[0] == '-');
        assert(s.drop_first() =~= ds + rest);
        assert(split_digits(ds + rest).0 == ds);
        assert(dec_val(ds) == m);
    } else {
        let s = int_chars(n) + rest;
        assert(s =~= ds + rest);
        assert(is_digit(s[0]));
        assert(s[0] != '-');
        assert(split_digits(s).0 == ds);
    }
}

proof fn lemma_parse_due_round(d: Option<i64>, rest: Seq<char>)
    requires
        rest.len() == 0 || !is_digit(rest[0]),
    ensures
        parse_due(due_chars(d) + rest) == Some((d, rest)),
{
    match d {
        None => {
            lemma_expect_prefix(null_chars(), rest);
        },
        Some(n) => {
            let s = due_chars(d) + rest;
            lemma_parse_number_round(n as int, rest);
            assert(int_chars(n as int).len() >= 1) by {
                lemma_dec_digits_digits(if n < 0 {
                    (-(n as int)) as nat
                } else {
                    n as nat
                });
            }
            assert(s[0] == int_chars(n as int)[0]);
            if n < 0 {
                assert(s[0] == '-');
            } else {
                lemma_dec_digits_digits(n as nat);
                assert(is_digit(s[0]));
            }
            assert(s[0] != 'n');
            if expect_lit(s, null_chars()) is Some {
                assert(s.take(4)[0] == s[0]);
                assert(null_chars()[0] == 'n');
                assert(false);
            }
            assert((n as int) as i64 == n);
        },
    }
}

proof fn lemma_parse_todo_round(p: (Seq<char>, Option<i64>), rest: Seq<char>)
    ensures
        parse_todo(todo_chars(p) + rest) == Some((p, rest)),
{
    let s = todo_chars(p) + rest;
    let t2 = due_header() + due_chars(p.1) + seq!['}'] + rest;
    let t1 = escape_string(p.0) + seq!['"'] + t2;
    assert(s =~= desc_header() + t1);
    lemma_expect_prefix(desc_header(), t1);
    assert(t1 =~= escape_string(p.0) + seq!['"'] + (due_header() + due_chars(p.1) + seq!['}']
        + rest));
    lemma_parse_sb_round(p.0, due_header() + due_chars(p.1) + seq!['}'] + rest);
    let t3 = due_chars(p.1) + seq!['}'] + rest;
    assert(due_header() + due_chars(p.1) + seq!['}'] + rest =~= due_header() + t3);
    lemma_expect_prefix(due_header(), t3);
    assert(t3 =~= due_chars(p.1) + (seq!['}'] + rest));
    assert((seq!['}'] + rest)[0] == '}');
    lemma_parse_due_round(p.1, seq!['}'] + rest);
    lemma_expect_prefix(seq!['}'], rest);
    assert((p.0, p.1) == p);
}

proof fn lemma_todo_chars_head(p: (Seq<char>, Option<i64>))
    ensures
        todo_chars(p).len() >= 1,
        todo_chars(p)[0] == '{',
{
    assert(todo_chars(p)[0] == desc_header()[0]);
}

#[verifier::rlimit(100)]
proof fn lemma_parse_items_round(v: Seq<(Seq<char>, Option<i64>)>, rest: Seq<char>)
    ensures
        parse_items(items_chars(v) + seq![']'] + rest) == Some((v, rest)),
    decreases v.len(),
{
    let s = items_chars(v) + seq![']'] + rest;
    if v.len() == 0 {
        assert(s =~= seq![']'] + rest);
        assert(s[0] == ']');
        assert(s.drop_first() =~= rest);
        assert(Seq::<(Seq<char>, Option<i64>)>::empty() =~= v);
    } else if v.len() == 1 {
        assert(s =~= todo_chars(v[0]) + (seq![']'] + rest));
        lemma_parse_todo_round(v[0], seq![']'] + rest);
        lemma_todo_chars_head(v[0]);
        assert(s[0] == '{');
        let r = seq![']'] + rest;
        assert(r[0] == ']');
        assert(r.drop_first() =~= rest);
        assert(seq![v[0]] =~= v);
    } else {
        let tail = items_chars(v.drop_first()) + seq![']'] + rest;
        assert(items_chars(v) == todo_chars(v[0]) + seq![','] + items_chars(v.drop_first()));
        assert(s =~= todo_chars(v[0]) + (seq![','] + tail));
        lemma_parse_todo_round(v[0], seq![','] + tail);
        lemma_todo_chars_head(v[0]);
        assert(s[0] == '{');
        let r = seq![','] + tail;
        assert(r[0] == ',');
        assert(r.len() < s.len()) by {
            lemma_todo_chars_head(v[0]);
        }
        assert(r.drop_first() =~= tail);
        lemma_parse_items_round(v.drop_first(), rest);
        assert(seq![v[0]] + v.drop_first() =~= v);
    }
}

/// Decoding the encoding of any record sequence yields that sequence:
/// the snapshot format round-trips exactly, in content and order.
pub proof fn lemma_encode_decode(v: Seq<(Seq<char>, Option<i64>)>)
    ensures
        parse_top(encode_chars(v)) == Some(v),
{
    let tail = items_chars(v) + seq![']'] + seq!['}'];
    assert(encode_chars(v) =~= obj_header() + tail);
    lemma_expect_prefix(obj_header(), tail);
    lemma_parse_items_round(v, seq!['}']);
}

// ---------------------------------------------------------------------
// Executable helpers.
// ---------------------------------------------------------------------

/// Relies on `String`'s `FromIterator` implementation for `char`:
/// collecting characters yields the string of exactly those characters,
/// in order.
#[verifier::external_body]
fn chars_to_string(v: &Vec<char>) -> (r: String)
    ensures
        r@ == v@,
{
    v.iter().collect()
}

fn str_to_chars(s: &str) -> (r: Vec<char>)
    ensures
        r@ == s@,
{
    let len: usize = s.unicode_len();
    let mut r: Vec<char> = Vec::new();
    let mut k: usize = 0;
    while k < len
        invariant
            k <= len,
            len == s@.len(),
            r@ == s@.take(k as int),
        decreases len - k,
    {
        r.push(s.get_char(k));
        proof {
            assert(s@.take((k + 1) as int) =~= s@.take(k as int).push(s@[k as int]));
        }
        k = k + 1;
    }
    proof {
        assert(s@.take(len as int) =~= s@);
    }
    r
}

fn push_str_chars(out: &mut Vec<char>, s: &str)
    ensures
        final(out)@ == old(out)@ + s@,
{
    let len: usize = s.unicode_len();
    proof {
        assert(out@ =~= old(out)@ + s@.take(0));
    }
    let mut k: usize = 0;
    while k < len
        invariant
            k <= len,
            len == s@.len(),
            out@ == old(out)@ + s@.take(k as int),
        decreases len - k,
    {
        out.push(s.get_char(k));
        proof {
            assert(s@.take((k + 1) as int) =~= s@.take(k as int).push(s@[k as int]));
            assert(old(out)@ + s@.take((k + 1) as int)
                =~= (old(out)@ + s@.take(k as int)).push(s@[k as int]));
        }
        k = k + 1;
    }
    proof {
        assert(s@.take(len as int) =~= s@);
    }
}

fn push_escaped(out: &mut Vec<char>, s: &String)
    ensures
        final(out)@ == old(out)@ + escape_string(s@),
{
    let n = s.as_str();
    let len: usize = n.unicode_len();
    proof {
        assert(escape_string(s@.take(0)) =~= Seq::<char>::empty());
        assert(out@ =~= old(out)@ + escape_string(s@.take(0)));
    }
    let mut k: usize = 0;
    while k < len
        invariant
            k <= len,
            len == s@.len(),
            n@ == s@,
            out@ == old(out)@ + escape_string(s@.take(k as int)),
        decreases len - k,
    {
        let c = n.get_char(k);
        if c == '"' {
            out.push('\\');
            out.push('"');
        } else if c == '\\' {
            out.push('\\');
            out.push('\\');
        } else if c == '\n' {
            out.push('\\');
            out.push('n');
        } else if c == '\t' {
            out.push('\\');
            out.push('t');
        } else if c == '\r' {
            out.push('\\');
            out.push('r');
        } else {
            out.push(c);
        }
        proof {
            lemma_escape_snoc(s@.take(k as int), s@[k as int]);
            assert(s@.take((k + 1) as int) =~= s@.take(k as int).push(s@[k as int]));
            assert(out@ =~= old(out)@ + escape_string(s@.take((k + 1) as int)));
        }
        k = k + 1;
    }
    proof {
        assert(s@.take(len as int) =~= s@);
    }
}

fn digit_char_exec(d: u64) -> (c: char)
    requires
        d < 10,
    ensures
        c == digit_char(d as int),
{
    if d == 0 {
        '0'
    } else if d == 1 {
        '1'
    } else if d == 2 {
        '2'
    } else if d == 3 {
        '3'
    } else if d == 4 {
        '4'
    } else if d == 5 {
        '5'
    } else if d == 6 {
        '6'
    } else if d == 7 {
        '7'
    } else if d == 8 {
        '8'
    } else {
        '9'
    }
}

fn push_u64_dec(out: &mut Vec<char>, n: u64)
    ensures
        final(out)@ == old(out)@ + dec_digits(n as nat),
    decreases n,
{
    if n < 10 {
        out.push(digit_char_exec(n));
        proof {
            assert(old(out)@ + dec_digits(n as nat) =~= old(out)@.push(digit_char(n as int)));
        }
    } else {
        push_u64_dec(out, n / 10);
        out.push(digit_char_exec(n % 10));
        proof {
            assert((n / 10) as nat == (n as nat) / 10);
            assert((n % 10) as nat == (n as nat) % 10);
            assert(old(out)@ + dec_digits(n as nat)
                =~= (old(out)@ + dec_digits((n as nat) / 10)).push(
                digit_char(((n as nat) % 10) as int)));
        }
    }
}

fn push_i64_dec(out: &mut Vec<char>, n: i64)
    ensures
        final(out)@ == old(out)@ + int_chars(n as int),
{
    if n >= 0 {
        push_u64_dec(out, n as u64);
        proof {
            assert((n as u64) as nat == n as nat);
        }
    } else {
        out.push('-');
        let m: u64 = (-(n as i128)) as u64;
        proof {
            assert(m as int == -(n as int));
            assert(old(out)@ + int_chars(n as int)
                =~= old(out)@.push('-') + dec_digits(m as nat));
        }
        push_u64_dec(out, m);
    }
}

fn push_todo(out: &mut Vec<char>, t: &Todo)
    ensures
        final(out)@ == old(out)@ + todo_chars(t@),
{
    push_str_chars(out, "{\"description\":\"");
    proof {
        reveal_strlit("{\"description\":\"");
        assert("{\"description\":\""@ =~= desc_header());
    }
    push_escaped(out, &t.description);
    push_str_chars(out, "\"");
    proof {
        reveal_strlit("\"");
        assert("\""@ =~= seq!['"']);
    }
    push_str_chars(out, ",\"due_date\":");
    proof {
        reveal_strlit(",\"due_date\":");
        assert(",\"due_date\":"@ =~= due_header());
    }
    match t.due_date {
        Some(n) => {
            push_i64_dec(out, n);
        },
        None => {
            push_str_chars(out, "null");
            proof {
                reveal_strlit("null");
                assert("null"@ =~= null_chars());
            }
        },
    }
    push_str_chars(out, "}");
    proof {
        reveal_strlit("}");
        assert("}"@ =~= seq!['}']);
        assert(out@ =~= old(out)@ + todo_chars(t@));
    }
}

/// Encodes the whole list as the snapshot text.
pub fn encode_todos(t: &Todos) -> (r: String)
    ensures
        r@ == encode_chars(t@),
{
    let mut out: Vec<char> = Vec::new();
    push_str_chars(&mut out, "{\"items\":[");
    proof {
        reveal_strlit("{\"items\":[");
        assert("{\"items\":["@ =~= obj_header());
        assert(items_chars(t@.take(0)) =~= Seq::<char>::empty());
        assert(out@ =~= obj_header() + items_chars(t@.take(0)));
    }
    let mut i: usize = 0;
    while i < t.items.len()
        invariant
            i <= t.items@.len(),
            t@.len() == t.items@.len(),
            out@ == obj_header() + items_chars(t@.take(i as int)),
        decreases t.items@.len() - i,
    {
        if i > 0 {
            push_str_chars(&mut out, ",");
            proof {
                reveal_strlit(",");
                assert(","@ =~= seq![',']);
            }
        }
        push_todo(&mut out, &t.items[i]);
        proof {
            assert(t@[i as int] == t.items@[i as int]@);
            assert(t@.take((i + 1) as int) =~= t@.take(i as int).push(t@[i as int]));
            lemma_items_snoc(t@.take(i as int), t@[i as int]);
            assert(out@ =~= obj_header() + items_chars(t@.take((i + 1) as int)));
        }
        i = i + 1;
    }
    proof {
        assert(t@.take(t.items@.len() as int) =~= t@);
    }
    push_str_chars(&mut out, "]}");
    proof {
        reveal_strlit("]}");
        assert("]}"@ =~= seq![']', '}']);
        assert(out@ =~= encode_chars(t@));
    }
    chars_to_string(&out)
}

// ---------------------------------------------------------------------
// Executable decoder.
// ---------------------------------------------------------------------

fn char_is_digit(c: char) -> (b: bool)
    ensures
        b == is_digit(c),
{
    c == '0' || c == '1' || c == '2' || c == '3' || c == '4' || c == '5' || c == '6' || c == '7'
        || c == '8' || c == '9'
}

fn char_digit_value(c: char) -> (d: u64)
    requires
        is_digit(c),
    ensures
        d < 10,
        d as int == digit_value(c),
{
    if c == '0' {
        0
    } else if c == '1' {
        1
    } else if c == '2' {
        2
    } else if c == '3' {
        3
    } else if c == '4' {
        4
    } else if c == '5' {
        5
    } else if c == '6' {
        6
    } else if c == '7' {
        7
    } else if c == '8' {
        8
    } else {
        9
    }
}

fn char_is_escape_code(c: char) -> (b: bool)
    ensures
        b == is_escape_code(c),
{
    c == '"' || c == '\\' || c == 'n' || c == 't' || c == 'r'
}

fn char_code_value(c: char) -> (r: char)
    requires
        is_escape_code(c),
    ensures
        r == code_value(c),
{
    if c == '"' {
        '"'
    } else if c == '\\' {
        '\\'
    } else if c == 'n' {
        '\n'
    } else if c == 't' {
        '\t'
    } else {
        '\r'
    }
}

fn eat_lit(v: &Vec<char>, i: usize, lit: &Vec<char>) -> (r: Option<usize>)
    requires
        i <= v@.len(),
    ensures
        match r {
            Some(j) => {
                &&& expect_lit(v@.skip(i as int), lit@) == Some(v@.skip(j as int))
                &&& i <= j <= v@.len()
                &&& j - i == lit@.len()
            },
            None => expect_lit(v@.skip(i as int), lit@) is None,
        },
{
    let ghost s = v@.skip(i as int);
    let n: usize = v.len();
    if n - i < lit.len() {
        return None;
    }
    let mut k: usize = 0;
    while k < lit.len()
        invariant
            k <= lit@.len(),
            n == v@.len(),
            i + lit@.len() <= n,
            s == v@.skip(i as int),
            forall|m: int| 0 <= m < k ==> s[m] == lit@[m],
        decreases lit@.len() - k,
    {
        if v[i + k] != lit[k] {
            proof {
                assert(s[k as int] == v@[(i + k) as int]);
                assert(s.take(lit@.len() as int)[k as int] == s[k as int]);
                assert(s.take(lit@.len() as int) != lit@);
            }
            return None;
        }
        proof {
            assert(s[k as int] == v@[(i + k) as int]);
        }
        k = k + 1;
    }
    proof {
        assert(s.take(lit@.len() as int) =~= lit@);
        assert(s.skip(lit@.len() as int) =~= v@.skip((i + lit@.len()) as int));
    }
    Some(i + lit.len())
}

fn obj_header_vec() -> (r: Vec<char>)
    ensures
        r@ == obj_header(),
{
    let r = str_to_chars("{\"items\":[");
    proof {
        reveal_strlit("{\"items\":[");
        assert("{\"items\":["@ =~= obj_header());
    }
    r
}

fn desc_header_vec() -> (r: Vec<char>)
    ensures
        r@ == desc_header(),
{
    let r = str_to_chars("{\"description\":\"");
    proof {
        reveal_strlit("{\"description\":\"");
        assert("{\"description\":\""@ =~= desc_header());
    }
    r
}

fn due_header_vec() -> (r: Vec<char>)
    ensures
        r@ == due_header(),
{
    let r = str_to_chars(",\"due_date\":");
    proof {
        reveal_strlit(",\"due_date\":");
        assert(",\"due_date\":"@ =~= due_header());
    }
    r
}

fn null_vec() -> (r: Vec<char>)
    ensures
        r@ == null_chars(),
{
    let r = str_to_chars("null");
    proof {
        reveal_strlit("null");
        assert("null"@ =~= null_chars());
    }
    r
}

fn close_brace_vec() -> (r: Vec<char>)
    ensures
        r@ == seq!['}'],
{
    let r = str_to_chars("}");
    proof {
        reveal_strlit("}");
        assert("}"@ =~= seq!['}']);
    }
    r
}

fn parse_sb_exec(v: &Vec<char>, i: usize) -> (r: Option<(Vec<char>, usize)>)
    requires
        i <= v@.len(),
    ensures
        match r {
            Some(p) => {
                &&& parse_string_body(v@.skip(i as int)) == Some((p.0@, v@.skip(p.1 as int)))
                &&& i < p.1 <= v@.len()
            },
            None => parse_string_body(v@.skip(i as int)) is None,
        },
    decreases v@.len() - i,
{
    let ghost s = v@.skip(i as int);
    if i == v.len() {
        return None;
    }
    let c = v[i];
    proof {
        assert(s[0] == v@[i as int]);
    }
    if c == '"' {
        proof {
            assert(s.drop_first() =~= v@.skip((i + 1) as int));
        }
        let d: Vec<char> = Vec::new();
        proof {
            assert(d@ =~= Seq::<char>::empty());
        }
        Some((d, i + 1))
    } else if c == '\\' {
        if i + 1 < v.len() && char_is_escape_code(v[i + 1]) {
            proof {
                assert(s.len() >= 2);
                assert(s[1] == v@[(i + 1) as int]);
                assert(s.skip(2) =~= v@.skip((i + 2) as int));
            }
            match parse_sb_exec(v, i + 2) {
                Some((d, j)) => {
                    let ghost pre = d@;
                    let mut d = d;
                    let cv = char_code_value(v[i + 1]);
                    d.insert(0, cv);
                    proof {
                        assert(d@ =~= seq![code_value(s[1])] + pre);
                    }
                    Some((d, j))
                },
                None => None,
            }
        } else {
            proof {
                if i + 1 >= v@.len() {
                    assert(s.len() < 2);
                } else {
                    assert(s[1] == v@[(i + 1) as int]);
                }
            }
            None
        }
    } else {
        proof {
            assert(s.drop_first() =~= v@.skip((i + 1) as int));
        }
        match parse_sb_exec(v, i + 1) {
            Some((d, j)) => {
                let ghost pre = d@;
                let mut d = d;
                d.insert(0, c);
                proof {
                    assert(d@ =~= seq![s[0]] + pre);
                }
                Some((d, j))
            },
            None => None,
        }
    }
}

fn parse_number_exec(v: &Vec<char>, i: usize) -> (r: Option<(i64, usize)>)
    requires
        i <= v@.len(),
    ensures
        match r {
            Some(p) => {
                &&& parse_number(v@.skip(i as int)) == Some((p.0 as int, v@.skip(p.1 as int)))
                &&& i < p.1 <= v@.len()
            },
            None => parse_number(v@.skip(i as int)) is None,
        },
{
    let ghost s = v@.skip(i as int);
    let neg = i < v.len() && v[i] == '-';
    let start: usize = if neg {
        i + 1
    } else {
        i
    };
    let ghost body = v@.skip(start as int);
    proof {
        if neg {
            assert(s[0] == v@[i as int]);
            assert(body =~= s.drop_first());
        } else {
            if i < v@.len() {
                assert(s[0] == v@[i as int]);
            }
            assert(body == s);
        }
    }
    let mut j: usize = start;
    while j < v.len()
        invariant_except_break
            start <= j <= v@.len(),
            forall|m: int| start <= m < j ==> is_digit(#[trigger] v@[m]),
        ensures
            start <= j <= v@.len(),
            forall|m: int| start <= m < j ==> is_digit(#[trigger] v@[m]),
            j == v@.len() || !is_digit(v@[j as int]),
        decreases v@.len() - j,
    {
        if !char_is_digit(v[j]) {
            break;
        }
        j = j + 1;
    }
    proof {
        assert(forall|m: int| 0 <= m < j - start ==> body[m] == v@[m + start]);
        if j < v@.len() {
            assert(body[(j - start) as int] == v@[j as int]);
        }
        lemma_split_digits_at(body, j - start);
        assert(split_digits(body).1 =~= v@.skip(j as int));
    }
    let count: usize = j - start;
    if count == 0 || count > 19 {
        return None;
    }
    let ghost ds = body.take(count as int);
    proof {
        assert(forall|m: int| 0 <= m < ds.len() ==> ds[m] == v@[m + start]);
        lemma_pow10_19();
    }
    let mut acc: u64 = 0;
    let mut m: usize = start;
    while m < j
        invariant
            start <= m <= j,
            j <= v@.len(),
            count == j - start,
            count <= 19,
            ds == body.take(count as int),
            body == v@.skip(start as int),
            ds.len() == count,
            forall|w: int| start <= w < j ==> is_digit(#[trigger] v@[w]),
            forall|w: int| 0 <= w < ds.len() ==> ds[w] == v@[w + start],
            acc as int == dec_val(ds.take((m - start) as int)),
            (acc as int) < pow10((m - start) as nat),
            pow10(19) == 10000000000000000000,
        decreases j - m,
    {
        let d = char_digit_value(v[m]);
        proof {
            lemma_pow10_le((m + 1 - start) as nat, 19);
            assert(pow10(((m + 1) - start) as nat)
                == 10 * pow10((m - start) as nat));
            assert(acc as int * 10 + d < pow10(((m + 1) - start) as nat));
            assert(ds.take(((m + 1) - start) as int).drop_last()
                =~= ds.take((m - start) as int));
            assert(ds.take(((m + 1) - start) as int).last() == v@[m as int]);
        }
        acc = acc * 10 + d;
        m = m + 1;
    }
    proof {
        assert(ds.take(count as int) =~= ds);
        assert(acc as int == dec_val(ds));
    }
    if neg {
        if acc > 9223372036854775808u64 {
            return None;
        }
        let n128: i128 = -(acc as i128);
        let n: i64 = n128 as i64;
        proof {
            assert(n as int == -(dec_val(ds)));
        }
        Some((n, j))
    } else {
        if acc > 9223372036854775807u64 {
            return None;
        }
        Some((acc as i64, j))
    }
}

proof fn lemma_pow10_le(a: nat, b: nat)
    requires
        a <= b,
    ensures
        pow10(a) <= pow10(b),
        pow10(a) >= 1,
    decreases b,
{
    if b > 0 {
        if a == b {
            lemma_pow10_le((b - 1) as nat, (b - 1) as nat);
        } else {
            lemma_pow10_le(a, (b - 1) as nat);
        }
    }
}

fn parse_due_exec(v: &Vec<char>, i: usize) -> (r: Option<(Option<i64>, usize)>)
    requires
        i <= v@.len(),
    ensures
        match r {
            Some(p) => {
                &&& parse_due(v@.skip(i as int)) == Some((p.0, v@.skip(p.1 as int)))
                &&& i < p.1 <= v@.len()
            },
            None => parse_due(v@.skip(i as int)) is None,
        },
{
    let nul = null_vec();
    match eat_lit(v, i, &nul) {
        Some(j) => Some((None, j)),
        None => match parse_number_exec(v, i) {
            Some((n, j)) => {
                proof {
                    assert((n as int) as i64 == n);
                }
                Some((Some(n), j))
            },
            None => None,
        },
    }
}

fn parse_todo_exec(v: &Vec<char>, i: usize) -> (r: Option<(Todo, usize)>)
    requires
        i <= v@.len(),
    ensures
        match r {
            Some(p) => {
                &&& parse_todo(v@.skip(i as int)) == Some((p.0@, v@.skip(p.1 as int)))
                &&& i < p.1 <= v@.len()
            },
            None => parse_todo(v@.skip(i as int)) is None,
        },
{
    let dh = desc_header_vec();
    let r1 = match eat_lit(v, i, &dh) {
        Some(j) => j,
        None => {
            return None;
        },
    };
    let (d, r2) = match parse_sb_exec(v, r1) {
        Some(p) => p,
        None => {
            return None;
        },
    };
    let uh = due_header_vec();
    let r3 = match eat_lit(v, r2, &uh) {
        Some(j) => j,
        None => {
            return None;
        },
    };
    let (due, r4) = match parse_due_exec(v, r3) {
        Some(p) => p,
        None => {
            return None;
        },
    };
    let cb = close_brace_vec();
    let r5 = match eat_lit(v, r4, &cb) {
        Some(j) => j,
        None => {
            return None;
        },
    };
    let t = Todo { description: chars_to_string(&d), due_date: due };
    proof {
        assert(t@ == (d@, due));
    }
    Some((t, r5))
}

fn parse_items_exec(v: &Vec<char>, i: usize) -> (r: Option<(Vec<Todo>, usize)>)
    requires
        i <= v@.len(),
    ensures
        match r {
            Some(p) => {
                &&& parse_items(v@.skip(i as int)) == Some((todo_views(p.0@), v@.skip(
                    p.1 as int,
                )))
                &&& i < p.1 <= v@.len()
            },
            None => parse_items(v@.skip(i as int)) is None,
        },
    decreases v@.len() - i,
{
    let ghost s = v@.skip(i as int);
    if i == v.len() {
        return None;
    }
    proof {
        assert(s[0] == v@[i as int]);
    }
    if v[i] == ']' {
        let items: Vec<Todo> = Vec::new();
        proof {
            assert(todo_views(items@) =~= Seq::<(Seq<char>, Option<i64>)>::empty());
            assert(s.drop_first() =~= v@.skip((i + 1) as int));
        }
        return Some((items, i + 1));
    }
    let (t, j) = match parse_todo_exec(v, i) {
        Some(p) => p,
        None => {
            return None;
        },
    };
    if j == v.len() {
        return None;
    }
    proof {
        assert(v@.skip(j as int)[0] == v@[j as int]);
    }
    if v[j] == ',' {
        proof {
            assert(v@.skip(j as int).len() < s.len());
            assert(v@.skip(j as int).drop_first() =~= v@.skip((j + 1) as int));
        }
        let (rest, j2) = match parse_items_exec(v, j + 1) {
            Some(p) => p,
            None => {
                return None;
            },
        };
        let ghost pre = rest@;
        let mut rest = rest;
        rest.insert(0, t);
        proof {
            assert(rest@ =~= seq![t] + pre);
            assert(todo_views(rest@) =~= seq![t@] + todo_views(pre));
        }
        Some((rest, j2))
    } else if v[j] == ']' {
        let mut items: Vec<Todo> = Vec::new();
        items.push(t);
        proof {
            assert(todo_views(items@) =~= seq![t@]);
            assert(v@.skip(j as int).drop_first() =~= v@.skip((j + 1) as int));
        }
        Some((items, j + 1))
    } else {
        None
    }
}

/// Decodes a snapshot text; malformed content is a `SerializationError`.
pub fn decode_todos(s: &str) -> (r: Result<Todos, StoreError>)
    ensures
        match r {
            Ok(t) => parse_top(s@) == Some(t@),
            Err(e) => parse_top(s@) is None && e == StoreError::SerializationError,
        },
{
    let v = str_to_chars(s);
    proof {
        assert(v@.skip(0) =~= s@);
    }
    let oh = obj_header_vec();
    let r0 = match eat_lit(&v, 0, &oh) {
        Some(j) => j,
        None => {
            return Err(StoreError::SerializationError);
        },
    };
    let (items, j) = match parse_items_exec(&v, r0) {
        Some(p) => p,
        None => {
            return Err(StoreError::SerializationError);
        },
    };
    if j < v.len() && v[j] == '}' && j + 1 == v.len() {
        proof {
            assert(v@.skip(j as int) =~= seq!['}']);
        }
        Ok(Todos { items })
    } else {
        proof {
            if v@.skip(j as int) == seq!['}'] {
                assert(v@.skip(j as int).len() == 1);
                assert(v@.skip(j as int)[0] == v@[j as int]);
                assert(false);
            }
        }
        Err(StoreError::SerializationError)
    }
}

} // verus!
