//! A small JSON document model.
//!
//! The wire protocol is line-delimited JSON. This module holds the document
//! tree (`JsonValue`), its mathematical model (`JsonVal`), the canonical
//! encoding of a document as text, and an executable printer and parser that
//! are proved against those definitions.

use vstd::prelude::*;
use vstd::string::StrSliceExecFns;
use vstd::string::StringExecFns;

verus! {

/// The mathematical model of a JSON document: what a `JsonValue` denotes.
///
/// Numbers are unsigned 64-bit integers: every number the protocol carries
/// (message ids, broadcast values, counter deltas and totals) is one.
#[verifier::ext_equal]
pub enum JsonVal {
    Null,
    Bool(bool),
    Num(u64),
    Str(Seq<char>),
    Arr(Seq<JsonVal>),
    Obj(Seq<(Seq<char>, JsonVal)>),
}

/// A JSON document as executable data.
#[verifier::ext_equal]
#[derive(Debug, PartialEq, Eq)]
pub enum JsonValue {
    Null,
    Bool(bool),
    Num(u64),
    Str(String),
    Arr(Vec<JsonValue>),
    Obj(Vec<(String, JsonValue)>),
}

pub open spec fn view_of(v: JsonValue) -> JsonVal
    decreases v, 2int,
{
    match v {
        JsonValue::Null => JsonVal::Null,
        JsonValue::Bool(b) => JsonVal::Bool(b),
        JsonValue::Num(n) => JsonVal::Num(n),
        JsonValue::Str(s) => JsonVal::Str(s@),
        JsonValue::Arr(items) => JsonVal::Arr(views_of_items(items@)),
        JsonValue::Obj(fields) => JsonVal::Obj(views_of_fields(fields@)),
    }
}

pub open spec fn views_of_items(items: Seq<JsonValue>) -> Seq<JsonVal>
    decreases items, 1int,
{
    if items.len() == 0 {
        Seq::empty()
    } else {
        seq![view_of(items[0])] + views_of_items(items.subrange(1, items.len() as int))
    }
}

pub open spec fn views_of_fields(fields: Seq<(String, JsonValue)>) -> Seq<(Seq<char>, JsonVal)>
    decreases fields, 1int,
{
    if fields.len() == 0 {
        Seq::empty()
    } else {
        seq![(fields[0].0@, view_of(fields[0].1))] + views_of_fields(
            fields.subrange(1, fields.len() as int),
        )
    }
}

impl View for JsonValue {
    type V = JsonVal;

    open spec fn view(&self) -> JsonVal {
        view_of(*self)
    }
}

/// A character that may stand unescaped inside a JSON string literal.
pub open spec fn wf_char(c: char) -> bool {
    c != '"' && c != '\\' && (c as u32) >= 32
}

/// A string all of whose characters may stand unescaped.
pub open spec fn wf_string(s: Seq<char>) -> bool {
    forall|k: int| 0 <= k < s.len() ==> wf_char(#[trigger] s[k])
}

/// A document whose strings (including object keys) need no escaping.
/// Every document this crate builds or parses is of this form, and only
/// these have the canonical text given by [`encode`].
pub open spec fn wf_val(v: JsonVal) -> bool
    decreases v, 2int,
{
    match v {
        JsonVal::Null => true,
        JsonVal::Bool(_) => true,
        JsonVal::Num(_) => true,
        JsonVal::Str(s) => wf_string(s),
        JsonVal::Arr(items) => wf_items(items),
        JsonVal::Obj(fields) => wf_fields(fields),
    }
}

pub open spec fn wf_items(items: Seq<JsonVal>) -> bool
    decreases items, 1int,
{
    items.len() == 0 || (wf_val(items[0]) && wf_items(items.subrange(1, items.len() as int)))
}

pub open spec fn wf_fields(fields: Seq<(Seq<char>, JsonVal)>) -> bool
    decreases fields, 1int,
{
    fields.len() == 0 || (wf_string(fields[0].0) && wf_val(fields[0].1) && wf_fields(
        fields.subrange(1, fields.len() as int),
    ))
}

pub proof fn lemma_wf_items_index(items: Seq<JsonVal>, i: int)
    requires
        wf_items(items),
        0 <= i < items.len(),
    ensures
        wf_val(items[i]),
    decreases items.len(),
{
    if i > 0 {
        lemma_wf_items_index(items.subrange(1, items.len() as int), i - 1);
    }
}

pub proof fn lemma_wf_fields_index(fields: Seq<(Seq<char>, JsonVal)>, i: int)
    requires
        wf_fields(fields),
        0 <= i < fields.len(),
    ensures
        wf_string(fields[i].0),
        wf_val(fields[i].1),
    decreases fields.len(),
{
    if i > 0 {
        lemma_wf_fields_index(fields.subrange(1, fields.len() as int), i - 1);
    }
}

/// The digit character for `d`.
pub open spec fn char_of_digit(d: int) -> char {
    if d == 0 {
        '0'
    } else if d == 1 {
        '1'
    } else if d == 2 {
        '2'
    } else if d == 3 {
        '3'
    } else if d == 4 {
        '4'
    } else if d == 5 {
        '5'
    } else if d == 6 {
        '6'
    } else if d == 7 {
        '7'
    } else if d == 8 {
        '8'
    } else {
        '9'
    }
}

/// The decimal digits of `n`, most significant first, with no leading zero.
pub open spec fn dec_digits(n: int) -> Seq<char>
    decreases n,
{
    if n < 10 {
        seq![char_of_digit(if n < 0 { 0 } else { n % 10 })]
    } else {
        dec_digits(n / 10) + seq![char_of_digit(n % 10)]
    }
}

/// The canonical text of a document: no whitespace, fields in order,
/// numbers in decimal, strings unescaped (see [`wf_val`]).
pub open spec fn encode(v: JsonVal) -> Seq<char>
    decreases v, 2int,
{
    match v {
        JsonVal::Null => seq!['n', 'u', 'l', 'l'],
        JsonVal::Bool(b) => if b {
            seq!['t', 'r', 'u', 'e']
        } else {
            seq!['f', 'a', 'l', 's', 'e']
        },
        JsonVal::Num(n) => dec_digits(n as int),
        JsonVal::Str(s) => seq!['"'] + s + seq!['"'],
        JsonVal::Arr(items) => seq!['['] + encode_items(items) + seq![']'],
        JsonVal::Obj(fields) => seq!['{'] + encode_fields(fields) + seq!['}'],
    }
}

pub open spec fn encode_items(items: Seq<JsonVal>) -> Seq<char>
    decreases items, 1int,
{
    if items.len() == 0 {
        Seq::empty()
    } else if items.len() == 1 {
        encode(items[0])
    } else {
        encode_items(items.subrange(0, items.len() - 1)) + seq![','] + encode(
            items[items.len() - 1],
        )
    }
}

pub open spec fn encode_field(field: (Seq<char>, JsonVal)) -> Seq<char>
    decreases field, 2int,
{
    seq!['"'] + field.0 + seq!['"', ':'] + encode(field.1)
}

pub open spec fn encode_fields(fields: Seq<(Seq<char>, JsonVal)>) -> Seq<char>
    decreases fields, 1int,
{
    if fields.len() == 0 {
        Seq::empty()
    } else if fields.len() == 1 {
        encode_field(fields[0])
    } else {
        encode_fields(fields.subrange(0, fields.len() - 1)) + seq![','] + encode_field(
            fields[fields.len() - 1],
        )
    }
}

fn digit_str(d: u64) -> (r: &'static str)
    requires
        d < 10,
    ensures
        r@ == seq![char_of_digit(d as int)],
{
    proof {
        reveal_strlit("0");
        reveal_strlit("1");
        reveal_strlit("2");
        reveal_strlit("3");
        reveal_strlit("4");
        reveal_strlit("5");
        reveal_strlit("6");
        reveal_strlit("7");
        reveal_strlit("8");
        reveal_strlit("9");
    }
    if d == 0 {
        "0"
    } else if d == 1 {
        "1"
    } else if d == 2 {
        "2"
    } else if d == 3 {
        "3"
    } else if d == 4 {
        "4"
    } else if d == 5 {
        "5"
    } else if d == 6 {
        "6"
    } else if d == 7 {
        "7"
    } else if d == 8 {
        "8"
    } else {
        "9"
    }
}

fn write_digits(n: u64, out: &mut String)
    ensures
        final(out)@ == old(out)@ + dec_digits(n as int),
    decreases n,
{
    if n >= 10 {
        write_digits(n / 10, out);
    }
    out.append(digit_str(n % 10));
    proof {
        if n < 10 {
            assert(dec_digits(n as int) == seq![char_of_digit(n as int % 10)]);
        }
    }
}

/// Writes the canonical text of `v` onto `out`.
fn write_val(v: &JsonValue, out: &mut String)
    requires
        wf_val(v@),
    ensures
        final(out)@ == old(out)@ + encode(v@),
    decreases *v, 0int, 2int,
{
    proof {
        reveal_strlit("null");
        reveal_strlit("true");
        reveal_strlit("false");
        reveal_strlit("\"");
        reveal_strlit("[");
        reveal_strlit("]");
        reveal_strlit("{");
        reveal_strlit("}");
        reveal_strlit(",");
        reveal_strlit(":");
    }
    match v {
        JsonValue::Null => {
            out.append("null");
            assert(final(out)@ =~= old(out)@ + encode(v@));
        },
        JsonValue::Bool(b) => {
            if *b {
                out.append("true");
            } else {
                out.append("false");
            }
            assert(final(out)@ =~= old(out)@ + encode(v@));
        },
        JsonValue::Num(n) => {
            write_digits(*n, out);
        },
        JsonValue::Str(s) => {
            out.append("\"");
            out.append(s.as_str());
            out.append("\"");
            assert(final(out)@ =~= old(out)@ + encode(v@));
        },
        JsonValue::Arr(items) => {
            out.append("[");
            write_items(items, out);
            out.append("]");
            assert(final(out)@ =~= old(out)@ + encode(v@));
        },
        JsonValue::Obj(fields) => {
            out.append("{");
            write_fields(fields, out);
            out.append("}");
            assert(final(out)@ =~= old(out)@ + encode(v@));
        },
    }
}

fn write_items(items: &Vec<JsonValue>, out: &mut String)
    requires
        wf_items(views_of_items(items@)),
    ensures
        final(out)@ == old(out)@ + encode_items(views_of_items(items@)),
    decreases *items, 0int, 1int,
{
    proof {
        reveal_strlit(",");
    }
    let ghost base = out@;
    let ghost vs = views_of_items(items@);
    proof {
        lemma_views_of_items_len(items@);
    }
    let mut k: usize = 0;
    while k < items.len()
        invariant
            wf_items(vs),
            vs == views_of_items(items@),
            vs.len() == items@.len(),
            k <= items@.len(),
            out@ == base + encode_items(vs.subrange(0, k as int)),
        decreases items@.len() - k,
    {
        proof {
            reveal_strlit(",");
            lemma_views_of_items_index(items@, k as int);
            lemma_wf_items_index(vs, k as int);
        }
        if k > 0 {
            out.append(",");
        }
        write_val(&items[k], out);
        proof {
            let pre = vs.subrange(0, k as int);
            let post = vs.subrange(0, k as int + 1);
            assert(post.subrange(0, post.len() - 1) =~= pre);
            assert(post[post.len() - 1] == vs[k as int]);
            if k == 0 {
                assert(encode_items(post) == encode(vs[0]));
            }
        }
        k += 1;
    }
    proof {
        assert(vs.subrange(0, vs.len() as int) =~= vs);
    }
}

fn write_fields(fields: &Vec<(String, JsonValue)>, out: &mut String)
    requires
        wf_fields(views_of_fields(fields@)),
    ensures
        final(out)@ == old(out)@ + encode_fields(views_of_fields(fields@)),
    decreases *fields, 0int, 1int,
{
    proof {
        reveal_strlit(",");
        reveal_strlit("\"");
        reveal_strlit(":");
    }
    let ghost base = out@;
    let ghost vs = views_of_fields(fields@);
    proof {
        lemma_views_of_fields_len(fields@);
    }
    let mut k: usize = 0;
    while k < fields.len()
        invariant
            wf_fields(vs),
            vs == views_of_fields(fields@),
            vs.len() == fields@.len(),
            k <= fields@.len(),
            out@ == base + encode_fields(vs.subrange(0, k as int)),
        decreases fields@.len() - k,
    {
        proof {
            reveal_strlit(",");
            reveal_strlit("\"");
            reveal_strlit(":");
            lemma_views_of_fields_index(fields@, k as int);
            lemma_wf_fields_index(vs, k as int);
        }
        if k > 0 {
            out.append(",");
        }
        let ghost mid = out@;
        out.append("\"");
        out.append(fields[k].0.as_str());
        out.append("\"");
        out.append(":");
        write_val(&fields[k].1, out);
        proof {
            assert(out@ =~= mid + encode_field(vs[k as int]));
            let pre = vs.subrange(0, k as int);
            let post = vs.subrange(0, k as int + 1);
            assert(post.subrange(0, post.len() - 1) =~= pre);
            assert(post[post.len() - 1] == vs[k as int]);
            if k == 0 {
                assert(encode_fields(post) == encode_field(vs[0]));
            }
        }
        k += 1;
    }
    proof {
        assert(vs.subrange(0, vs.len() as int) =~= vs);
    }
}

/// The canonical text of a well-formed document.
pub fn to_text(v: &JsonValue) -> (r: String)
    requires
        wf_val(v@),
    ensures
        r@ == encode(v@),
{
    let mut out = String::new();
    write_val(v, &mut out);
    out
}

pub proof fn lemma_views_of_items_len(items: Seq<JsonValue>)
    ensures
        views_of_items(items).len() == items.len(),
    decreases items.len(),
{
    if items.len() > 0 {
        lemma_views_of_items_len(items.subrange(1, items.len() as int));
    }
}

pub proof fn lemma_views_of_items_index(items: Seq<JsonValue>, i: int)
    requires
        0 <= i < items.len(),
    ensures
        views_of_items(items).len() == items.len(),
        views_of_items(items)[i] == view_of(items[i]),
    decreases items.len(),
{
    lemma_views_of_items_len(items);
    if i > 0 {
        lemma_views_of_items_index(items.subrange(1, items.len() as int), i - 1);
    }
}

pub proof fn lemma_views_of_fields_len(fields: Seq<(String, JsonValue)>)
    ensures
        views_of_fields(fields).len() == fields.len(),
    decreases fields.len(),
{
    if fields.len() > 0 {
        lemma_views_of_fields_len(fields.subrange(1, fields.len() as int));
    }
}

pub proof fn lemma_views_of_fields_index(fields: Seq<(String, JsonValue)>, i: int)
    requires
        0 <= i < fields.len(),
    ensures
        views_of_fields(fields).len() == fields.len(),
        views_of_fields(fields)[i] == (fields[i].0@, view_of(fields[i].1)),
    decreases fields.len(),
{
    lemma_views_of_fields_len(fields);
    if i > 0 {
        lemma_views_of_fields_index(fields.subrange(1, fields.len() as int), i - 1);
    }
}

pub open spec fn is_ws(c: char) -> bool {
    c == ' ' || c == '\n' || c == '\t' || c == '\r'
}

pub open spec fn is_digit(c: char) -> bool {
    48 <= (c as u32) <= 57
}

pub open spec fn digit_val(c: char) -> int {
    (c as u32) - 48
}

/// The index of the closing quote of a string literal whose content starts
/// at `i`, or `None` if the content would need escape handling.
pub open spec fn find_close(s: Seq<char>, i: int) -> Option<int>
    decreases s.len() - i, 0int,
{
    if i < 0 || i >= s.len() {
        None
    } else if s[i] == '"' {
        Some(i)
    } else if wf_char(s[i]) {
        find_close(s, i + 1)
    } else {
        None
    }
}

/// A decimal number read from position `i` on, continuing the value `acc`;
/// stops in front of the first non-digit.
pub open spec fn parse_num(s: Seq<char>, i: int, acc: u64) -> Option<(JsonVal, int)>
    decreases s.len() - i, 0int,
{
    if i < 0 || i > s.len() {
        None
    } else if i < s.len() && is_digit(s[i]) {
        let a2 = acc * 10 + digit_val(s[i]);
        if a2 > u64::MAX {
            None
        } else {
            parse_num(s, i + 1, a2 as u64)
        }
    } else {
        Some((JsonVal::Num(acc), i))
    }
}

/// The first document found from position `i` on, after any whitespace,
/// together with the position just past it.
pub open spec fn parse_val(s: Seq<char>, i: int) -> Option<(JsonVal, int)>
    decreases s.len() - i, 1int,
{
    if i < 0 || i >= s.len() {
        None
    } else if is_ws(s[i]) {
        parse_val(s, i + 1)
    } else if s[i] == 'n' {
        if i + 4 <= s.len() && s[i + 1] == 'u' && s[i + 2] == 'l' && s[i + 3] == 'l' {
            Some((JsonVal::Null, i + 4))
        } else {
            None
        }
    } else if s[i] == 't' {
        if i + 4 <= s.len() && s[i + 1] == 'r' && s[i + 2] == 'u' && s[i + 3] == 'e' {
            Some((JsonVal::Bool(true), i + 4))
        } else {
            None
        }
    } else if s[i] == 'f' {
        if i + 5 <= s.len() && s[i + 1] == 'a' && s[i + 2] == 'l' && s[i + 3] == 's' && s[i + 4]
            == 'e' {
            Some((JsonVal::Bool(false), i + 5))
        } else {
            None
        }
    } else if s[i] == '"' {
        match find_close(s, i + 1) {
            Some(q) => Some((JsonVal::Str(s.subrange(i + 1, q)), q + 1)),
            None => None,
        }
    } else if s[i] == '[' {
        match parse_items(s, i + 1, true) {
            Some((items, j)) => Some((JsonVal::Arr(items), j)),
            None => None,
        }
    } else if s[i] == '{' {
        match parse_fields(s, i + 1, true) {
            Some((fields, j)) => Some((JsonVal::Obj(fields), j)),
            None => None,
        }
    } else if is_digit(s[i]) {
        parse_num(s, i, 0)
    } else {
        None
    }
}

/// The items of an array, from just after the `[` (when `first`) or just
/// after a `,`; ends just past the closing `]`.
pub open spec fn parse_items(s: Seq<char>, i: int, first: bool) -> Option<(Seq<JsonVal>, int)>
    decreases s.len() - i, 2int,
{
    if i < 0 || i >= s.len() {
        None
    } else if is_ws(s[i]) {
        parse_items(s, i + 1, first)
    } else if s[i] == ']' && first {
        Some((Seq::empty(), i + 1))
    } else {
        match parse_val(s, i) {
            None => None,
            Some((v, j)) => if j <= i || j > s.len() {
                // a parse never stands still; see `lemma_parse_val_advances`
                None
            } else {
                match parse_more(s, j) {
                    None => None,
                    Some((rest, k)) => Some((seq![v] + rest, k)),
                }
            },
        }
    }
}

/// What follows an array item: a `,` and further items, or the closing `]`.
pub open spec fn parse_more(s: Seq<char>, j: int) -> Option<(Seq<JsonVal>, int)>
    decreases s.len() - j, 2int,
{
    if j < 0 || j >= s.len() {
        None
    } else if is_ws(s[j]) {
        parse_more(s, j + 1)
    } else if s[j] == ']' {
        Some((Seq::empty(), j + 1))
    } else if s[j] == ',' {
        parse_items(s, j + 1, false)
    } else {
        None
    }
}

/// The fields of an object, from just after the `{` (when `first`) or just
/// after a `,`; ends just past the closing `}`.
pub open spec fn parse_fields(s: Seq<char>, i: int, first: bool) -> Option<
    (Seq<(Seq<char>, JsonVal)>, int),
>
    decreases s.len() - i, 2int,
{
    if i < 0 || i >= s.len() {
        None
    } else if is_ws(s[i]) {
        parse_fields(s, i + 1, first)
    } else if s[i] == '}' && first {
        Some((Seq::empty(), i + 1))
    } else if s[i] == '"' {
        match find_close(s, i + 1) {
            None => None,
            Some(q) => if q < i + 1 || q >= s.len() {
                // a closing quote never precedes the content; see `lemma_find_close_bounds`
                None
            } else {
                parse_fval(s, q + 1, s.subrange(i + 1, q))
            },
        }
    } else {
        None
    }
}

/// The value of the field named `key`, from just after the key's closing
/// quote, followed by the rest of the object.
pub open spec fn parse_fval(s: Seq<char>, j: int, key: Seq<char>) -> Option<
    (Seq<(Seq<char>, JsonVal)>, int),
>
    decreases s.len() - j, 2int,
{
    if j < 0 || j >= s.len() {
        None
    } else if is_ws(s[j]) {
        parse_fval(s, j + 1, key)
    } else if s[j] == ':' {
        match parse_val(s, j + 1) {
            None => None,
            Some((v, k)) => if k <= j + 1 || k > s.len() {
                // a parse never stands still; see `lemma_parse_val_advances`
                None
            } else {
                match parse_fmore(s, k) {
                    None => None,
                    Some((rest, m)) => Some((seq![(key, v)] + rest, m)),
                }
            },
        }
    } else {
        None
    }
}

/// What follows an object field: a `,` and further fields, or the closing `}`.
pub open spec fn parse_fmore(s: Seq<char>, k: int) -> Option<(Seq<(Seq<char>, JsonVal)>, int)>
    decreases s.len() - k, 2int,
{
    if k < 0 || k >= s.len() {
        None
    } else if is_ws(s[k]) {
        parse_fmore(s, k + 1)
    } else if s[k] == '}' {
        Some((Seq::empty(), k + 1))
    } else if s[k] == ',' {
        parse_fields(s, k + 1, false)
    } else {
        None
    }
}

/// Only whitespace from `i` to the end.
pub open spec fn ws_to_end(s: Seq<char>, i: int) -> bool
    decreases s.len() - i,
{
    if i < 0 {
        false
    } else if i >= s.len() {
        true
    } else {
        is_ws(s[i]) && ws_to_end(s, i + 1)
    }
}

/// What a whole line of text denotes: one document, surrounded by
/// whitespace only, or nothing.
pub open spec fn parse_text_spec(s: Seq<char>) -> Option<JsonVal> {
    match parse_val(s, 0) {
        None => None,
        Some((v, j)) => if ws_to_end(s, j) {
            Some(v)
        } else {
            None
        },
    }
}

fn ws_char(c: char) -> (r: bool)
    ensures
        r == is_ws(c),
{
    c == ' ' || c == '\n' || c == '\t' || c == '\r'
}

fn digit_char(c: char) -> (r: bool)
    ensures
        r == is_digit(c),
{
    let u = c as u32;
    48 <= u && u <= 57
}

fn p_close(s: &str, n: usize, i: usize) -> (r: Option<usize>)
    requires
        n == s@.len(),
        i <= n,
    ensures
        match r {
            Some(q) => find_close(s@, i as int) == Some(q as int) && i <= q < n,
            None => find_close(s@, i as int) is None,
        },
    decreases n - i,
{
    if i == n {
        None
    } else {
        let c = s.get_char(i);
        if c == '"' {
            Some(i)
        } else if c != '\\' && (c as u32) >= 32 {
            p_close(s, n, i + 1)
        } else {
            None
        }
    }
}

fn p_num(s: &str, n: usize, i: usize, acc: u64) -> (r: Option<(JsonValue, usize)>)
    requires
        n == s@.len(),
        i <= n,
    ensures
        match r {
            Some((v, j)) => parse_num(s@, i as int, acc) == Some((v@, j as int)) && j <= n,
            None => parse_num(s@, i as int, acc) is None,
        },
    decreases n - i,
{
    if i < n && digit_char(s.get_char(i)) {
        let d = ((s.get_char(i) as u32) - 48) as u64;
        match acc.checked_mul(10) {
            None => None,
            Some(p) => match p.checked_add(d) {
                None => None,
                Some(a2) => p_num(s, n, i + 1, a2),
            },
        }
    } else {
        Some((JsonValue::Num(acc), i))
    }
}

fn p_val(s: &str, n: usize, i: usize) -> (r: Option<(JsonValue, usize)>)
    requires
        n == s@.len(),
        i <= n,
    ensures
        match r {
            Some((v, j)) => parse_val(s@, i as int) == Some((v@, j as int)) && j <= n,
            None => parse_val(s@, i as int) is None,
        },
    decreases n - i, 1int,
{
    if i == n {
        None
    } else {
        let c = s.get_char(i);
        if ws_char(c) {
            p_val(s, n, i + 1)
        } else if c == 'n' {
            if n - i >= 4 && s.get_char(i + 1) == 'u' && s.get_char(i + 2) == 'l' && s.get_char(
                i + 3,
            ) == 'l' {
                Some((JsonValue::Null, i + 4))
            } else {
                None
            }
        } else if c == 't' {
            if n - i >= 4 && s.get_char(i + 1) == 'r' && s.get_char(i + 2) == 'u' && s.get_char(
                i + 3,
            ) == 'e' {
                Some((JsonValue::Bool(true), i + 4))
            } else {
                None
            }
        } else if c == 'f' {
            if n - i >= 5 && s.get_char(i + 1) == 'a' && s.get_char(i + 2) == 'l' && s.get_char(
                i + 3,
            ) == 's' && s.get_char(i + 4) == 'e' {
                Some((JsonValue::Bool(false), i + 5))
            } else {
                None
            }
        } else if c == '"' {
            match p_close(s, n, i + 1) {
                Some(q) => {
                    let content = s.substring_char(i + 1, q).to_owned();
                    Some((JsonValue::Str(content), q + 1))
                },
                None => None,
            }
        } else if c == '[' {
            match p_items(s, n, i + 1, true) {
                Some((items, j)) => Some((JsonValue::Arr(items), j)),
                None => None,
            }
        } else if c == '{' {
            match p_fields(s, n, i + 1, true) {
                Some((fields, j)) => Some((JsonValue::Obj(fields), j)),
                None => None,
            }
        } else if digit_char(c) {
            p_num(s, n, i, 0)
        } else {
            None
        }
    }
}

fn p_items(s: &str, n: usize, i: usize, first: bool) -> (r: Option<(Vec<JsonValue>, usize)>)
    requires
        n == s@.len(),
        i <= n,
    ensures
        match r {
            Some((items, j)) => parse_items(s@, i as int, first) == Some(
                (views_of_items(items@), j as int),
            ) && j <= n,
            None => parse_items(s@, i as int, first) is None,
        },
    decreases n - i, 2int,
{
    if i == n {
        None
    } else {
        let c = s.get_char(i);
        if ws_char(c) {
            p_items(s, n, i + 1, first)
        } else if c == ']' && first {
            let items: Vec<JsonValue> = Vec::new();
            assert(views_of_items(items@) =~= Seq::<JsonVal>::empty());
            Some((items, i + 1))
        } else {
            match p_val(s, n, i) {
                None => None,
                Some((v, j)) => if j <= i {
                    None
                } else {
                    match p_more(s, n, j) {
                        None => None,
                        Some((rest, k)) => {
                            let ghost rest0 = rest@;
                            let mut items = rest;
                            items.insert(0, v);
                            proof {
                                assert(items@[0] == v);
                                assert(items@.subrange(1, items@.len() as int) =~= rest0);
                                assert(views_of_items(items@) =~= seq![v@] + views_of_items(
                                    rest0,
                                ));
                            }
                            Some((items, k))
                        },
                    }
                },
            }
        }
    }
}

fn p_more(s: &str, n: usize, j: usize) -> (r: Option<(Vec<JsonValue>, usize)>)
    requires
        n == s@.len(),
        j <= n,
    ensures
        match r {
            Some((items, k)) => parse_more(s@, j as int) == Some(
                (views_of_items(items@), k as int),
            ) && k <= n,
            None => parse_more(s@, j as int) is None,
        },
    decreases n - j, 2int,
{
    if j == n {
        None
    } else {
        let c = s.get_char(j);
        if ws_char(c) {
            p_more(s, n, j + 1)
        } else if c == ']' {
            let items: Vec<JsonValue> = Vec::new();
            assert(views_of_items(items@) =~= Seq::<JsonVal>::empty());
            Some((items, j + 1))
        } else if c == ',' {
            p_items(s, n, j + 1, false)
        } else {
            None
        }
    }
}

fn p_fields(s: &str, n: usize, i: usize, first: bool) -> (r: Option<
    (Vec<(String, JsonValue)>, usize),
>)
    requires
        n == s@.len(),
        i <= n,
    ensures
        match r {
            Some((fields, j)) => parse_fields(s@, i as int, first) == Some(
                (views_of_fields(fields@), j as int),
            ) && j <= n,
            None => parse_fields(s@, i as int, first) is None,
        },
    decreases n - i, 2int,
{
    if i == n {
        None
    } else {
        let c = s.get_char(i);
        if ws_char(c) {
            p_fields(s, n, i + 1, first)
        } else if c == '}' && first {
            let fields: Vec<(String, JsonValue)> = Vec::new();
            assert(views_of_fields(fields@) =~= Seq::<(Seq<char>, JsonVal)>::empty());
            Some((fields, i + 1))
        } else if c == '"' {
            match p_close(s, n, i + 1) {
                None => None,
                Some(q) => {
                    let key = s.substring_char(i + 1, q).to_owned();
                    p_fval(s, n, q + 1, key)
                },
            }
        } else {
            None
        }
    }
}

fn p_fval(s: &str, n: usize, j: usize, key: String) -> (r: Option<
    (Vec<(String, JsonValue)>, usize),
>)
    requires
        n == s@.len(),
        j <= n,
    ensures
        match r {
            Some((fields, m)) => parse_fval(s@, j as int, key@) == Some(
                (views_of_fields(fields@), m as int),
            ) && m <= n,
            None => parse_fval(s@, j as int, key@) is None,
        },
    decreases n - j, 2int,
{
    if j == n {
        None
    } else {
        let c = s.get_char(j);
        if ws_char(c) {
            p_fval(s, n, j + 1, key)
        } else if c == ':' {
            match p_val(s, n, j + 1) {
                None => None,
                Some((v, k)) => if k <= j + 1 {
                    None
                } else {
                    match p_fmore(s, n, k) {
                        None => None,
                        Some((rest, m)) => {
                            let ghost rest0 = rest@;
                            let mut fields = rest;
                            fields.insert(0, (key, v));
                            proof {
                                assert(fields@[0] == (key, v));
                                assert(fields@.subrange(1, fields@.len() as int) =~= rest0);
                                assert(views_of_fields(fields@) =~= seq![(key@, v@)]
                                    + views_of_fields(rest0));
                            }
                            Some((fields, m))
                        },
                    }
                },
            }
        } else {
            None
        }
    }
}

fn p_fmore(s: &str, n: usize, k: usize) -> (r: Option<(Vec<(String, JsonValue)>, usize)>)
    requires
        n == s@.len(),
        k <= n,
    ensures
        match r {
            Some((fields, m)) => parse_fmore(s@, k as int) == Some(
                (views_of_fields(fields@), m as int),
            ) && m <= n,
            None => parse_fmore(s@, k as int) is None,
        },
    decreases n - k, 2int,
{
    if k == n {
        None
    } else {
        let c = s.get_char(k);
        if ws_char(c) {
            p_fmore(s, n, k + 1)
        } else if c == '}' {
            let fields: Vec<(String, JsonValue)> = Vec::new();
            assert(views_of_fields(fields@) =~= Seq::<(Seq<char>, JsonVal)>::empty());
            Some((fields, k + 1))
        } else if c == ',' {
            p_fields(s, n, k + 1, false)
        } else {
            None
        }
    }
}

fn p_ws_end(s: &str, n: usize, i: usize) -> (r: bool)
    requires
        n == s@.len(),
        i <= n,
    ensures
        r == ws_to_end(s@, i as int),
    decreases n - i,
{
    if i == n {
        true
    } else if ws_char(s.get_char(i)) {
        p_ws_end(s, n, i + 1)
    } else {
        false
    }
}

/// Reads one JSON document out of a line of text; `None` where the line is
/// not a single document of the forms this crate models.
pub fn parse_text(s: &str) -> (r: Option<JsonValue>)
    ensures
        match r {
            Some(v) => parse_text_spec(s@) == Some(v@),
            None => parse_text_spec(s@) is None,
        },
{
    let n = s.unicode_len();
    match p_val(s, n, 0) {
        None => None,
        Some((v, j)) => if p_ws_end(s, n, j) {
            Some(v)
        } else {
            None
        },
    }
}

pub proof fn lemma_find_close_bounds(s: Seq<char>, i: int)
    ensures
        match find_close(s, i) {
            Some(q) => i <= q < s.len() && wf_string(s.subrange(i, q)) && (forall|k: int|
                i <= k < q ==> s[k] != '"') && s[q] == '"',
            None => true,
        },
    decreases s.len() - i,
{
    if 0 <= i < s.len() {
        if s[i] == '"' {
        } else if wf_char(s[i]) {
            lemma_find_close_bounds(s, i + 1);
            if let Some(q) = find_close(s, i + 1) {
                let inner = s.subrange(i + 1, q);
                let whole = s.subrange(i, q);
                assert forall|k: int| 0 <= k < whole.len() implies wf_char(whole[k]) by {
                    if k > 0 {
                        assert(whole[k] == inner[k - 1]);
                    }
                }
            }
        }
    }
}

pub proof fn lemma_parse_num_bounds(s: Seq<char>, i: int, acc: u64)
    ensures
        match parse_num(s, i, acc) {
            Some((v, j)) => i <= j <= s.len() && wf_val(v) && (i < s.len() && is_digit(s[i])
                ==> j > i),
            None => true,
        },
    decreases s.len() - i,
{
    if 0 <= i <= s.len() {
        if i < s.len() && is_digit(s[i]) {
            let a2 = acc * 10 + digit_val(s[i]);
            if a2 <= u64::MAX {
                lemma_parse_num_bounds(s, i + 1, a2 as u64);
            }
        }
    }
}

/// Every parsed document is well formed, and a successful parse always
/// moves forward and never past the end.
pub proof fn lemma_parse_val_advances(s: Seq<char>, i: int)
    ensures
        match parse_val(s, i) {
            Some((v, j)) => i < j <= s.len() && wf_val(v),
            None => true,
        },
    decreases s.len() - i, 1int,
{
    if 0 <= i < s.len() {
        if is_ws(s[i]) {
            lemma_parse_val_advances(s, i + 1);
        } else if s[i] == '"' {
            lemma_find_close_bounds(s, i + 1);
        } else if s[i] == '[' {
            lemma_parse_items_advances(s, i + 1, true);
        } else if s[i] == '{' {
            lemma_parse_fields_advances(s, i + 1, true);
        } else if is_digit(s[i]) {
            lemma_parse_num_bounds(s, i, 0);
        }
    }
}

pub proof fn lemma_parse_items_advances(s: Seq<char>, i: int, first: bool)
    ensures
        match parse_items(s, i, first) {
            Some((items, j)) => i < j <= s.len() && wf_items(items),
            None => true,
        },
    decreases s.len() - i, 2int,
{
    if 0 <= i < s.len() {
        if is_ws(s[i]) {
            lemma_parse_items_advances(s, i + 1, first);
        } else if s[i] == ']' && first {
        } else {
            lemma_parse_val_advances(s, i);
            if let Some((v, j)) = parse_val(s, i) {
                if i < j <= s.len() {
                    lemma_parse_more_advances(s, j);
                    if let Some((rest, k)) = parse_more(s, j) {
                        let whole = seq![v] + rest;
                        assert(whole[0] == v);
                        assert(whole.subrange(1, whole.len() as int) =~= rest);
                    }
                }
            }
        }
    }
}

pub proof fn lemma_parse_more_advances(s: Seq<char>, j: int)
    ensures
        match parse_more(s, j) {
            Some((rest, k)) => j < k <= s.len() && wf_items(rest),
            None => true,
        },
    decreases s.len() - j, 2int,
{
    if 0 <= j < s.len() {
        if is_ws(s[j]) {
            lemma_parse_more_advances(s, j + 1);
        } else if s[j] == ',' {
            lemma_parse_items_advances(s, j + 1, false);
        }
    }
}

pub proof fn lemma_parse_fields_advances(s: Seq<char>, i: int, first: bool)
    ensures
        match parse_fields(s, i, first) {
            Some((fields, j)) => i < j <= s.len() && wf_fields(fields),
            None => true,
        },
    decreases s.len() - i, 2int,
{
    if 0 <= i < s.len() {
        if is_ws(s[i]) {
            lemma_parse_fields_advances(s, i + 1, first);
        } else if s[i] == '}' && first {
        } else if s[i] == '"' {
            lemma_find_close_bounds(s, i + 1);
            if let Some(q) = find_close(s, i + 1) {
                if i + 1 <= q < s.len() {
                    lemma_parse_fval_advances(s, q + 1, s.subrange(i + 1, q));
                }
            }
        }
    }
}

pub proof fn lemma_parse_fval_advances(s: Seq<char>, j: int, key: Seq<char>)
    requires
        wf_string(key),
    ensures
        match parse_fval(s, j, key) {
            Some((fields, m)) => j < m <= s.len() && wf_fields(fields),
            None => true,
        },
    decreases s.len() - j, 2int,
{
    if 0 <= j < s.len() {
        if is_ws(s[j]) {
            lemma_parse_fval_advances(s, j + 1, key);
        } else if s[j] == ':' {
            lemma_parse_val_advances(s, j + 1);
            if let Some((v, k)) = parse_val(s, j + 1) {
                if j + 1 < k <= s.len() {
                    lemma_parse_fmore_advances(s, k);
                    if let Some((rest, m)) = parse_fmore(s, k) {
                        let whole = seq![(key, v)] + rest;
                        assert(whole[0] == (key, v));
                        assert(whole.subrange(1, whole.len() as int) =~= rest);
                    }
                }
            }
        }
    }
}

pub proof fn lemma_parse_fmore_advances(s: Seq<char>, k: int)
    ensures
        match parse_fmore(s, k) {
            Some((rest, m)) => k < m <= s.len() && wf_fields(rest),
            None => true,
        },
    decreases s.len() - k, 2int,
{
    if 0 <= k < s.len() {
        if is_ws(s[k]) {
            lemma_parse_fmore_advances(s, k + 1);
        } else if s[k] == ',' {
            lemma_parse_fields_advances(s, k + 1, false);
        }
    }
}

/// The value of the first field named `key`, if any.
pub open spec fn obj_get(fields: Seq<(Seq<char>, JsonVal)>, key: Seq<char>) -> Option<JsonVal>
    decreases fields.len(),
{
    if fields.len() == 0 {
        None
    } else if fields[0].0 == key {
        Some(fields[0].1)
    } else {
        obj_get(fields.subrange(1, fields.len() as int), key)
    }
}

/// Looks a field up in an object's field list by name.
pub fn obj_get_ref<'a>(fields: &'a Vec<(String, JsonValue)>, key: &str) -> (r: Option<
    &'a JsonValue,
>)
    ensures
        match r {
            Some(v) => obj_get(views_of_fields(fields@), key@) == Some(v@),
            None => obj_get(views_of_fields(fields@), key@) is None,
        },
{
    proof {
        assert(fields@.skip(0) =~= fields@);
    }
    obj_get_from(fields, key, 0)
}

fn obj_get_from<'a>(fields: &'a Vec<(String, JsonValue)>, key: &str, k: usize) -> (r: Option<
    &'a JsonValue,
>)
    requires
        k <= fields@.len(),
    ensures
        match r {
            Some(v) => obj_get(views_of_fields(fields@.skip(k as int)), key@) == Some(v@),
            None => obj_get(views_of_fields(fields@.skip(k as int)), key@) is None,
        },
    decreases fields@.len() - k,
{
    proof {
        lemma_views_of_fields_len(fields@.skip(k as int));
    }
    if k == fields.len() {
        None
    } else {
        let other = key.to_owned();
        proof {
            let rest = fields@.skip(k as int);
            assert(rest[0] == fields@[k as int]);
            assert(rest.subrange(1, rest.len() as int) =~= fields@.skip(k as int + 1));
            lemma_views_of_fields_index(rest, 0);
            assert(views_of_fields(rest)[0] == (fields@[k as int].0@, view_of(
                fields@[k as int].1,
            )));
            assert(views_of_fields(rest) == seq![(rest[0].0@, view_of(rest[0].1))]
                + views_of_fields(rest.subrange(1, rest.len() as int)));
            assert(views_of_fields(rest).subrange(1, views_of_fields(rest).len() as int)
                =~= views_of_fields(fields@.skip(k as int + 1)));
        }
        if fields[k].0 == other {
            Some(&fields[k].1)
        } else {
            obj_get_from(fields, key, k + 1)
        }
    }
}

pub proof fn lemma_views_of_items_push(items: Seq<JsonValue>, x: JsonValue)
    ensures
        views_of_items(items.push(x)) =~= views_of_items(items).push(view_of(x)),
{
    let whole = items.push(x);
    lemma_views_of_items_len(whole);
    lemma_views_of_items_len(items);
    let a = views_of_items(whole);
    let b = views_of_items(items).push(view_of(x));
    assert forall|i: int| 0 <= i < a.len() implies a[i] == b[i] by {
        lemma_views_of_items_index(whole, i);
        if i < items.len() {
            lemma_views_of_items_index(items, i);
            assert(whole[i] == items[i]);
        } else {
            assert(whole[i] == x);
        }
    }
}

pub proof fn lemma_views_of_fields_push(fields: Seq<(String, JsonValue)>, x: (String, JsonValue))
    ensures
        views_of_fields(fields.push(x)) =~= views_of_fields(fields).push((x.0@, view_of(x.1))),
{
    let whole = fields.push(x);
    lemma_views_of_fields_len(whole);
    lemma_views_of_fields_len(fields);
    let a = views_of_fields(whole);
    let b = views_of_fields(fields).push((x.0@, view_of(x.1)));
    assert forall|i: int| 0 <= i < a.len() implies a[i] == b[i] by {
        lemma_views_of_fields_index(whole, i);
        if i < fields.len() {
            lemma_views_of_fields_index(fields, i);
            assert(whole[i] == fields[i]);
        } else {
            assert(whole[i] == x);
        }
    }
}

impl JsonValue {
    /// A deep copy, denoting the same document.
    pub fn duplicate(&self) -> (r: JsonValue)
        ensures
            r@ == self@,
        decreases *self, 0int, 2int,
    {
        match self {
            JsonValue::Null => JsonValue::Null,
            JsonValue::Bool(b) => JsonValue::Bool(*b),
            JsonValue::Num(n) => JsonValue::Num(*n),
            JsonValue::Str(s) => JsonValue::Str(s.clone()),
            JsonValue::Arr(items) => JsonValue::Arr(dup_items(items)),
            JsonValue::Obj(fields) => JsonValue::Obj(dup_fields(fields)),
        }
    }
}

fn dup_items(items: &Vec<JsonValue>) -> (r: Vec<JsonValue>)
    ensures
        views_of_items(r@) == views_of_items(items@),
    decreases *items, 0int, 1int,
{
    let mut out: Vec<JsonValue> = Vec::new();
    assert(views_of_items(out@) =~= views_of_items(items@.subrange(0, 0)));
    let mut k: usize = 0;
    while k < items.len()
        invariant
            k <= items@.len(),
            views_of_items(out@) == views_of_items(items@.subrange(0, k as int)),
        decreases items@.len() - k,
    {
        let ghost out0 = out@;
        out.push(items[k].duplicate());
        proof {
            lemma_views_of_items_push(out0, out@[out@.len() - 1]);
            let pre = items@.subrange(0, k as int);
            let post = items@.subrange(0, k as int + 1);
            assert(post =~= pre.push(items@[k as int]));
            lemma_views_of_items_push(pre, items@[k as int]);
            assert(views_of_items(out@) =~= views_of_items(post));
        }
        k += 1;
    }
    proof {
        assert(items@.subrange(0, items@.len() as int) =~= items@);
    }
    out
}

fn dup_fields(fields: &Vec<(String, JsonValue)>) -> (r: Vec<(String, JsonValue)>)
    ensures
        views_of_fields(r@) == views_of_fields(fields@),
    decreases *fields, 0int, 1int,
{
    let mut out: Vec<(String, JsonValue)> = Vec::new();
    assert(views_of_fields(out@) =~= views_of_fields(fields@.subrange(0, 0)));
    let mut k: usize = 0;
    while k < fields.len()
        invariant
            k <= fields@.len(),
            views_of_fields(out@) == views_of_fields(fields@.subrange(0, k as int)),
        decreases fields@.len() - k,
    {
        let ghost out0 = out@;
        out.push((fields[k].0.clone(), fields[k].1.duplicate()));
        proof {
            lemma_views_of_fields_push(out0, out@[out@.len() - 1]);
            let pre = fields@.subrange(0, k as int);
            let post = fields@.subrange(0, k as int + 1);
            assert(post =~= pre.push(fields@[k as int]));
            lemma_views_of_fields_push(pre, fields@[k as int]);
            assert(views_of_fields(out@) =~= views_of_fields(post));
        }
        k += 1;
    }
    proof {
        assert(fields@.subrange(0, fields@.len() as int) =~= fields@);
    }
    out
}

/// Extending a field list by one entry changes lookups only for its name,
/// and only where the name was absent.
pub proof fn lemma_obj_get_snoc(fields: Seq<(Seq<char>, JsonVal)>, p: (Seq<char>, JsonVal))
    ensures
        forall|k: Seq<char>|
            #![trigger obj_get(fields.push(p), k)]
            obj_get(fields.push(p), k) == (match obj_get(fields, k) {
                Some(v) => Some(v),
                None => if p.0 == k {
                    Some(p.1)
                } else {
                    None
                },
            }),
    decreases fields.len(),
{
    let whole = fields.push(p);
    if fields.len() == 0 {
        assert(whole[0] == p);
        assert(whole.subrange(1, whole.len() as int) =~= Seq::<(Seq<char>, JsonVal)>::empty());
        assert forall|k: Seq<char>|
            #![trigger obj_get(whole, k)]
            obj_get(whole, k) == (match obj_get(fields, k) {
                Some(v) => Some(v),
                None => if p.0 == k {
                    Some(p.1)
                } else {
                    None
                },
            }) by {
            if p.0 != k {
                assert(obj_get(whole, k) == obj_get(
                    whole.subrange(1, whole.len() as int),
                    k,
                ));
            }
        }
    } else {
        assert(whole[0] == fields[0]);
        assert(whole.subrange(1, whole.len() as int) =~= fields.subrange(
            1,
            fields.len() as int,
        ).push(p));
        lemma_obj_get_snoc(fields.subrange(1, fields.len() as int), p);
        assert forall|k: Seq<char>|
            #![trigger obj_get(whole, k)]
            obj_get(whole, k) == (match obj_get(fields, k) {
                Some(v) => Some(v),
                None => if p.0 == k {
                    Some(p.1)
                } else {
                    None
                },
            }) by {
            if fields[0].0 != k {
                assert(obj_get(whole, k) == obj_get(
                    whole.subrange(1, whole.len() as int),
                    k,
                ));
                assert(obj_get(whole.subrange(1, whole.len() as int), k) == obj_get(
                    fields.subrange(1, fields.len() as int).push(p),
                    k,
                ));
                assert(obj_get(fields, k) == obj_get(
                    fields.subrange(1, fields.len() as int),
                    k,
                ));
            }
        }
    }
}

/// A lookup in joined field lists reads the left list first.
pub proof fn lemma_obj_get_concat(
    a: Seq<(Seq<char>, JsonVal)>,
    b: Seq<(Seq<char>, JsonVal)>,
    k: Seq<char>,
)
    ensures
        obj_get(a + b, k) == (match obj_get(a, k) {
            Some(v) => Some(v),
            None => obj_get(b, k),
        }),
    decreases a.len(),
{
    let whole = a + b;
    if a.len() == 0 {
        assert(whole =~= b);
    } else {
        assert(whole[0] == a[0]);
        assert(whole.subrange(1, whole.len() as int) =~= a.subrange(1, a.len() as int) + b);
        lemma_obj_get_concat(a.subrange(1, a.len() as int), b, k);
    }
}

/// A found field is one of the fields.
pub proof fn lemma_obj_get_is_entry(fields: Seq<(Seq<char>, JsonVal)>, k: Seq<char>)
    ensures
        match obj_get(fields, k) {
            Some(v) => exists|i: int|
                0 <= i < fields.len() && #[trigger] fields[i].0 == k && fields[i].1 == v,
            None => true,
        },
    decreases fields.len(),
{
    if fields.len() > 0 {
        if fields[0].0 == k {
        } else {
            let f1 = fields.subrange(1, fields.len() as int);
            lemma_obj_get_is_entry(f1, k);
            match obj_get(f1, k) {
                Some(v) => {
                    let i = choose|i: int|
                        0 <= i < f1.len() && #[trigger] f1[i].0 == k && f1[i].1 == v;
                    assert(fields[i + 1] == f1[i]);
                },
                None => {},
            }
        }
    }
}

/// A field of a well-formed object is well formed.
pub proof fn lemma_wf_obj_get(fields: Seq<(Seq<char>, JsonVal)>, k: Seq<char>)
    requires
        wf_fields(fields),
    ensures
        match obj_get(fields, k) {
            Some(v) => wf_val(v),
            None => true,
        },
    decreases fields.len(),
{
    if fields.len() > 0 && fields[0].0 != k {
        lemma_wf_obj_get(fields.subrange(1, fields.len() as int), k);
    }
}

pub proof fn lemma_wf_items_all(items: Seq<JsonVal>)
    requires
        forall|i: int| 0 <= i < items.len() ==> wf_val(#[trigger] items[i]),
    ensures
        wf_items(items),
    decreases items.len(),
{
    if items.len() > 0 {
        let rest = items.subrange(1, items.len() as int);
        assert forall|i: int| 0 <= i < rest.len() implies wf_val(#[trigger] rest[i]) by {
            assert(rest[i] == items[i + 1]);
        }
        lemma_wf_items_all(rest);
    }
}

pub proof fn lemma_wf_fields_all(fields: Seq<(Seq<char>, JsonVal)>)
    requires
        forall|i: int|
            0 <= i < fields.len() ==> wf_string(#[trigger] fields[i].0) && wf_val(fields[i].1),
    ensures
        wf_fields(fields),
    decreases fields.len(),
{
    if fields.len() > 0 {
        let rest = fields.subrange(1, fields.len() as int);
        assert forall|i: int|
            0 <= i < rest.len() implies wf_string(#[trigger] rest[i].0) && wf_val(rest[i].1) by {
            assert(rest[i] == fields[i + 1]);
        }
        lemma_wf_fields_all(rest);
        assert(wf_string(fields[0].0) && wf_val(fields[0].1));
    }
}

/// `t` stands letter for letter at position `i` of `s`.
pub open spec fn text_at(s: Seq<char>, i: int, t: Seq<char>) -> bool {
    &&& 0 <= i
    &&& i + t.len() <= s.len()
    &&& forall|k: int| 0 <= k < t.len() ==> s[i + k] == t[k]
}

pub proof fn lemma_text_at_concat(s: Seq<char>, i: int, a: Seq<char>, b: Seq<char>)
    requires
        text_at(s, i, a + b),
    ensures
        text_at(s, i, a),
        text_at(s, i + a.len(), b),
{
    assert forall|k: int| 0 <= k < a.len() implies s[i + k] == a[k] by {
        assert((a + b)[k] == a[k]);
    }
    assert forall|k: int| 0 <= k < b.len() implies s[i + a.len() + k] == b[k] by {
        assert((a + b)[a.len() + k] == b[k]);
    }
}

/// Every digit of a number's decimal form is a digit character, and there
/// is at least one.
pub proof fn lemma_dec_digits_digits(n: int)
    requires
        n >= 0,
    ensures
        dec_digits(n).len() >= 1,
        forall|k: int| 0 <= k < dec_digits(n).len() ==> is_digit(#[trigger] dec_digits(n)[k]),
    decreases n,
{
    if n < 10 {
        assert(is_digit(char_of_digit(n % 10)));
    } else {
        lemma_dec_digits_digits(n / 10);
        let pre = dec_digits(n / 10);
        assert(is_digit(char_of_digit(n % 10)));
        assert forall|k: int| 0 <= k < dec_digits(n).len() implies is_digit(
            #[trigger] dec_digits(n)[k],
        ) by {
            if k < pre.len() {
                assert(dec_digits(n)[k] == pre[k]);
            } else {
                assert(dec_digits(n)[k] == char_of_digit(n % 10));
            }
        }
    }
}

/// The canonical text of a document is never empty, and its first
/// character tells the parser which branch to take: it is not whitespace
/// and none of the delimiters.
pub proof fn lemma_encode_first(v: JsonVal)
    ensures
        encode(v).len() >= 1,
        !is_ws(encode(v)[0]),
        encode(v)[0] != ']',
        encode(v)[0] != '}',
        encode(v)[0] != ',',
        encode(v)[0] != ':',
        encode(v)[0] != '"' || v is Str,
{
    match v {
        JsonVal::Num(n) => {
            lemma_dec_digits_digits(n as int);
            assert(encode(v)[0] == dec_digits(n as int)[0]);
        },
        JsonVal::Str(s) => {
            assert(encode(v)[0] == '"');
        },
        JsonVal::Arr(items) => {
            assert(encode(v)[0] == '[');
        },
        JsonVal::Obj(fields) => {
            assert(encode(v)[0] == '{');
        },
        _ => {},
    }
}

/// Scanning from `i` finds the closing quote at `j` when everything in
/// between needs no escape and `j` holds one.
proof fn lemma_find_close_run(s: Seq<char>, i: int, j: int)
    requires
        0 <= i <= j < s.len(),
        forall|t: int| i <= t < j ==> wf_char(#[trigger] s[t]),
        s[j] == '"',
    ensures
        find_close(s, i) == Some(j),
    decreases j - i,
{
    if i < j {
        assert(wf_char(s[i]));
        lemma_find_close_run(s, i + 1, j);
    }
}

spec fn pow10(k: nat) -> int
    decreases k,
{
    if k == 0 {
        1
    } else {
        10 * pow10((k - 1) as nat)
    }
}

proof fn lemma_pow10_pos(k: nat)
    ensures
        pow10(k) >= 1,
    decreases k,
{
    if k > 0 {
        lemma_pow10_pos((k - 1) as nat);
    }
}

/// Reading the decimal digits of `n` continues a running value `acc` into
/// `acc * 10^|digits| + n`, never overflowing on the way when the end
/// value fits.
proof fn lemma_parse_num_run(n: u64, s: Seq<char>, i: int, acc: u64)
    requires
        text_at(s, i, dec_digits(n as int)),
        acc * pow10(dec_digits(n as int).len()) + n <= u64::MAX,
    ensures
        parse_num(s, i, acc) == parse_num(
            s,
            i + dec_digits(n as int).len(),
            (acc * pow10(dec_digits(n as int).len()) + n) as u64,
        ),
    decreases n,
{
    let digits = dec_digits(n as int);
    let l = digits.len();
    lemma_dec_digits_digits(n as int);
    lemma_pow10_pos(l as nat);
    if n < 10 {
        assert(l == 1);
        assert(pow10(0) == 1);
        assert(pow10(1) == 10);
        assert(digits[0] == char_of_digit(n as int % 10));
        assert(s[i + 0] == digits[0]);
        assert(is_digit(s[i]));
        assert(digit_val(s[i]) == n as int);
        assert(acc * 10 + n <= u64::MAX);
        assert(parse_num(s, i, acc) == parse_num(s, i + 1, (acc * 10 + n) as u64));
    } else {
        let q = n / 10;
        let m = n % 10;
        assert(n == 10 * q + m && m < 10 && q >= 1);
        let pre = dec_digits(q as int);
        let l1 = pre.len();
        let last = seq![char_of_digit(m as int)];
        assert(digits == pre + last);
        lemma_text_at_concat(s, i, pre, last);
        assert(pow10(l) == 10 * pow10(l1));
        let mid = acc * pow10(l1) + q;
        assert(mid * 10 + m == acc * pow10(l) + n) by (nonlinear_arith)
            requires
                pow10(l) == 10 * pow10(l1),
                mid == acc * pow10(l1) + q,
                n == 10 * q + m,
        {}
        assert(mid >= 0) by (nonlinear_arith)
            requires
                pow10(l1) >= 1,
                acc >= 0,
                q >= 1,
                mid == acc * pow10(l1) + q,
        {}
        assert(mid <= u64::MAX) by (nonlinear_arith)
            requires
                mid >= 0,
                m >= 0,
                mid * 10 + m <= u64::MAX,
        {}
        lemma_parse_num_run(q, s, i, acc);
        assert(last[0] == char_of_digit(m as int));
        assert(s[i + l1 + 0] == last[0]);
        assert(is_digit(s[i + l1]));
        assert(digit_val(s[i + l1]) == m as int);
        assert(parse_num(s, i + l1, mid as u64) == parse_num(
            s,
            i + l1 + 1,
            (mid * 10 + m) as u64,
        ));
    }
}

/// The items' text read from the front: the first item, then a comma and
/// the rest.
proof fn lemma_encode_items_front(items: Seq<JsonVal>)
    requires
        items.len() >= 1,
    ensures
        encode_items(items) == (if items.len() == 1 {
            encode(items[0])
        } else {
            encode(items[0]) + seq![','] + encode_items(items.subrange(1, items.len() as int))
        }),
    decreases items.len(),
{
    if items.len() > 1 {
        let pre = items.subrange(0, items.len() - 1);
        let tail = items.subrange(1, items.len() as int);
        lemma_encode_items_front(pre);
        assert(pre[0] == items[0]);
        if items.len() == 2 {
            assert(tail[0] == items[1]);
            assert(encode_items(tail) == encode(tail[0]));
            assert(encode_items(items) =~= encode(items[0]) + seq![','] + encode_items(tail));
        } else {
            assert(tail.subrange(0, tail.len() - 1) =~= pre.subrange(1, pre.len() as int));
            assert(tail[tail.len() - 1] == items[items.len() - 1]);
            assert(encode_items(tail) == encode_items(tail.subrange(0, tail.len() - 1))
                + seq![','] + encode(tail[tail.len() - 1]));
            assert(encode_items(items) =~= encode(items[0]) + seq![','] + encode_items(tail));
        }
    }
}

/// The fields' text read from the front: the first field, then a comma and
/// the rest.
proof fn lemma_encode_fields_front(fields: Seq<(Seq<char>, JsonVal)>)
    requires
        fields.len() >= 1,
    ensures
        encode_fields(fields) == (if fields.len() == 1 {
            encode_field(fields[0])
        } else {
            encode_field(fields[0]) + seq![','] + encode_fields(
                fields.subrange(1, fields.len() as int),
            )
        }),
    decreases fields.len(),
{
    if fields.len() > 1 {
        let pre = fields.subrange(0, fields.len() - 1);
        let tail = fields.subrange(1, fields.len() as int);
        lemma_encode_fields_front(pre);
        assert(pre[0] == fields[0]);
        if fields.len() == 2 {
            assert(tail[0] == fields[1]);
            assert(encode_fields(tail) == encode_field(tail[0]));
            assert(encode_fields(fields) =~= encode_field(fields[0]) + seq![',']
                + encode_fields(tail));
        } else {
            assert(tail.subrange(0, tail.len() - 1) =~= pre.subrange(1, pre.len() as int));
            assert(tail[tail.len() - 1] == fields[fields.len() - 1]);
            assert(encode_fields(tail) == encode_fields(tail.subrange(0, tail.len() - 1))
                + seq![','] + encode_field(tail[tail.len() - 1]));
            assert(encode_fields(fields) =~= encode_field(fields[0]) + seq![',']
                + encode_fields(tail));
        }
    }
}

/// The canonical text of a well-formed document parses back to exactly
/// that document, wherever it stands, as long as a number is not followed
/// immediately by another digit.
pub proof fn lemma_parse_encode(v: JsonVal, s: Seq<char>, i: int)
    requires
        wf_val(v),
        text_at(s, i, encode(v)),
        i + encode(v).len() == s.len() || !is_digit(s[i + encode(v).len()]),
    ensures
        parse_val(s, i) == Some((v, i + encode(v).len())),
    decreases v, 0int,
{
    let e = encode(v);
    lemma_encode_first(v);
    assert(s[i + 0] == e[0]);
    match v {
        JsonVal::Null => {
            assert(e[1] == 'u' && e[2] == 'l' && e[3] == 'l');
            assert(s[i + 1] == e[1] && s[i + 2] == e[2] && s[i + 3] == e[3]);
        },
        JsonVal::Bool(b) => {
            if b {
                assert(e[1] == 'r' && e[2] == 'u' && e[3] == 'e');
                assert(s[i + 1] == e[1] && s[i + 2] == e[2] && s[i + 3] == e[3]);
            } else {
                assert(e[1] == 'a' && e[2] == 'l' && e[3] == 's' && e[4] == 'e');
                assert(s[i + 1] == e[1] && s[i + 2] == e[2] && s[i + 3] == e[3] && s[i + 4]
                    == e[4]);
            }
        },
        JsonVal::Num(n) => {
            lemma_dec_digits_digits(n as int);
            assert(is_digit(s[i]));
            lemma_pow10_pos(e.len() as nat);
            assert(0 * pow10(e.len() as nat) + n <= u64::MAX) by (nonlinear_arith)
                requires
                    n <= u64::MAX,
            {}
            lemma_parse_num_run(n, s, i, 0);
            assert(0 * pow10(e.len() as nat) + n == n) by (nonlinear_arith) {}
            assert(parse_num(s, i, 0) == parse_num(s, i + e.len(), n));
        },
        JsonVal::Str(ss) => {
            let q = i + 1 + ss.len();
            assert forall|t: int| i + 1 <= t < q implies wf_char(#[trigger] s[t]) by {
                assert(e[1 + (t - i - 1)] == ss[t - i - 1]);
                assert(s[i + (1 + (t - i - 1))] == e[1 + (t - i - 1)]);
            }
            assert(e[1 + ss.len() as int] == '"');
            assert(s[i + (1 + ss.len() as int)] == e[1 + ss.len() as int]);
            lemma_find_close_run(s, i + 1, q);
            assert(s.subrange(i + 1, q) =~= ss) by {
                assert forall|k: int| 0 <= k < ss.len() implies s.subrange(i + 1, q)[k]
                    == ss[k] by {
                    assert(e[1 + k] == ss[k]);
                    assert(s[i + (1 + k)] == e[1 + k]);
                }
            }
        },
        JsonVal::Arr(items) => {
            let inner = encode_items(items) + seq![']'];
            assert(e =~= seq!['['] + inner);
            lemma_text_at_concat(s, i, seq!['['], inner);
            lemma_parse_items_encode(items, s, i + 1, true);
        },
        JsonVal::Obj(fields) => {
            let inner = encode_fields(fields) + seq!['}'];
            assert(e =~= seq!['{'] + inner);
            lemma_text_at_concat(s, i, seq!['{'], inner);
            lemma_parse_fields_encode(fields, s, i + 1, true);
        },
    }
}

proof fn lemma_parse_items_encode(items: Seq<JsonVal>, s: Seq<char>, i: int, first: bool)
    requires
        wf_items(items),
        first || items.len() >= 1,
        text_at(s, i, encode_items(items) + seq![']']),
    ensures
        parse_items(s, i, first) == Some((items, i + encode_items(items).len() + 1)),
    decreases items, 1int,
{
    let whole = encode_items(items) + seq![']'];
    if items.len() == 0 {
        assert(whole =~= seq![']']);
        assert(whole[0] == ']');
        assert(s[i + 0] == whole[0]);
    } else {
        lemma_encode_items_front(items);
        let head = items[0];
        let tail = items.subrange(1, items.len() as int);
        let e0 = encode(head);
        lemma_encode_first(head);
        let rest = if items.len() == 1 {
            seq![']']
        } else {
            seq![','] + (encode_items(tail) + seq![']'])
        };
        assert(whole =~= e0 + rest);
        lemma_text_at_concat(s, i, e0, rest);
        let j = i + e0.len();
        assert(s[i + 0] == e0[0]);
        assert(rest[0] == (if items.len() == 1 {
            ']'
        } else {
            ','
        }));
        assert(s[j + 0] == rest[0]);
        assert(wf_val(head));
        lemma_parse_encode(head, s, i);
        assert(parse_val(s, i) == Some((head, j)));
        if items.len() == 1 {
            assert(parse_more(s, j) == Some((Seq::<JsonVal>::empty(), j + 1)));
            assert(seq![head] + Seq::<JsonVal>::empty() =~= items);
        } else {
            lemma_text_at_concat(s, j, seq![','], encode_items(tail) + seq![']']);
            lemma_parse_items_encode(tail, s, j + 1, false);
            assert(parse_more(s, j) == parse_items(s, j + 1, false));
            assert(seq![head] + tail =~= items);
        }
    }
}

proof fn lemma_parse_fields_encode(
    fields: Seq<(Seq<char>, JsonVal)>,
    s: Seq<char>,
    i: int,
    first: bool,
)
    requires
        wf_fields(fields),
        first || fields.len() >= 1,
        text_at(s, i, encode_fields(fields) + seq!['}']),
    ensures
        parse_fields(s, i, first) == Some((fields, i + encode_fields(fields).len() + 1)),
    decreases fields, 1int,
{
    let whole = encode_fields(fields) + seq!['}'];
    if fields.len() == 0 {
        assert(whole =~= seq!['}']);
        assert(whole[0] == '}');
        assert(s[i + 0] == whole[0]);
    } else {
        lemma_encode_fields_front(fields);
        let head = fields[0];
        let tail = fields.subrange(1, fields.len() as int);
        let key = head.0;
        let ef = encode_field(head);
        let rest = if fields.len() == 1 {
            seq!['}']
        } else {
            seq![','] + (encode_fields(tail) + seq!['}'])
        };
        assert(whole =~= ef + rest);
        lemma_text_at_concat(s, i, ef, rest);
        let j = i + ef.len();
        assert(ef =~= seq!['"'] + (key + (seq!['"', ':'] + encode(head.1))));
        lemma_text_at_concat(s, i, seq!['"'], key + (seq!['"', ':'] + encode(head.1)));
        lemma_text_at_concat(s, i + 1, key, seq!['"', ':'] + encode(head.1));
        lemma_text_at_concat(s, i + 1 + key.len(), seq!['"', ':'], encode(head.1));
        assert((seq!['"'])[0] == '"');
        assert(s[i + 0] == '"') by {
            assert(ef[0] == '"');
        }
        let q = i + 1 + key.len();
        assert(wf_string(key) && wf_val(head.1));
        assert forall|t: int| i + 1 <= t < q implies wf_char(#[trigger] s[t]) by {
            assert(s[i + 1 + (t - i - 1)] == key[t - i - 1]);
        }
        assert((seq!['"', ':'])[0] == '"' && (seq!['"', ':'])[1] == ':');
        assert(s[q + 0] == '"' && s[q + 1] == ':');
        lemma_find_close_run(s, i + 1, q);
        assert(s.subrange(i + 1, q) =~= key) by {
            assert forall|k: int| 0 <= k < key.len() implies s.subrange(i + 1, q)[k]
                == key[k] by {
                assert(s[i + 1 + k] == key[k]);
            }
        }
        let ev = encode(head.1);
        lemma_encode_first(head.1);
        let vstart = q + 2;
        assert(rest[0] == (if fields.len() == 1 {
            '}'
        } else {
            ','
        }));
        assert(s[j + 0] == rest[0]);
        assert(j == vstart + ev.len());
        lemma_parse_encode(head.1, s, vstart);
        assert(parse_val(s, vstart) == Some((head.1, j)));
        assert(parse_fval(s, q + 1, key) == (match parse_fmore(s, j) {
            None => None,
            Some((r, m)) => Some((seq![(key, head.1)] + r, m)),
        }));
        if fields.len() == 1 {
            assert(parse_fmore(s, j) == Some((Seq::<(Seq<char>, JsonVal)>::empty(), j + 1)));
            assert(seq![(key, head.1)] + Seq::<(Seq<char>, JsonVal)>::empty() =~= fields);
        } else {
            lemma_text_at_concat(s, j, seq![','], encode_fields(tail) + seq!['}']);
            lemma_parse_fields_encode(tail, s, j + 1, false);
            assert(parse_fmore(s, j) == parse_fields(s, j + 1, false));
            assert(seq![(key, head.1)] + tail =~= fields);
        }
    }
}

/// Decoding inverts encoding: the canonical text of any well-formed
/// document reads back as exactly that document.
pub proof fn lemma_round_trip(v: JsonVal)
    requires
        wf_val(v),
    ensures
        parse_text_spec(encode(v)) == Some(v),
{
    let s = encode(v);
    lemma_encode_first(v);
    assert(text_at(s, 0, s));
    lemma_parse_encode(v, s, 0);
    assert(ws_to_end(s, s.len() as int));
}

/// A line parses only to a well-formed document.
pub proof fn lemma_parse_text_wf(s: Seq<char>)
    ensures
        match parse_text_spec(s) {
            Some(v) => wf_val(v),
            None => true,
        },
{
    lemma_parse_val_advances(s, 0);
}

} // verus!
