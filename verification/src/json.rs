//! Minimal JSON reader for the one object the agent pipes in on stdin.
//!
//! Deliberately not a general-purpose parser: it accepts the JSON subset that
//! appears in the hook payload and is lenient about the rest (text after the
//! first value is ignored), because a malformed field must degrade to a missing
//! segment, never to a panic.
//!
//! Numbers are kept as the text they were written with; whoever needs the
//! numeric value converts that text.
use vstd::prelude::*;
use crate::text::{
    char_from_u32, chars_equal, chars_of, copy_range, digit_end, digit_end_at, is_ascii_digit, is_scalar_value,
    string_of,
};

verus! {

/// A parsed JSON value. Objects hold each key once, in increasing key order
/// (`well_formed`, which `parse` ensures).
#[derive(Debug, PartialEq)]
pub enum Json {
    Null,
    Bool(bool),
    /// The number as written, e.g. `42`, `-1.5e3`.
    Num(String),
    Str(String),
    Arr(Vec<Json>),
    Obj(Vec<(String, Json)>),
}

/// What a `Json` denotes.
pub enum Value {
    Null,
    Bool(bool),
    Num(Seq<char>),
    Str(Seq<char>),
    Arr(Seq<Value>),
    Obj(Seq<(Seq<char>, Value)>),
}

impl Json {
    pub open spec fn model(self) -> Value
        decreases self,
    {
        match self {
            Json::Null => Value::Null,
            Json::Bool(b) => Value::Bool(b),
            Json::Num(n) => Value::Num(n@),
            Json::Str(s) => Value::Str(s@),
            Json::Arr(items) => Value::Arr(item_models(items@)),
            Json::Obj(entries) => Value::Obj(entry_models(entries@)),
        }
    }
}

/// The values of a sequence of items.
pub open spec fn item_models(s: Seq<Json>) -> Seq<Value>
    decreases s,
{
    if s.len() == 0 {
        Seq::empty()
    } else {
        item_models(s.subrange(0, s.len() - 1)).push(s[s.len() - 1].model())
    }
}

/// The keys and values of a sequence of object entries.
pub open spec fn entry_models(s: Seq<(String, Json)>) -> Seq<(Seq<char>, Value)>
    decreases s,
{
    if s.len() == 0 {
        Seq::empty()
    } else {
        entry_models(s.subrange(0, s.len() - 1)).push((s[s.len() - 1].0@, s[s.len() - 1].1.model()))
    }
}

impl View for Json {
    type V = Value;

    open spec fn view(&self) -> Value {
        self.model()
    }
}

// ---------------------------------------------------------------------------
// The grammar, as functions from a character position to what is read there
// and where reading stops.
// ---------------------------------------------------------------------------

pub open spec fn json_space(c: char) -> bool {
    c == ' ' || c == '\t' || c == '\n' || c == '\r'
}

/// Position of the first non-JSON-whitespace character at or after `i`.
pub open spec fn skip_ws(s: Seq<char>, i: int) -> int
    decreases s.len() - i,
{
    if 0 <= i < s.len() && json_space(s[i]) {
        skip_ws(s, i + 1)
    } else {
        i
    }
}

/// `s[i..]` starts with `want`.
pub open spec fn lit_at(s: Seq<char>, i: int, want: Seq<char>) -> bool {
    0 <= i && i + want.len() <= s.len() && s.subrange(i, i + want.len()) == want
}

/// Value of a hexadecimal digit, -1 for any other character.
pub open spec fn hex_digit(c: char) -> int {
    if '0' <= c <= '9' {
        c as int - '0' as int
    } else if 'a' <= c <= 'f' {
        c as int - 'a' as int + 10
    } else if 'A' <= c <= 'F' {
        c as int - 'A' as int + 10
    } else {
        -1
    }
}

/// The four characters after `\u`, read as `u32::from_str_radix(_, 16)`
/// reads them: four hex digits, or `+` and three hex digits.
pub open spec fn hex4(s: Seq<char>, i: int) -> Option<u32> {
    if !(0 <= i && i + 4 <= s.len()) {
        None
    } else if hex_digit(s[i]) >= 0 && hex_digit(s[i + 1]) >= 0 && hex_digit(s[i + 2]) >= 0
        && hex_digit(s[i + 3]) >= 0 {
        Some(
            (hex_digit(s[i]) * 4096 + hex_digit(s[i + 1]) * 256 + hex_digit(s[i + 2]) * 16
                + hex_digit(s[i + 3])) as u32,
        )
    } else if s[i] == '+' && hex_digit(s[i + 1]) >= 0 && hex_digit(s[i + 2]) >= 0 && hex_digit(
        s[i + 3],
    ) >= 0 {
        Some((hex_digit(s[i + 1]) * 256 + hex_digit(s[i + 2]) * 16 + hex_digit(s[i + 3])) as u32)
    } else {
        None
    }
}

/// The character a single-letter escape `\e` stands for.
pub open spec fn simple_escape(e: char) -> Option<char> {
    if e == '"' {
        Some('"')
    } else if e == '\\' {
        Some('\\')
    } else if e == '/' {
        Some('/')
    } else if e == 'b' {
        Some('\u{8}')
    } else if e == 'f' {
        Some('\u{c}')
    } else if e == 'n' {
        Some('\n')
    } else if e == 'r' {
        Some('\r')
    } else if e == 't' {
        Some('\t')
    } else {
        None
    }
}

/// The character that a surrogate pair encodes.
pub open spec fn pair_char(hi: u32, lo: u32) -> char {
    (0x10000 + (hi - 0xd800) * 1024 + (lo - 0xdc00)) as char
}

/// The character for a lone `\uXXXX`: itself, or U+FFFD for a surrogate.
pub open spec fn unit_char(cp: u32) -> char {
    if is_scalar_value(cp as int) {
        cp as char
    } else {
        '\u{fffd}'
    }
}

/// Read the rest of a string literal from `i` (just after the opening quote),
/// having read `acc` so far: the text and the position after the closing
/// quote. `\uD8xx` followed by a second `\u` escape reads both: a low
/// surrogate completes the pair, anything else gives U+FFFD.
pub open spec fn string_body(s: Seq<char>, i: int, acc: Seq<char>) -> Option<(Seq<char>, int)>
    decreases s.len() - i,
{
    if i < 0 || i >= s.len() {
        None
    } else if s[i] == '"' {
        Some((acc, i + 1))
    } else if s[i] != '\\' {
        string_body(s, i + 1, acc.push(s[i]))
    } else if i + 1 >= s.len() {
        None
    } else if s[i + 1] == 'u' {
        match hex4(s, i + 2) {
            None => None,
            Some(cp) => {
                let j = i + 6;
                if 0xd800 <= cp < 0xdc00 && j + 1 < s.len() && s[j] == '\\' && s[j + 1] == 'u' {
                    match hex4(s, j + 2) {
                        None => None,
                        Some(lo) => if 0xdc00 <= lo < 0xe000 {
                            string_body(s, j + 6, acc.push(pair_char(cp, lo)))
                        } else {
                            string_body(s, j + 6, acc.push('\u{fffd}'))
                        },
                    }
                } else {
                    string_body(s, j, acc.push(unit_char(cp)))
                }
            },
        }
    } else {
        match simple_escape(s[i + 1]) {
            Some(c) => string_body(s, i + 2, acc.push(c)),
            None => None,
        }
    }
}

/// A string literal starting at `i`.
pub open spec fn parse_string(s: Seq<char>, i: int) -> Option<(Seq<char>, int)> {
    if 0 <= i < s.len() && s[i] == '"' {
        string_body(s, i + 1, Seq::empty())
    } else {
        None
    }
}

/// Characters that may appear in a number's text.
pub open spec fn num_char(c: char) -> bool {
    is_ascii_digit(c) || c == '.' || c == 'e' || c == 'E' || c == '+' || c == '-'
}

/// End of the run of number characters from `i`.
pub open spec fn num_end(s: Seq<char>, i: int) -> int
    decreases s.len() - i,
{
    if 0 <= i < s.len() && num_char(s[i]) {
        num_end(s, i + 1)
    } else {
        i
    }
}

/// The text `f64::from_str` accepts, restricted to the characters of
/// `num_char`: an optional sign, digits with at most one `.` and at least one
/// digit, then optionally `e` or `E`, an optional sign and at least one digit.
pub open spec fn float_syntax(t: Seq<char>) -> bool {
    let a: int = if t.len() > 0 && (t[0] == '+' || t[0] == '-') {
        1
    } else {
        0
    };
    let b = digit_end(t, a);
    let c: int = if b < t.len() && t[b] == '.' {
        b + 1
    } else {
        b
    };
    let d = digit_end(t, c);
    if (b - a) + (d - c) == 0 {
        false
    } else if d == t.len() {
        true
    } else if t[d] == 'e' || t[d] == 'E' {
        let f: int = if d + 1 < t.len() && (t[d + 1] == '+' || t[d + 1] == '-') {
            d + 2
        } else {
            d + 1
        };
        let g = digit_end(t, f);
        g > f && g == t.len()
    } else {
        false
    }
}

/// A number at `i`: the run of number characters, if it is valid number text.
pub open spec fn parse_number(s: Seq<char>, i: int) -> Option<(Value, int)> {
    let e = num_end(s, i);
    if 0 <= i && float_syntax(s.subrange(i, e)) {
        Some((Value::Num(s.subrange(i, e)), e))
    } else {
        None
    }
}

/// Order of object keys: by character code, shorter first on a common prefix
/// (the order of `String`, since UTF-8 keeps code point order).
pub open spec fn key_lt(a: Seq<char>, b: Seq<char>) -> bool
    decreases a.len(),
{
    if a.len() == 0 {
        b.len() > 0
    } else if b.len() == 0 {
        false
    } else if a[0] != b[0] {
        (a[0] as int) < (b[0] as int)
    } else {
        key_lt(a.drop_first(), b.drop_first())
    }
}

/// Put `(k, v)` into the entries: in place of the entry with key `k` if there
/// is one, else before the first larger key.
pub open spec fn obj_insert(e: Seq<(Seq<char>, Value)>, k: Seq<char>, v: Value) -> Seq<
    (Seq<char>, Value),
>
    decreases e.len(),
{
    if e.len() == 0 {
        seq![(k, v)]
    } else if e[0].0 == k {
        seq![(k, v)] + e.drop_first()
    } else if key_lt(k, e[0].0) {
        seq![(k, v)] + e
    } else {
        seq![e[0]] + obj_insert(e.drop_first(), k, v)
    }
}

/// The value stored under `k`, if any.
pub open spec fn lookup(e: Seq<(Seq<char>, Value)>, k: Seq<char>) -> Option<Value>
    decreases e.len(),
{
    if e.len() == 0 {
        None
    } else if e[0].0 == k {
        Some(e[0].1)
    } else {
        lookup(e.drop_first(), k)
    }
}

/// Each key once, in increasing key order: the order of a `BTreeMap`.
pub open spec fn keys_in_order(e: Seq<(Seq<char>, Value)>) -> bool {
    forall|a: int, b: int| 0 <= a < b < e.len() ==> key_lt(#[trigger] e[a].0, #[trigger] e[b].0)
}

/// Every object in the value, nested ones included, holds its keys once and
/// in increasing order.
pub open spec fn well_formed(v: Value) -> bool
    decreases v,
{
    match v {
        Value::Arr(items) => items_well_formed(items),
        Value::Obj(e) => keys_in_order(e) && entries_well_formed(e),
        _ => true,
    }
}

/// Every item is well formed.
pub open spec fn items_well_formed(s: Seq<Value>) -> bool
    decreases s,
{
    if s.len() == 0 {
        true
    } else {
        items_well_formed(s.subrange(0, s.len() - 1)) && well_formed(s[s.len() - 1])
    }
}

/// Every entry's value is well formed.
pub open spec fn entries_well_formed(e: Seq<(Seq<char>, Value)>) -> bool
    decreases e,
{
    if e.len() == 0 {
        true
    } else {
        entries_well_formed(e.subrange(0, e.len() - 1)) && well_formed(e[e.len() - 1].1)
    }
}

pub proof fn lemma_items_well_formed_all(s: Seq<Value>)
    ensures
        items_well_formed(s) <==> forall|k: int| 0 <= k < s.len() ==> #[trigger] well_formed(s[k]),
    decreases s.len(),
{
    if s.len() > 0 {
        let t = s.subrange(0, s.len() - 1);
        lemma_items_well_formed_all(t);
        assert(items_well_formed(s) == (items_well_formed(t) && well_formed(s[s.len() - 1])));
        if items_well_formed(s) {
            assert forall|k: int| 0 <= k < s.len() implies #[trigger] well_formed(s[k]) by {
                if k < t.len() {
                    assert(t[k] == s[k]);
                    assert(well_formed(t[k]));
                }
            }
        }
        if forall|k: int| 0 <= k < s.len() ==> #[trigger] well_formed(s[k]) {
            assert forall|k: int| 0 <= k < t.len() implies #[trigger] well_formed(t[k]) by {
                assert(t[k] == s[k]);
            }
            assert(well_formed(s[s.len() - 1]));
        }
    }
}

pub proof fn lemma_entries_well_formed_all(e: Seq<(Seq<char>, Value)>)
    ensures
        entries_well_formed(e) <==> forall|k: int| 0 <= k < e.len() ==> #[trigger] well_formed(e[k].1),
    decreases e.len(),
{
    if e.len() > 0 {
        let t = e.subrange(0, e.len() - 1);
        lemma_entries_well_formed_all(t);
        assert(entries_well_formed(e) == (entries_well_formed(t) && well_formed(e[e.len() - 1].1)));
        if entries_well_formed(e) {
            assert forall|k: int| 0 <= k < e.len() implies #[trigger] well_formed(e[k].1) by {
                if k < t.len() {
                    assert(t[k] == e[k]);
                    assert(well_formed(t[k].1));
                }
            }
        }
        if forall|k: int| 0 <= k < e.len() ==> #[trigger] well_formed(e[k].1) {
            assert forall|k: int| 0 <= k < t.len() implies #[trigger] well_formed(t[k].1) by {
                assert(t[k] == e[k]);
            }
            assert(well_formed(e[e.len() - 1].1));
        }
    }
}

pub open spec fn true_lit() -> Seq<char> {
    seq!['t', 'r', 'u', 'e']
}

pub open spec fn false_lit() -> Seq<char> {
    seq!['f', 'a', 'l', 's', 'e']
}

pub open spec fn null_lit() -> Seq<char> {
    seq!['n', 'u', 'l', 'l']
}

/// A value at `i` (after optional whitespace): what it is and where it ends.
pub open spec fn parse_value(s: Seq<char>, i: int) -> Option<(Value, int)>
    decreases s.len() - i, 2int,
{
    if i < 0 || i > s.len() {
        None
    } else {
        let j = skip_ws(s, i);
        proof {
            lemma_skip_ws(s, i);
        }
        if j >= s.len() {
            None
        } else if s[j] == '{' {
            parse_object(s, j)
        } else if s[j] == '[' {
            parse_array(s, j)
        } else if s[j] == '"' {
            match parse_string(s, j) {
                Some((t, k)) => Some((Value::Str(t), k)),
                None => None,
            }
        } else if s[j] == 't' {
            if lit_at(s, j, true_lit()) {
                Some((Value::Bool(true), j + 4))
            } else {
                None
            }
        } else if s[j] == 'f' {
            if lit_at(s, j, false_lit()) {
                Some((Value::Bool(false), j + 5))
            } else {
                None
            }
        } else if s[j] == 'n' {
            if lit_at(s, j, null_lit()) {
                Some((Value::Null, j + 4))
            } else {
                None
            }
        } else {
            parse_number(s, j)
        }
    }
}

/// An object whose `{` is at `j`.
pub open spec fn parse_object(s: Seq<char>, j: int) -> Option<(Value, int)>
    decreases s.len() - j, 1int,
{
    if j < 0 || j >= s.len() {
        None
    } else {
        let k = skip_ws(s, j + 1);
        proof {
            lemma_skip_ws(s, j + 1);
        }
        if k >= s.len() {
            None
        } else if s[k] == '}' {
            Some((Value::Obj(Seq::empty()), k + 1))
        } else {
            object_members(s, k, Seq::empty())
        }
    }
}

/// The members of an object from `k` on, having read `acc`.
pub open spec fn object_members(s: Seq<char>, k: int, acc: Seq<(Seq<char>, Value)>) -> Option<
    (Value, int),
>
    decreases s.len() - k, 0int,
{
    if k < 0 || k > s.len() {
        None
    } else {
        let k1 = skip_ws(s, k);
        proof {
            lemma_skip_ws(s, k);
        }
        match parse_string(s, k1) {
            None => None,
            Some((key, p)) => {
                proof {
                    lemma_parse_string(s, k1);
                    lemma_skip_ws(s, p);
                }
                let p1 = skip_ws(s, p);
                if p1 >= s.len() || s[p1] != ':' {
                    None
                } else {
                    match parse_value(s, p1 + 1) {
                        None => None,
                        Some((v, q)) => {
                            let acc2 = obj_insert(acc, key, v);
                            let q1 = skip_ws(s, q);
                            if q1 < k || q1 >= s.len() {
                                None
                            } else if s[q1] == ',' {
                                object_members(s, q1 + 1, acc2)
                            } else if s[q1] == '}' {
                                Some((Value::Obj(acc2), q1 + 1))
                            } else {
                                None
                            }
                        },
                    }
                }
            },
        }
    }
}

/// An array whose `[` is at `j`.
pub open spec fn parse_array(s: Seq<char>, j: int) -> Option<(Value, int)>
    decreases s.len() - j, 1int,
{
    if j < 0 || j >= s.len() {
        None
    } else {
        let k = skip_ws(s, j + 1);
        proof {
            lemma_skip_ws(s, j + 1);
        }
        if k >= s.len() {
            None
        } else if s[k] == ']' {
            Some((Value::Arr(Seq::empty()), k + 1))
        } else {
            array_items(s, k, Seq::empty())
        }
    }
}

/// The items of an array from `k` on, having read `acc`.
pub open spec fn array_items(s: Seq<char>, k: int, acc: Seq<Value>) -> Option<(Value, int)>
    decreases s.len() - k, 3int,
{
    if k < 0 || k > s.len() {
        None
    } else {
        match parse_value(s, k) {
            None => None,
            Some((v, q)) => {
                let acc2 = acc.push(v);
                let q1 = skip_ws(s, q);
                if q1 < k || q1 >= s.len() {
                    None
                } else if s[q1] == ',' {
                    array_items(s, q1 + 1, acc2)
                } else if s[q1] == ']' {
                    Some((Value::Arr(acc2), q1 + 1))
                } else {
                    None
                }
            },
        }
    }
}

/// The text without one leading byte order mark (PowerShell 5.1 pipes
/// prepend one).
pub open spec fn without_bom(s: Seq<char>) -> Seq<char> {
    if s.len() > 0 && s[0] == '\u{feff}' {
        s.skip(1)
    } else {
        s
    }
}

/// What `parse` makes of a text: one leading U+FEFF (the byte order mark)
/// is skipped, then one value is read after optional whitespace; whatever
/// follows it is not looked at.
pub open spec fn parse_text(s: Seq<char>) -> Option<Value> {
    match parse_value(without_bom(s), 0) {
        Some((v, _)) => Some(v),
        None => None,
    }
}

pub proof fn lemma_skip_ws(s: Seq<char>, i: int)
    requires
        0 <= i <= s.len(),
    ensures
        i <= skip_ws(s, i) <= s.len(),
        skip_ws(s, i) < s.len() ==> !json_space(s[skip_ws(s, i)]),
    decreases s.len() - i,
{
    if i < s.len() && json_space(s[i]) {
        lemma_skip_ws(s, i + 1);
    }
}

pub proof fn lemma_string_body(s: Seq<char>, i: int, acc: Seq<char>)
    ensures
        string_body(s, i, acc) matches Some((_, k)) ==> i < k <= s.len(),
    decreases s.len() - i,
{
    if 0 <= i < s.len() && s[i] != '"' {
        if s[i] != '\\' {
            lemma_string_body(s, i + 1, acc.push(s[i]));
        } else if i + 1 < s.len() {
            if s[i + 1] == 'u' {
                match hex4(s, i + 2) {
                    Some(cp) => {
                        let j = i + 6;
                        if 0xd800 <= cp < 0xdc00 && j + 1 < s.len() && s[j] == '\\' && s[j + 1]
                            == 'u' {
                            match hex4(s, j + 2) {
                                Some(lo) => {
                                    lemma_string_body(s, j + 6, acc.push(pair_char(cp, lo)));
                                    lemma_string_body(s, j + 6, acc.push('\u{fffd}'));
                                },
                                None => {},
                            }
                        } else {
                            lemma_string_body(s, j, acc.push(unit_char(cp)));
                        }
                    },
                    None => {},
                }
            } else {
                match simple_escape(s[i + 1]) {
                    Some(c) => {
                        lemma_string_body(s, i + 2, acc.push(c));
                    },
                    None => {},
                }
            }
        }
    }
}

pub proof fn lemma_parse_string(s: Seq<char>, i: int)
    ensures
        parse_string(s, i) matches Some((_, k)) ==> i < k <= s.len(),
{
    if 0 <= i < s.len() && s[i] == '"' {
        lemma_string_body(s, i + 1, Seq::empty());
    }
}

pub proof fn lemma_num_end(s: Seq<char>, i: int)
    requires
        0 <= i <= s.len(),
    ensures
        i <= num_end(s, i) <= s.len(),
        forall|k: int| i <= k < num_end(s, i) ==> num_char(#[trigger] s[k]),
    decreases s.len() - i,
{
    if i < s.len() && num_char(s[i]) {
        lemma_num_end(s, i + 1);
    }
}

pub proof fn lemma_number_advances(s: Seq<char>, i: int)
    requires
        0 <= i <= s.len(),
    ensures
        parse_number(s, i) matches Some((_, q)) ==> i < q <= s.len(),
{
    lemma_num_end(s, i);
    let t = s.subrange(i, num_end(s, i));
    if t.len() == 0 {
        assert(digit_end(t, 0) == 0);
    }
}

pub proof fn lemma_value_advances(s: Seq<char>, i: int)
    ensures
        parse_value(s, i) matches Some((_, q)) ==> i < q <= s.len(),
    decreases s.len() - i, 2int,
{
    if 0 <= i <= s.len() {
        lemma_skip_ws(s, i);
        let j = skip_ws(s, i);
        if j < s.len() {
            if s[j] == '{' {
                lemma_object_advances(s, j);
            } else if s[j] == '[' {
                lemma_array_advances(s, j);
            } else if s[j] == '"' {
                lemma_parse_string(s, j);
            } else if s[j] == 't' || s[j] == 'f' || s[j] == 'n' {
            } else {
                lemma_number_advances(s, j);
            }
        }
    }
}

pub proof fn lemma_object_advances(s: Seq<char>, j: int)
    ensures
        parse_object(s, j) matches Some((_, q)) ==> j < q <= s.len(),
    decreases s.len() - j, 1int,
{
    if 0 <= j < s.len() {
        lemma_skip_ws(s, j + 1);
        let k = skip_ws(s, j + 1);
        if k < s.len() && s[k] != '}' {
            lemma_members_advances(s, k, Seq::empty());
        }
    }
}

pub proof fn lemma_members_advances(s: Seq<char>, k: int, acc: Seq<(Seq<char>, Value)>)
    ensures
        object_members(s, k, acc) matches Some((_, q)) ==> k < q <= s.len(),
    decreases s.len() - k, 0int,
{
    if 0 <= k <= s.len() {
        lemma_skip_ws(s, k);
        let k1 = skip_ws(s, k);
        lemma_parse_string(s, k1);
        if let Some((key, p)) = parse_string(s, k1) {
            lemma_skip_ws(s, p);
            let p1 = skip_ws(s, p);
            if p1 < s.len() && s[p1] == ':' {
                lemma_value_advances(s, p1 + 1);
                if let Some((v, q)) = parse_value(s, p1 + 1) {
                    lemma_skip_ws(s, q);
                    let q1 = skip_ws(s, q);
                    if k <= q1 < s.len() && s[q1] == ',' {
                        lemma_members_advances(s, q1 + 1, obj_insert(acc, key, v));
                    }
                }
            }
        }
    }
}

pub proof fn lemma_array_advances(s: Seq<char>, j: int)
    ensures
        parse_array(s, j) matches Some((_, q)) ==> j < q <= s.len(),
    decreases s.len() - j, 1int,
{
    if 0 <= j < s.len() {
        lemma_skip_ws(s, j + 1);
        let k = skip_ws(s, j + 1);
        if k < s.len() && s[k] != ']' {
            lemma_items_advances(s, k, Seq::empty());
        }
    }
}

pub proof fn lemma_items_advances(s: Seq<char>, k: int, acc: Seq<Value>)
    ensures
        array_items(s, k, acc) matches Some((_, q)) ==> k < q <= s.len(),
    decreases s.len() - k, 3int,
{
    if 0 <= k <= s.len() {
        lemma_value_advances(s, k);
        if let Some((v, q)) = parse_value(s, k) {
            lemma_skip_ws(s, q);
            let q1 = skip_ws(s, q);
            if k <= q1 < s.len() && s[q1] == ',' {
                lemma_items_advances(s, q1 + 1, acc.push(v));
            }
        }
    }
}

pub proof fn lemma_value_well_formed(s: Seq<char>, i: int)
    ensures
        parse_value(s, i) matches Some((v, _)) ==> well_formed(v),
    decreases s.len() - i, 2int,
{
    if 0 <= i <= s.len() {
        lemma_skip_ws(s, i);
        let j = skip_ws(s, i);
        if j < s.len() {
            if s[j] == '{' {
                lemma_object_well_formed(s, j);
            } else if s[j] == '[' {
                lemma_array_well_formed(s, j);
            }
        }
    }
}

pub proof fn lemma_object_well_formed(s: Seq<char>, j: int)
    ensures
        parse_object(s, j) matches Some((v, _)) ==> well_formed(v),
    decreases s.len() - j, 1int,
{
    if 0 <= j < s.len() {
        lemma_skip_ws(s, j + 1);
        let k = skip_ws(s, j + 1);
        if k < s.len() && s[k] != '}' {
            lemma_members_well_formed(s, k, Seq::empty());
        }
    }
}

pub proof fn lemma_members_well_formed(s: Seq<char>, k: int, acc: Seq<(Seq<char>, Value)>)
    requires
        keys_in_order(acc),
        forall|m: int| 0 <= m < acc.len() ==> #[trigger] well_formed(acc[m].1),
    ensures
        object_members(s, k, acc) matches Some((v, _)) ==> well_formed(v),
    decreases s.len() - k, 0int,
{
    if 0 <= k <= s.len() {
        lemma_skip_ws(s, k);
        let k1 = skip_ws(s, k);
        lemma_parse_string(s, k1);
        if let Some((key, p)) = parse_string(s, k1) {
            lemma_skip_ws(s, p);
            let p1 = skip_ws(s, p);
            if p1 < s.len() && s[p1] == ':' {
                lemma_value_well_formed(s, p1 + 1);
                lemma_value_advances(s, p1 + 1);
                if let Some((v, q)) = parse_value(s, p1 + 1) {
                    lemma_obj_insert_keeps(acc, key, v);
                    lemma_skip_ws(s, q);
                    let q1 = skip_ws(s, q);
                    let acc2 = obj_insert(acc, key, v);
                    if k <= q1 < s.len() && s[q1] == ',' {
                        lemma_members_well_formed(s, q1 + 1, acc2);
                    } else if k <= q1 < s.len() && s[q1] == '}' {
                        assert(keys_in_order(acc2));
                        assert(forall|m: int|
                            0 <= m < acc2.len() ==> #[trigger] well_formed(acc2[m].1));
                        lemma_entries_well_formed_all(acc2);
                    }
                }
            }
        }
    }
}

pub proof fn lemma_array_well_formed(s: Seq<char>, j: int)
    ensures
        parse_array(s, j) matches Some((v, _)) ==> well_formed(v),
    decreases s.len() - j, 1int,
{
    if 0 <= j < s.len() {
        lemma_skip_ws(s, j + 1);
        let k = skip_ws(s, j + 1);
        if k < s.len() && s[k] != ']' {
            lemma_items_well_formed(s, k, Seq::empty());
        }
    }
}

pub proof fn lemma_items_well_formed(s: Seq<char>, k: int, acc: Seq<Value>)
    requires
        forall|m: int| 0 <= m < acc.len() ==> #[trigger] well_formed(acc[m]),
    ensures
        array_items(s, k, acc) matches Some((v, _)) ==> well_formed(v),
    decreases s.len() - k, 3int,
{
    if 0 <= k <= s.len() {
        lemma_value_well_formed(s, k);
        lemma_value_advances(s, k);
        if let Some((v, q)) = parse_value(s, k) {
            let acc2 = acc.push(v);
            assert forall|m: int| 0 <= m < acc2.len() implies #[trigger] well_formed(acc2[m]) by {
                if m < acc.len() {
                    assert(acc2[m] == acc[m]);
                }
            }
            lemma_skip_ws(s, q);
            let q1 = skip_ws(s, q);
            if k <= q1 < s.len() && s[q1] == ',' {
                lemma_items_well_formed(s, q1 + 1, acc2);
            } else if k <= q1 < s.len() && s[q1] == ']' {
                assert(forall|m: int| 0 <= m < acc2.len() ==> #[trigger] well_formed(acc2[m]));
                lemma_items_well_formed_all(acc2);
            }
        }
    }
}

// ---------------------------------------------------------------------------
// Facts about the models and the object order
// ---------------------------------------------------------------------------

pub proof fn lemma_item_models(s: Seq<Json>)
    ensures
        item_models(s).len() == s.len(),
        forall|n: int| 0 <= n < s.len() ==> #[trigger] item_models(s)[n] == s[n].model(),
    decreases s.len(),
{
    if s.len() > 0 {
        lemma_item_models(s.subrange(0, s.len() - 1));
    }
}

pub proof fn lemma_entry_models(s: Seq<(String, Json)>)
    ensures
        entry_models(s).len() == s.len(),
        forall|n: int|
            0 <= n < s.len() ==> #[trigger] entry_models(s)[n] == (s[n].0@, s[n].1.model()),
    decreases s.len(),
{
    if s.len() > 0 {
        lemma_entry_models(s.subrange(0, s.len() - 1));
    }
}

pub proof fn lemma_key_lt_irreflexive(a: Seq<char>)
    ensures
        !key_lt(a, a),
    decreases a.len(),
{
    if a.len() > 0 {
        lemma_key_lt_irreflexive(a.drop_first());
    }
}

pub proof fn lemma_key_lt_asymmetric(a: Seq<char>, b: Seq<char>)
    ensures
        key_lt(a, b) ==> !key_lt(b, a),
    decreases a.len(),
{
    if a.len() > 0 && b.len() > 0 && a[0] == b[0] {
        lemma_key_lt_asymmetric(a.drop_first(), b.drop_first());
    }
}

pub proof fn lemma_key_lt_total(a: Seq<char>, b: Seq<char>)
    ensures
        a != b ==> key_lt(a, b) || key_lt(b, a),
    decreases a.len(),
{
    if a.len() > 0 && b.len() > 0 && a[0] == b[0] {
        lemma_key_lt_total(a.drop_first(), b.drop_first());
        if a.drop_first() == b.drop_first() {
            assert(a =~= seq![a[0]] + a.drop_first());
            assert(b =~= seq![b[0]] + b.drop_first());
        }
    } else if a.len() == 0 && b.len() == 0 {
        assert(a =~= b);
    } else if a.len() > 0 && b.len() > 0 {
        assert((a[0] as int) != (b[0] as int));
    }
}

pub proof fn lemma_key_lt_transitive(a: Seq<char>, b: Seq<char>, c: Seq<char>)
    ensures
        key_lt(a, b) && key_lt(b, c) ==> key_lt(a, c),
    decreases a.len(),
{
    if a.len() > 0 && b.len() > 0 && c.len() > 0 {
        lemma_key_lt_transitive(a.drop_first(), b.drop_first(), c.drop_first());
    }
}

/// Where `obj_insert` puts the new entry: after every smaller key, over an
/// equal key.
pub proof fn lemma_obj_insert_at(e: Seq<(Seq<char>, Value)>, k: Seq<char>, v: Value, idx: int)
    requires
        0 <= idx <= e.len(),
        forall|n: int| 0 <= n < idx ==> key_lt(#[trigger] e[n].0, k),
        idx < e.len() ==> !key_lt(e[idx].0, k),
    ensures
        idx < e.len() && e[idx].0 == k ==> obj_insert(e, k, v) == e.take(idx) + seq![(k, v)]
            + e.skip(idx + 1),
        !(idx < e.len() && e[idx].0 == k) ==> obj_insert(e, k, v) == e.take(idx) + seq![(k, v)]
            + e.skip(idx),
    decreases e.len(),
{
    if e.len() == 0 {
        assert(e.take(idx) + seq![(k, v)] + e.skip(idx) =~= seq![(k, v)]);
    } else if idx == 0 {
        if e[0].0 == k {
            assert(e.take(0) + seq![(k, v)] + e.skip(1) =~= seq![(k, v)] + e.drop_first());
        } else {
            lemma_key_lt_total(k, e[0].0);
            assert(e.take(0) + seq![(k, v)] + e.skip(0) =~= seq![(k, v)] + e);
        }
    } else {
        lemma_key_lt_irreflexive(k);
        lemma_key_lt_asymmetric(e[0].0, k);
        assert(key_lt(e[0].0, k));
        let t = e.drop_first();
        assert forall|n: int| 0 <= n < idx - 1 implies key_lt(#[trigger] t[n].0, k) by {
            assert(t[n] == e[n + 1]);
        }
        lemma_obj_insert_at(t, k, v, idx - 1);
        if idx < e.len() && e[idx].0 == k {
            assert(e.take(idx) + seq![(k, v)] + e.skip(idx + 1) =~= seq![e[0]] + (t.take(idx - 1)
                + seq![(k, v)] + t.skip(idx)));
        } else {
            assert(e.take(idx) + seq![(k, v)] + e.skip(idx) =~= seq![e[0]] + (t.take(idx - 1)
                + seq![(k, v)] + t.skip(idx - 1)));
        }
    }
}

/// Every key `obj_insert` leaves is one that was there or the new one, so a
/// bound below all of those stays below.
proof fn lemma_obj_insert_above(e: Seq<(Seq<char>, Value)>, k: Seq<char>, v: Value, lo: Seq<char>)
    requires
        forall|j: int| 0 <= j < e.len() ==> key_lt(lo, #[trigger] e[j].0),
        key_lt(lo, k),
    ensures
        forall|m: int| 0 <= m < obj_insert(e, k, v).len() ==> key_lt(lo, #[trigger] obj_insert(e, k, v)[m].0),
    decreases e.len(),
{
    let r = obj_insert(e, k, v);
    if e.len() == 0 {
        assert(r =~= seq![(k, v)]);
    } else if e[0].0 == k {
        assert forall|m: int| 0 <= m < r.len() implies key_lt(lo, #[trigger] r[m].0) by {
            if m > 0 {
                assert(r[m] == e[m]);
            }
        }
    } else if key_lt(k, e[0].0) {
        assert forall|m: int| 0 <= m < r.len() implies key_lt(lo, #[trigger] r[m].0) by {
            if m > 0 {
                assert(r[m] == e[m - 1]);
            }
        }
    } else {
        let t = e.drop_first();
        assert forall|j: int| 0 <= j < t.len() implies key_lt(lo, #[trigger] t[j].0) by {
            assert(t[j] == e[j + 1]);
        }
        lemma_obj_insert_above(t, k, v, lo);
        let rt = obj_insert(t, k, v);
        assert forall|m: int| 0 <= m < r.len() implies key_lt(lo, #[trigger] r[m].0) by {
            if m > 0 {
                assert(r[m] == rt[m - 1]);
            } else {
                assert(r[0] == e[0]);
            }
        }
    }
}

/// `obj_insert` keeps the keys once each and in increasing order, and keeps
/// every value well formed when the new one is.
proof fn lemma_obj_insert_keeps(e: Seq<(Seq<char>, Value)>, k: Seq<char>, v: Value)
    requires
        keys_in_order(e),
    ensures
        keys_in_order(obj_insert(e, k, v)),
        (well_formed(v) && forall|j: int| 0 <= j < e.len() ==> #[trigger] well_formed(e[j].1))
            ==> forall|m: int| 0 <= m < obj_insert(e, k, v).len() ==> #[trigger] well_formed(
            obj_insert(e, k, v)[m].1,
        ),
    decreases e.len(),
{
    let r = obj_insert(e, k, v);
    if e.len() == 0 {
        assert(r =~= seq![(k, v)]);
    } else if e[0].0 == k {
        assert forall|m: int| 0 < m < r.len() implies r[m] == e[m] by {}
        assert forall|a: int, b: int| 0 <= a < b < r.len() implies key_lt(
            #[trigger] r[a].0,
            #[trigger] r[b].0,
        ) by {
            assert(r[b] == e[b]);
            if a > 0 {
                assert(r[a] == e[a]);
            }
        }
    } else if key_lt(k, e[0].0) {
        assert forall|a: int, b: int| 0 <= a < b < r.len() implies key_lt(
            #[trigger] r[a].0,
            #[trigger] r[b].0,
        ) by {
            assert(r[b] == e[b - 1]);
            if a > 0 {
                assert(r[a] == e[a - 1]);
            } else if b - 1 > 0 {
                assert(key_lt(e[0].0, e[b - 1].0));
                lemma_key_lt_transitive(k, e[0].0, e[b - 1].0);
            }
        }
        assert forall|m: int| 0 < m < r.len() implies r[m] == e[m - 1] by {}
    } else {
        let t = e.drop_first();
        assert forall|a: int, b: int| 0 <= a < b < t.len() implies key_lt(
            #[trigger] t[a].0,
            #[trigger] t[b].0,
        ) by {
            assert(t[a] == e[a + 1] && t[b] == e[b + 1]);
        }
        lemma_obj_insert_keeps(t, k, v);
        let rt = obj_insert(t, k, v);
        lemma_key_lt_total(k, e[0].0);
        assert(key_lt(e[0].0, k));
        assert forall|j: int| 0 <= j < t.len() implies key_lt(e[0].0, #[trigger] t[j].0) by {
            assert(t[j] == e[j + 1]);
        }
        lemma_obj_insert_above(t, k, v, e[0].0);
        assert(r[0] == e[0]);
        assert forall|m: int| 0 < m < r.len() implies r[m] == rt[m - 1] by {}
        assert forall|a: int, b: int| 0 <= a < b < r.len() implies key_lt(
            #[trigger] r[a].0,
            #[trigger] r[b].0,
        ) by {
            assert(r[b] == rt[b - 1]);
            if a > 0 {
                assert(r[a] == rt[a - 1]);
            }
        }
        if well_formed(v) && forall|j: int| 0 <= j < e.len() ==> #[trigger] well_formed(e[j].1) {
            assert forall|j: int| 0 <= j < t.len() implies #[trigger] well_formed(t[j].1) by {
                assert(t[j] == e[j + 1]);
            }
        }
    }
}

/// `lookup` finds the first entry with the key.
pub proof fn lemma_lookup_at(e: Seq<(Seq<char>, Value)>, k: Seq<char>, n: int)
    requires
        0 <= n <= e.len(),
        forall|p: int| 0 <= p < n ==> #[trigger] e[p].0 != k,
    ensures
        n < e.len() && e[n].0 == k ==> lookup(e, k) == Some(e[n].1),
        n == e.len() ==> lookup(e, k) is None,
    decreases n,
{
    if n > 0 {
        let t = e.drop_first();
        assert forall|p: int| 0 <= p < n - 1 implies #[trigger] t[p].0 != k by {
            assert(t[p] == e[p + 1]);
        }
        lemma_lookup_at(t, k, n - 1);
    }
}

// ---------------------------------------------------------------------------
// The parser
// ---------------------------------------------------------------------------

fn ws(b: &[char], i: usize) -> (r: usize)
    requires
        i <= b@.len(),
    ensures
        r == skip_ws(b@, i as int),
        i <= r <= b@.len(),
{
    let mut j = i;
    while j < b.len() && (b[j] == ' ' || b[j] == '\t' || b[j] == '\n' || b[j] == '\r')
        invariant
            i <= j <= b@.len(),
            skip_ws(b@, j as int) == skip_ws(b@, i as int),
        decreases b.len() - j,
    {
        j = j + 1;
    }
    j
}

fn lit(b: &[char], i: usize, want: &[char]) -> (r: bool)
    requires
        i <= b@.len(),
    ensures
        r == lit_at(b@, i as int, want@),
{
    let n = b.len();
    if want.len() > n - i {
        return false;
    }
    let mut k: usize = 0;
    while k < want.len()
        invariant
            n == b@.len(),
            i + want@.len() <= b@.len(),
            k <= want@.len(),
            forall|n: int| 0 <= n < k ==> b@[i + n] == #[trigger] want@[n],
        decreases want.len() - k,
    {
        if b[i + k] != want[k] {
            assert(b@.subrange(i as int, i + want@.len())[k as int] != want@[k as int]);
            return false;
        }
        k = k + 1;
    }
    assert(b@.subrange(i as int, i + want@.len()) =~= want@);
    true
}

fn hex_value(c: char) -> (r: i32)
    ensures
        r == hex_digit(c),
{
    if '0' <= c && c <= '9' {
        (c as u32 - '0' as u32) as i32
    } else if 'a' <= c && c <= 'f' {
        (c as u32 - 'a' as u32 + 10) as i32
    } else if 'A' <= c && c <= 'F' {
        (c as u32 - 'A' as u32 + 10) as i32
    } else {
        -1
    }
}

fn hex4_at(b: &[char], i: usize) -> (r: Option<u32>)
    requires
        i <= b@.len(),
    ensures
        r == hex4(b@, i as int),
{
    if b.len() - i < 4 {
        return None;
    }
    let h0 = hex_value(b[i]);
    let h1 = hex_value(b[i + 1]);
    let h2 = hex_value(b[i + 2]);
    let h3 = hex_value(b[i + 3]);
    if h0 >= 0 && h1 >= 0 && h2 >= 0 && h3 >= 0 {
        Some((h0 * 4096 + h1 * 256 + h2 * 16 + h3) as u32)
    } else if b[i] == '+' && h1 >= 0 && h2 >= 0 && h3 >= 0 {
        Some((h1 * 256 + h2 * 16 + h3) as u32)
    } else {
        None
    }
}

/// A string literal at `i`: its characters and the position after it.
fn string(b: &[char], i: usize) -> (r: Option<(Vec<char>, usize)>)
    requires
        i <= b@.len(),
    ensures
        r is Some <==> parse_string(b@, i as int) is Some,
        r matches Some((t, k)) ==> parse_string(b@, i as int) == Some((t@, k as int)),
{
    if i >= b.len() || b[i] != '"' {
        return None;
    }
    let n = b.len();
    let mut out: Vec<char> = Vec::new();
    let mut j: usize = i + 1;
    loop
        invariant
            n == b@.len(),
            j <= b@.len(),
            parse_string(b@, i as int) == string_body(b@, j as int, out@),
        decreases b@.len() - j,
    {
        if j >= b.len() {
            return None;
        }
        let c = b[j];
        if c == '"' {
            return Some((out, j + 1));
        }
        if c != '\\' {
            out.push(c);
            j = j + 1;
        } else {
            if j + 1 >= b.len() {
                return None;
            }
            let e = b[j + 1];
            if e == 'u' {
                let cp = match hex4_at(b, j + 2) {
                    Some(x) => x,
                    None => return None,
                };
                let k = j + 6;
                if 0xd800 <= cp && cp < 0xdc00 && b.len() - k > 1 && b[k] == '\\' && b[k + 1]
                    == 'u' {
                    let lo = match hex4_at(b, k + 2) {
                        Some(x) => x,
                        None => return None,
                    };
                    if 0xdc00 <= lo && lo < 0xe000 {
                        let code = 0x10000 + (cp - 0xd800) * 1024 + (lo - 0xdc00);
                        let ch = match char_from_u32(code) {
                            Some(x) => x,
                            None => return None,
                        };
                        out.push(ch);
                    } else {
                        out.push('\u{fffd}');
                    }
                    j = k + 6;
                } else {
                    let ch = match char_from_u32(cp) {
                        Some(x) => x,
                        None => '\u{fffd}',
                    };
                    out.push(ch);
                    j = k;
                }
            } else {
                let ch = if e == '"' {
                    '"'
                } else if e == '\\' {
                    '\\'
                } else if e == '/' {
                    '/'
                } else if e == 'b' {
                    '\u{8}'
                } else if e == 'f' {
                    '\u{c}'
                } else if e == 'n' {
                    '\n'
                } else if e == 'r' {
                    '\r'
                } else if e == 't' {
                    '\t'
                } else {
                    return None;
                };
                out.push(ch);
                j = j + 2;
            }
        }
    }
}

fn is_num_char(c: char) -> (r: bool)
    ensures
        r == num_char(c),
{
    ('0' <= c && c <= '9') || c == '.' || c == 'e' || c == 'E' || c == '+' || c == '-'
}

/// `float_syntax(t)`, computed.
fn float_text(t: &[char]) -> (r: bool)
    ensures
        r == float_syntax(t@),
{
    let a: usize = if t.len() > 0 && (t[0] == '+' || t[0] == '-') {
        1
    } else {
        0
    };
    let b = digit_end_at(t, a);
    let c: usize = if b < t.len() && t[b] == '.' {
        b + 1
    } else {
        b
    };
    let d = digit_end_at(t, c);
    if (b - a) + (d - c) == 0 {
        false
    } else if d == t.len() {
        true
    } else if t[d] == 'e' || t[d] == 'E' {
        let f: usize = if d + 1 < t.len() && (t[d + 1] == '+' || t[d + 1] == '-') {
            d + 2
        } else {
            d + 1
        };
        let g = digit_end_at(t, f);
        g > f && g == t.len()
    } else {
        false
    }
}

/// A number at `i`.
fn number(b: &[char], i: usize) -> (r: Option<(Json, usize)>)
    requires
        i <= b@.len(),
    ensures
        r is Some <==> parse_number(b@, i as int) is Some,
        r matches Some((x, k)) ==> parse_number(b@, i as int) == Some((x.model(), k as int)),
{
    let mut e = i;
    while e < b.len() && is_num_char(b[e])
        invariant
            i <= e <= b@.len(),
            num_end(b@, e as int) == num_end(b@, i as int),
        decreases b.len() - e,
    {
        e = e + 1;
    }
    let t = copy_range(b, i, e);
    if float_text(t.as_slice()) {
        Some((Json::Num(string_of(t.as_slice())), e))
    } else {
        None
    }
}

/// Put `(key, v)` into the entries the way `obj_insert` does.
fn insert_entry(entries: &mut Vec<(String, Json)>, keys: &mut Vec<Vec<char>>, key: Vec<char>, v: Json)
    requires
        old(keys)@.len() == old(entries)@.len(),
        forall|n: int| 0 <= n < old(keys)@.len() ==> #[trigger] old(keys)@[n]@ == old(entries)@[n].0@,
    ensures
        final(keys)@.len() == final(entries)@.len(),
        forall|n: int| 0 <= n < final(keys)@.len() ==> #[trigger] final(keys)@[n]@ == final(entries)@[n].0@,
        entry_models(final(entries)@) == obj_insert(entry_models(old(entries)@), key@, v.model()),
{
    let ghost e = entry_models(entries@);
    proof {
        lemma_entry_models(entries@);
    }
    let mut idx: usize = 0;
    while idx < keys.len() && key_less(keys[idx].as_slice(), key.as_slice())
        invariant
            forall|n: int|
                0 <= n < entries@.len() ==> #[trigger] e[n] == (entries@[n].0@, entries@[n].1.model()),
            keys@.len() == entries@.len(),
            forall|n: int| 0 <= n < keys@.len() ==> #[trigger] keys@[n]@ == entries@[n].0@,
            e == entry_models(entries@),
            e.len() == entries@.len(),
            idx <= keys@.len(),
            forall|n: int| 0 <= n < idx ==> key_lt(#[trigger] e[n].0, key@),
        decreases keys.len() - idx,
    {
        assert(e[idx as int].0 == keys@[idx as int]@);
        idx = idx + 1;
    }
    proof {
        if idx < keys@.len() {
            assert(e[idx as int].0 == keys@[idx as int]@);
        }
        lemma_obj_insert_at(e, key@, v.model(), idx as int);
    }
    let replace = idx < keys.len() && chars_equal(keys[idx].as_slice(), key.as_slice());
    let ks = string_of(key.as_slice());
    let ghost x = (ks@, v.model());
    let ghost old_entries = entries@;
    if replace {
        entries.remove(idx);
        entries.insert(idx, (ks, v));
        proof {
            lemma_entry_models(entries@);
            assert(entries@ =~= old_entries.update(idx as int, entries@[idx as int]));
            assert(entry_models(entries@) =~= e.take(idx as int) + seq![x] + e.skip(idx + 1));
        }
    } else {
        entries.insert(idx, (ks, v));
        keys.insert(idx, key);
        proof {
            lemma_entry_models(entries@);
            assert(entry_models(entries@) =~= e.take(idx as int) + seq![x] + e.skip(idx as int));
        }
    }
}

/// `key_lt(a, b)`, computed.
fn key_less(a: &[char], b: &[char]) -> (r: bool)
    ensures
        r == key_lt(a@, b@),
{
    let mut k: usize = 0;
    assert(a@.skip(0) =~= a@);
    assert(b@.skip(0) =~= b@);
    while k < a.len() && k < b.len() && a[k] == b[k]
        invariant
            k <= a@.len(),
            k <= b@.len(),
            key_lt(a@.skip(k as int), b@.skip(k as int)) == key_lt(a@, b@),
        decreases a.len() - k,
    {
        assert(a@.skip(k as int).drop_first() =~= a@.skip(k + 1));
        assert(b@.skip(k as int).drop_first() =~= b@.skip(k + 1));
        k = k + 1;
    }
    if k == a.len() {
        assert(a@.skip(k as int).len() == 0);
        k < b.len()
    } else if k == b.len() {
        assert(b@.skip(k as int).len() == 0);
        false
    } else {
        let ghost x = a@.skip(k as int);
        let ghost y = b@.skip(k as int);
        assert(x[0] == a@[k as int]);
        assert(y[0] == b@[k as int]);
        assert(x[0] != y[0]);
        assert(key_lt(x, y) == ((x[0] as int) < (y[0] as int)));
        a[k] < b[k]
    }
}

/// A value at `i` (after optional whitespace) and the position after it.
fn value(b: &[char], i: usize) -> (r: Option<(Json, usize)>)
    requires
        i <= b@.len(),
    ensures
        r is Some <==> parse_value(b@, i as int) is Some,
        r matches Some((x, k)) ==> parse_value(b@, i as int) == Some((x.model(), k as int)),
    decreases b@.len() - i, 2int,
{
    let j = ws(b, i);
    if j >= b.len() {
        return None;
    }
    let c = b[j];
    if c == '{' {
        object(b, j)
    } else if c == '[' {
        array(b, j)
    } else if c == '"' {
        match string(b, j) {
            Some((t, k)) => Some((Json::Str(string_of(t.as_slice())), k)),
            None => None,
        }
    } else if c == 't' {
        let w = vec!['t', 'r', 'u', 'e'];
        assert(w@ =~= true_lit());
        if lit(b, j, w.as_slice()) {
            Some((Json::Bool(true), j + 4))
        } else {
            None
        }
    } else if c == 'f' {
        let w = vec!['f', 'a', 'l', 's', 'e'];
        assert(w@ =~= false_lit());
        if lit(b, j, w.as_slice()) {
            Some((Json::Bool(false), j + 5))
        } else {
            None
        }
    } else if c == 'n' {
        let w = vec!['n', 'u', 'l', 'l'];
        assert(w@ =~= null_lit());
        if lit(b, j, w.as_slice()) {
            Some((Json::Null, j + 4))
        } else {
            None
        }
    } else {
        number(b, j)
    }
}

/// An object whose `{` is at `j`.
fn object(b: &[char], j: usize) -> (r: Option<(Json, usize)>)
    requires
        j < b@.len(),
    ensures
        r is Some <==> parse_object(b@, j as int) is Some,
        r matches Some((x, k)) ==> parse_object(b@, j as int) == Some((x.model(), k as int)),
    decreases b@.len() - j, 1int,
{
    let n = b.len();
    let mut k = ws(b, j + 1);
    if k >= b.len() {
        return None;
    }
    if b[k] == '}' {
        let empty: Vec<(String, Json)> = Vec::new();
        assert(entry_models(empty@) =~= Seq::empty());
        return Some((Json::Obj(empty), k + 1));
    }
    let mut entries: Vec<(String, Json)> = Vec::new();
    let mut keys: Vec<Vec<char>> = Vec::new();
    assert(entry_models(entries@) =~= Seq::<(Seq<char>, Value)>::empty());
    loop
        invariant
            j < k <= b@.len(),
            keys@.len() == entries@.len(),
            forall|n: int| 0 <= n < keys@.len() ==> #[trigger] keys@[n]@ == entries@[n].0@,
            parse_object(b@, j as int) == object_members(b@, k as int, entry_models(entries@)),
        decreases b@.len() - k,
    {
        let k1 = ws(b, k);
        let (key, p) = match string(b, k1) {
            Some(x) => x,
            None => return None,
        };
        proof {
            lemma_parse_string(b@, k1 as int);
        }
        let p1 = ws(b, p);
        if p1 >= b.len() || b[p1] != ':' {
            return None;
        }
        let (v, q) = match value(b, p1 + 1) {
            Some(x) => x,
            None => return None,
        };
        proof {
            lemma_value_advances(b@, p1 + 1);
        }
        insert_entry(&mut entries, &mut keys, key, v);
        let q1 = ws(b, q);
        if q1 >= b.len() {
            return None;
        }
        if b[q1] == ',' {
            k = q1 + 1;
        } else if b[q1] == '}' {
            return Some((Json::Obj(entries), q1 + 1));
        } else {
            return None;
        }
    }
}

/// An array whose `[` is at `j`.
fn array(b: &[char], j: usize) -> (r: Option<(Json, usize)>)
    requires
        j < b@.len(),
    ensures
        r is Some <==> parse_array(b@, j as int) is Some,
        r matches Some((x, k)) ==> parse_array(b@, j as int) == Some((x.model(), k as int)),
    decreases b@.len() - j, 1int,
{
    let n = b.len();
    let mut k = ws(b, j + 1);
    if k >= b.len() {
        return None;
    }
    if b[k] == ']' {
        let empty: Vec<Json> = Vec::new();
        assert(item_models(empty@) =~= Seq::empty());
        return Some((Json::Arr(empty), k + 1));
    }
    let mut items: Vec<Json> = Vec::new();
    assert(item_models(items@) =~= Seq::<Value>::empty());
    loop
        invariant
            j < k <= b@.len(),
            parse_array(b@, j as int) == array_items(b@, k as int, item_models(items@)),
        decreases b@.len() - k,
    {
        let (v, q) = match value(b, k) {
            Some(x) => x,
            None => return None,
        };
        proof {
            lemma_value_advances(b@, k as int);
        }
        let ghost before = items@;
        items.push(v);
        assert(items@.subrange(0, items@.len() - 1) =~= before);
        let q1 = ws(b, q);
        if q1 >= b.len() {
            return None;
        }
        if b[q1] == ',' {
            k = q1 + 1;
        } else if b[q1] == ']' {
            return Some((Json::Arr(items), q1 + 1));
        } else {
            return None;
        }
    }
}

/// Parse the payload: one JSON value, after an optional byte order mark.
/// `None` when no value can be read; never panics.
pub fn parse(input: &str) -> (r: Option<Json>)
    ensures
        match r {
            Some(x) => parse_text(input@) == Some(x@),
            None => parse_text(input@) is None,
        },
        r matches Some(x) ==> well_formed(x@),
{
    proof {
        lemma_value_well_formed(without_bom(input@), 0);
    }
    let all = chars_of(input);
    let s = if all.len() > 0 && all[0] == '\u{feff}' {
        let rest = copy_range(all.as_slice(), 1, all.len());
        assert(rest@ =~= without_bom(all@));
        rest
    } else {
        all
    };
    match value(s.as_slice(), 0) {
        Some((v, _)) => Some(v),
        None => None,
    }
}

proof fn lemma_plain_string_body(s: Seq<char>, i: int, j: int, acc: Seq<char>)
    requires
        0 <= i <= j < s.len(),
        forall|k: int| i <= k < j ==> #[trigger] s[k] != '"' && s[k] != '\\',
        s[j] == '"',
    ensures
        string_body(s, i, acc) == Some((acc + s.subrange(i, j), j + 1)),
    decreases j - i,
{
    if i == j {
        assert(acc + s.subrange(i, j) =~= acc);
    } else {
        lemma_plain_string_body(s, i + 1, j, acc.push(s[i]));
        assert(acc.push(s[i]) + s.subrange(i + 1, j) =~= acc + s.subrange(i, j));
    }
}

/// A literal is read whole: after the whitespace at `i`, `true` and `null`
/// end four characters on and `false` five, giving `true`, `false`, `null`.
pub proof fn literals_are_read_whole(s: Seq<char>, i: int)
    requires
        0 <= i <= s.len(),
    ensures
        lit_at(s, skip_ws(s, i), seq!['t', 'r', 'u', 'e']) ==> parse_value(s, i) == Some(
            (Value::Bool(true), skip_ws(s, i) + 4),
        ),
        lit_at(s, skip_ws(s, i), seq!['f', 'a', 'l', 's', 'e']) ==> parse_value(s, i) == Some(
            (Value::Bool(false), skip_ws(s, i) + 5),
        ),
        lit_at(s, skip_ws(s, i), seq!['n', 'u', 'l', 'l']) ==> parse_value(s, i) == Some(
            (Value::Null, skip_ws(s, i) + 4),
        ),
{
    let j = skip_ws(s, i);
    lemma_skip_ws(s, i);
    if lit_at(s, j, seq!['t', 'r', 'u', 'e']) {
        assert(s.subrange(j, j + 4)[0] == 't');
        assert(true_lit() =~= seq!['t', 'r', 'u', 'e']);
    }
    if lit_at(s, j, seq!['f', 'a', 'l', 's', 'e']) {
        assert(s.subrange(j, j + 5)[0] == 'f');
        assert(false_lit() =~= seq!['f', 'a', 'l', 's', 'e']);
    }
    if lit_at(s, j, seq!['n', 'u', 'l', 'l']) {
        assert(s.subrange(j, j + 4)[0] == 'n');
        assert(null_lit() =~= seq!['n', 'u', 'l', 'l']);
    }
}

proof fn lemma_one_member(s: Seq<char>, k: Seq<char>, v: Value, e: int)
    requires
        s.len() == e + 1,
        k.len() + 4 <= e,
        s[0] == '{',
        s[1] == '"',
        forall|m: int| 2 <= m < 2 + k.len() ==> #[trigger] s[m] != '"' && s[m] != '\\',
        s.subrange(2, 2 + k.len() as int) == k,
        s[2 + k.len() as int] == '"',
        s[3 + k.len() as int] == ':',
        parse_value(s, 4 + k.len() as int) == Some((v, e)),
        s[e] == '}',
    ensures
        parse_text(s) == Some(Value::Obj(seq![(k, v)])),
{
    let n = k.len() as int;
    let p = n + 3;
    assert(without_bom(s) == s);
    assert(skip_ws(s, 0) == 0);
    assert(skip_ws(s, 1) == 1);
    lemma_plain_string_body(s, 2, 2 + n, Seq::empty());
    assert(Seq::<char>::empty() + s.subrange(2, 2 + n) =~= k);
    assert(parse_string(s, 1) == Some((k, p)));
    assert(skip_ws(s, p) == p);
    assert(skip_ws(s, e) == e);
    assert(obj_insert(Seq::empty(), k, v) == seq![(k, v)]);
    assert(object_members(s, 1, Seq::empty()) == Some((Value::Obj(seq![(k, v)]), e + 1)));
    assert(parse_object(s, 0) == Some((Value::Obj(seq![(k, v)]), e + 1)));
}

/// The text `{"<k>":` then `lit` then `}`.
pub open spec fn one_member_text(k: Seq<char>, lit: Seq<char>) -> Seq<char> {
    seq!['{', '"'] + k + seq!['"', ':'] + lit + seq!['}']
}

proof fn lemma_one_member_text(k: Seq<char>, lit: Seq<char>, v: Value)
    requires
        forall|n: int| 0 <= n < k.len() ==> #[trigger] k[n] != '"' && k[n] != '\\',
        lit.len() >= 1,
        !json_space(lit[0]),
        parse_value(one_member_text(k, lit), k.len() + 4int) == Some((v, k.len() + 4int + lit.len())),
    ensures
        parse_text(one_member_text(k, lit)) == Some(Value::Obj(seq![(k, v)])),
{
    let s = one_member_text(k, lit);
    let n = k.len() as int;
    assert forall|m: int| 2 <= m < 2 + n implies #[trigger] s[m] != '"' && s[m] != '\\' by {
        assert(s[m] == k[m - 2]);
    }
    assert(s.subrange(2, 2 + n) =~= k);
    lemma_one_member(s, k, v, n + 4 + lit.len() as int);
}

/// `{"<k>":false}` reads as the object whose one member `k` is `false`, for
/// every key `k` without quotes or backslashes (the literal is read whole).
pub proof fn an_object_with_a_false_member(k: Seq<char>)
    requires
        forall|n: int| 0 <= n < k.len() ==> #[trigger] k[n] != '"' && k[n] != '\\',
    ensures
        parse_text(one_member_text(k, seq!['f', 'a', 'l', 's', 'e'])) == Some(
            Value::Obj(seq![(k, Value::Bool(false))]),
        ),
{
    let lit = seq!['f', 'a', 'l', 's', 'e'];
    let s = one_member_text(k, lit);
    let j: int = k.len() + 4int;
    assert(s.subrange(j, j + 5) =~= lit);
    assert(s[j] == 'f');
    assert(skip_ws(s, j) == j);
    literals_are_read_whole(s, j);
    lemma_one_member_text(k, lit, Value::Bool(false));
}

/// `{"<k>":true}` reads as the object whose one member `k` is `true`.
pub proof fn an_object_with_a_true_member(k: Seq<char>)
    requires
        forall|n: int| 0 <= n < k.len() ==> #[trigger] k[n] != '"' && k[n] != '\\',
    ensures
        parse_text(one_member_text(k, seq!['t', 'r', 'u', 'e'])) == Some(
            Value::Obj(seq![(k, Value::Bool(true))]),
        ),
{
    let lit = seq!['t', 'r', 'u', 'e'];
    let s = one_member_text(k, lit);
    let j: int = k.len() + 4int;
    assert(s.subrange(j, j + 4) =~= lit);
    assert(s[j] == 't');
    assert(skip_ws(s, j) == j);
    literals_are_read_whole(s, j);
    lemma_one_member_text(k, lit, Value::Bool(true));
}

/// `{"<k>":null}` reads as the object whose one member `k` is `null`.
pub proof fn an_object_with_a_null_member(k: Seq<char>)
    requires
        forall|n: int| 0 <= n < k.len() ==> #[trigger] k[n] != '"' && k[n] != '\\',
    ensures
        parse_text(one_member_text(k, seq!['n', 'u', 'l', 'l'])) == Some(
            Value::Obj(seq![(k, Value::Null)]),
        ),
{
    let lit = seq!['n', 'u', 'l', 'l'];
    let s = one_member_text(k, lit);
    let j: int = k.len() + 4int;
    assert(s.subrange(j, j + 4) =~= lit);
    assert(s[j] == 'n');
    assert(skip_ws(s, j) == j);
    literals_are_read_whole(s, j);
    lemma_one_member_text(k, lit, Value::Null);
}

/// A string without quotes or backslashes reads as itself: `"<k>"` is the
/// string `k`, whatever characters `k` holds.
pub proof fn a_plain_string_reads_as_itself(k: Seq<char>)
    requires
        forall|n: int| 0 <= n < k.len() ==> #[trigger] k[n] != '"' && k[n] != '\\',
    ensures
        parse_text(seq!['"'] + k + seq!['"']) == Some(Value::Str(k)),
{
    let s = seq!['"'] + k + seq!['"'];
    let n = k.len() as int;
    assert forall|m: int| 1 <= m < 1 + n implies #[trigger] s[m] != '"' && s[m] != '\\' by {
        assert(s[m] == k[m - 1]);
    }
    assert(s[0] == '"');
    assert(s[1 + n] == '"');
    assert(without_bom(s) == s);
    assert(skip_ws(s, 0) == 0);
    lemma_plain_string_body(s, 1, 1 + n, Seq::empty());
    assert(Seq::<char>::empty() + s.subrange(1, 1 + n) =~= k);
}

proof fn lemma_num_end_all(s: Seq<char>, i: int)
    requires
        0 <= i <= s.len(),
        forall|k: int| i <= k < s.len() ==> num_char(#[trigger] s[k]),
    ensures
        num_end(s, i) == s.len(),
    decreases s.len() - i,
{
    if i < s.len() {
        lemma_num_end_all(s, i + 1);
    }
}

/// A decimal number reads as its own text: an optional `-`, one or more
/// digits, then, if `frac` has digits, a `.` and those digits.
pub proof fn a_decimal_number_reads_as_its_text(negative: bool, whole: Seq<char>, frac: Seq<char>)
    requires
        whole.len() > 0,
        forall|k: int| 0 <= k < whole.len() ==> is_ascii_digit(#[trigger] whole[k]),
        forall|k: int| 0 <= k < frac.len() ==> is_ascii_digit(#[trigger] frac[k]),
    ensures
        ({
            let t = (if negative {
                seq!['-']
            } else {
                Seq::empty()
            }) + whole + (if frac.len() > 0 {
                seq!['.'] + frac
            } else {
                Seq::empty()
            });
            parse_text(t) == Some(Value::Num(t))
        }),
{
    let sign: Seq<char> = if negative {
        seq!['-']
    } else {
        Seq::empty()
    };
    let rest: Seq<char> = if frac.len() > 0 {
        seq!['.'] + frac
    } else {
        Seq::empty()
    };
    let t = sign + whole + rest;
    let a = sign.len() as int;
    let b = a + whole.len();
    assert forall|k: int| a <= k < b implies is_ascii_digit(#[trigger] t[k]) by {
        assert(t[k] == whole[k - a]);
    }
    assert forall|k: int| 0 <= k < t.len() implies num_char(#[trigger] t[k]) by {
        if k < a {
            assert(t[k] == '-');
        } else if k < b {
            assert(t[k] == whole[k - a]);
        } else if k == b {
            assert(t[k] == '.');
        } else {
            assert(t[k] == frac[k - b - 1]);
        }
    }
    lemma_num_end_all(t, 0);
    assert(t.subrange(0, t.len() as int) =~= t);
    if frac.len() > 0 {
        assert(t[b] == '.');
        crate::text::lemma_digit_end_at(t, a, b);
        assert forall|k: int| b + 1 <= k < t.len() implies is_ascii_digit(#[trigger] t[k]) by {
            assert(t[k] == frac[k - b - 1]);
        }
        crate::text::lemma_digit_end_all(t, b + 1);
    } else {
        crate::text::lemma_digit_end_all(t, a);
        crate::text::lemma_digit_end_all(t, b);
    }
    assert(float_syntax(t));
    assert(t[0] == '-' || is_ascii_digit(t[0]));
    assert(without_bom(t) == t);
    assert(skip_ws(t, 0) == 0);
    assert(parse_number(t, 0) == Some((Value::Num(t), t.len() as int)));
}

/// A byte order mark in front of the payload changes nothing: the payload
/// reads as it would without it. (A second mark is not skipped.)
pub proof fn leading_bom_is_ignored(s: Seq<char>)
    requires
        !(s.len() > 0 && s[0] == '\u{feff}'),
    ensures
        parse_text(seq!['\u{feff}'] + s) == parse_text(s),
{
    assert(without_bom(seq!['\u{feff}'] + s) =~= s);
}

/// Looking a field up never fails: anything that is not an object, and an
/// object without the key, give `Null`, so chains of lookups end in `Null`
/// once one hop is missing.
pub proof fn missing_fields_are_null(v: Value, key: Seq<char>, next: Seq<char>)
    ensures
        !(v is Obj) ==> field(v, key) == Value::Null,
        (v matches Value::Obj(e) && lookup(e, key) is None) ==> field(v, key) == Value::Null,
        field(v, key) == Value::Null ==> field(field(v, key), next) == Value::Null,
{
}

/// A key given twice in an object keeps its last value: after `obj_insert`,
/// the key maps to the new value and every other key to what it had.
pub proof fn later_duplicate_key_wins(e: Seq<(Seq<char>, Value)>, k: Seq<char>, v: Value, other: Seq<char>)
    ensures
        lookup(obj_insert(e, k, v), k) == Some(v),
        other != k ==> lookup(obj_insert(e, k, v), other) == lookup(e, other),
    decreases e.len(),
{
    let r = obj_insert(e, k, v);
    if e.len() == 0 {
        assert(r[0] == (k, v));
        assert(r.drop_first() =~= Seq::<(Seq<char>, Value)>::empty());
        assert(other != k ==> lookup(r, other) == lookup(e, other));
    } else if e[0].0 == k {
        assert(r[0] == (k, v));
        assert(r.drop_first() =~= e.drop_first());
        assert(other != k ==> lookup(r, other) == lookup(e, other));
    } else if key_lt(k, e[0].0) {
        assert(r[0] == (k, v));
        assert(r.drop_first() =~= e);
        assert(other != k ==> lookup(r, other) == lookup(e, other));
    } else {
        later_duplicate_key_wins(e.drop_first(), k, v, other);
        assert(r[0] == e[0]);
        assert(r.drop_first() =~= obj_insert(e.drop_first(), k, v));
        assert(other != k ==> lookup(r, other) == lookup(e, other));
    }
}

/// The field `key` of an object, `Null` when missing or not an object.
pub open spec fn field(v: Value, key: Seq<char>) -> Value {
    match v {
        Value::Obj(e) => match lookup(e, key) {
            Some(x) => x,
            None => Value::Null,
        },
        _ => Value::Null,
    }
}

impl Json {
    /// Field lookup that returns `Null` for anything missing, so callers can
    /// chain `.get("a").get("b")` without checking each hop.
    pub fn get(&self, key: &str) -> (r: &Json)
        ensures
            r@ == field(self@, key@),
    {
        match self {
            Json::Obj(m) => {
                let k = key.to_owned();
                proof {
                    lemma_entry_models(m@);
                }
                let mut n: usize = 0;
                while n < m.len()
                    invariant
                        self@ == Value::Obj(entry_models(m@)),
                        k@ == key@,
                        n <= m@.len(),
                        entry_models(m@).len() == m@.len(),
                        forall|p: int|
                            0 <= p < m@.len() ==> #[trigger] entry_models(m@)[p] == (
                                m@[p].0@,
                                m@[p].1.model(),
                            ),
                        forall|p: int| 0 <= p < n ==> #[trigger] entry_models(m@)[p].0 != key@,
                    decreases m.len() - n,
                {
                    assert(entry_models(m@)[n as int] == (m@[n as int].0@, m@[n as int].1.model()));
                    if m[n].0 == k {
                        proof {
                            lemma_lookup_at(entry_models(m@), key@, n as int);
                        }
                        return &m[n].1;
                    }
                    n = n + 1;
                }
                proof {
                    lemma_lookup_at(entry_models(m@), key@, n as int);
                }
                assert(self@ == Value::Obj(entry_models(m@)));
                assert(field(self@, key@) == Value::Null);
                &Json::Null
            },
            _ => {
                assert(field(self@, key@) == Value::Null);
                &Json::Null
            },
        }
    }

    /// The text of a string value.
    pub fn as_str(&self) -> (r: Option<&str>)
        ensures
            match self@ {
                Value::Str(t) => r matches Some(x) && x@ == t,
                _ => r is None,
            },
    {
        match self {
            Json::Str(s) => Some(s.as_str()),
            _ => None,
        }
    }

    /// The text of a number value, as written in the input.
    pub fn as_number(&self) -> (r: Option<&str>)
        ensures
            match self@ {
                Value::Num(t) => r matches Some(x) && x@ == t,
                _ => r is None,
            },
    {
        match self {
            Json::Num(s) => Some(s.as_str()),
            _ => None,
        }
    }
}

} // verus!
