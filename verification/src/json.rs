//! Structured wire values and their serialisation.
//!
//! The protocol carries self-describing structured values (a JSON subset:
//! null, booleans, unsigned integers, strings, arrays and objects).  The
//! serialisation grammar is fixed by the protocol, so both directions are
//! implemented and verified here: `encode_value` emits the canonical text of
//! a value and `parse_value` reads one back.  `lemma_parse_ser` proves that
//! parsing inverts serialisation for every value.

use vstd::prelude::*;

verus! {

/// A structured wire value.
///
/// Strings are kept as their character sequences; the byte form of a frame
/// is the UTF-8 encoding of the serialised text.
#[derive(Debug, PartialEq, Eq)]
pub enum JsonValue {
    Null,
    Bool(bool),
    UInt(u64),
    Str(Vec<char>),
    Arr(Vec<JsonValue>),
    Obj(Vec<(Vec<char>, JsonValue)>),
}

/// The mathematical model of a structured wire value.
pub enum JsonVal {
    Null,
    Bool(bool),
    UInt(u64),
    Str(Seq<char>),
    Arr(Seq<JsonVal>),
    Obj(Seq<(Seq<char>, JsonVal)>),
}

/// Model of an executable value.
pub open spec fn jv(v: JsonValue) -> JsonVal
    decreases v,
{
    match v {
        JsonValue::Null => JsonVal::Null,
        JsonValue::Bool(b) => JsonVal::Bool(b),
        JsonValue::UInt(n) => JsonVal::UInt(n),
        JsonValue::Str(s) => JsonVal::Str(s@),
        JsonValue::Arr(items) => JsonVal::Arr(jv_seq(items@)),
        JsonValue::Obj(members) => JsonVal::Obj(jv_members(members@)),
    }
}

pub open spec fn jv_seq(s: Seq<JsonValue>) -> Seq<JsonVal>
    decreases s,
{
    if s.len() == 0 {
        Seq::empty()
    } else {
        jv_seq(s.drop_last()).push(jv(s.last()))
    }
}

pub open spec fn jv_members(s: Seq<(Vec<char>, JsonValue)>) -> Seq<(Seq<char>, JsonVal)>
    decreases s,
{
    if s.len() == 0 {
        Seq::empty()
    } else {
        jv_members(s.drop_last()).push((s.last().0@, jv(s.last().1)))
    }
}

impl View for JsonValue {
    type V = JsonVal;

    open spec fn view(&self) -> JsonVal {
        jv(*self)
    }
}

pub open spec fn is_digit(c: char) -> bool {
    48 <= (c as u32) && (c as u32) <= 57
}

pub open spec fn digit_char(d: int) -> char {
    ((48 + d) as u8) as char
}

pub open spec fn hex_char(d: int) -> char {
    if d < 10 {
        digit_char(d)
    } else {
        ((87 + d) as u8) as char
    }
}

/// Decimal text of a non-negative integer, most significant digit first.
pub open spec fn dec_chars(n: int) -> Seq<char>
    decreases n,
{
    if n < 10 {
        seq![digit_char(n)]
    } else {
        dec_chars(n / 10).push(digit_char(n % 10))
    }
}

/// Escape of one string character: quote and backslash get a backslash,
/// control characters become a `\u00XX` sequence, all else stands as itself.
pub open spec fn esc_char(c: char) -> Seq<char> {
    if c == '"' {
        seq!['\\', '"']
    } else if c == '\\' {
        seq!['\\', '\\']
    } else if (c as u32) < 32 {
        seq!['\\', 'u', '0', '0', hex_char(((c as u32) as int) / 16), hex_char(
            ((c as u32) as int) % 16,
        )]
    } else {
        seq![c]
    }
}

pub open spec fn esc(s: Seq<char>) -> Seq<char>
    decreases s.len(),
{
    if s.len() == 0 {
        Seq::empty()
    } else {
        esc_char(s[0]) + esc(s.drop_first())
    }
}

/// Serialised text of a value.
pub open spec fn ser(v: JsonVal) -> Seq<char>
    decreases v,
{
    match v {
        JsonVal::Null => seq!['n', 'u', 'l', 'l'],
        JsonVal::Bool(b) => if b {
            seq!['t', 'r', 'u', 'e']
        } else {
            seq!['f', 'a', 'l', 's', 'e']
        },
        JsonVal::UInt(n) => dec_chars(n as int),
        JsonVal::Str(s) => seq!['"'] + esc(s) + seq!['"'],
        JsonVal::Arr(items) => seq!['['] + ser_items(items) + seq![']'],
        JsonVal::Obj(members) => seq!['{'] + ser_members(members) + seq!['}'],
    }
}

/// Comma-separated serialisation of array elements.
pub open spec fn ser_items(items: Seq<JsonVal>) -> Seq<char>
    decreases items,
{
    if items.len() == 0 {
        Seq::empty()
    } else if items.len() == 1 {
        ser(items[0])
    } else {
        ser_items(items.drop_last()) + seq![','] + ser(items.last())
    }
}

pub open spec fn ser_member(m: (Seq<char>, JsonVal)) -> Seq<char>
    decreases m,
{
    seq!['"'] + esc(m.0) + seq!['"', ':'] + ser(m.1)
}

/// Comma-separated serialisation of object members.
pub open spec fn ser_members(members: Seq<(Seq<char>, JsonVal)>) -> Seq<char>
    decreases members,
{
    if members.len() == 0 {
        Seq::empty()
    } else if members.len() == 1 {
        ser_member(members[0])
    } else {
        ser_members(members.drop_last()) + seq![','] + ser_member(members.last())
    }
}

fn digit_exec(d: u64) -> (c: char)
    requires
        d < 10,
    ensures
        c == digit_char(d as int),
{
    ((48 + d) as u8) as char
}

fn hex_exec(d: u32) -> (c: char)
    requires
        d < 16,
    ensures
        c == hex_char(d as int),
{
    if d < 10 {
        ((48 + d) as u8) as char
    } else {
        ((87 + d) as u8) as char
    }
}

fn write_dec(n: u64, out: &mut Vec<char>)
    ensures
        final(out)@ == old(out)@ + dec_chars(n as int),
    decreases n,
{
    if n < 10 {
        out.push(digit_exec(n));
    } else {
        write_dec(n / 10, out);
        out.push(digit_exec(n % 10));
    }
}

proof fn lemma_esc_append(a: Seq<char>, b: Seq<char>)
    ensures
        esc(a + b) == esc(a) + esc(b),
    decreases a.len(),
{
    if a.len() == 0 {
        assert(a + b =~= b);
        assert(esc(a) + esc(b) =~= esc(b));
    } else {
        assert((a + b).drop_first() =~= a.drop_first() + b);
        lemma_esc_append(a.drop_first(), b);
        assert(esc(a + b) =~= esc(a) + esc(b));
    }
}

fn write_escaped(s: &Vec<char>, out: &mut Vec<char>)
    ensures
        final(out)@ == old(out)@ + esc(s@),
{
    let ghost start = out@;
    let n = s.len();
    let mut i: usize = 0;
    while i < n
        invariant
            n == s@.len(),
            i <= n,
            out@ == start + esc(s@.take(i as int)),
        decreases n - i,
    {
        let c = s[i];
        let u = c as u32;
        if c == '"' {
            out.push('\\');
            out.push('"');
        } else if c == '\\' {
            out.push('\\');
            out.push('\\');
        } else if u < 32 {
            out.push('\\');
            out.push('u');
            out.push('0');
            out.push('0');
            out.push(hex_exec(u / 16));
            out.push(hex_exec(u % 16));
        } else {
            out.push(c);
        }
        proof {
            assert(s@.take(i + 1) =~= s@.take(i as int) + seq![s@[i as int]]);
            lemma_esc_append(s@.take(i as int), seq![s@[i as int]]);
            assert(seq![s@[i as int]].drop_first() =~= Seq::<char>::empty());
            assert(esc(Seq::<char>::empty()) == Seq::<char>::empty());
            assert(esc(seq![s@[i as int]]) =~= esc_char(s@[i as int]));
            assert(out@ == start + esc(s@.take(i + 1)));
        }
        i = i + 1;
    }
    proof {
        assert(s@.take(n as int) =~= s@);
    }
}

/// Append the serialised text of `v` to `out`.
#[verifier::loop_isolation(false)]
#[verifier::rlimit(80)]
pub fn write_value(v: &JsonValue, out: &mut Vec<char>)
    ensures
        final(out)@ == old(out)@ + ser(jv(*v)),
    decreases *v,
{
    match v {
        JsonValue::Null => {
            out.push('n');
            out.push('u');
            out.push('l');
            out.push('l');
            proof {
                assert(out@ =~= old(out)@ + ser(jv(*v)));
            }
        },
        JsonValue::Bool(b) => {
            if *b {
                out.push('t');
                out.push('r');
                out.push('u');
                out.push('e');
            } else {
                out.push('f');
                out.push('a');
                out.push('l');
                out.push('s');
                out.push('e');
            }
            proof {
                assert(out@ =~= old(out)@ + ser(jv(*v)));
            }
        },
        JsonValue::UInt(n) => {
            write_dec(*n, out);
        },
        JsonValue::Str(s) => {
            out.push('"');
            write_escaped(s, out);
            out.push('"');
            proof {
                assert(out@ =~= old(out)@ + ser(jv(*v)));
            }
        },
        JsonValue::Arr(items) => {
            out.push('[');
            let ghost start = out@;
            let n = items.len();
            let mut i: usize = 0;
            while i < n
                invariant
                    n == items@.len(),
                    i <= n,
                    out@ == start + ser_items(jv_seq(items@.take(i as int))),
                    forall|k: int| 0 <= k < n ==> items@[k] == items@.take(n as int)[k],
                decreases n - i,
            {
                if i > 0 {
                    out.push(',');
                }
                proof {
                    assert(decreases_to!(*v => *items));
                    assert(decreases_to!(*items => items@));
                    assert(decreases_to!(items@ => items@[i as int]));
                }
                write_value(&items[i], out);
                proof {
                    lemma_jv_seq_take_push(items@, i as int);
                    if i == 0 {
                        assert(jv_seq(items@.take(1)) =~= seq![jv(items@[0])]);
                        assert(ser_items(jv_seq(items@.take(1))) =~= ser(jv(items@[0])));
                    } else {
                        let p = jv_seq(items@.take(i + 1));
                        assert(p.drop_last() =~= jv_seq(items@.take(i as int)));
                        assert(p.last() == jv(items@[i as int]));
                        assert(ser_items(p) =~= ser_items(p.drop_last()) + seq![','] + ser(
                            p.last(),
                        ));
                    }
                    assert(out@ =~= start + ser_items(jv_seq(items@.take(i + 1))));
                }
                i = i + 1;
            }
            out.push(']');
            proof {
                assert(items@.take(n as int) =~= items@);
                assert(out@ =~= old(out)@ + ser(jv(*v)));
            }
        },
        JsonValue::Obj(members) => {
            out.push('{');
            let ghost start = out@;
            let n = members.len();
            let mut i: usize = 0;
            while i < n
                invariant
                    n == members@.len(),
                    i <= n,
                    out@ == start + ser_members(jv_members(members@.take(i as int))),
                decreases n - i,
            {
                if i > 0 {
                    out.push(',');
                }
                out.push('"');
                write_escaped(&members[i].0, out);
                out.push('"');
                out.push(':');
                proof {
                    assert(decreases_to!(*v => *members));
                    assert(decreases_to!(*members => members@));
                    assert(decreases_to!(members@ => members@[i as int]));
                    assert(decreases_to!(members@[i as int] => members@[i as int].1));
                }
                write_value(&members[i].1, out);
                proof {
                    lemma_jv_members_take_push(members@, i as int);
                    let m = (members@[i as int].0@, jv(members@[i as int].1));
                    assert(ser_member(m) =~= seq!['"'] + esc(members@[i as int].0@) + seq![
                        '"',
                        ':',
                    ] + ser(jv(members@[i as int].1)));
                    if i == 0 {
                        assert(jv_members(members@.take(1)) =~= seq![m]);
                        assert(ser_members(jv_members(members@.take(1))) =~= ser_member(m));
                    } else {
                        let p = jv_members(members@.take(i + 1));
                        assert(p.drop_last() =~= jv_members(members@.take(i as int)));
                        assert(p.last() == m);
                        assert(ser_members(p) =~= ser_members(p.drop_last()) + seq![',']
                            + ser_member(p.last()));
                    }
                    assert(out@ =~= start + ser_members(jv_members(members@.take(i + 1))));
                }
                i = i + 1;
            }
            out.push('}');
            proof {
                assert(members@.take(n as int) =~= members@);
                assert(out@ =~= old(out)@ + ser(jv(*v)));
            }
        },
    }
}

proof fn lemma_jv_seq_take_push(s: Seq<JsonValue>, i: int)
    requires
        0 <= i < s.len(),
    ensures
        jv_seq(s.take(i + 1)) == jv_seq(s.take(i)).push(jv(s[i])),
{
    let t = s.take(i + 1);
    assert(t.drop_last() =~= s.take(i));
    assert(t.last() == s[i]);
    assert(jv_seq(t) =~= jv_seq(s.take(i)).push(jv(s[i])));
}

proof fn lemma_jv_members_take_push(s: Seq<(Vec<char>, JsonValue)>, i: int)
    requires
        0 <= i < s.len(),
    ensures
        jv_members(s.take(i + 1)) == jv_members(s.take(i)).push((s[i].0@, jv(s[i].1))),
{
    let t = s.take(i + 1);
    assert(t.drop_last() =~= s.take(i));
    assert(t.last() == s[i]);
    assert(jv_members(t) =~= jv_members(s.take(i)).push((s[i].0@, jv(s[i].1))));
}

/// A value equal to the given one, field for field.
#[verifier::loop_isolation(false)]
pub fn copy_value(v: &JsonValue) -> (r: JsonValue)
    ensures
        jv(r) == jv(*v),
    decreases *v,
{
    match v {
        JsonValue::Null => JsonValue::Null,
        JsonValue::Bool(b) => JsonValue::Bool(*b),
        JsonValue::UInt(n) => JsonValue::UInt(*n),
        JsonValue::Str(s) => JsonValue::Str(vstd::slice::slice_to_vec(s.as_slice())),
        JsonValue::Arr(items) => {
            let n = items.len();
            let mut out: Vec<JsonValue> = Vec::new();
            let mut i: usize = 0;
            while i < n
                invariant
                    n == items@.len(),
                    i <= n,
                    jv_seq(out@) == jv_seq(items@.take(i as int)),
                decreases n - i,
            {
                proof {
                    assert(decreases_to!(*v => *items));
                    assert(decreases_to!(*items => items@));
                    assert(decreases_to!(items@ => items@[i as int]));
                }
                let c = copy_value(&items[i]);
                let ghost cv = jv(c);
                let ghost prev = out@;
                out.push(c);
                proof {
                    lemma_jv_seq_push(prev, cv);
                    assert(jv_seq(prev.push(c)) == jv_seq(prev).push(cv));
                    lemma_jv_seq_take_push(items@, i as int);
                }
                i = i + 1;
            }
            proof {
                assert(items@.take(n as int) =~= items@);
            }
            JsonValue::Arr(out)
        },
        JsonValue::Obj(members) => {
            let n = members.len();
            let mut out: Vec<(Vec<char>, JsonValue)> = Vec::new();
            let mut i: usize = 0;
            while i < n
                invariant
                    n == members@.len(),
                    i <= n,
                    jv_members(out@) == jv_members(members@.take(i as int)),
                decreases n - i,
            {
                proof {
                    assert(decreases_to!(*v => *members));
                    assert(decreases_to!(*members => members@));
                    assert(decreases_to!(members@ => members@[i as int]));
                    assert(decreases_to!(members@[i as int] => members@[i as int].1));
                }
                let k = vstd::slice::slice_to_vec(members[i].0.as_slice());
                let c = copy_value(&members[i].1);
                let ghost kv = k@;
                let ghost cv = jv(c);
                let ghost prev = out@;
                out.push((k, c));
                proof {
                    lemma_jv_members_push(prev, kv, cv);
                    assert(jv_members(prev.push((k, c))) == jv_members(prev).push((kv, cv)));
                    lemma_jv_members_take_push(members@, i as int);
                }
                i = i + 1;
            }
            proof {
                assert(members@.take(n as int) =~= members@);
            }
            JsonValue::Obj(out)
        },
    }
}

/// Serialised text of a value, as a fresh character vector.
pub fn encode_value(v: &JsonValue) -> (out: Vec<char>)
    ensures
        out@ == ser(v@),
{
    let mut out: Vec<char> = Vec::new();
    write_value(v, &mut out);
    out
}

pub open spec fn is_hex(c: char) -> bool {
    is_digit(c) || (97 <= (c as u32) && (c as u32) <= 102) || (65 <= (c as u32) && (c as u32)
        <= 70)
}

pub open spec fn digit_val(c: char) -> int {
    (c as u32) - 48
}

pub open spec fn hex_val(c: char) -> int {
    if is_digit(c) {
        (c as u32) - 48
    } else if 97 <= (c as u32) && (c as u32) <= 102 {
        (c as u32) - 87
    } else {
        (c as u32) - 55
    }
}

/// Unescaped form of one escape letter, for the single-letter escapes.
pub open spec fn unesc_letter(e: char) -> Option<char> {
    if e == '"' {
        Some('"')
    } else if e == '\\' {
        Some('\\')
    } else if e == '/' {
        Some('/')
    } else if e == 'n' {
        Some('\n')
    } else if e == 't' {
        Some('\t')
    } else if e == 'r' {
        Some('\r')
    } else if e == 'b' {
        Some((8 as u8) as char)
    } else if e == 'f' {
        Some((12 as u8) as char)
    } else {
        None
    }
}

/// Greedy digit run starting at `i`: the accumulated value and the number of
/// digits consumed.
pub open spec fn sp_digits(s: Seq<char>, i: int, acc: int) -> (int, nat)
    decreases s.len() - i,
{
    if 0 <= i < s.len() && is_digit(s[i]) {
        let r = sp_digits(s, i + 1, acc * 10 + digit_val(s[i]));
        (r.0, (r.1 + 1) as nat)
    } else {
        (acc, 0 as nat)
    }
}

/// String characters from `i` (just after the opening quote) up to and
/// including the closing quote: the decoded characters and the count of
/// serialised characters consumed.
pub open spec fn sp_string_body(s: Seq<char>, i: int) -> Option<(Seq<char>, nat)>
    decreases s.len() - i,
{
    if i < 0 || i >= s.len() {
        None
    } else {
        let c = s[i];
        if c == '"' {
            Some((Seq::empty(), 1 as nat))
        } else if c == '\\' {
            if i + 1 >= s.len() {
                None
            } else {
                let e = s[i + 1];
                if e == 'u' {
                    if i + 6 <= s.len() && is_hex(s[i + 2]) && is_hex(s[i + 3]) && is_hex(
                        s[i + 4],
                    ) && is_hex(s[i + 5]) {
                        let hv = hex_val(s[i + 2]) * 4096 + hex_val(s[i + 3]) * 256 + hex_val(
                            s[i + 4],
                        ) * 16 + hex_val(s[i + 5]);
                        if hv <= 255 {
                            match sp_string_body(s, i + 6) {
                                Some((q, n)) => Some(
                                    (seq![((hv as u8) as char)] + q, (n + 6) as nat),
                                ),
                                None => None,
                            }
                        } else {
                            None
                        }
                    } else {
                        None
                    }
                } else {
                    match unesc_letter(e) {
                        Some(m) => match sp_string_body(s, i + 2) {
                            Some((q, n)) => Some((seq![m] + q, (n + 2) as nat)),
                            None => None,
                        },
                        None => None,
                    }
                }
            }
        } else {
            match sp_string_body(s, i + 1) {
                Some((q, n)) => Some((seq![c] + q, (n + 1) as nat)),
                None => None,
            }
        }
    }
}

/// One structured value starting at `i`: the value and the count of
/// characters consumed.
pub open spec fn sp_value(s: Seq<char>, i: int) -> Option<(JsonVal, nat)>
    decreases s.len() - i, 0int,
{
    if i < 0 || i >= s.len() {
        None
    } else {
        let c = s[i];
        if c == 'n' {
            if i + 4 <= s.len() && s[i + 1] == 'u' && s[i + 2] == 'l' && s[i + 3] == 'l' {
                Some((JsonVal::Null, 4 as nat))
            } else {
                None
            }
        } else if c == 't' {
            if i + 4 <= s.len() && s[i + 1] == 'r' && s[i + 2] == 'u' && s[i + 3] == 'e' {
                Some((JsonVal::Bool(true), 4 as nat))
            } else {
                None
            }
        } else if c == 'f' {
            if i + 5 <= s.len() && s[i + 1] == 'a' && s[i + 2] == 'l' && s[i + 3] == 's' && s[i
                + 4] == 'e' {
                Some((JsonVal::Bool(false), 5 as nat))
            } else {
                None
            }
        } else if c == '"' {
            match sp_string_body(s, i + 1) {
                Some((q, n)) => Some((JsonVal::Str(q), (n + 1) as nat)),
                None => None,
            }
        } else if is_digit(c) {
            let r = sp_digits(s, i, 0);
            if r.0 > u64::MAX as int {
                None
            } else {
                Some((JsonVal::UInt(r.0 as u64), r.1))
            }
        } else if c == '[' {
            if i + 1 < s.len() && s[i + 1] == ']' {
                Some((JsonVal::Arr(Seq::empty()), 2 as nat))
            } else {
                match sp_items(s, i + 1) {
                    Some((items, n)) => Some((JsonVal::Arr(items), (n + 1) as nat)),
                    None => None,
                }
            }
        } else if c == '{' {
            if i + 1 < s.len() && s[i + 1] == '}' {
                Some((JsonVal::Obj(Seq::empty()), 2 as nat))
            } else {
                match sp_members(s, i + 1) {
                    Some((members, n)) => Some((JsonVal::Obj(members), (n + 1) as nat)),
                    None => None,
                }
            }
        } else {
            None
        }
    }
}

/// One or more comma-separated array elements starting at `i` (just after
/// `[` or a comma), up to and including the closing bracket.
pub open spec fn sp_items(s: Seq<char>, i: int) -> Option<(Seq<JsonVal>, nat)>
    decreases s.len() - i, 1int,
{
    match sp_value(s, i) {
        Some((v, n)) => {
            let j = i + n;
            if j < s.len() && s[j] == ',' {
                match sp_items(s, j + 1) {
                    Some((items, m)) => Some((seq![v] + items, (n + 1 + m) as nat)),
                    None => None,
                }
            } else if j < s.len() && s[j] == ']' {
                Some((seq![v], (n + 1) as nat))
            } else {
                None
            }
        },
        None => None,
    }
}

/// One or more comma-separated object members starting at `i` (just after
/// `{` or a comma), up to and including the closing brace.
pub open spec fn sp_members(s: Seq<char>, i: int) -> Option<(Seq<(Seq<char>, JsonVal)>, nat)>
    decreases s.len() - i, 1int,
{
    if 0 <= i < s.len() && s[i] == '"' {
        match sp_string_body(s, i + 1) {
            Some((k, kn)) => {
                let j = i + 1 + kn;
                if j < s.len() && s[j] == ':' {
                    match sp_value(s, j + 1) {
                        Some((v, vn)) => {
                            let e = j + 1 + vn;
                            if e < s.len() && s[e] == ',' {
                                match sp_members(s, e + 1) {
                                    Some((ms, mn)) => Some(
                                        (seq![(k, v)] + ms, (e + 1 - i + mn) as nat),
                                    ),
                                    None => None,
                                }
                            } else if e < s.len() && s[e] == '}' {
                                Some((seq![(k, v)], (e + 1 - i) as nat))
                            } else {
                                None
                            }
                        },
                        None => None,
                    }
                } else {
                    None
                }
            },
            None => None,
        }
    } else {
        None
    }
}

fn is_digit_exec(c: char) -> (r: bool)
    ensures
        r == is_digit(c),
{
    let u = c as u32;
    48 <= u && u <= 57
}

fn is_hex_exec(c: char) -> (r: bool)
    ensures
        r == is_hex(c),
{
    let u = c as u32;
    (48 <= u && u <= 57) || (97 <= u && u <= 102) || (65 <= u && u <= 70)
}

fn hex_val_exec(c: char) -> (r: u32)
    requires
        is_hex(c),
    ensures
        r as int == hex_val(c),
{
    let u = c as u32;
    if 48 <= u && u <= 57 {
        u - 48
    } else if 97 <= u && u <= 102 {
        u - 87
    } else {
        u - 55
    }
}

fn unesc_letter_exec(e: char) -> (r: Option<char>)
    ensures
        r == unesc_letter(e),
{
    if e == '"' {
        Some('"')
    } else if e == '\\' {
        Some('\\')
    } else if e == '/' {
        Some('/')
    } else if e == 'n' {
        Some('\n')
    } else if e == 't' {
        Some('\t')
    } else if e == 'r' {
        Some('\r')
    } else if e == 'b' {
        Some((8 as u8) as char)
    } else if e == 'f' {
        Some((12 as u8) as char)
    } else {
        None
    }
}

/// Scan a digit run, accumulating its value; reports `None` on a value that
/// does not fit in a `u64`, exactly where the run's accumulated value
/// exceeds `u64::MAX`.
fn parse_digits(s: &Vec<char>, i: usize, acc: u64) -> (r: Option<(u64, usize)>)
    requires
        i <= s@.len(),
    ensures
        ({
            let sp = sp_digits(s@, i as int, acc as int);
            match r {
                Some((val, n)) => sp.0 == val as int && sp.1 == n as nat && i + n <= s@.len()
                    && sp.0 <= u64::MAX as int,
                None => sp.0 > u64::MAX as int,
            }
        }),
    decreases s@.len() - i,
{
    if i < s.len() && is_digit_exec(s[i]) {
        let d = (s[i] as u32 - 48) as u64;
        proof {
            assert(d as int == digit_val(s@[i as int]));
        }
        match acc.checked_mul(10) {
            Some(acc10) => match acc10.checked_add(d) {
                Some(acc2) => {
                    match parse_digits(s, i + 1, acc2) {
                        Some((val, n)) => Some((val, n + 1)),
                        None => None,
                    }
                },
                None => {
                    proof {
                        lemma_sp_digits_monotone(s@, i + 1, acc as int * 10 + d);
                    }
                    None
                },
            },
            None => {
                proof {
                    lemma_sp_digits_monotone(s@, i + 1, acc as int * 10 + d);
                }
                None
            },
        }
    } else {
        Some((acc, 0))
    }
}

/// The accumulated value of a digit run never falls below its starting
/// accumulator.
proof fn lemma_sp_digits_monotone(s: Seq<char>, i: int, acc: int)
    requires
        acc >= 0,
    ensures
        sp_digits(s, i, acc).0 >= acc,
    decreases s.len() - i,
{
    if 0 <= i < s.len() && is_digit(s[i]) {
        lemma_sp_digits_monotone(s, i + 1, acc * 10 + digit_val(s[i]));
    }
}

/// Decode string characters from `i` (just after the opening quote) through
/// the closing quote, appending the decoded characters to `out`; returns the
/// count of serialised characters consumed.
#[verifier::loop_isolation(false)]
fn parse_string_into(s: &Vec<char>, i: usize, out: &mut Vec<char>) -> (r: Option<usize>)
    requires
        i <= s@.len(),
    ensures
        ({
            match (r, sp_string_body(s@, i as int)) {
                (Some(n), Some((q, sn))) => n as nat == sn && i + n <= s@.len() && final(out)@
                    == old(out)@ + q,
                (None, None) => true,
                _ => false,
            }
        }),
    decreases s@.len() - i,
{
    if i >= s.len() {
        return None;
    }
    let c = s[i];
    if c == '"' {
        proof {
            assert(old(out)@ + Seq::<char>::empty() =~= old(out)@);
        }
        Some(1)
    } else if c == '\\' {
        if i + 1 >= s.len() {
            return None;
        }
        let e = s[i + 1];
        if e == 'u' {
            if s.len() - i >= 6 && is_hex_exec(s[i + 2]) && is_hex_exec(s[i + 3]) && is_hex_exec(
                s[i + 4],
            ) && is_hex_exec(s[i + 5]) {
                let hv = hex_val_exec(s[i + 2]) * 4096 + hex_val_exec(s[i + 3]) * 256
                    + hex_val_exec(s[i + 4]) * 16 + hex_val_exec(s[i + 5]);
                if hv <= 255 {
                    let ghost mid = out@;
                    out.push((hv as u8) as char);
                    match parse_string_into(s, i + 6, out) {
                        Some(n) => {
                            proof {
                                let q = sp_string_body(s@, i + 6).unwrap().0;
                                assert(final(out)@ =~= old(out)@ + (seq![((hv as u8) as char)]
                                    + q));
                            }
                            Some(n + 6)
                        },
                        None => None,
                    }
                } else {
                    None
                }
            } else {
                None
            }
        } else {
            match unesc_letter_exec(e) {
                Some(m) => {
                    out.push(m);
                    match parse_string_into(s, i + 2, out) {
                        Some(n) => {
                            proof {
                                let q = sp_string_body(s@, i + 2).unwrap().0;
                                assert(final(out)@ =~= old(out)@ + (seq![m] + q));
                            }
                            Some(n + 2)
                        },
                        None => None,
                    }
                },
                None => None,
            }
        }
    } else {
        out.push(c);
        match parse_string_into(s, i + 1, out) {
            Some(n) => {
                proof {
                    let q = sp_string_body(s@, i + 1).unwrap().0;
                    assert(final(out)@ =~= old(out)@ + (seq![c] + q));
                }
                Some(n + 1)
            },
            None => None,
        }
    }
}

/// Parse one structured value starting at `i`; returns the value and the
/// count of characters consumed.
#[verifier::rlimit(80)]
pub fn parse_value(s: &Vec<char>, i: usize) -> (r: Option<(JsonValue, usize)>)
    requires
        i <= s@.len(),
    ensures
        ({
            match (r, sp_value(s@, i as int)) {
                (Some((v, n)), Some((sv, sn))) => jv(v) == sv && n as nat == sn && i + n
                    <= s@.len(),
                (None, None) => true,
                _ => false,
            }
        }),
    decreases s@.len() - i, 0int,
{
    if i >= s.len() {
        return None;
    }
    let c = s[i];
    if c == 'n' {
        if s.len() - i >= 4 && s[i + 1] == 'u' && s[i + 2] == 'l' && s[i + 3] == 'l' {
            Some((JsonValue::Null, 4))
        } else {
            None
        }
    } else if c == 't' {
        if s.len() - i >= 4 && s[i + 1] == 'r' && s[i + 2] == 'u' && s[i + 3] == 'e' {
            Some((JsonValue::Bool(true), 4))
        } else {
            None
        }
    } else if c == 'f' {
        if s.len() - i >= 5 && s[i + 1] == 'a' && s[i + 2] == 'l' && s[i + 3] == 's' && s[i + 4]
            == 'e' {
            Some((JsonValue::Bool(false), 5))
        } else {
            None
        }
    } else if c == '"' {
        let mut q: Vec<char> = Vec::new();
        match parse_string_into(s, i + 1, &mut q) {
            Some(n) => Some((JsonValue::Str(q), n + 1)),
            None => None,
        }
    } else if is_digit_exec(c) {
        match parse_digits(s, i, 0) {
            Some((val, n)) => Some((JsonValue::UInt(val), n)),
            None => None,
        }
    } else if c == '[' {
        if s.len() - i >= 2 && s[i + 1] == ']' {
            proof {
                assert(jv_seq(Seq::<JsonValue>::empty()) =~= Seq::<JsonVal>::empty());
            }
            Some((JsonValue::Arr(Vec::new()), 2))
        } else {
            let mut items: Vec<JsonValue> = Vec::new();
            match parse_items_into(s, i + 1, &mut items) {
                Some(n) => Some((JsonValue::Arr(items), n + 1)),
                None => None,
            }
        }
    } else if c == '{' {
        if s.len() - i >= 2 && s[i + 1] == '}' {
            proof {
                assert(jv_members(Seq::<(Vec<char>, JsonValue)>::empty()) =~= Seq::<
                    (Seq<char>, JsonVal),
                >::empty());
            }
            Some((JsonValue::Obj(Vec::new()), 2))
        } else {
            let mut members: Vec<(Vec<char>, JsonValue)> = Vec::new();
            match parse_members_into(s, i + 1, &mut members) {
                Some(n) => Some((JsonValue::Obj(members), n + 1)),
                None => None,
            }
        }
    } else {
        None
    }
}

/// Parse array elements from `i` through the closing bracket, appending each
/// element to `out`; returns the count of characters consumed.
fn parse_items_into(s: &Vec<char>, i: usize, out: &mut Vec<JsonValue>) -> (r: Option<usize>)
    requires
        i <= s@.len(),
    ensures
        ({
            match (r, sp_items(s@, i as int)) {
                (Some(n), Some((items, sn))) => n as nat == sn && i + n <= s@.len() && jv_seq(
                    final(out)@,
                ) == jv_seq(old(out)@) + items,
                (None, None) => true,
                _ => false,
            }
        }),
    decreases s@.len() - i, 1int,
{
    match parse_value(s, i) {
        Some((v, n)) => {
            let slen = s.len();
            let j = i + n;
            let ghost sval = jv(v);
            out.push(v);
            proof {
                lemma_jv_seq_push(old(out)@, sval);
            }
            if j < s.len() && s[j] == ',' {
                match parse_items_into(s, j + 1, out) {
                    Some(m) => {
                        proof {
                            let items = sp_items(s@, j + 1).unwrap().0;
                            assert(jv_seq(final(out)@) =~= jv_seq(old(out)@) + (seq![sval]
                                + items));
                        }
                        Some(n + 1 + m)
                    },
                    None => None,
                }
            } else if j < s.len() && s[j] == ']' {
                proof {
                    assert(jv_seq(final(out)@) =~= jv_seq(old(out)@) + seq![sval]);
                }
                Some(n + 1)
            } else {
                None
            }
        },
        None => None,
    }
}

/// Parse object members from `i` through the closing brace, appending each
/// member to `out`; returns the count of characters consumed.
#[verifier::rlimit(80)]
fn parse_members_into(s: &Vec<char>, i: usize, out: &mut Vec<(Vec<char>, JsonValue)>) -> (r:
    Option<usize>)
    requires
        i <= s@.len(),
    ensures
        ({
            match (r, sp_members(s@, i as int)) {
                (Some(n), Some((ms, sn))) => n as nat == sn && i + n <= s@.len() && jv_members(
                    final(out)@,
                ) == jv_members(old(out)@) + ms,
                (None, None) => true,
                _ => false,
            }
        }),
    decreases s@.len() - i, 1int,
{
    if i < s.len() && s[i] == '"' {
        let mut key: Vec<char> = Vec::new();
        match parse_string_into(s, i + 1, &mut key) {
            Some(kn) => {
                let j = i + 1 + kn;
                if j < s.len() && s[j] == ':' {
                    match parse_value(s, j + 1) {
                        Some((v, vn)) => {
                            let e = j + 1 + vn;
                            let ghost kq = key@;
                            let ghost sval = jv(v);
                            out.push((key, v));
                            proof {
                                lemma_jv_members_push(old(out)@, kq, sval);
                            }
                            if e < s.len() && s[e] == ',' {
                                match parse_members_into(s, e + 1, out) {
                                    Some(mn) => {
                                        proof {
                                            let ms = sp_members(s@, e + 1).unwrap().0;
                                            assert(jv_members(final(out)@) =~= jv_members(
                                                old(out)@,
                                            ) + (seq![(kq, sval)] + ms));
                                        }
                                        Some(e + 1 - i + mn)
                                    },
                                    None => None,
                                }
                            } else if e < s.len() && s[e] == '}' {
                                proof {
                                    assert(jv_members(final(out)@) =~= jv_members(old(out)@)
                                        + seq![(kq, sval)]);
                                }
                                Some(e + 1 - i)
                            } else {
                                None
                            }
                        },
                        None => None,
                    }
                } else {
                    None
                }
            },
            None => None,
        }
    } else {
        None
    }
}

pub proof fn lemma_jv_seq_push(s: Seq<JsonValue>, x: JsonVal)
    ensures
        forall|v: JsonValue| jv(v) == x ==> jv_seq(s.push(v)) == jv_seq(s).push(x),
{
    assert forall|v: JsonValue| jv(v) == x implies jv_seq(s.push(v)) == jv_seq(s).push(x) by {
        let t = s.push(v);
        assert(t.drop_last() =~= s);
        assert(t.last() == v);
    }
}

pub proof fn lemma_jv_members_push(s: Seq<(Vec<char>, JsonValue)>, k: Seq<char>, x: JsonVal)
    ensures
        forall|kv: Vec<char>, v: JsonValue|
            kv@ == k && jv(v) == x ==> jv_members(s.push((kv, v))) == jv_members(s).push((k, x)),
{
    assert forall|kv: Vec<char>, v: JsonValue|
        kv@ == k && jv(v) == x implies jv_members(s.push((kv, v))) == jv_members(s).push(
        (k, x),
    ) by {
        let t = s.push((kv, v));
        assert(t.drop_last() =~= s);
        assert(t.last() == (kv, v));
    }
}

/// Parse a whole payload: one value that must cover the entire text.
pub fn parse_payload(s: &Vec<char>) -> (r: Option<JsonValue>)
    ensures
        match r {
            Some(v) => sp_payload(s@) == Some(jv(v)),
            None => sp_payload(s@) == None::<JsonVal>,
        },
{
    match parse_value(s, 0) {
        Some((v, n)) => {
            if n == s.len() {
                Some(v)
            } else {
                None
            }
        },
        None => None,
    }
}

/// A whole payload: one value covering the entire text.
pub open spec fn sp_payload(s: Seq<char>) -> Option<JsonVal> {
    match sp_value(s, 0) {
        Some((v, n)) => if n == s.len() {
            Some(v)
        } else {
            None
        },
        None => None,
    }
}

pub open spec fn pow10(k: nat) -> int
    decreases k,
{
    if k == 0 {
        1
    } else {
        10 * pow10((k - 1) as nat)
    }
}

proof fn lemma_pow10_pos(k: nat)
    ensures
        pow10(k) >= 1,
    decreases k,
{
    if k > 0 {
        lemma_pow10_pos((k - 1) as nat);
    }
}

/// Value of a digit sequence read most significant digit first.
pub open spec fn dval_l(d: Seq<char>) -> int
    decreases d.len(),
{
    if d.len() == 0 {
        0
    } else {
        digit_val(d[0]) * pow10((d.len() - 1) as nat) + dval_l(d.drop_first())
    }
}

proof fn lemma_dval_push(d: Seq<char>, x: char)
    ensures
        dval_l(d.push(x)) == dval_l(d) * 10 + digit_val(x),
    decreases d.len(),
{
    if d.len() == 0 {
        assert(d.push(x)[0] == x);
        assert(d.push(x).drop_first() =~= Seq::<char>::empty());
        assert(dval_l(Seq::<char>::empty()) == 0);
        assert(dval_l(d.push(x)) == digit_val(x) * pow10(0) + 0);
        assert(digit_val(x) * 1 == digit_val(x)) by (nonlinear_arith);
    } else {
        assert(d.push(x).drop_first() =~= d.drop_first().push(x));
        lemma_dval_push(d.drop_first(), x);
        let a = digit_val(d[0]);
        let p = pow10((d.len() - 1) as nat);
        assert(pow10(d.len() as nat) == 10 * p);
        assert(d.push(x)[0] == d[0]);
        assert(d.push(x).len() - 1 == d.len());
        assert(dval_l(d.push(x)) == a * pow10(d.len() as nat) + dval_l(d.drop_first().push(x)));
        assert(dval_l(d.push(x)) == a * (10 * p) + dval_l(d.drop_first()) * 10 + digit_val(x));
        assert(a * (10 * p) == (a * p) * 10) by (nonlinear_arith);
        assert(dval_l(d) == a * p + dval_l(d.drop_first()));
        assert((a * p + dval_l(d.drop_first())) * 10 == (a * p) * 10 + dval_l(d.drop_first())
            * 10);
    }
}

proof fn lemma_dec_chars_props(n: int)
    requires
        n >= 0,
    ensures
        dec_chars(n).len() >= 1,
        forall|k: int| 0 <= k < dec_chars(n).len() ==> is_digit(#[trigger] dec_chars(n)[k]),
        dval_l(dec_chars(n)) == n,
    decreases n,
{
    if n < 10 {
        assert(is_digit(digit_char(n)));
        assert(dec_chars(n) =~= seq![digit_char(n)]);
        assert(dec_chars(n).drop_first() =~= Seq::<char>::empty());
        assert(dval_l(Seq::<char>::empty()) == 0);
        assert(dval_l(dec_chars(n)) == digit_val(digit_char(n)) * pow10(0) + 0);
        assert(digit_val(digit_char(n)) == n);
        assert(n * 1 == n) by (nonlinear_arith);
    } else {
        lemma_dec_chars_props(n / 10);
        lemma_dval_push(dec_chars(n / 10), digit_char(n % 10));
        assert(digit_val(digit_char(n % 10)) == n % 10);
        assert(dval_l(dec_chars(n)) == (n / 10) * 10 + n % 10);
        assert(forall|k: int|
            0 <= k < dec_chars(n).len() ==> is_digit(#[trigger] dec_chars(n)[k])) by {
            assert(forall|k: int|
                0 <= k < dec_chars(n / 10).len() ==> #[trigger] dec_chars(n)[k] == dec_chars(
                    n / 10,
                )[k]);
            assert(dec_chars(n)[dec_chars(n).len() - 1] == digit_char(n % 10));
            assert(is_digit(digit_char(n % 10)));
        }
    }
}

/// A digit run of length `ln` starting at `i`, followed by end of text or a
/// non-digit, is consumed whole and contributes its decimal value.
proof fn lemma_digits_run(s: Seq<char>, i: int, acc: int, ln: int)
    requires
        0 <= i,
        ln >= 0,
        i + ln <= s.len(),
        forall|k: int| 0 <= k < ln ==> is_digit(#[trigger] s[i + k]),
        i + ln == s.len() || !is_digit(s[i + ln]),
    ensures
        sp_digits(s, i, acc) == (acc * pow10(ln as nat) + dval_l(s.subrange(i, i + ln)), ln as nat),
    decreases ln,
{
    if ln == 0 {
        assert(s.subrange(i, i) =~= Seq::<char>::empty());
        assert(acc * pow10(0) == acc) by (nonlinear_arith);
        if i < s.len() {
            assert(!is_digit(s[i]));
        }
    } else {
        assert(is_digit(s[i + 0]));
        let d0 = digit_val(s[i]);
        assert forall|k: int| 0 <= k < ln - 1 implies is_digit(#[trigger] s[i + 1 + k]) by {
            assert(s[i + 1 + k] == s[i + (k + 1)]);
            assert(is_digit(s[i + (k + 1)]));
        }
        lemma_digits_run(s, i + 1, acc * 10 + d0, ln - 1);
        let region = s.subrange(i, i + ln);
        let rest = s.subrange(i + 1, i + ln);
        assert(region.drop_first() =~= rest);
        assert(region[0] == s[i]);
        let p = pow10((ln - 1) as nat);
        assert(pow10(ln as nat) == 10 * p);
        assert((acc * 10 + d0) * p == acc * (10 * p) + d0 * p) by (nonlinear_arith);
        assert(dval_l(region) == d0 * p + dval_l(rest));
        assert(sp_digits(s, i, acc).0 == (acc * 10 + d0) * p + dval_l(rest));
    }
}

/// Character-wise reading of a known region of the text.
proof fn lemma_region_chars(s: Seq<char>, i: int, r: Seq<char>)
    requires
        0 <= i,
        i + r.len() <= s.len(),
        s.subrange(i, i + r.len()) == r,
    ensures
        forall|k: int| 0 <= k < r.len() ==> s[i + k] == #[trigger] r[k],
{
    assert forall|k: int| 0 <= k < r.len() implies s[i + k] == r[k] by {
        assert(r[k] == s.subrange(i, i + r.len())[k]);
    }
}

proof fn lemma_region_char1(s: Seq<char>, i: int, c: char)
    requires
        0 <= i,
        i + 1 <= s.len(),
        s.subrange(i, i + 1) == seq![c],
    ensures
        s[i] == c,
{
    assert(s.subrange(i, i + 1)[0] == s[i]);
    assert(seq![c][0] == c);
}

proof fn lemma_region_char2(s: Seq<char>, i: int, c0: char, c1: char)
    requires
        0 <= i,
        i + 2 <= s.len(),
        s.subrange(i, i + 2) == seq![c0, c1],
    ensures
        s[i] == c0,
        s[i + 1] == c1,
{
    assert(s.subrange(i, i + 2)[0] == s[i]);
    assert(s.subrange(i, i + 2)[1] == s[i + 1]);
    assert(seq![c0, c1][0] == c0);
    assert(seq![c0, c1][1] == c1);
}

/// A region equal to a concatenation splits into its two halves.
proof fn lemma_region_split(s: Seq<char>, i: int, a: Seq<char>, b: Seq<char>)
    requires
        0 <= i,
        i + a.len() + b.len() <= s.len(),
        s.subrange(i, i + a.len() + b.len()) == a + b,
    ensures
        s.subrange(i, i + a.len()) =~= a,
        s.subrange(i + a.len(), i + a.len() + b.len()) =~= b,
{
    lemma_region_chars(s, i, a + b);
    assert forall|k: int| 0 <= k < a.len() implies s.subrange(i, i + a.len())[k] == a[k] by {
        assert(s[i + k] == (a + b)[k]);
    }
    assert forall|k: int|
        0 <= k < b.len() implies s.subrange(i + a.len(), i + a.len() + b.len())[k] == b[k] by {
        assert(s[i + (a.len() + k)] == (a + b)[a.len() + k]);
        assert(s.subrange(i + a.len(), i + a.len() + b.len())[k] == s[i + a.len() + k]);
        assert(i + a.len() + k == i + (a.len() + k));
    }
}

/// Parsing the escaped text of `q` followed by a closing quote recovers `q`.
proof fn lemma_string_rt(s: Seq<char>, i: int, q: Seq<char>)
    requires
        0 <= i,
        i + esc(q).len() + 1 <= s.len(),
        s.subrange(i, i + esc(q).len()) =~= esc(q),
        s[i + esc(q).len()] == '"',
    ensures
        sp_string_body(s, i) == Some((q, (esc(q).len() + 1) as nat)),
    decreases q.len(),
{
    if q.len() == 0 {
        assert(esc(q).len() == 0);
        assert(s[i] == '"');
    } else {
        let c = q[0];
        let e0 = esc_char(c);
        let etail = esc(q.drop_first());
        assert(esc(q) == e0 + etail);
        let el = e0.len();
        lemma_region_split(s, i, e0, etail);
        lemma_region_chars(s, i, e0);
        assert(s.subrange(i + el, i + el + etail.len()) =~= etail);
        assert(s[i + el + etail.len()] == '"');
        lemma_string_rt(s, i + el, q.drop_first());
        if c == '"' {
            assert(s[i] == '\\' && s[i + 1] == '"');
            assert(seq![c] + q.drop_first() =~= q);
        } else if c == '\\' {
            assert(s[i] == '\\' && s[i + 1] == '\\');
            assert(seq![c] + q.drop_first() =~= q);
        } else if (c as u32) < 32 {
            let cu = (c as u32) as int;
            assert(s[i] == '\\' && s[i + 1] == 'u' && s[i + 2] == '0' && s[i + 3] == '0');
            assert(s[i + 4] == hex_char(cu / 16) && s[i + 5] == hex_char(cu % 16));
            assert(0 <= cu / 16 < 16 && 0 <= cu % 16 < 16);
            lemma_hex_char_props(cu / 16);
            lemma_hex_char_props(cu % 16);
            assert(hex_val(s[i + 2]) == 0 && hex_val(s[i + 3]) == 0);
            let hv = hex_val(s[i + 2]) * 4096 + hex_val(s[i + 3]) * 256 + hex_val(s[i + 4]) * 16
                + hex_val(s[i + 5]);
            assert(hv == (cu / 16) * 16 + cu % 16);
            assert(hv == cu);
            let c2 = (hv as u8) as char;
            assert(c2 as u32 == hv);
            vstd::utf8::char_u32_cast(c, (c as u32));
            vstd::utf8::char_u32_cast(c2, (c2 as u32));
            assert(c2 == c);
            assert(seq![c] + q.drop_first() =~= q);
        } else {
            assert(e0 =~= seq![c]);
            assert(e0[0] == c);
            assert(s[i + 0] == c);
            assert(c != '"' && c != '\\');
            assert(seq![c] + q.drop_first() =~= q);
        }
    }
}

proof fn lemma_hex_char_props(x: int)
    requires
        0 <= x < 16,
    ensures
        is_hex(hex_char(x)),
        hex_val(hex_char(x)) == x,
        is_digit(hex_char(x)) <==> x < 10,
{
}

/// The serialised text of a value is non-empty and never begins with a
/// closing bracket, closing brace, comma or colon.
proof fn lemma_ser_first(v: JsonVal)
    ensures
        ser(v).len() >= 1,
        ser(v)[0] != ']',
        ser(v)[0] != '}',
{
    match v {
        JsonVal::UInt(n) => {
            lemma_dec_chars_props(n as int);
            assert(is_digit(dec_chars(n as int)[0]));
            assert(ser(v)[0] == dec_chars(n as int)[0]);
        },
        _ => {},
    }
}

proof fn lemma_ser_items_head(items: Seq<JsonVal>)
    requires
        items.len() >= 2,
    ensures
        ser_items(items) == ser(items[0]) + seq![','] + ser_items(items.drop_first()),
    decreases items.len(),
{
    let dl = items.drop_last();
    let df = items.drop_first();
    if items.len() == 2 {
        assert(dl =~= seq![items[0]]);
        assert(df =~= seq![items[1]]);
        assert(seq![items[0]][0] == items[0]);
        assert(seq![items[1]][0] == items[1]);
        assert(ser_items(dl) == ser(items[0]));
        assert(ser_items(df) == ser(items[1]));
        assert(items.last() == items[1]);
    } else {
        lemma_ser_items_head(dl);
        assert(dl[0] == items[0]);
        assert(df.len() >= 2);
        assert(df.drop_last() =~= dl.drop_first());
        assert(df.last() == items.last());
        assert(ser_items(items) == ser_items(dl) + seq![','] + ser(items.last()));
        assert(ser_items(dl) == ser(items[0]) + seq![','] + ser_items(dl.drop_first()));
        assert(ser_items(df) == ser_items(dl.drop_first()) + seq![','] + ser(items.last())) by {
            assert(ser_items(df) == ser_items(df.drop_last()) + seq![','] + ser(df.last()));
        }
        assert((ser(items[0]) + seq![','] + ser_items(dl.drop_first())) + seq![','] + ser(
            items.last(),
        ) =~= ser(items[0]) + seq![','] + (ser_items(dl.drop_first()) + seq![','] + ser(
            items.last(),
        )));
    }
}

proof fn lemma_ser_members_head(members: Seq<(Seq<char>, JsonVal)>)
    requires
        members.len() >= 2,
    ensures
        ser_members(members) == ser_member(members[0]) + seq![','] + ser_members(
            members.drop_first(),
        ),
    decreases members.len(),
{
    let dl = members.drop_last();
    let df = members.drop_first();
    if members.len() == 2 {
        assert(dl =~= seq![members[0]]);
        assert(df =~= seq![members[1]]);
        assert(seq![members[0]][0] == members[0]);
        assert(seq![members[1]][0] == members[1]);
        assert(ser_members(dl) == ser_member(members[0]));
        assert(ser_members(df) == ser_member(members[1]));
        assert(members.last() == members[1]);
    } else {
        lemma_ser_members_head(dl);
        assert(dl[0] == members[0]);
        assert(df.len() >= 2);
        assert(df.drop_last() =~= dl.drop_first());
        assert(df.last() == members.last());
        assert(ser_members(members) == ser_members(dl) + seq![','] + ser_member(members.last()));
        assert(ser_members(dl) == ser_member(members[0]) + seq![','] + ser_members(
            dl.drop_first(),
        ));
        assert(ser_members(df) == ser_members(dl.drop_first()) + seq![','] + ser_member(
            members.last(),
        )) by {
            assert(ser_members(df) == ser_members(df.drop_last()) + seq![','] + ser_member(
                df.last(),
            ));
            assert(df.drop_last() =~= dl.drop_first());
        }
        assert((ser_member(members[0]) + seq![','] + ser_members(dl.drop_first())) + seq![',']
            + ser_member(members.last()) =~= ser_member(members[0]) + seq![','] + (ser_members(
            dl.drop_first(),
        ) + seq![','] + ser_member(members.last())));
    }
}

/// Parsing the serialised text of `v` recovers `v` exactly, consuming
/// exactly its characters, whenever the following character (if any) is not
/// a digit.
pub proof fn lemma_value_rt(s: Seq<char>, i: int, v: JsonVal)
    requires
        0 <= i,
        i + ser(v).len() <= s.len(),
        s.subrange(i, i + ser(v).len()) == ser(v),
        i + ser(v).len() == s.len() || !is_digit(s[i + ser(v).len()]),
    ensures
        sp_value(s, i) == Some((v, ser(v).len() as nat)),
    decreases v,
{
    let sl = ser(v).len();
    lemma_region_chars(s, i, ser(v));
    match v {
        JsonVal::Null => {
            assert(s[i + 0] == 'n' && s[i + 1] == 'u' && s[i + 2] == 'l' && s[i + 3] == 'l') by {
                assert(s[i + 0] == ser(v)[0] && s[i + 1] == ser(v)[1] && s[i + 2] == ser(v)[2]
                    && s[i + 3] == ser(v)[3]);
            }
        },
        JsonVal::Bool(b) => {
            if b {
                assert(s[i + 0] == 't' && s[i + 1] == 'r' && s[i + 2] == 'u' && s[i + 3]
                    == 'e') by {
                    assert(s[i + 0] == ser(v)[0] && s[i + 1] == ser(v)[1] && s[i + 2] == ser(
                        v,
                    )[2] && s[i + 3] == ser(v)[3]);
                }
            } else {
                assert(s[i + 0] == 'f' && s[i + 1] == 'a' && s[i + 2] == 'l' && s[i + 3] == 's'
                    && s[i + 4] == 'e') by {
                    assert(s[i + 0] == ser(v)[0] && s[i + 1] == ser(v)[1] && s[i + 2] == ser(
                        v,
                    )[2] && s[i + 3] == ser(v)[3] && s[i + 4] == ser(v)[4]);
                }
            }
        },
        JsonVal::UInt(n) => {
            lemma_dec_chars_props(n as int);
            let d = dec_chars(n as int);
            assert(s[i + 0] == d[0]);
            assert(is_digit(s[i]));
            assert forall|k: int| 0 <= k < d.len() implies is_digit(#[trigger] s[i + k]) by {
                assert(s[i + k] == d[k]);
            }
            lemma_digits_run(s, i, 0, d.len() as int);
            assert(s.subrange(i, i + d.len()) == d);
            assert(dval_l(d) == n as int);
            assert(sp_digits(s, i, 0) == (0 * pow10(d.len() as nat) + n as int, d.len() as nat));
            assert(0 * pow10(d.len() as nat) == 0) by (nonlinear_arith);
        },
        JsonVal::Str(q) => {
            assert(ser(v) =~= seq!['"'] + (esc(q) + seq!['"']));
            lemma_region_split(s, i, seq!['"'], esc(q) + seq!['"']);
            lemma_region_split(s, i + 1, esc(q), seq!['"']);
            lemma_region_char1(s, i + 1 + esc(q).len(), '"');
            assert(s[i + 0] == '"') by {
                assert(ser(v)[0] == '"');
            }
            assert(s[i + 1 + esc(q).len()] == '"');
            lemma_string_rt(s, i + 1, q);
            assert(sl == esc(q).len() + 2);
        },
        JsonVal::Arr(items) => {
            assert(ser(v) =~= seq!['['] + (ser_items(items) + seq![']']));
            lemma_region_split(s, i, seq!['['], ser_items(items) + seq![']']);
            lemma_region_split(s, i + 1, ser_items(items), seq![']']);
            lemma_region_char1(s, i + 1 + ser_items(items).len(), ']');
            assert(s[i + 0] == '[') by {
                assert(ser(v)[0] == '[');
            }
            assert(s[i + 1 + ser_items(items).len()] == ']');
            if items.len() == 0 {
                assert(sl == 2);
                assert(s[i + 1] == ']');
                assert(items =~= Seq::<JsonVal>::empty());
            } else {
                let hd = if items.len() == 1 {
                    ser_items(items)
                } else {
                    ser(items[0])
                };
                if items.len() >= 2 {
                    lemma_ser_items_head(items);
                }
                lemma_ser_first(items[0]);
                assert(s[i + 1] == ser(items[0])[0]) by {
                    lemma_region_chars(s, i + 1, ser_items(items));
                    if items.len() >= 2 {
                        assert(ser_items(items)[0] == (ser(items[0]) + seq![','] + ser_items(
                            items.drop_first(),
                        ))[0]);
                    }
                    assert(ser_items(items)[0] == ser(items[0])[0]);
                }
                assert(s[i + 1] != ']');
                assert(decreases_to!(v => items));
                lemma_items_rt(s, i + 1, items);
                assert(sl == ser_items(items).len() + 2);
            }
        },
        JsonVal::Obj(members) => {
            assert(ser(v) =~= seq!['{'] + (ser_members(members) + seq!['}']));
            lemma_region_split(s, i, seq!['{'], ser_members(members) + seq!['}']);
            lemma_region_split(s, i + 1, ser_members(members), seq!['}']);
            lemma_region_char1(s, i + 1 + ser_members(members).len(), '}');
            assert(s[i + 0] == '{') by {
                assert(ser(v)[0] == '{');
            }
            assert(s[i + 1 + ser_members(members).len()] == '}');
            if members.len() == 0 {
                assert(sl == 2);
                assert(s[i + 1] == '}');
                assert(members =~= Seq::<(Seq<char>, JsonVal)>::empty());
            } else {
                if members.len() >= 2 {
                    lemma_ser_members_head(members);
                }
                assert(s[i + 1] == '"') by {
                    lemma_region_chars(s, i + 1, ser_members(members));
                    if members.len() >= 2 {
                        assert(ser_members(members)[0] == (ser_member(members[0]) + seq![',']
                            + ser_members(members.drop_first()))[0]);
                    }
                    assert(ser_members(members)[0] == ser_member(members[0])[0]);
                    assert(ser_member(members[0])[0] == '"');
                }
                assert(s[i + 1] != '}');
                assert(decreases_to!(v => members));
                lemma_members_rt(s, i + 1, members);
                assert(sl == ser_members(members).len() + 2);
            }
        },
    }
}

/// Parsing comma-separated serialised elements followed by `]` recovers the
/// element sequence.
proof fn lemma_items_rt(s: Seq<char>, i: int, items: Seq<JsonVal>)
    requires
        items.len() >= 1,
        0 <= i,
        i + ser_items(items).len() + 1 <= s.len(),
        s.subrange(i, i + ser_items(items).len()) == ser_items(items),
        s[i + ser_items(items).len()] == ']',
    ensures
        sp_items(s, i) == Some((items, (ser_items(items).len() + 1) as nat)),
    decreases items,
{
    if items.len() == 1 {
        assert(ser_items(items) == ser(items[0]));
        let l0 = ser(items[0]).len();
        assert(!is_digit(s[i + l0]));
        lemma_value_rt(s, i, items[0]);
        assert(s[i + l0] == ']');
        assert(seq![items[0]] =~= items);
    } else {
        lemma_ser_items_head(items);
        let df = items.drop_first();
        let l0 = ser(items[0]).len();
        let lt = ser_items(df).len();
        assert(ser_items(items).len() == l0 + 1 + lt);
        assert(ser_items(items) =~= ser(items[0]) + (seq![','] + ser_items(df)));
        lemma_region_split(s, i, ser(items[0]), seq![','] + ser_items(df));
        lemma_region_split(s, i + l0, seq![','], ser_items(df));
        lemma_region_char1(s, i + l0, ',');
        assert(s[i + l0] == ',');
        assert(!is_digit(s[i + l0]));
        lemma_value_rt(s, i, items[0]);
        assert(s[i + l0 + 1 + lt] == ']') by {
            assert(i + l0 + 1 + lt == i + ser_items(items).len());
        }
        lemma_items_rt(s, i + l0 + 1, df);
        assert(seq![items[0]] + df =~= items);
    }
}

/// Parsing comma-separated serialised members followed by `}` recovers the
/// member sequence.
#[verifier::rlimit(80)]
proof fn lemma_members_rt(s: Seq<char>, i: int, members: Seq<(Seq<char>, JsonVal)>)
    requires
        members.len() >= 1,
        0 <= i,
        i + ser_members(members).len() + 1 <= s.len(),
        s.subrange(i, i + ser_members(members).len()) == ser_members(members),
        s[i + ser_members(members).len()] == '}',
    ensures
        sp_members(s, i) == Some((members, (ser_members(members).len() + 1) as nat)),
    decreases members,
{
    let m0 = members[0];
    let k = m0.0;
    let mv = m0.1;
    let lm = ser_member(m0).len();
    let le = esc(k).len();
    let lv = ser(mv).len();
    assert(ser_member(m0) == seq!['"'] + esc(k) + seq!['"', ':'] + ser(mv));
    assert(lm == le + 3 + lv);
    if members.len() >= 2 {
        lemma_ser_members_head(members);
        assert(ser_members(members) == ser_member(m0) + seq![','] + ser_members(
            members.drop_first(),
        ));
        assert(ser_members(members) =~= ser_member(m0) + (seq![','] + ser_members(
            members.drop_first(),
        )));
        lemma_region_split(s, i, ser_member(m0), seq![','] + ser_members(members.drop_first()));
        lemma_region_split(s, i + lm, seq![','], ser_members(members.drop_first()));
        lemma_region_char1(s, i + lm, ',');
        assert(s[i + lm] == ',');
    } else {
        assert(ser_members(members) == ser_member(m0));
    }
    assert(s.subrange(i, i + lm) =~= ser_member(m0));
    // split the member region into its four parts
    assert(ser_member(m0) == seq!['"'] + (esc(k) + (seq!['"', ':'] + ser(mv)))) by {
        assert(seq!['"'] + esc(k) + seq!['"', ':'] + ser(mv) =~= seq!['"'] + (esc(k) + (seq![
            '"',
            ':',
        ] + ser(mv))));
    }
    lemma_region_split(s, i, seq!['"'], esc(k) + (seq!['"', ':'] + ser(mv)));
    lemma_region_split(s, i + 1, esc(k), seq!['"', ':'] + ser(mv));
    lemma_region_split(s, i + 1 + le, seq!['"', ':'], ser(mv));
    lemma_region_char1(s, i, '"');
    lemma_region_char2(s, i + 1 + le, '"', ':');
    assert(s[i] == '"');
    assert(s[i + 1 + le] == '"');
    assert(s[i + 1 + le + 1] == ':');
    lemma_string_rt(s, i + 1, k);
    assert(sp_string_body(s, i + 1) == Some((k, (le + 1) as nat)));
    let j = i + 1 + (le + 1);
    assert(s[j] == ':');
    let e = j + 1 + lv;
    assert(e == i + lm);
    if members.len() == 1 {
        assert(s[e] == '}');
        assert(!is_digit(s[j + 1 + lv]));
        lemma_value_rt(s, j + 1, mv);
        assert(seq![(k, mv)] =~= members);
    } else {
        assert(s[e] == ',');
        assert(!is_digit(s[j + 1 + lv]));
        lemma_value_rt(s, j + 1, mv);
        let df = members.drop_first();
        assert(s[e + 1 + ser_members(df).len()] == '}') by {
            assert(e + 1 + ser_members(df).len() == i + ser_members(members).len());
        }
        lemma_members_rt(s, e + 1, df);
        assert(seq![(k, mv)] + df =~= members);
        assert(e + 1 - i + (ser_members(df).len() + 1) == ser_members(members).len() + 1);
    }
}

/// Round trip: parsing the serialised text of any structured value yields
/// that value back.
pub proof fn lemma_round_trip(v: JsonVal)
    ensures
        sp_payload(ser(v)) == Some(v),
{
    let s = ser(v);
    assert(s.subrange(0, s.len() as int) =~= s);
    lemma_value_rt(s, 0, v);
}

} // verus!
