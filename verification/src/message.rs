//! The wire-level message envelope.
//!
//! A message is a sender id, an optional destination id, and the remaining
//! payload fields; on the wire the envelope and payload share one flat
//! object, with `from` first, `to` next when present, and the payload
//! fields after.  A `to` of `None` marks a broadcast message for the root
//! actor.  Messages are immutable value objects: built here from a decoded
//! structured value, or by an actor when it replies.

use vstd::prelude::*;
use crate::json::{
    JsonValue,
    JsonVal,
    jv,
    jv_members,
    ser,
    copy_value,
    lemma_jv_members_push,
};
use crate::codec::spec_frame;

verus! {

/// One protocol message.
#[derive(Debug)]
pub struct Message {
    pub from: String,
    pub to: Option<String>,
    pub body: Vec<(String, JsonValue)>,
}

/// Mathematical model of a message.
pub struct MsgView {
    pub from: Seq<char>,
    pub to: Option<Seq<char>>,
    pub body: Seq<(Seq<char>, JsonVal)>,
}

pub open spec fn body_view(s: Seq<(String, JsonValue)>) -> Seq<(Seq<char>, JsonVal)>
    decreases s,
{
    if s.len() == 0 {
        Seq::empty()
    } else {
        body_view(s.drop_last()).push((s.last().0@, jv(s.last().1)))
    }
}

impl View for Message {
    type V = MsgView;

    open spec fn view(&self) -> MsgView {
        MsgView {
            from: self.from@,
            to: match self.to {
                Some(t) => Some(t@),
                None => None,
            },
            body: body_view(self.body@),
        }
    }
}

/// The flat wire object of a message: `from`, then `to` when present, then
/// the payload fields.
pub open spec fn envelope(m: MsgView) -> JsonVal {
    JsonVal::Obj(env_head(m) + m.body)
}

pub open spec fn env_head(m: MsgView) -> Seq<(Seq<char>, JsonVal)> {
    let head = seq![("from"@, JsonVal::Str(m.from))];
    match m.to {
        Some(t) => head.push(("to"@, JsonVal::Str(t))),
        None => head,
    }
}

/// The serialised payload text of a message.
pub open spec fn msg_text(m: MsgView) -> Seq<char> {
    ser(envelope(m))
}

/// The full wire frame of a message: its UTF-8 payload bytes behind a
/// decimal length prefix counting those bytes.
pub open spec fn msg_frame(m: MsgView) -> Seq<u8> {
    spec_frame(vstd::utf8::encode_utf8(msg_text(m)))
}

/// First value under the given key, if any.
pub open spec fn find_key(ms: Seq<(Seq<char>, JsonVal)>, k: Seq<char>) -> Option<JsonVal>
    decreases ms.len(),
{
    if ms.len() == 0 {
        None
    } else if ms[0].0 == k {
        Some(ms[0].1)
    } else {
        find_key(ms.drop_first(), k)
    }
}

/// The members with the envelope keys `from` and `to` removed.
pub open spec fn strip_env(ms: Seq<(Seq<char>, JsonVal)>) -> Seq<(Seq<char>, JsonVal)>
    decreases ms.len(),
{
    if ms.len() == 0 {
        Seq::empty()
    } else {
        let rest = strip_env(ms.drop_last());
        if ms.last().0 == "from"@ || ms.last().0 == "to"@ {
            rest
        } else {
            rest.push(ms.last())
        }
    }
}

/// The message a wire object denotes: the object must carry a string
/// `from`; a `to`, when present, must be a string; every other member is
/// payload.  Anything else is no message.
pub open spec fn msg_of_value(v: JsonVal) -> Option<MsgView> {
    match v {
        JsonVal::Obj(ms) => match find_key(ms, "from"@) {
            Some(JsonVal::Str(f)) => match find_key(ms, "to"@) {
                Some(JsonVal::Str(t)) => Some(
                    MsgView { from: f, to: Some(t), body: strip_env(ms) },
                ),
                Some(_) => None,
                None => Some(MsgView { from: f, to: None, body: strip_env(ms) }),
            },
            Some(_) => None,
            None => None,
        },
        _ => None,
    }
}

/// A message whose payload fields do not collide with the envelope keys.
pub open spec fn msg_wf(m: MsgView) -> bool {
    forall|k: int|
        0 <= k < m.body.len() ==> (#[trigger] m.body[k]).0 != "from"@ && m.body[k].0 != "to"@
}

proof fn lemma_find_key_none_iff(ms: Seq<(Seq<char>, JsonVal)>, k: Seq<char>)
    ensures
        (find_key(ms, k) == None::<JsonVal>) <==> (forall|j: int|
            0 <= j < ms.len() ==> (#[trigger] ms[j]).0 != k),
    decreases ms.len(),
{
    if ms.len() > 0 {
        lemma_find_key_none_iff(ms.drop_first(), k);
        assert(forall|j: int|
            0 <= j < ms.drop_first().len() ==> #[trigger] ms.drop_first()[j] == ms[j + 1]);
        if ms[0].0 != k && (forall|j: int|
            0 <= j < ms.drop_first().len() ==> (#[trigger] ms.drop_first()[j]).0 != k) {
            assert forall|j: int| 0 <= j < ms.len() implies (#[trigger] ms[j]).0 != k by {
                if j > 0 {
                    assert(ms.drop_first()[j - 1] == ms[j]);
                }
            }
        }
    }
}

/// Stripping leaves a run whose keys are all payload keys untouched.
proof fn lemma_strip_app(a: Seq<(Seq<char>, JsonVal)>, b: Seq<(Seq<char>, JsonVal)>)
    requires
        forall|k: int| 0 <= k < b.len() ==> (#[trigger] b[k]).0 != "from"@ && b[k].0 != "to"@,
    ensures
        strip_env(a + b) == strip_env(a) + b,
    decreases b.len(),
{
    if b.len() == 0 {
        assert(a + b =~= a);
        assert(strip_env(a) + b =~= strip_env(a));
    } else {
        assert((a + b).drop_last() =~= a + b.drop_last());
        assert((a + b).last() == b.last());
        lemma_strip_app(a, b.drop_last());
        assert(strip_env(a + b) =~= strip_env(a) + b);
    }
}

/// Round trip of the envelope: the wire object of a message denotes that
/// message back, whenever its payload keys stay clear of the envelope's.
pub proof fn lemma_envelope_rt(m: MsgView)
    requires
        msg_wf(m),
    ensures
        msg_of_value(envelope(m)) == Some(m),
{
    reveal_strlit("from");
    reveal_strlit("to");
    assert("from"@.len() == 4 && "to"@.len() == 2);
    let head = env_head(m);
    let ms = head + m.body;
    assert(ms[0] == ("from"@, JsonVal::Str(m.from)));
    assert(find_key(ms, "from"@) == Some(JsonVal::Str(m.from)));
    match m.to {
        Some(t) => {
            assert(head =~= seq![("from"@, JsonVal::Str(m.from))].push(
                ("to"@, JsonVal::Str(t)),
            ));
            assert(ms[1] == ("to"@, JsonVal::Str(t)));
            let d = ms.drop_first();
            assert(d[0] == ms[1]);
            assert(find_key(ms, "to"@) == find_key(d, "to"@));
            assert(find_key(d, "to"@) == Some(JsonVal::Str(t)));
            assert(strip_env(head) =~= Seq::<(Seq<char>, JsonVal)>::empty()) by {
                let one = seq![("from"@, JsonVal::Str(m.from))];
                assert(head.drop_last() =~= one);
                assert(head.last() == ("to"@, JsonVal::Str(t)));
                assert(one.drop_last() =~= Seq::<(Seq<char>, JsonVal)>::empty());
                assert(one.last() == ("from"@, JsonVal::Str(m.from)));
                assert(strip_env(Seq::<(Seq<char>, JsonVal)>::empty()) == Seq::<
                    (Seq<char>, JsonVal),
                >::empty());
                assert(strip_env(one) =~= Seq::<(Seq<char>, JsonVal)>::empty());
            }
        },
        None => {
            let d = ms.drop_first();
            assert(d =~= m.body);
            assert(find_key(ms, "to"@) == find_key(d, "to"@));
            lemma_find_key_none_iff(m.body, "to"@);
            assert(find_key(m.body, "to"@) == None::<JsonVal>);
            assert(strip_env(head) =~= Seq::<(Seq<char>, JsonVal)>::empty()) by {
                assert(head.drop_last() =~= Seq::<(Seq<char>, JsonVal)>::empty());
                assert(head.last() == ("from"@, JsonVal::Str(m.from)));
                assert(strip_env(Seq::<(Seq<char>, JsonVal)>::empty()) == Seq::<
                    (Seq<char>, JsonVal),
                >::empty());
            }
        },
    }
    lemma_strip_app(head, m.body);
    assert(strip_env(ms) == strip_env(head) + m.body);
    assert(strip_env(ms) =~= m.body);
}

/// Relies on std `str::chars`, which iterates exactly the characters of
/// the string in order.
#[verifier::external_body]
pub fn chars_of_str(s: &str) -> (r: Vec<char>)
    ensures
        r@ == s@,
{
    s.chars().collect()
}

/// Relies on std `String: FromIterator<char>`, which builds the string of
/// exactly the iterated characters in order.
#[verifier::external_body]
pub fn string_from_chars(cs: &Vec<char>) -> (r: String)
    ensures
        r@ == cs@,
{
    cs.iter().collect()
}

/// Relies on std `str::from_utf8`, which succeeds exactly on valid UTF-8
/// and returns the text those bytes encode.
#[verifier::external_body]
pub fn string_of_bytes(b: &Vec<u8>) -> (r: Option<String>)
    ensures
        match r {
            Some(s) => vstd::utf8::valid_utf8(b@) && s@ == vstd::utf8::decode_utf8(b@),
            None => !vstd::utf8::valid_utf8(b@),
        },
{
    match std::str::from_utf8(b.as_slice()) {
        Ok(s) => Some(s.to_owned()),
        Err(_) => None,
    }
}

/// UTF-8 bytes of a string, via the byte view vstd gives `str::as_bytes`.
pub fn bytes_of_string(s: &String) -> (r: Vec<u8>)
    ensures
        r@ == vstd::utf8::encode_utf8(s@),
{
    vstd::slice::slice_to_vec(s.as_str().as_bytes())
}

/// Equality of two character vectors.
pub fn chars_eq(a: &Vec<char>, b: &Vec<char>) -> (r: bool)
    ensures
        r == (a@ == b@),
{
    if a.len() != b.len() {
        proof {
            assert(a@.len() != b@.len());
        }
        return false;
    }
    let n = a.len();
    let mut i: usize = 0;
    while i < n
        invariant
            n == a@.len(),
            n == b@.len(),
            i <= n,
            forall|k: int| 0 <= k < i ==> a@[k] == b@[k],
        decreases n - i,
    {
        if a[i] != b[i] {
            return false;
        }
        i = i + 1;
    }
    proof {
        assert(a@ =~= b@);
    }
    true
}

proof fn lemma_body_view_take_push(s: Seq<(String, JsonValue)>, i: int)
    requires
        0 <= i < s.len(),
    ensures
        body_view(s.take(i + 1)) == body_view(s.take(i)).push((s[i].0@, jv(s[i].1))),
{
    let t = s.take(i + 1);
    assert(t.drop_last() =~= s.take(i));
    assert(t.last() == s[i]);
}

/// The wire object of a message.
#[verifier::loop_isolation(false)]
#[verifier::rlimit(60)]
pub fn message_to_value(m: &Message) -> (r: JsonValue)
    ensures
        jv(r) == envelope(m@),
{
    let mut members: Vec<(Vec<char>, JsonValue)> = Vec::new();
    members.push((chars_of_str("from"), JsonValue::Str(chars_of_str(m.from.as_str()))));
    proof {
        lemma_jv_members_push(Seq::empty(), "from"@, JsonVal::Str(m.from@));
        assert(members@.drop_last() =~= Seq::<(Vec<char>, JsonValue)>::empty());
        assert(jv_members(Seq::<(Vec<char>, JsonValue)>::empty()) =~= Seq::<
            (Seq<char>, JsonVal),
        >::empty());
        assert(jv_members(members@) =~= seq![("from"@, JsonVal::Str(m.from@))]);
    }
    match &m.to {
        Some(t) => {
            let tk = chars_of_str("to");
            let tv = JsonValue::Str(chars_of_str(t.as_str()));
            let ghost prev = members@;
            members.push((tk, tv));
            proof {
                lemma_jv_members_push(prev, "to"@, JsonVal::Str(t@));
                assert(jv_members(prev.push((tk, tv))) == jv_members(prev).push(
                    ("to"@, JsonVal::Str(t@)),
                ));
                assert(jv_members(members@) =~= env_head(m@));
            }
        },
        None => {
            proof {
                assert(jv_members(members@) =~= env_head(m@));
            }
        },
    }
    let ghost head = env_head(m@);
    let n = m.body.len();
    let mut i: usize = 0;
    while i < n
        invariant
            n == m.body@.len(),
            i <= n,
            jv_members(members@) == head + body_view(m.body@.take(i as int)),
        decreases n - i,
    {
        let key = chars_of_str(m.body[i].0.as_str());
        let val = copy_value(&m.body[i].1);
        let ghost kv = key@;
        let ghost cv = jv(val);
        let ghost prev = members@;
        members.push((key, val));
        proof {
            lemma_jv_members_push(prev, kv, cv);
            assert(jv_members(prev.push((key, val))) == jv_members(prev).push((kv, cv)));
            lemma_body_view_take_push(m.body@, i as int);
            assert(jv_members(members@) =~= head + body_view(m.body@.take(i + 1)));
        }
        i = i + 1;
    }
    proof {
        assert(m.body@.take(n as int) =~= m.body@);
    }
    JsonValue::Obj(members)
}

/// After a prefix free of the key, the search continues in the suffix.
proof fn lemma_find_key_skip(ms: Seq<(Seq<char>, JsonVal)>, k: Seq<char>, i: int)
    requires
        0 <= i <= ms.len(),
        forall|j: int| 0 <= j < i ==> (#[trigger] ms[j]).0 != k,
    ensures
        find_key(ms, k) == find_key(ms.skip(i), k),
    decreases i,
{
    if i > 0 {
        lemma_find_key_skip(ms, k, i - 1);
        let t = ms.skip(i - 1);
        assert(t[0] == ms[i - 1]);
        assert(t[0].0 != k);
        assert(t.drop_first() =~= ms.skip(i));
    } else {
        assert(ms.skip(0) =~= ms);
    }
}

proof fn lemma_strip_take_push(ms: Seq<(Seq<char>, JsonVal)>, i: int)
    requires
        0 <= i < ms.len(),
    ensures
        strip_env(ms.take(i + 1)) == if ms[i].0 == "from"@ || ms[i].0 == "to"@ {
            strip_env(ms.take(i))
        } else {
            strip_env(ms.take(i)).push(ms[i])
        },
{
    let t = ms.take(i + 1);
    assert(t.drop_last() =~= ms.take(i));
    assert(t.last() == ms[i]);
}

/// Scan for the first member under the given key; the result is the
/// member's value, by copy.
#[verifier::loop_isolation(false)]
pub fn find_key_exec(members: &Vec<(Vec<char>, JsonValue)>, key: &Vec<char>) -> (r: Option<
    JsonValue,
>)
    ensures
        match r {
            Some(v) => find_key(jv_members(members@), key@) == Some(jv(v)),
            None => find_key(jv_members(members@), key@) == None::<JsonVal>,
        },
{
    let n = members.len();
    let ghost ms = jv_members(members@);
    proof {
        lemma_jv_members_index(members@);
    }
    let mut i: usize = 0;
    while i < n
        invariant
            n == members@.len(),
            ms == jv_members(members@),
            ms.len() == n,
            forall|j: int| 0 <= j < n ==> #[trigger] ms[j] == (members@[j].0@, jv(members@[j].1)),
            i <= n,
            forall|j: int| 0 <= j < i ==> (#[trigger] ms[j]).0 != key@,
        decreases n - i,
    {
        if chars_eq(&members[i].0, key) {
            let v = copy_value(&members[i].1);
            proof {
                lemma_find_key_skip(ms, key@, i as int);
                let t = ms.skip(i as int);
                assert(t[0] == ms[i as int]);
            }
            return Some(v);
        }
        i = i + 1;
    }
    proof {
        lemma_find_key_skip(ms, key@, n as int);
        assert(ms.skip(n as int) =~= Seq::<(Seq<char>, JsonVal)>::empty());
    }
    None
}

/// Member views line up with member entries.
pub proof fn lemma_jv_members_index(s: Seq<(Vec<char>, JsonValue)>)
    ensures
        jv_members(s).len() == s.len(),
        forall|j: int|
            0 <= j < s.len() ==> #[trigger] jv_members(s)[j] == (s[j].0@, jv(s[j].1)),
    decreases s.len(),
{
    if s.len() > 0 {
        lemma_jv_members_index(s.drop_last());
        assert(forall|j: int| 0 <= j < s.len() - 1 ==> #[trigger] s.drop_last()[j] == s[j]);
        assert(s.last() == s[s.len() - 1]);
    }
}

/// Model of an optional reply.
pub open spec fn opt_view(r: Option<Message>) -> Option<MsgView> {
    match r {
        Some(m) => Some(m@),
        None => None,
    }
}

/// One payload field.
pub fn body1(k1: &str, v1: JsonValue) -> (r: Vec<(String, JsonValue)>)
    ensures
        body_view(r@) == seq![(k1@, jv(v1))],
{
    let mut out: Vec<(String, JsonValue)> = Vec::new();
    let ghost gv1 = jv(v1);
    let ks = k1.to_owned();
    let ghost gk = ks@;
    out.push((ks, v1));
    proof {
        assert(out@.drop_last() =~= Seq::<(String, JsonValue)>::empty());
        assert(body_view(Seq::<(String, JsonValue)>::empty()) == Seq::<
            (Seq<char>, JsonVal),
        >::empty());
        assert(out@.last().0@ == gk && jv(out@.last().1) == gv1);
        assert(body_view(out@) =~= seq![(k1@, gv1)]);
    }
    out
}

/// Two payload fields, in order.
pub fn body2(k1: &str, v1: JsonValue, k2: &str, v2: JsonValue) -> (r: Vec<(String, JsonValue)>)
    ensures
        body_view(r@) == seq![(k1@, jv(v1)), (k2@, jv(v2))],
{
    let mut out = body1(k1, v1);
    let ghost gv2 = jv(v2);
    let ghost prev = out@;
    out.push((k2.to_owned(), v2));
    proof {
        assert(out@.drop_last() =~= prev);
        assert(body_view(out@) =~= seq![(k1@, jv(v1)), (k2@, gv2)]);
    }
    out
}

/// Look up a payload field by key; the result is the field's value, by
/// copy.
#[verifier::loop_isolation(false)]
pub fn body_get(body: &Vec<(String, JsonValue)>, key: &str) -> (r: Option<JsonValue>)
    ensures
        match r {
            Some(v) => find_key(body_view(body@), key@) == Some(jv(v)),
            None => find_key(body_view(body@), key@) == None::<JsonVal>,
        },
{
    let ks: String = key.to_owned();
    let n = body.len();
    let ghost ms = body_view(body@);
    proof {
        lemma_body_view_index(body@);
    }
    let mut i: usize = 0;
    while i < n
        invariant
            n == body@.len(),
            ms == body_view(body@),
            ms.len() == n,
            forall|j: int| 0 <= j < n ==> #[trigger] ms[j] == (body@[j].0@, jv(body@[j].1)),
            i <= n,
            forall|j: int| 0 <= j < i ==> (#[trigger] ms[j]).0 != key@,
        decreases n - i,
    {
        if body[i].0 == ks {
            let v = copy_value(&body[i].1);
            proof {
                lemma_find_key_skip(ms, key@, i as int);
                let t = ms.skip(i as int);
                assert(t[0] == ms[i as int]);
            }
            return Some(v);
        }
        i = i + 1;
    }
    proof {
        lemma_find_key_skip(ms, key@, n as int);
        assert(ms.skip(n as int) =~= Seq::<(Seq<char>, JsonVal)>::empty());
    }
    None
}

/// A fresh, empty wire-object member list.
pub fn new_members() -> (r: Vec<(Vec<char>, JsonValue)>)
    ensures
        jv_members(r@) == Seq::<(Seq<char>, JsonVal)>::empty(),
{
    let r: Vec<(Vec<char>, JsonValue)> = Vec::new();
    proof {
        assert(jv_members(r@) =~= Seq::<(Seq<char>, JsonVal)>::empty());
    }
    r
}

/// Append one member to a wire object under construction.
pub fn push_member(members: &mut Vec<(Vec<char>, JsonValue)>, k: &str, v: JsonValue)
    ensures
        jv_members(final(members)@) == jv_members(old(members)@).push((k@, jv(v))),
{
    let kc = chars_of_str(k);
    let ghost prev = members@;
    let ghost gv = jv(v);
    members.push((kc, v));
    proof {
        lemma_jv_members_push(prev, k@, gv);
        assert(jv_members(prev.push((kc, v))) == jv_members(prev).push((k@, gv)));
    }
}

/// A string payload value.
pub fn str_value(s: &str) -> (r: JsonValue)
    ensures
        jv(r) == JsonVal::Str(s@),
{
    JsonValue::Str(chars_of_str(s))
}

/// Body entry views line up with body entries.
pub proof fn lemma_body_view_index(s: Seq<(String, JsonValue)>)
    ensures
        body_view(s).len() == s.len(),
        forall|j: int| 0 <= j < s.len() ==> #[trigger] body_view(s)[j] == (s[j].0@, jv(s[j].1)),
    decreases s.len(),
{
    if s.len() > 0 {
        lemma_body_view_index(s.drop_last());
        assert(forall|j: int| 0 <= j < s.len() - 1 ==> #[trigger] s.drop_last()[j] == s[j]);
        assert(s.last() == s[s.len() - 1]);
    }
}

/// The message a decoded wire object denotes, if it is one.
#[verifier::loop_isolation(false)]
#[verifier::rlimit(60)]
pub fn message_from_value(v: &JsonValue) -> (r: Option<Message>)
    ensures
        match r {
            Some(m) => msg_of_value(jv(*v)) == Some(m@),
            None => msg_of_value(jv(*v)) == None::<MsgView>,
        },
{
    let members: &Vec<(Vec<char>, JsonValue)> = match v {
        JsonValue::Obj(ms) => ms,
        _ => {
            return None;
        },
    };
    let ghost ms = jv_members(members@);
    let from_key = chars_of_str("from");
    let to_key = chars_of_str("to");
    let from_s: String = match find_key_exec(members, &from_key) {
        Some(JsonValue::Str(f)) => string_from_chars(&f),
        Some(_) => {
            return None;
        },
        None => {
            return None;
        },
    };
    let to_s: Option<String> = match find_key_exec(members, &to_key) {
        Some(JsonValue::Str(t)) => Some(string_from_chars(&t)),
        Some(_) => {
            return None;
        },
        None => None,
    };
    proof {
        lemma_jv_members_index(members@);
    }
    let n = members.len();
    let mut body: Vec<(String, JsonValue)> = Vec::new();
    let mut i: usize = 0;
    while i < n
        invariant
            n == members@.len(),
            ms == jv_members(members@),
            ms.len() == n,
            forall|j: int| 0 <= j < n ==> #[trigger] ms[j] == (members@[j].0@, jv(members@[j].1)),
            i <= n,
            body_view(body@) == strip_env(ms.take(i as int)),
        decreases n - i,
    {
        let is_from = chars_eq(&members[i].0, &from_key);
        let is_to = chars_eq(&members[i].0, &to_key);
        if !is_from && !is_to {
            let key_s = string_from_chars(&members[i].0);
            let val = copy_value(&members[i].1);
            let ghost kv = key_s@;
            let ghost cv = jv(val);
            let ghost prev = body@;
            body.push((key_s, val));
            proof {
                assert(body@ == prev.push((key_s, val)));
                assert(body@.drop_last() =~= prev);
                assert(body@.last() == (key_s, val));
                assert(body_view(body@) == body_view(prev).push((kv, cv)));
                lemma_strip_take_push(ms, i as int);
                assert(ms[i as int] == (kv, cv));
                assert(body_view(body@) =~= strip_env(ms.take(i + 1)));
            }
        } else {
            proof {
                lemma_strip_take_push(ms, i as int);
            }
        }
        i = i + 1;
    }
    proof {
        assert(ms.take(n as int) =~= ms);
    }
    Some(Message { from: from_s, to: to_s, body })
}

} // verus!
