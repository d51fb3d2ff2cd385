use vstd::prelude::*;

use crate::json::{
    json_text, skip_value,
    array_at, holds_at, is_ws, lemma_holds_split, parse_string, parse_string_array, quoted,
    skip_ws, string_array, string_literal, string_views, to_chars, ws_between, write_quoted,
    write_string_array,
};
use crate::message::{string_member, write_string_member};
use crate::text::push_char;

verus! {

/// The wire envelope: the names it is addressed to, an opaque body, and a
/// correlation id that replies echo.
#[derive(Debug, Clone)]
pub struct Packet {
    pub receivers: Vec<String>,
    pub body: String,
    pub id: String,
}

/// The mathematical value of a `Packet`.
pub struct PacketSpec {
    pub receivers: Seq<Seq<char>>,
    pub body: Seq<char>,
    pub id: Seq<char>,
}

impl View for Packet {
    type V = PacketSpec;

    open spec fn view(&self) -> PacketSpec {
        PacketSpec { receivers: string_views(self.receivers@), body: self.body@, id: self.id@ }
    }
}

/// The text could not be read as a packet: it is not JSON, a member is
/// missing, repeated or unknown, or a value has the wrong type.
#[derive(Debug, Clone, Copy, PartialEq, Eq)]
pub enum PacketError {
    MalformedPacket,
}

/// The `receivers` member of a packet's JSON object.
pub open spec fn receivers_member(items: Seq<Seq<char>>) -> Seq<char> {
    quoted("receivers"@) + seq![':'] + string_array(items)
}

/// A packet as a JSON object with the members `receivers`, `body` and `id`,
/// in that order and without whitespace.
pub open spec fn packet_text(p: PacketSpec) -> Seq<char> {
    seq!['{'] + receivers_member(p.receivers) + seq![','] + string_member("body"@, p.body) + seq![
        ',',
    ] + string_member("id"@, p.id) + seq!['}']
}

/// `t` is the text of `p`, followed by nothing but whitespace.
pub open spec fn is_packet_text(t: Seq<char>, p: PacketSpec) -> bool {
    &&& holds_at(t, 0, packet_text(p))
    &&& forall|k: int| packet_text(p).len() <= k < t.len() ==> is_ws(#[trigger] t[k])
}

/// What a packet is framed as on the wire: its text and one newline.
pub open spec fn framed_text(p: PacketSpec) -> Seq<char> {
    packet_text(p) + seq!['\n']
}

/// The frame of a member in `t`: its key, a literal standing for `key`, from
/// `a` up to `k`; the colon at `c`; its value from `d` on; whitespace between.
pub open spec fn member_frame(t: Seq<char>, a: int, k: int, c: int, d: int, key: Seq<char>) -> bool {
    &&& 0 <= a < k <= c < d <= t.len()
    &&& string_literal(t.subrange(a, k), key)
    &&& ws_between(t, k, c)
    &&& t[c] == ':'
    &&& ws_between(t, c + 1, d)
}

/// `t` holds, from `a` up to `b`, the member `key` whose value is a string
/// literal standing for `v`.
pub open spec fn string_member_at(t: Seq<char>, a: int, b: int, key: Seq<char>, v: Seq<char>) -> bool {
    exists|k: int, c: int, d: int|
        #[trigger] member_frame(t, a, k, c, d, key) && d < b <= t.len() && string_literal(
            t.subrange(d, b),
            v,
        )
}

/// `t` holds, from `a` up to `b`, the member `key` whose value is an array
/// of string literals standing for `items`.
pub open spec fn array_member_at(
    t: Seq<char>,
    a: int,
    b: int,
    key: Seq<char>,
    items: Seq<Seq<char>>,
) -> bool {
    exists|k: int, c: int, d: int| #[trigger]
        member_frame(t, a, k, c, d, key) && array_at(t, d, b, items)
}

/// `t` holds, from `a` up to `b`, a member whose key is none of `receivers`,
/// `body` and `id`, and whose value is one JSON value.
pub open spec fn unknown_member_at(t: Seq<char>, a: int, b: int) -> bool {
    exists|k: int, c: int, d: int, key: Seq<char>|
        #[trigger] member_frame(t, a, k, c, d, key) && key != "receivers"@ && key != "body"@ && key
            != "id"@ && d < b <= t.len() && json_text(t.subrange(d, b))
}

/// `t` holds, from `a` up to `b`, a member of the given kind: 0 the
/// `receivers` of `p`, 1 its `body`, 2 its `id`, 3 a member of another key.
pub open spec fn member_kind(t: Seq<char>, a: int, b: int, kind: int, p: PacketSpec) -> bool {
    ||| kind == 0 && array_member_at(t, a, b, "receivers"@, p.receivers)
    ||| kind == 1 && string_member_at(t, a, b, "body"@, p.body)
    ||| kind == 2 && string_member_at(t, a, b, "id"@, p.id)
    ||| kind == 3 && unknown_member_at(t, a, b)
}

/// The members of an object in `t`, after its opening brace and up to its
/// closing one at `c`: member `k` from `a[k]` up to `b[k]`, of kind
/// `kinds[k]`; each of the kinds 0, 1 and 2 exactly once, kind 3 any number
/// of times; a comma at `commas[k]` between member `k` and the next;
/// whitespace only between these.
pub open spec fn members_layout(
    t: Seq<char>,
    c: int,
    a: Seq<int>,
    b: Seq<int>,
    kinds: Seq<int>,
    commas: Seq<int>,
    p: PacketSpec,
) -> bool {
    let n = a.len() as int;
    &&& n >= 1 && b.len() == n && kinds.len() == n && commas.len() == n - 1
    &&& forall|k: int| 0 <= k < n ==> a[k] < #[trigger] b[k]
    &&& forall|k: int| 0 <= k < n ==> #[trigger] member_kind(t, a[k], b[k], kinds[k], p)
    &&& forall|k: int| 0 <= k < n ==> 0 <= #[trigger] kinds[k] < 4
    &&& forall|k: int, l: int|
        0 <= k < n && 0 <= l < n && k != l && #[trigger] kinds[k] == #[trigger] kinds[l] ==> kinds[k]
            == 3
    &&& exists|k: int| 0 <= k < n && #[trigger] kinds[k] == 0
    &&& exists|k: int| 0 <= k < n && #[trigger] kinds[k] == 1
    &&& exists|k: int| 0 <= k < n && #[trigger] kinds[k] == 2
    &&& forall|k: int|
        0 <= k < n - 1 ==> b[k] <= #[trigger] commas[k] < a[k + 1] && t[commas[k]] == ','
            && ws_between(t, b[k], commas[k]) && ws_between(t, commas[k] + 1, a[k + 1])
    &&& b[n - 1] <= c && ws_between(t, b[n - 1], c)
}

/// `t` is the text of one JSON object holding the three members of `p`, each
/// once, and any number of members of other keys, in any order, with
/// whitespace around its parts and nothing but whitespace before or after it.
pub open spec fn packet_object(t: Seq<char>, p: PacketSpec) -> bool {
    exists|o: int, c: int, a: Seq<int>, b: Seq<int>, kinds: Seq<int>, commas: Seq<int>|
        #[trigger] object_layout(t, o, c, a, b, kinds, commas, p)
}

/// The parts of `packet_object`: the braces at `o` and `c`, and the members.
pub open spec fn object_layout(
    t: Seq<char>,
    o: int,
    c: int,
    a: Seq<int>,
    b: Seq<int>,
    kinds: Seq<int>,
    commas: Seq<int>,
    p: PacketSpec,
) -> bool {
    &&& 0 <= o && a.len() >= 1 && o < a[0]
    &&& ws_between(t, 0, o)
    &&& t[o] == '{'
    &&& ws_between(t, o + 1, a[0])
    &&& members_layout(t, c, a, b, kinds, commas, p)
    &&& c < t.len()
    &&& t[c] == '}'
    &&& ws_between(t, c + 1, t.len() as int)
}

/// The members of a packet found so far while reading it.
struct Fields {
    receivers: Option<Vec<String>>,
    body: Option<String>,
    id: Option<String>,
}

/// The text of the member of `p` of the given kind (0 `receivers`, 1
/// `body`, 2 `id`), as `to_json` writes it.
pub open spec fn member_text(kind: int, p: PacketSpec) -> Seq<char> {
    if kind == 0 {
        receivers_member(p.receivers)
    } else if kind == 1 {
        string_member("body"@, p.body)
    } else {
        string_member("id"@, p.id)
    }
}

/// The three members of `p` as `to_json` writes each, in the order
/// `k0, k1, k2`, starting at `a0, a1, a2`, with commas at `m0, m1`, inside
/// braces at `o` and `c`, with whitespace around any of these parts.
pub open spec fn members_in_order(
    t: Seq<char>,
    o: int,
    c: int,
    a0: int,
    a1: int,
    a2: int,
    k0: int,
    k1: int,
    k2: int,
    m0: int,
    m1: int,
    p: PacketSpec,
) -> bool {
    let e0 = a0 + member_text(k0, p).len();
    let e1 = a1 + member_text(k1, p).len();
    let e2 = a2 + member_text(k2, p).len();
    &&& 0 <= k0 < 3 && 0 <= k1 < 3 && 0 <= k2 < 3 && k0 != k1 && k0 != k2 && k1 != k2
    &&& 0 <= o < a0 && ws_between(t, 0, o) && t[o] == '{' && ws_between(t, o + 1, a0)
    &&& holds_at(t, a0, member_text(k0, p)) && e0 <= m0 < a1 && ws_between(t, e0, m0)
    &&& t[m0] == ',' && ws_between(t, m0 + 1, a1)
    &&& holds_at(t, a1, member_text(k1, p)) && e1 <= m1 < a2 && ws_between(t, e1, m1)
    &&& t[m1] == ',' && ws_between(t, m1 + 1, a2)
    &&& holds_at(t, a2, member_text(k2, p)) && e2 <= c < t.len() && ws_between(t, e2, c)
    &&& t[c] == '}' && ws_between(t, c + 1, t.len() as int)
}

/// `t` holds the members of `p` as `to_json` writes them, in any order, in
/// one object with whitespace around its parts.
pub open spec fn packet_text_in_any_order(t: Seq<char>, p: PacketSpec) -> bool {
    exists|o: int, c: int, a0: int, a1: int, a2: int, k0: int, k1: int, k2: int, m0: int, m1: int|
        #[trigger] members_in_order(t, o, c, a0, a1, a2, k0, k1, k2, m0, m1, p)
}

/// The field of kind `kind` holds the value that `p` has.
spec fn has_kind(f: Fields, kind: int, p: PacketSpec) -> bool {
    if kind == 0 {
        f.receivers is Some && string_views(f.receivers->0@) == p.receivers
    } else if kind == 1 {
        f.body is Some && f.body->0@ == p.body
    } else {
        f.id is Some && f.id->0@ == p.id
    }
}

/// The field of kind `kind` is empty.
spec fn lacks_kind(f: Fields, kind: int) -> bool {
    if kind == 0 {
        f.receivers is None
    } else if kind == 1 {
        f.body is None
    } else {
        f.id is None
    }
}

/// `f1` has the fields of `f0` but for the one of kind `kind`.
spec fn keeps_others(f0: Fields, f1: Fields, kind: int) -> bool {
    &&& kind != 0 ==> f1.receivers == f0.receivers
    &&& kind != 1 ==> f1.body == f0.body
    &&& kind != 2 ==> f1.id == f0.id
}

/// The text that `to_json` writes has its members in order, without
/// whitespace.
proof fn lemma_canonical_in_order(t: Seq<char>, p: PacketSpec)
    requires
        is_packet_text(t, p),
    ensures
        packet_text_in_any_order(t, p),
{
    lemma_packet_layout(t, p);
    assert(members_in_order(t, 0, close_at(p), 1, body_at(p), id_at(p), 0, 1, 2, body_at(p) - 1, id_at(p) - 1, p));
}

proof fn lemma_member_start(t: Seq<char>, a: int, kind: int, p: PacketSpec)
    requires
        holds_at(t, a, member_text(kind, p)),
    ensures
        a < t.len(),
        t[a] == '"',
        !is_ws(t[a]),
        member_text(kind, p).len() > 0,
{
    let m = member_text(kind, p);
    assert(m[0] == '"');
    assert(t[a] == t.subrange(a, a + m.len())[0]);
}

/// The kind of the member that took `f0` to `f1`.
spec fn step_kind(f0: Fields, f1: Fields) -> int {
    if f0.receivers is None && f1.receivers is Some {
        0
    } else if f0.body is None && f1.body is Some {
        1
    } else if f0.id is None && f1.id is Some {
        2
    } else {
        3
    }
}

/// Reading the member from `a` up to `b` took `f0` to `f1`: it filled one
/// field that was empty, with the member's value, and kept the others.
#[verifier::opaque]
spec fn step_ok(t: Seq<char>, a: int, b: int, f0: Fields, f1: Fields) -> bool {
    ||| f0.receivers is None && f1.receivers is Some && f1.body == f0.body && f1.id == f0.id
        && array_member_at(t, a, b, "receivers"@, string_views(f1.receivers->0@))
    ||| f0.body is None && f1.body is Some && f1.receivers == f0.receivers && f1.id == f0.id
        && string_member_at(t, a, b, "body"@, f1.body->0@)
    ||| f0.id is None && f1.id is Some && f1.receivers == f0.receivers && f1.body == f0.body
        && string_member_at(t, a, b, "id"@, f1.id->0@)
    ||| f1 == f0 && unknown_member_at(t, a, b)
}

/// A step fills the field of its kind, which was empty, and keeps the others.
proof fn lemma_step_fills(t: Seq<char>, a: int, b: int, f0: Fields, f1: Fields)
    requires
        step_ok(t, a, b, f0, f1),
    ensures
        step_kind(f0, f1) == 0 ==> f0.receivers is None && f1.receivers is Some && f1.body == f0.body
            && f1.id == f0.id,
        step_kind(f0, f1) == 1 ==> f0.body is None && f1.body is Some && f1.receivers
            == f0.receivers && f1.id == f0.id,
        step_kind(f0, f1) == 2 ==> f0.id is None && f1.id is Some && f1.receivers == f0.receivers
            && f1.body == f0.body,
        step_kind(f0, f1) == 3 ==> f1 == f0,
        0 <= step_kind(f0, f1) < 4,
        field_member(t, a, b, step_kind(f0, f1), f1),
{
    reveal(step_ok);
}

/// `t` holds, from `a` up to `b`, a member of the given kind whose value
/// is the one that `f` holds for that kind (kind 3: a member of another key).
spec fn field_member(t: Seq<char>, a: int, b: int, kind: int, f: Fields) -> bool {
    if kind == 0 {
        f.receivers is Some && array_member_at(t, a, b, "receivers"@, string_views(f.receivers->0@))
    } else if kind == 1 {
        f.body is Some && string_member_at(t, a, b, "body"@, f.body->0@)
    } else if kind == 2 {
        f.id is Some && string_member_at(t, a, b, "id"@, f.id->0@)
    } else {
        kind == 3 && unknown_member_at(t, a, b)
    }
}

/// The members read so far, from `first` on, each followed by a comma, the
/// next member to start at `pos`; `f` holds the values of the known ones,
/// each of which came once.
/// Member `k` from `a[k]` up to `b[k]` is of kind `kinds[k]` with the
/// value that `f` holds; `f` holds a known kind exactly when a member of
/// that kind came, and each came once.
#[verifier::opaque]
spec fn members_ok(t: Seq<char>, a: Seq<int>, b: Seq<int>, kinds: Seq<int>, f: Fields) -> bool {
    let n = a.len() as int;
    &&& b.len() == n && kinds.len() == n
    &&& forall|k: int| 0 <= k < n ==> a[k] < #[trigger] b[k]
    &&& forall|k: int| 0 <= k < n ==> 0 <= #[trigger] kinds[k] < 4
    &&& forall|k: int| 0 <= k < n ==> #[trigger] field_member(t, a[k], b[k], kinds[k], f)
    &&& forall|k: int, l: int|
        0 <= k < n && 0 <= l < n && k != l && #[trigger] kinds[k] == #[trigger] kinds[l] ==> kinds[k]
            == 3
    &&& f.receivers is Some <==> exists|k: int| 0 <= k < n && #[trigger] kinds[k] == 0
    &&& f.body is Some <==> exists|k: int| 0 <= k < n && #[trigger] kinds[k] == 1
    &&& f.id is Some <==> exists|k: int| 0 <= k < n && #[trigger] kinds[k] == 2
}

/// The members read so far, from `first` on, each followed by a comma, the
/// next member to start at `pos`.
#[verifier::opaque]
spec fn so_far(
    t: Seq<char>,
    first: int,
    pos: int,
    a: Seq<int>,
    b: Seq<int>,
    kinds: Seq<int>,
    commas: Seq<int>,
    f: Fields,
) -> bool {
    let n = a.len() as int;
    &&& members_ok(t, a, b, kinds, f)
    &&& b.len() == n && kinds.len() == n && commas.len() == n
    &&& n == 0 ==> pos == first
    &&& n > 0 ==> a[0] == first && commas[n - 1] < pos && ws_between(t, commas[n - 1] + 1, pos)
    &&& forall|k: int|
        0 <= k < n ==> b[k] <= #[trigger] commas[k] && t[commas[k]] == ',' && ws_between(
            t,
            b[k],
            commas[k],
        )
    &&& forall|k: int|
        0 <= k < n - 1 ==> commas[k] < #[trigger] a[k + 1] && ws_between(t, commas[k] + 1, a[k + 1])
}

proof fn lemma_so_far_start(t: Seq<char>, first: int)
    ensures
        so_far(
            t,
            first,
            first,
            Seq::empty(),
            Seq::empty(),
            Seq::empty(),
            Seq::empty(),
            Fields { receivers: None, body: None, id: None },
        ),
{
    reveal(so_far);
    reveal(members_ok);
}

/// A member kept by a step stays a member of the same kind.
proof fn lemma_field_kept(t: Seq<char>, a: int, b: int, kind: int, f0: Fields, f1: Fields, x: int)
    requires
        field_member(t, a, b, kind, f0),
        0 <= x < 4,
        x != kind || kind == 3,
        x == 0 ==> f0.receivers is None,
        x == 1 ==> f0.body is None,
        x == 2 ==> f0.id is None,
        x != 0 ==> f1.receivers == f0.receivers,
        x != 1 ==> f1.body == f0.body,
        x != 2 ==> f1.id == f0.id,
    ensures
        field_member(t, a, b, kind, f1),
{
}

#[verifier::rlimit(60)]
proof fn lemma_members_push(
    t: Seq<char>,
    pos: int,
    end: int,
    a: Seq<int>,
    b: Seq<int>,
    kinds: Seq<int>,
    f0: Fields,
    f1: Fields,
)
    requires
        members_ok(t, a, b, kinds, f0),
        step_ok(t, pos, end, f0, f1),
        pos < end,
    ensures
        members_ok(t, a.push(pos), b.push(end), kinds.push(step_kind(f0, f1)), f1),
{
    reveal(members_ok);
    lemma_step_fills(t, pos, end, f0, f1);
    let x = step_kind(f0, f1);
    let n = a.len() as int;
    let a2 = a.push(pos);
    let b2 = b.push(end);
    let k2 = kinds.push(x);
    assert forall|k: int| 0 <= k < n + 1 implies a2[k] < b2[k] && 0 <= k2[k] < 4
        && #[trigger] field_member(t, a2[k], b2[k], k2[k], f1) by {
        if k < n {
            assert(a2[k] == a[k] && b2[k] == b[k] && k2[k] == kinds[k]);
            assert(field_member(t, a[k], b[k], kinds[k], f0));
            if x < 3 && kinds[k] == x {
                assert(exists|j: int| 0 <= j < n && #[trigger] kinds[j] == x);
            }
            lemma_field_kept(t, a[k], b[k], kinds[k], f0, f1, x);
        }
    }
    assert forall|k: int| 0 <= k < n + 1 implies a2[k] < #[trigger] b2[k] by {
        assert(field_member(t, a2[k], b2[k], k2[k], f1));
    }
    assert forall|k: int| 0 <= k < n + 1 implies 0 <= #[trigger] k2[k] < 4 by {
        assert(field_member(t, a2[k], b2[k], k2[k], f1));
    }
    assert forall|k: int, l: int|
        0 <= k < n + 1 && 0 <= l < n + 1 && k != l && #[trigger] k2[k] == #[trigger] k2[l] implies k2[k]
        == 3 by {
        if k < n && l < n {
            assert(kinds[k] == kinds[l]);
        } else if k == n && x < 3 {
            assert(kinds[l] == x);
        } else if l == n && x < 3 {
            assert(kinds[k] == x);
        }
    }
    if f1.receivers is Some {
        if f0.receivers is Some {
            let j = choose|j: int| 0 <= j < n && #[trigger] kinds[j] == 0;
            assert(k2[j] == 0);
        } else {
            assert(k2[n] == 0);
        }
    }
    if f1.body is Some {
        if f0.body is Some {
            let j = choose|j: int| 0 <= j < n && #[trigger] kinds[j] == 1;
            assert(k2[j] == 1);
        } else {
            assert(k2[n] == 1);
        }
    }
    if f1.id is Some {
        if f0.id is Some {
            let j = choose|j: int| 0 <= j < n && #[trigger] kinds[j] == 2;
            assert(k2[j] == 2);
        } else {
            assert(k2[n] == 2);
        }
    }
    assert forall|j: int| 0 <= j < n + 1 && #[trigger] k2[j] == 0 implies f1.receivers is Some by {
        if j < n {
            assert(kinds[j] == 0);
        }
    }
    assert forall|j: int| 0 <= j < n + 1 && #[trigger] k2[j] == 1 implies f1.body is Some by {
        if j < n {
            assert(kinds[j] == 1);
        }
    }
    assert forall|j: int| 0 <= j < n + 1 && #[trigger] k2[j] == 2 implies f1.id is Some by {
        if j < n {
            assert(kinds[j] == 2);
        }
    }
}

proof fn lemma_so_far_push(
    t: Seq<char>,
    first: int,
    pos: int,
    end: int,
    after: int,
    next: int,
    a: Seq<int>,
    b: Seq<int>,
    kinds: Seq<int>,
    commas: Seq<int>,
    f0: Fields,
    f1: Fields,
)
    requires
        so_far(t, first, pos, a, b, kinds, commas, f0),
        step_ok(t, pos, end, f0, f1),
        pos < end <= after < next,
        t[after] == ',',
        ws_between(t, end, after),
        ws_between(t, after + 1, next),
    ensures
        so_far(
            t,
            first,
            next,
            a.push(pos),
            b.push(end),
            kinds.push(step_kind(f0, f1)),
            commas.push(after),
            f1,
        ),
{
    reveal(so_far);
    lemma_members_push(t, pos, end, a, b, kinds, f0, f1);
    let n = a.len() as int;
    let a2 = a.push(pos);
    let b2 = b.push(end);
    let c2 = commas.push(after);
    assert forall|k: int| 0 <= k < n + 1 implies b2[k] <= #[trigger] c2[k] && t[c2[k]] == ','
        && ws_between(t, b2[k], c2[k]) by {
        if k < n {
            assert(b2[k] == b[k] && c2[k] == commas[k]);
        }
    }
    assert forall|k: int| 0 <= k < n implies c2[k] < #[trigger] a2[k + 1] && ws_between(
        t,
        c2[k] + 1,
        a2[k + 1],
    ) by {
        assert(c2[k] == commas[k]);
        if k < n - 1 {
            assert(a2[k + 1] == a[k + 1]);
        }
    }
}

/// Item `n` of three.
spec fn nth3(n: int, x0: int, x1: int, x2: int) -> int {
    if n == 0 {
        x0
    } else if n == 1 {
        x1
    } else {
        x2
    }
}

/// After `n` of the members `k0, k1, k2` of `p`, `f` holds those and lacks
/// the others.
spec fn progress(f: Fields, n: int, k0: int, k1: int, k2: int, p: PacketSpec) -> bool {
    &&& n >= 1 ==> has_kind(f, k0, p)
    &&& n >= 2 ==> has_kind(f, k1, p)
    &&& n >= 3 ==> has_kind(f, k2, p)
    &&& n < 1 ==> lacks_kind(f, k0)
    &&& n < 2 ==> lacks_kind(f, k1)
    &&& n < 3 ==> lacks_kind(f, k2)
}

/// The last member, followed by whitespace up to `c`, closes the members.
#[verifier::rlimit(60)]
proof fn lemma_so_far_close(
    t: Seq<char>,
    first: int,
    pos: int,
    end: int,
    c: int,
    a: Seq<int>,
    b: Seq<int>,
    kinds: Seq<int>,
    commas: Seq<int>,
    f0: Fields,
    f1: Fields,
)
    requires
        so_far(t, first, pos, a, b, kinds, commas, f0),
        step_ok(t, pos, end, f0, f1),
        pos < end <= c,
        ws_between(t, end, c),
        complete(f1),
    ensures
        members_layout(
            t,
            c,
            a.push(pos),
            b.push(end),
            kinds.push(step_kind(f0, f1)),
            commas,
            packet_of(f1),
        ),
        a.push(pos)[0] == first,
{
    reveal(so_far);
    lemma_members_push(t, pos, end, a, b, kinds, f0, f1);
    reveal(members_ok);
    let n = a.len() as int;
    let a2 = a.push(pos);
    let b2 = b.push(end);
    let k2 = kinds.push(step_kind(f0, f1));
    let p = packet_of(f1);
    assert forall|k: int| 0 <= k < n + 1 implies a2[k] < b2[k] && #[trigger] member_kind(
        t,
        a2[k],
        b2[k],
        k2[k],
        p,
    ) by {
        assert(field_member(t, a2[k], b2[k], k2[k], f1));
    }
    assert forall|k: int| 0 <= k < n + 1 implies 0 <= #[trigger] k2[k] < 4 by {
        assert(field_member(t, a2[k], b2[k], k2[k], f1));
    }
    assert forall|k: int| 0 <= k < n + 1 implies a2[k] < #[trigger] b2[k] by {
        assert(field_member(t, a2[k], b2[k], k2[k], f1));
    }
    assert forall|k: int| 0 <= k < n implies b2[k] <= #[trigger] commas[k] < a2[k + 1] && t[commas[k]]
        == ',' && ws_between(t, b2[k], commas[k]) && ws_between(t, commas[k] + 1, a2[k + 1]) by {
        assert(b2[k] == b[k] && a2[k] == a[k]);
        if k < n - 1 {
            assert(a2[k + 1] == a[k + 1]);
        }
    }

}

/// All three fields are filled.
spec fn complete(f: Fields) -> bool {
    f.receivers is Some && f.body is Some && f.id is Some
}

/// The packet that complete fields make.
spec fn packet_of(f: Fields) -> PacketSpec {
    PacketSpec { receivers: string_views(f.receivers->0@), body: f.body->0@, id: f.id->0@ }
}

/// Relies on `uuid::Uuid::new_v4` and its `Display`: a random id in the
/// hyphenated form, 36 characters.
#[verifier::external_body]
fn fresh_id() -> (r: String)
    ensures
        r@.len() == 36,
{
    uuid::Uuid::new_v4().to_string()
}

/// Reads the member at `pos`, stores its value, and returns the position of
/// the first character after it that is not whitespace.
fn parse_member(t: &Vec<char>, pos: usize, f: &mut Fields) -> (r: Option<usize>)
    requires
        pos <= t@.len(),
    ensures
        r matches Some(q) ==> pos < q <= t@.len() && step_ok(t@, pos as int, q as int, *old(f), *final(f)),
        forall|kind: int, p: PacketSpec|
            0 <= kind < 3 && #[trigger] holds_at(t@, pos as int, member_text(kind, p)) && lacks_kind(
                *old(f),
                kind,
            ) ==> r is Some && r->0 == pos + member_text(kind, p).len() && has_kind(
                *final(f),
                kind,
                p,
            ) && keeps_others(*old(f), *final(f), kind),
        forall|items: Seq<Seq<char>>| #[trigger]
            holds_at(t@, pos as int, receivers_member(items)) && old(f).receivers is None
                ==> r is Some && r->0 == pos + receivers_member(items).len()
                && final(f).receivers is Some && string_views(final(f).receivers->0@) == items
                && final(f).body == old(f).body && final(f).id == old(f).id,
        forall|b: Seq<char>| #[trigger]
            holds_at(t@, pos as int, string_member("body"@, b)) && old(f).body is None
                ==> r is Some && r->0 == pos + string_member("body"@, b).len()
                && final(f).body is Some && final(f).body->0@ == b
                && final(f).receivers == old(f).receivers && final(f).id == old(f).id,
        forall|b: Seq<char>| #[trigger]
            holds_at(t@, pos as int, string_member("id"@, b)) && old(f).id is None
                ==> r is Some && r->0 == pos + string_member("id"@, b).len()
                && final(f).id is Some && final(f).id->0@ == b
                && final(f).receivers == old(f).receivers && final(f).body == old(f).body,
{
    proof {
        reveal_strlit("receivers");
        reveal_strlit("body");
        reveal_strlit("id");
        assert forall|items: Seq<Seq<char>>| #[trigger] holds_at(t@, pos as int, receivers_member(items)) implies
            holds_at(t@, pos as int, quoted("receivers"@)) && holds_at(t@, pos + quoted("receivers"@).len(), seq![':'])
            && t@[pos + quoted("receivers"@).len()] == ':' && t@[pos + quoted("receivers"@).len() + 1] == '[' && holds_at(t@, pos + quoted("receivers"@).len() + 1, string_array(items)) by {
            lemma_holds_split(t@, pos as int, quoted("receivers"@) + seq![':'], string_array(items));
            lemma_holds_split(t@, pos as int, quoted("receivers"@), seq![':']);
            let x = pos + quoted("receivers"@).len();
            assert(t@[x] == t@.subrange(x, x + 1)[0]);
            assert(t@[x + 1] == t@.subrange(x + 1, x + 1 + string_array(items).len())[0]);
        }
        assert forall|b: Seq<char>| #[trigger] holds_at(t@, pos as int, string_member("body"@, b)) implies
            holds_at(t@, pos as int, quoted("body"@)) && holds_at(t@, pos + quoted("body"@).len(), seq![':'])
            && t@[pos + quoted("body"@).len()] == ':' && t@[pos + quoted("body"@).len() + 1] == '"' && holds_at(t@, pos + quoted("body"@).len() + 1, quoted(b)) by {
            lemma_holds_split(t@, pos as int, quoted("body"@) + seq![':'], quoted(b));
            lemma_holds_split(t@, pos as int, quoted("body"@), seq![':']);
            let x = pos + quoted("body"@).len();
            assert(t@[x] == t@.subrange(x, x + 1)[0]);
            assert(t@[x + 1] == t@.subrange(x + 1, x + 1 + quoted(b).len())[0]);
        }
        assert forall|b: Seq<char>| #[trigger] holds_at(t@, pos as int, string_member("id"@, b)) implies
            holds_at(t@, pos as int, quoted("id"@)) && holds_at(t@, pos + quoted("id"@).len(), seq![':'])
            && t@[pos + quoted("id"@).len()] == ':' && t@[pos + quoted("id"@).len() + 1] == '"' && holds_at(t@, pos + quoted("id"@).len() + 1, quoted(b)) by {
            lemma_holds_split(t@, pos as int, quoted("id"@) + seq![':'], quoted(b));
            lemma_holds_split(t@, pos as int, quoted("id"@), seq![':']);
            let x = pos + quoted("id"@).len();
            assert(t@[x] == t@.subrange(x, x + 1)[0]);
            assert(t@[x + 1] == t@.subrange(x + 1, x + 1 + quoted(b).len())[0]);
        }
    }
    let ghost f0 = *f;
    reveal(step_ok);
    let (key, after_key) = match parse_string(t, pos) {
        Some(x) => x,
        None => return None,
    };
    let colon = skip_ws(t, after_key);
    if colon >= t.len() || t[colon] != ':' {
        return None;
    }
    proof {
        assert(t@[colon as int] == t@.subrange(colon as int, colon + 1)[0]);
    }
    let start = skip_ws(t, colon + 1);
    if key == String::from_str("receivers") {
        if f.receivers.is_some() {
            return None;
        }
        match parse_string_array(t, start) {
            Some((v, j)) => {
                proof {
                    assert(member_frame(t@, pos as int, after_key as int, colon as int, start as int, "receivers"@));
                    assert(array_member_at(t@, pos as int, j as int, "receivers"@, string_views(v@)));
                }
                let ghost vv = v@;
                f.receivers = Some(v);
                assert(f.receivers is Some);
                assert(f.receivers->0@ == vv);
                assert(array_member_at(t@, pos as int, j as int, "receivers"@, string_views(f.receivers->0@)));
                Some(j)
            },
            None => None,
        }
    } else if key == String::from_str("body") {
        if f.body.is_some() {
            return None;
        }
        match parse_string(t, start) {
            Some((v, j)) => {
                proof {
                    assert(member_frame(t@, pos as int, after_key as int, colon as int, start as int, "body"@));
                    assert(string_member_at(t@, pos as int, j as int, "body"@, v@));
                }
                let ghost vv = v@;
                f.body = Some(v);
                proof {
                    assert(f.body->0@ == vv);
                    assert(string_member_at(t@, pos as int, j as int, "body"@, f.body->0@));
                }
                Some(j)
            },
            None => None,
        }
    } else if key == String::from_str("id") {
        if f.id.is_some() {
            return None;
        }
        match parse_string(t, start) {
            Some((v, j)) => {
                proof {
                    assert(member_frame(t@, pos as int, after_key as int, colon as int, start as int, "id"@));
                    assert(string_member_at(t@, pos as int, j as int, "id"@, v@));
                }
                let ghost vv = v@;
                f.id = Some(v);
                proof {
                    assert(f.id->0@ == vv);
                    assert(string_member_at(t@, pos as int, j as int, "id"@, f.id->0@));
                }
                Some(j)
            },
            None => None,
        }
    } else {
        match skip_value(t, start) {
            Some(j) => {
                proof {
                    assert(member_frame(t@, pos as int, after_key as int, colon as int, start as int, key@));
                    assert(unknown_member_at(t@, pos as int, j as int));
                }
                Some(j)
            },
            None => None,
        }
    }
}

/// Where the parts of `packet_text(p)` start: the `body` member, the `id`
/// member, and the closing brace. The `receivers` member starts at 1.
pub open spec fn body_at(p: PacketSpec) -> int {
    2 + receivers_member(p.receivers).len() as int
}

pub open spec fn id_at(p: PacketSpec) -> int {
    body_at(p) + string_member("body"@, p.body).len() as int + 1
}

pub open spec fn close_at(p: PacketSpec) -> int {
    id_at(p) + string_member("id"@, p.id).len() as int
}

proof fn lemma_first_char(t: Seq<char>, i: int, part: Seq<char>)
    requires
        holds_at(t, i, part),
        part.len() > 0,
    ensures
        t[i] == part[0],
{
    assert(t[i] == t.subrange(i, i + part.len())[0]);
}

/// The layout of a packet's text, part by part.
proof fn lemma_packet_layout(t: Seq<char>, p: PacketSpec)
    requires
        is_packet_text(t, p),
    ensures
        t[0] == '{',
        holds_at(t, 1, receivers_member(p.receivers)),
        t[1] == '"',
        t[body_at(p) - 1] == ',',
        holds_at(t, body_at(p), string_member("body"@, p.body)),
        t[body_at(p)] == '"',
        t[id_at(p) - 1] == ',',
        holds_at(t, id_at(p), string_member("id"@, p.id)),
        t[id_at(p)] == '"',
        t[close_at(p)] == '}',
        close_at(p) + 1 == packet_text(p).len(),
        packet_text(p).len() <= t.len(),
{
    let m0 = receivers_member(p.receivers);
    let m1 = string_member("body"@, p.body);
    let m2 = string_member("id"@, p.id);
    let c = seq![','];
    assert(packet_text(p) == seq!['{'] + m0 + c + m1 + c + m2 + seq!['}']);
    lemma_holds_split(t, 0, seq!['{'] + m0 + c + m1 + c + m2, seq!['}']);
    lemma_holds_split(t, 0, seq!['{'] + m0 + c + m1 + c, m2);
    lemma_holds_split(t, 0, seq!['{'] + m0 + c + m1, c);
    lemma_holds_split(t, 0, seq!['{'] + m0 + c, m1);
    lemma_holds_split(t, 0, seq!['{'] + m0, c);
    lemma_holds_split(t, 0, seq!['{'], m0);
    lemma_first_char(t, 0, seq!['{']);
    lemma_first_char(t, 1, m0);
    lemma_first_char(t, body_at(p) - 1, c);
    lemma_first_char(t, body_at(p), m1);
    lemma_first_char(t, id_at(p) - 1, c);
    lemma_first_char(t, id_at(p), m2);
    lemma_first_char(t, close_at(p), seq!['}']);
}

/// Reads the members of an object from `first` on: the fields found and the
/// position of the first character after them that is not whitespace.
#[verifier::rlimit(80)]
fn read_members(t: &Vec<char>, first: usize) -> (r: Option<(Fields, usize)>)
    requires
        first <= t@.len(),
    ensures
        r matches Some((f, c)) ==> c <= t@.len() && (complete(f) ==> exists|
            a: Seq<int>,
            b: Seq<int>,
            kinds: Seq<int>,
            commas: Seq<int>,
        | #[trigger] members_layout(t@, c as int, a, b, kinds, commas, packet_of(f)) && a[0] == first),
        forall|o: int, c: int, a0: int, a1: int, a2: int, k0: int, k1: int, k2: int, m0: int, m1: int, p: PacketSpec|
            #[trigger] members_in_order(t@, o, c, a0, a1, a2, k0, k1, k2, m0, m1, p) && first == a0 ==> (r matches Some((f, cl)) && cl == c && complete(f)
                && packet_of(f) == p),
{
    let mut f = Fields { receivers: None, body: None, id: None };
    let mut pos = first;
    let ghost mut a: Seq<int> = Seq::empty();
    let ghost mut b: Seq<int> = Seq::empty();
    let ghost mut kinds: Seq<int> = Seq::empty();
    let ghost mut commas: Seq<int> = Seq::empty();
    proof {
        lemma_so_far_start(t@, first as int);
    }
    loop
        invariant
            first <= pos <= t@.len(),
            so_far(t@, first as int, pos as int, a, b, kinds, commas, f),
            forall|o: int, c: int, a0: int, a1: int, a2: int, k0: int, k1: int, k2: int, m0: int, m1: int, p: PacketSpec|
                #[trigger] members_in_order(t@, o, c, a0, a1, a2, k0, k1, k2, m0, m1, p) && first == a0 ==> a.len() < 3 && pos == nth3(
                    a.len() as int,
                    a0,
                    a1,
                    a2,
                ) && progress(f, a.len() as int, k0, k1, k2, p),
        decreases t@.len() - pos,
    {
        let ghost f0 = f;
        let ghost n = a.len() as int;
        proof {
            assert forall|o: int, c: int, a0: int, a1: int, a2: int, k0: int, k1: int, k2: int, m0: int, m1: int, p: PacketSpec| #[trigger] members_in_order(t@, o, c, a0, a1, a2, k0, k1, k2, m0, m1, p) && first == a0 implies holds_at(
                t@,
                pos as int,
                member_text(nth3(n, k0, k1, k2), p),
            ) && lacks_kind(f, nth3(n, k0, k1, k2)) && 0 <= nth3(n, k0, k1, k2) < 3 by {
            }
        }
        let end = match parse_member(t, pos, &mut f) {
            Some(j) => j,
            None => {
                proof {
                    assert forall|o: int, c: int, a0: int, a1: int, a2: int, k0: int, k1: int, k2: int, m0: int, m1: int, p: PacketSpec| #[trigger] members_in_order(t@, o, c, a0, a1, a2, k0, k1, k2, m0, m1, p) && first == a0 implies false by {
                        let kn = nth3(n, k0, k1, k2);
                        assert(holds_at(t@, pos as int, member_text(kn, p)) && lacks_kind(f0, kn));
                    }
                }
                return None;
            },
        };
        let after = skip_ws(t, end);
        proof {
            assert forall|o: int, c: int, a0: int, a1: int, a2: int, k0: int, k1: int, k2: int, m0: int, m1: int, p: PacketSpec| #[trigger] members_in_order(t@, o, c, a0, a1, a2, k0, k1, k2, m0, m1, p) && first == a0 implies end == nth3(n, a0, a1, a2)
                + member_text(nth3(n, k0, k1, k2), p).len() && after == (if n < 2 {
                nth3(n, m0, m1, 0)
            } else {
                c
            }) && progress(f, n + 1, k0, k1, k2, p) by {
                let kn = nth3(n, k0, k1, k2);
                assert(holds_at(t@, pos as int, member_text(kn, p)) && lacks_kind(f0, kn));
                lemma_member_start(t@, a0, k0, p);
                lemma_member_start(t@, a1, k1, p);
                lemma_member_start(t@, a2, k2, p);
            }
        }
        if after < t.len() && t[after] == ',' {
            let next = skip_ws(t, after + 1);
            proof {
                lemma_so_far_push(t@, first as int, pos as int, end as int, after as int, next as int, a, b, kinds, commas, f0, f);
                assert forall|o: int, c: int, a0: int, a1: int, a2: int, k0: int, k1: int, k2: int, m0: int, m1: int, p: PacketSpec| #[trigger] members_in_order(t@, o, c, a0, a1, a2, k0, k1, k2, m0, m1, p) && first == a0 implies n + 1 < 3 && next == nth3(
                    n + 1,
                    a0,
                    a1,
                    a2,
                ) by {
                    lemma_member_start(t@, a0, k0, p);
                    lemma_member_start(t@, a1, k1, p);
                    lemma_member_start(t@, a2, k2, p);
                }
                a = a.push(pos as int);
                b = b.push(end as int);
                kinds = kinds.push(step_kind(f0, f));
                commas = commas.push(after as int);
            }
            pos = next;
        } else {
            proof {
                if complete(f) {
                    lemma_so_far_close(t@, first as int, pos as int, end as int, after as int, a, b, kinds, commas, f0, f);
                }
                assert forall|o: int, c: int, a0: int, a1: int, a2: int, k0: int, k1: int, k2: int, m0: int, m1: int, p: PacketSpec| #[trigger] members_in_order(t@, o, c, a0, a1, a2, k0, k1, k2, m0, m1, p) && first == a0 implies after == c && complete(f)
                    && packet_of(f) == p by {
                    assert(has_kind(f, 0, p) && has_kind(f, 1, p) && has_kind(f, 2, p));
                    assert(packet_of(f) =~= p);
                }
            }
            return Some((f, after));
        }
    }
}

impl Packet {
    /// A packet with a freshly generated id.
    pub fn new(receivers: Vec<String>, body: String) -> (r: Packet)
        ensures
            r.receivers@ == receivers@,
            r.body@ == body@,
            r.id@.len() == 36,
    {
        Packet { receivers, body, id: fresh_id() }
    }

    /// A packet with the given id.
    pub fn new_with_id(receivers: Vec<String>, body: String, id: String) -> (r: Packet)
        ensures
            r.receivers@ == receivers@,
            r.body@ == body@,
            r.id@ == id@,
    {
        Packet { receivers, body, id }
    }

    /// Whether the packet is a directory command: addressed to `server` alone.
    pub fn is_command(&self) -> (r: bool)
        ensures
            r == (self@.receivers.len() == 1 && self@.receivers[0] == "server"@),
    {
        self.receivers.len() == 1 && self.receivers[0] == String::from_str("server")
    }

    /// The packet's canonical JSON text.
    pub fn to_json(&self) -> (r: String)
        ensures
            r@ == packet_text(self@),
    {
        let mut out = String::new();
        push_char(&mut out, '{');
        write_quoted(&mut out, "receivers");
        push_char(&mut out, ':');
        write_string_array(&mut out, &self.receivers);
        push_char(&mut out, ',');
        write_string_member(&mut out, "body", self.body.as_str());
        push_char(&mut out, ',');
        write_string_member(&mut out, "id", self.id.as_str());
        push_char(&mut out, '}');
        assert(out@ =~= packet_text(self@));
        out
    }

    /// The bytes written to the wire for this packet: its JSON text and a
    /// newline.
    pub fn to_frame(&self) -> (r: String)
        ensures
            r@ == framed_text(self@),
    {
        let mut out = self.to_json();
        push_char(&mut out, '\n');
        out
    }

    /// Reads a packet from the text of one read: a JSON object with the
    /// members `receivers` (an array of strings), `body` and `id` (strings),
    /// each once, in any order, with whitespace around its parts and nothing
    /// but whitespace before or after it. Members of other keys are skipped,
    /// whatever JSON value they hold. Any such text whose three members are
    /// written as `to_json` writes them, and which has no other members, is
    /// read, in whatever order they come; and a packet is read only from such
    /// an object, each field from the member of its name.
    pub fn from_json(json_str: &str) -> (r: Result<Packet, PacketError>)
        ensures
            forall|p: PacketSpec| #[trigger]
                packet_text_in_any_order(json_str@, p) ==> (r matches Ok(q) && q@ == p),
            forall|p: PacketSpec| #[trigger]
                is_packet_text(json_str@, p) ==> (r matches Ok(q) && q@ == p),
            r matches Ok(q) ==> packet_object(json_str@, q@),
            r is Err ==> r == Err::<Packet, PacketError>(PacketError::MalformedPacket),
    {
        let t = to_chars(json_str);
        proof {
            assert forall|p: PacketSpec| #[trigger] is_packet_text(t@, p) implies packet_text_in_any_order(t@, p) by {
                lemma_canonical_in_order(t@, p);
            }
        }
        let start = skip_ws(&t, 0);
        proof {
            assert forall|o: int, c: int, a0: int, a1: int, a2: int, k0: int, k1: int, k2: int, m0: int, m1: int, p: PacketSpec| #[trigger] members_in_order(t@, o, c, a0, a1, a2, k0, k1, k2, m0, m1, p) implies start == o by {
                lemma_member_start(t@, a0, k0, p);
            }
        }
        if start >= t.len() || t[start] != '{' {
            return Err(PacketError::MalformedPacket);
        }
        let first = skip_ws(&t, start + 1);
        proof {
            assert forall|o: int, c: int, a0: int, a1: int, a2: int, k0: int, k1: int, k2: int, m0: int, m1: int, p: PacketSpec| #[trigger] members_in_order(t@, o, c, a0, a1, a2, k0, k1, k2, m0, m1, p) implies first == a0 by {
                lemma_member_start(t@, a0, k0, p);
            }
        }
        let (f, close) = match read_members(&t, first) {
            Some(x) => x,
            None => return Err(PacketError::MalformedPacket),
        };
        if close >= t.len() || t[close] != '}' {
            return Err(PacketError::MalformedPacket);
        }
        let rest = skip_ws(&t, close + 1);
        if rest != t.len() {
            proof {
            assert forall|o: int, c: int, a0: int, a1: int, a2: int, k0: int, k1: int, k2: int, m0: int, m1: int, p: PacketSpec| #[trigger] members_in_order(t@, o, c, a0, a1, a2, k0, k1, k2, m0, m1, p) implies false by {
                lemma_member_start(t@, a0, k0, p);
            }
            }
            return Err(PacketError::MalformedPacket);
        }
        match (f.receivers, f.body, f.id) {
            (Some(receivers), Some(body), Some(id)) => {
                let q = Packet { receivers, body, id };
                proof {
                    assert(t@ == json_str@);
                    assert(complete(f));
                    assert(q@ == packet_of(f));
                    let (a, b, kinds, commas) = choose|
                        a: Seq<int>,
                        b: Seq<int>,
                        kinds: Seq<int>,
                        commas: Seq<int>,
                    | #[trigger] members_layout(t@, close as int, a, b, kinds, commas, packet_of(f))
                        && a[0] == first;
                    assert(object_layout(json_str@, start as int, close as int, a, b, kinds, commas, q@));
                }
                proof {
                    assert forall|p: PacketSpec| #[trigger] packet_text_in_any_order(json_str@, p) implies q@ == p by {
                        let (o, c, a0, a1, a2, k0, k1, k2, m0, m1) = choose|o: int, c: int, a0: int, a1: int, a2: int, k0: int, k1: int, k2: int, m0: int, m1: int| #[trigger] members_in_order(t@, o, c, a0, a1, a2, k0, k1, k2, m0, m1, p);
                        assert(members_in_order(t@, o, c, a0, a1, a2, k0, k1, k2, m0, m1, p));
                    }
                }
                Ok(q)
            },
            _ => {
                proof {
                    assert forall|p: PacketSpec| !#[trigger] packet_text_in_any_order(json_str@, p) by {
                        if packet_text_in_any_order(json_str@, p) {
                            let (o, c, a0, a1, a2, k0, k1, k2, m0, m1) = choose|o: int, c: int, a0: int, a1: int, a2: int, k0: int, k1: int, k2: int, m0: int, m1: int| #[trigger] members_in_order(t@, o, c, a0, a1, a2, k0, k1, k2, m0, m1, p);
                            assert(members_in_order(t@, o, c, a0, a1, a2, k0, k1, k2, m0, m1, p));
                        }
                    }
                }
                Err(PacketError::MalformedPacket)
            },
        }
    }
}

/// Round trip: a packet's text, alone or framed with its newline, is read
/// back by `from_json` as that packet.
pub proof fn lemma_round_trip(p: PacketSpec)
    ensures
        is_packet_text(packet_text(p), p),
        is_packet_text(framed_text(p), p),
{
    let t = packet_text(p);
    assert(t.subrange(0, t.len() as int) =~= t);
    let f = framed_text(p);
    assert(f.subrange(0, t.len() as int) =~= t);
    assert forall|k: int| t.len() <= k < f.len() implies is_ws(#[trigger] f[k]) by {
        assert(f[k] == '\n');
    }
}

} // verus!
