//! JSON values and their text form in prompts.
use crate::collections::{self, StringMap};
use crate::text::{self, join_strings, owned, signed_decimal_string, str_eq};
use vstd::prelude::*;

verus! {

/// A JSON value.
#[derive(Debug)]
pub enum Json {
    Null,
    Bool(bool),
    /// A number without fraction or exponent.
    Int(i128),
    /// Any other number: the bits of the double that it stands for, and its text.
    Float { bits: u64, text: String },
    Str(String),
    Array(Vec<Json>),
    /// The members in order.
    Object(Vec<(String, Json)>),
}

/// A JSON value as plain values.
pub enum JsonView {
    Null,
    Bool(bool),
    Int(int),
    Float { bits: u64, text: Seq<char> },
    Str(Seq<char>),
    Array(Seq<JsonView>),
    Object(Seq<(Seq<char>, JsonView)>),
}

/// The views of a sequence of JSON values.
pub open spec fn json_views(items: Seq<Json>) -> Seq<JsonView>
    decreases items,
{
    if items.len() == 0 {
        Seq::empty()
    } else {
        json_views(items.drop_last()).push(json_view(items.last()))
    }
}

/// The views of a sequence of members.
pub open spec fn member_views(members: Seq<(String, Json)>) -> Seq<(Seq<char>, JsonView)>
    decreases members,
{
    if members.len() == 0 {
        Seq::empty()
    } else {
        member_views(members.drop_last()).push(
            (members.last().0@, json_view(members.last().1)),
        )
    }
}

/// A JSON value as plain values.
pub open spec fn json_view(j: Json) -> JsonView
    decreases j,
{
    match j {
        Json::Null => JsonView::Null,
        Json::Bool(b) => JsonView::Bool(b),
        Json::Int(n) => JsonView::Int(n as int),
        Json::Float { bits, text } => JsonView::Float { bits, text: text@ },
        Json::Str(s) => JsonView::Str(s@),
        Json::Array(items) => JsonView::Array(json_views(items@)),
        Json::Object(members) => JsonView::Object(member_views(members@)),
    }
}

impl View for Json {
    type V = JsonView;

    open spec fn view(&self) -> JsonView {
        json_view(*self)
    }
}

pub proof fn lemma_json_views_index(items: Seq<Json>)
    ensures
        json_views(items).len() == items.len(),
        forall|i: int| 0 <= i < items.len() ==> #[trigger] json_views(items)[i] == items[i]@,
    decreases items.len(),
{
    if items.len() > 0 {
        let init = items.drop_last();
        lemma_json_views_index(init);
        assert forall|i: int| 0 <= i < items.len() implies #[trigger] json_views(items)[i]
            == items[i]@ by {
            if i < init.len() {
                assert(json_views(init)[i] == init[i]@);
            }
        }
    }
}

pub proof fn lemma_member_views_index(members: Seq<(String, Json)>)
    ensures
        member_views(members).len() == members.len(),
        forall|i: int|
            0 <= i < members.len() ==> #[trigger] member_views(members)[i] == (
                members[i].0@,
                members[i].1@,
            ),
    decreases members.len(),
{
    if members.len() > 0 {
        let init = members.drop_last();
        lemma_member_views_index(init);
        assert forall|i: int| 0 <= i < members.len() implies #[trigger] member_views(members)[i]
            == (members[i].0@, members[i].1@) by {
            if i < init.len() {
                assert(member_views(init)[i] == (init[i].0@, init[i].1@));
            }
        }
    }
}

impl Clone for Json {
    fn clone(&self) -> (r: Json)
        ensures
            r@ == self@,
        decreases self,
    {
        match self {
            Json::Null => Json::Null,
            Json::Bool(b) => Json::Bool(*b),
            Json::Int(n) => Json::Int(*n),
            Json::Float { bits, text } => Json::Float { bits: *bits, text: text.clone() },
            Json::Str(s) => Json::Str(s.clone()),
            Json::Array(items) => {
                let mut out: Vec<Json> = Vec::new();
                let mut i: usize = 0;
                while i < items.len()
                    invariant
                        i <= items@.len(),
                        *self == Json::Array(*items),
                        out@.len() == i,
                        forall|j: int| 0 <= j < i ==> (#[trigger] out@[j])@ == items@[j]@,
                    decreases items.len() - i,
                {
                    assert(decreases_to!(*self => self->Array_0));
                    assert(decreases_to!(*items => items@));
                    assert(decreases_to!(items@ => items@[i as int]));
                    out.push(items[i].clone());
                    i += 1;
                }
                proof {
                    lemma_json_views_index(items@);
                    lemma_json_views_index(out@);
                    assert(json_views(out@) =~= json_views(items@));
                }
                Json::Array(out)
            },
            Json::Object(members) => {
                let mut out: Vec<(String, Json)> = Vec::new();
                let mut i: usize = 0;
                while i < members.len()
                    invariant
                        i <= members@.len(),
                        *self == Json::Object(*members),
                        out@.len() == i,
                        forall|j: int|
                            0 <= j < i ==> (#[trigger] out@[j]).0@ == members@[j].0@ && out@[j].1@
                                == members@[j].1@,
                    decreases members.len() - i,
                {
                    assert(decreases_to!(*self => self->Object_0));
                    assert(decreases_to!(*members => members@));
                    assert(decreases_to!(members@ => members@[i as int]));
                    assert(decreases_to!(members@[i as int] => members@[i as int].1));
                    out.push((members[i].0.clone(), members[i].1.clone()));
                    i += 1;
                }
                proof {
                    lemma_member_views_index(members@);
                    lemma_member_views_index(out@);
                    assert(member_views(out@) =~= member_views(members@));
                }
                Json::Object(out)
            },
        }
    }
}

/// The JSON escape of one character inside a string.
pub open spec fn json_escaped(c: char) -> Seq<char> {
    let n = c as u32 as int;
    if c == '"' {
        seq!['\\', '"']
    } else if c == '\\' {
        seq!['\\', '\\']
    } else if n == 0x08 {
        seq!['\\', 'b']
    } else if n == 0x09 {
        seq!['\\', 't']
    } else if n == 0x0a {
        seq!['\\', 'n']
    } else if n == 0x0c {
        seq!['\\', 'f']
    } else if n == 0x0d {
        seq!['\\', 'r']
    } else if n < 0x20 {
        seq![
            '\\',
            'u',
            '0',
            '0',
            crate::ids::hex_digit(n / 16),
            crate::ids::hex_digit(n % 16),
        ]
    } else {
        seq![c]
    }
}

/// A string as a JSON string literal: quoted, with quotation marks, backslashes and control
/// characters escaped and every other character as it is.
pub open spec fn json_quoted(s: Seq<char>) -> Seq<char> {
    seq!['"'] + s.map_values(|c: char| json_escaped(c)).flatten() + seq!['"']
}

/// `serde_json::to_string` on a string: its JSON string literal. Writing a string into
/// memory does not fail.
#[verifier::external_body]
fn json_string(s: &str) -> (r: Option<String>)
    ensures
        r is Some,
        r->0@ == json_quoted(s@),
{
    serde_json::to_string(s).ok()
}

/// The texts of a sequence of JSON values.
pub open spec fn json_texts(items: Seq<JsonView>) -> Seq<Seq<char>>
    decreases items,
{
    if items.len() == 0 {
        Seq::empty()
    } else {
        json_texts(items.drop_last()).push(json_text(items.last()))
    }
}

/// The texts of a sequence of members.
pub open spec fn member_texts(members: Seq<(Seq<char>, JsonView)>) -> Seq<Seq<char>>
    decreases members,
{
    if members.len() == 0 {
        Seq::empty()
    } else {
        member_texts(members.drop_last()).push(
            json_quoted(members.last().0) + ": "@ + json_text(members.last().1),
        )
    }
}

/// The text of a JSON value on one line: items apart by a comma and a blank, names and
/// values by a colon and a blank, and no character outside ASCII escaped.
pub open spec fn json_text(j: JsonView) -> Seq<char>
    decreases j,
{
    match j {
        JsonView::Null => "null"@,
        JsonView::Bool(b) => if b {
            "true"@
        } else {
            "false"@
        },
        JsonView::Int(n) => text::signed_decimal(n),
        JsonView::Float { bits, text } => text,
        JsonView::Str(s) => json_quoted(s),
        JsonView::Array(items) => "["@ + text::join(json_texts(items), ", "@) + "]"@,
        JsonView::Object(members) => "{"@ + text::join(member_texts(members), ", "@) + "}"@,
    }
}

/// The JSON string literal of `s`.
pub fn quote(s: &str) -> (r: String)
    ensures
        r@ == json_quoted(s@),
{
    match json_string(s) {
        Some(text) => text,
        None => owned("null"),
    }
}

/// The text of a JSON value as prompts carry it.
pub fn to_prompt_json(value: &Json) -> (r: String)
    ensures
        r@ == json_text(value@),
    decreases value,
{
    match value {
        Json::Null => owned("null"),
        Json::Bool(b) => if *b {
            owned("true")
        } else {
            owned("false")
        },
        Json::Int(n) => signed_decimal_string(*n),
        Json::Float { bits, text } => text.clone(),
        Json::Str(s) => quote(s.as_str()),
        Json::Array(items) => {
            let mut parts: Vec<String> = Vec::new();
            let mut i: usize = 0;
            assert(crate::text::views(parts@) =~= json_texts(json_views(items@.take(0))));
            while i < items.len()
                invariant
                    i <= items@.len(),
                    *value == Json::Array(*items),
                    crate::text::views(parts@) == json_texts(json_views(items@.take(i as int))),
                decreases items.len() - i,
            {
                assert(decreases_to!(*value => value->Array_0));
                assert(decreases_to!(*items => items@));
                assert(decreases_to!(items@ => items@[i as int]));
                let ghost before = parts@;
                let part = to_prompt_json(&items[i]);
                parts.push(part);
                proof {
                    let next = items@.take(i as int + 1);
                    assert(next.drop_last() =~= items@.take(i as int));
                    let seen = json_views(next);
                    assert(seen.drop_last() =~= json_views(items@.take(i as int)));
                    assert(crate::text::views(parts@) =~= crate::text::views(before).push(part@));
                }
                i += 1;
            }
            assert(items@.take(items@.len() as int) =~= items@);
            let body = join_strings(&parts, ", ");
            let mut out = owned("[");
            out.append(body.as_str());
            out.append("]");
            out
        },
        Json::Object(members) => {
            let mut parts: Vec<String> = Vec::new();
            let mut i: usize = 0;
            assert(crate::text::views(parts@) =~= member_texts(member_views(members@.take(0))));
            while i < members.len()
                invariant
                    i <= members@.len(),
                    *value == Json::Object(*members),
                    crate::text::views(parts@) == member_texts(
                        member_views(members@.take(i as int)),
                    ),
                decreases members.len() - i,
            {
                assert(decreases_to!(*value => value->Object_0));
                assert(decreases_to!(*members => members@));
                assert(decreases_to!(members@ => members@[i as int]));
                assert(decreases_to!(members@[i as int] => members@[i as int].1));
                let ghost before = parts@;
                let mut part = quote(members[i].0.as_str());
                part.append(": ");
                let text = to_prompt_json(&members[i].1);
                part.append(text.as_str());
                parts.push(part);
                proof {
                    let next = members@.take(i as int + 1);
                    assert(next.drop_last() =~= members@.take(i as int));
                    let seen = member_views(next);
                    assert(seen.drop_last() =~= member_views(members@.take(i as int)));
                    assert(crate::text::views(parts@) =~= crate::text::views(before).push(part@));
                }
                i += 1;
            }
            assert(members@.take(members@.len() as int) =~= members@);
            let body = join_strings(&parts, ", ");
            let mut out = owned("{");
            out.append(body.as_str());
            out.append("}");
            out
        },
    }
}

/// Attributes by the views of their values.
pub open spec fn attributes_view(m: Map<Seq<char>, Json>) -> Map<Seq<char>, JsonView> {
    Map::new(|k: Seq<char>| m.dom().contains(k), |k: Seq<char>| m[k]@)
}

/// Copies attributes.
pub fn clone_attributes(m: &StringMap<Json>) -> (r: StringMap<Json>)
    ensures
        attributes_view(r@) == attributes_view(m@),
{
    let mut out: StringMap<Json> = StringMap::new();
    let n = m.len();
    let mut i: usize = 0;
    while i < n
        invariant
            i <= n,
            n == m.keys().len(),
            m@ == crate::collections::zip_map(m.keys(), m.values()),
            forall|k: Seq<char>| #[trigger]
                out@.dom().contains(k) <==> m.keys().take(i as int).contains(k),
            forall|k: Seq<char>| #[trigger] out@.dom().contains(k) ==> out@[k]@ == m@[k]@,
        decreases n - i,
    {
        let key = m.key_at(i);
        let value = m.value_at(i);
        let ghost before = out@;
        out.insert(key.clone(), value.clone());
        proof {
            crate::collections::lemma_take_contains(m.keys(), i as int);
        }
        i += 1;
    }
    proof {
        assert(m.keys().take(n as int) =~= m.keys());
        assert(attributes_view(out@) =~= attributes_view(m@));
    }
    out
}

/// Writes every attribute of `from` into `into`, over what stood there.
pub fn extend_attributes(into: &mut StringMap<Json>, from: &StringMap<Json>)
    ensures
        attributes_view(final(into)@) == attributes_view(old(into)@).union_prefer_right(
            attributes_view(from@),
        ),
{
    let n = from.len();
    let mut i: usize = 0;
    let ghost start = into@;
    assert(from.keys().take(0).len() == 0);
    while i < n
        invariant
            i <= n,
            n == from.keys().len(),
            from@ == crate::collections::zip_map(from.keys(), from.values()),
            forall|k: Seq<char>| #[trigger]
                into@.dom().contains(k) <==> start.dom().contains(k) || from.keys().take(
                    i as int,
                ).contains(k),
            forall|k: Seq<char>| #[trigger]
                into@.dom().contains(k) ==> into@[k]@ == (if from.keys().take(i as int).contains(
                    k,
                ) {
                    from@[k]@
                } else {
                    start[k]@
                }),
        decreases n - i,
    {
        let key = from.key_at(i);
        let value = from.value_at(i);
        into.insert(key.clone(), value.clone());
        proof {
            crate::collections::lemma_take_contains(from.keys(), i as int);
        }
        i += 1;
    }
    proof {
        assert(from.keys().take(n as int) =~= from.keys());
        assert(attributes_view(into@) =~= attributes_view(start).union_prefer_right(
            attributes_view(from@),
        ));
    }
}

/// Holds where `members` are the attributes in the order of their names.
pub open spec fn are_members_of(
    members: Seq<(Seq<char>, JsonView)>,
    m: Map<Seq<char>, JsonView>,
) -> bool {
    let keys = members.map_values(|e: (Seq<char>, JsonView)| e.0);
    &&& collections::strictly_sorted(keys)
    &&& keys.to_set() == m.dom()
    &&& forall|i: int| 0 <= i < members.len() ==> m[(#[trigger] members[i]).0] == members[i].1
}

/// Attributes as a JSON object, the members in the order of their names.
pub open spec fn object_of(m: Map<Seq<char>, JsonView>) -> JsonView {
    JsonView::Object(choose|members: Seq<(Seq<char>, JsonView)>| are_members_of(members, m))
}

/// Attributes have one order.
pub proof fn lemma_members_unique(
    a: Seq<(Seq<char>, JsonView)>,
    b: Seq<(Seq<char>, JsonView)>,
    m: Map<Seq<char>, JsonView>,
)
    requires
        are_members_of(a, m),
        are_members_of(b, m),
    ensures
        a == b,
{
    let ka = a.map_values(|e: (Seq<char>, JsonView)| e.0);
    let kb = b.map_values(|e: (Seq<char>, JsonView)| e.0);
    collections::lemma_sorted_same_set(ka, kb);
    assert(ka.len() == a.len() && kb.len() == b.len());
    assert forall|i: int| 0 <= i < a.len() implies a[i] == b[i] by {
        assert(ka[i] == a[i].0 && kb[i] == b[i].0);
        assert(m[a[i].0] == a[i].1);
        assert(m[b[i].0] == b[i].1);
    }
    assert(a =~= b);
}

/// Attributes as a JSON object.
pub fn attributes_to_json(m: &StringMap<Json>) -> (r: Json)
    ensures
        r@ == object_of(attributes_view(m@)),
{
    let n = m.len();
    let mut out: Vec<(String, Json)> = Vec::new();
    let mut i: usize = 0;
    while i < n
        invariant
            i <= n,
            n == m.keys().len(),
            out@.len() == i,
            forall|j: int|
                0 <= j < i ==> (#[trigger] out@[j]).0@ == m.keys()[j] && out@[j].1@
                    == m@[m.keys()[j]]@ && m@.dom().contains(m.keys()[j]),
        decreases n - i,
    {
        out.push((m.key_at(i).clone(), m.value_at(i).clone()));
        i += 1;
    }
    proof {
        lemma_member_views_index(out@);
        let members = member_views(out@);
        let view = attributes_view(m@);
        let keys = members.map_values(|e: (Seq<char>, JsonView)| e.0);
        assert forall|i: int| 0 <= i < members.len() implies #[trigger] members[i] == (
            out@[i].0@,
            out@[i].1@,
        ) by {}
        assert(keys =~= m.keys());
        assert(keys.to_set() =~= view.dom());
        assert forall|i: int| 0 <= i < members.len() implies view[(#[trigger] members[i]).0]
            == members[i].1 by {
            assert(out@[i].0@ == m.keys()[i]);
        }
        assert(are_members_of(members, view));
        let chosen = choose|c: Seq<(Seq<char>, JsonView)>| are_members_of(c, view);
        lemma_members_unique(members, chosen, view);
    }
    Json::Object(out)
}

/// An object member with a string for its value.
pub fn text_member(name: &str, value: &str) -> (r: (String, Json))
    ensures
        r.0@ == name@,
        r.1@ == JsonView::Str(value@),
{
    (owned(name), Json::Str(owned(value)))
}

/// An array of strings.
pub open spec fn string_array(items: Seq<Seq<char>>) -> JsonView {
    JsonView::Array(items.map_values(|s: Seq<char>| JsonView::Str(s)))
}

/// An array of strings.
pub fn strings_to_json(items: &Vec<String>) -> (r: Json)
    ensures
        r@ == string_array(crate::text::views(items@)),
{
    let mut out: Vec<Json> = Vec::new();
    let mut i: usize = 0;
    while i < items.len()
        invariant
            i <= items@.len(),
            out@.len() == i,
            forall|j: int| 0 <= j < i ==> (#[trigger] out@[j])@ == JsonView::Str(items@[j]@),
        decreases items.len() - i,
    {
        out.push(Json::Str(items[i].clone()));
        i += 1;
    }
    proof {
        lemma_json_views_index(out@);
        assert(json_views(out@) =~= crate::text::views(items@).map_values(
            |s: Seq<char>| JsonView::Str(s),
        ));
    }
    Json::Array(out)
}

/// The string that a value is, if it is one.
pub open spec fn json_str(j: JsonView) -> Option<Seq<char>> {
    match j {
        JsonView::Str(s) => Some(s),
        _ => None,
    }
}

/// The unsigned number that a value is, if it is one.
pub open spec fn json_u64(j: JsonView) -> Option<u64> {
    match j {
        JsonView::Int(n) => if 0 <= n <= u64::MAX {
            Some(n as u64)
        } else {
            None
        },
        _ => None,
    }
}

/// The signed number that a value is, if it is one.
pub open spec fn json_i64(j: JsonView) -> Option<i64> {
    match j {
        JsonView::Int(n) => if i64::MIN <= n <= i64::MAX {
            Some(n as i64)
        } else {
            None
        },
        _ => None,
    }
}

/// Holds for null, `false`, zero, and the empty string, array and object.
pub open spec fn json_falsy(j: JsonView) -> bool {
    match j {
        JsonView::Null => true,
        JsonView::Bool(b) => !b,
        JsonView::Int(n) => n == 0,
        JsonView::Float { bits, text } => bits == 0 || bits == 0x8000_0000_0000_0000,
        JsonView::Str(s) => s.len() == 0,
        JsonView::Array(items) => items.len() == 0,
        JsonView::Object(members) => members.len() == 0,
    }
}

impl Json {
    /// The string that the value is, if it is one.
    pub fn as_str(&self) -> (r: Option<&String>)
        ensures
            match r {
                Some(s) => json_str(self@) == Some(s@),
                None => json_str(self@) is None,
            },
    {
        match self {
            Json::Str(s) => Some(s),
            _ => None,
        }
    }

    /// The unsigned number that the value is, if it is one.
    pub fn as_u64(&self) -> (r: Option<u64>)
        ensures
            r == json_u64(self@),
    {
        match self {
            Json::Int(n) => if 0 <= *n && *n <= 0xffff_ffff_ffff_ffff {
                Some(*n as u64)
            } else {
                None
            },
            _ => None,
        }
    }

    /// The signed number that the value is, if it is one.
    pub fn as_i64(&self) -> (r: Option<i64>)
        ensures
            r == json_i64(self@),
    {
        match self {
            Json::Int(n) => if -0x8000_0000_0000_0000 <= *n && *n <= 0x7fff_ffff_ffff_ffff {
                Some(*n as i64)
            } else {
                None
            },
            _ => None,
        }
    }

    /// Tells whether the value counts as false: null, `false`, zero or empty.
    pub fn is_falsy(&self) -> (r: bool)
        ensures
            r == json_falsy(self@),
    {
        match self {
            Json::Null => true,
            Json::Bool(b) => !*b,
            Json::Int(n) => *n == 0,
            Json::Float { bits, text } => *bits == 0 || *bits == 0x8000_0000_0000_0000,
            Json::Str(s) => s.as_str().is_empty(),
            Json::Array(items) => {
                proof {
                    lemma_json_views_index(items@);
                }
                items.len() == 0
            },
            Json::Object(members) => {
                proof {
                    lemma_member_views_index(members@);
                }
                members.len() == 0
            },
        }
    }

    /// The first member of an object under `name`.
    pub fn member(&self, name: &str) -> (r: Option<&Json>)
        ensures
            match r {
                Some(v) => json_member(self@, name@) == Some(v@),
                None => json_member(self@, name@) is None,
            },
    {
        match self {
            Json::Object(members) => {
                let mut i: usize = 0;
                proof {
                    lemma_member_views_index(members@);
                }
                while i < members.len()
                    invariant
                        i <= members@.len(),
                        self@ == JsonView::Object(member_views(members@)),
                        member_views(members@).len() == members@.len(),
                        forall|j: int|
                            0 <= j < members@.len() ==> #[trigger] member_views(members@)[j] == (
                                members@[j].0@,
                                members@[j].1@,
                            ),
                        first_member(member_views(members@), name@, 0) == first_member(
                            member_views(members@),
                            name@,
                            i as int,
                        ),
                    decreases members.len() - i,
                {
                    assert(member_views(members@)[i as int] == (
                        members@[i as int].0@,
                        members@[i as int].1@,
                    ));
                    if str_eq(members[i].0.as_str(), name) {
                        return Some(&members[i].1);
                    }
                    i += 1;
                }
                None
            },
            _ => None,
        }
    }
}

/// The first member from position `i` on under `name`.
pub open spec fn first_member(
    members: Seq<(Seq<char>, JsonView)>,
    name: Seq<char>,
    i: int,
) -> Option<JsonView>
    decreases members.len() - i,
{
    if i < 0 || i >= members.len() {
        None
    } else if members[i].0 == name {
        Some(members[i].1)
    } else {
        first_member(members, name, i + 1)
    }
}

/// The first member of an object under `name`.
pub open spec fn json_member(j: JsonView, name: Seq<char>) -> Option<JsonView> {
    match j {
        JsonView::Object(members) => first_member(members, name, 0),
        _ => None,
    }
}

/// The text of an array has the texts of its items in order, and that of an object its names and the
/// texts of their values, with a comma and a blank between them.
pub proof fn law_items_are_written_in_order(
    items: Seq<JsonView>,
    members: Seq<(Seq<char>, JsonView)>,
)
    ensures
        json_text(JsonView::Array(items)) == "["@ + text::join(
            Seq::new(items.len(), |i: int| json_text(items[i])),
            ", "@,
        ) + "]"@,
        json_text(JsonView::Object(members)) == "{"@ + text::join(
            Seq::new(
                members.len(),
                |i: int| json_quoted(members[i].0) + ": "@ + json_text(members[i].1),
            ),
            ", "@,
        ) + "}"@,
{
    lemma_json_texts(items);
    lemma_member_texts(members);
}

proof fn lemma_json_texts(items: Seq<JsonView>)
    ensures
        json_texts(items) == Seq::new(items.len(), |i: int| json_text(items[i])),
    decreases items.len(),
{
    if items.len() > 0 {
        lemma_json_texts(items.drop_last());
    }
    assert(json_texts(items) =~= Seq::new(items.len(), |i: int| json_text(items[i])));
}

proof fn lemma_member_texts(members: Seq<(Seq<char>, JsonView)>)
    ensures
        member_texts(members) == Seq::new(
            members.len(),
            |i: int| json_quoted(members[i].0) + ": "@ + json_text(members[i].1),
        ),
    decreases members.len(),
{
    if members.len() > 0 {
        lemma_member_texts(members.drop_last());
    }
    assert(member_texts(members) =~= Seq::new(
        members.len(),
        |i: int| json_quoted(members[i].0) + ": "@ + json_text(members[i].1),
    ));
}

} // verus!
