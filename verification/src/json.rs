//! JSON values, held by their compact text.
use vstd::prelude::*;

use crate::ordered::is_increasing;
use crate::spec::texts;
use crate::text::signed_decimal;

verus! {

/// The compact text of the JSON value that a text holds, if it holds one: what
/// `serde_json::from_str` reads, as `to_string` of `serde_json::Value` writes it.
pub uninterp spec fn compact_json(text: Seq<char>) -> Option<Seq<char>>;

/// A JSON value, held by the text that is written for it without spaces.
#[derive(Debug, PartialEq, Eq)]
pub struct Json {
    text: String,
}

impl View for Json {
    type V = Seq<char>;

    closed spec fn view(&self) -> Seq<char> {
        self.text@
    }
}

impl Json {
    /// The text is JSON, written as compactly as can be.
    #[verifier::type_invariant]
    spec fn is_compact(self) -> bool {
        compact_json(self.text@) == Some(self.text@)
    }
}

impl Clone for Json {
    fn clone(&self) -> (copy: Self)
        ensures
            copy == *self,
    {
        proof {
            use_type_invariant(self);
        }
        Json { text: self.text.clone() }
    }
}

/// The hexadecimal digit for a number below sixteen.
pub open spec fn hex_digit(n: nat) -> char {
    if n < 10 {
        (48 + n) as char
    } else {
        (87 + n) as char
    }
}

/// A character as it is written within a JSON string.
pub open spec fn escaped(c: char) -> Seq<char> {
    if c == '"' || c == '\\' {
        seq!['\\', c]
    } else if c == '\u{8}' {
        seq!['\\', 'b']
    } else if c == '\t' {
        seq!['\\', 't']
    } else if c == '\n' {
        seq!['\\', 'n']
    } else if c == '\u{c}' {
        seq!['\\', 'f']
    } else if c == '\r' {
        seq!['\\', 'r']
    } else if (c as nat) < 32 {
        seq!['\\', 'u', '0', '0', hex_digit(c as nat / 16), hex_digit(c as nat % 16)]
    } else {
        seq![c]
    }
}

/// Characters as they are written within a JSON string.
pub open spec fn escaped_text(text: Seq<char>) -> Seq<char>
    decreases text.len(),
{
    if text.len() == 0 {
        Seq::empty()
    } else {
        escaped_text(text.drop_last()) + escaped(text.last())
    }
}

/// A JSON string.
pub open spec fn json_string(text: Seq<char>) -> Seq<char> {
    seq!['"'] + escaped_text(text) + seq!['"']
}

/// The texts with commas between.
pub open spec fn comma_separated(parts: Seq<Seq<char>>) -> Seq<char>
    decreases parts.len(),
{
    if parts.len() == 0 {
        Seq::empty()
    } else if parts.len() == 1 {
        parts[0]
    } else {
        comma_separated(parts.drop_last()) + seq![','] + parts.last()
    }
}

/// A JSON array of strings.
pub open spec fn json_list(items: Seq<Seq<char>>) -> Seq<char> {
    seq!['['] + comma_separated(items.map_values(|item: Seq<char>| json_string(item))) + seq![']']
}

/// A JSON object of fields, each a name and the JSON of its value.
pub open spec fn json_object(fields: Seq<(Seq<char>, Seq<char>)>) -> Seq<char> {
    seq!['{'] + comma_separated(
        fields.map_values(
            |field: (Seq<char>, Seq<char>)| json_string(field.0) + seq![':'] + field.1,
        ),
    ) + seq!['}']
}

/// The JSON holds no array or object within another.
pub open spec fn is_shallow(json: Seq<char>) -> bool {
    ||| json == "null"@
    ||| exists|text: Seq<char>| json == #[trigger] json_string(text)
    ||| exists|items: Seq<Seq<char>>| json == #[trigger] json_list(items)
}

/// What fields say.
pub open spec fn field_texts(fields: Seq<(String, Json)>) -> Seq<(Seq<char>, Seq<char>)> {
    fields.map_values(|field: (String, Json)| (field.0@, field.1@))
}

/// The names of fields.
pub open spec fn field_names(fields: Seq<(String, Json)>) -> Seq<Seq<char>> {
    fields.map_values(|field: (String, Json)| field.0@)
}

/// `serde_json::from_str` into a `serde_json::Value`, and its `to_string`: the
/// compact text of the value, which reads as the same value again. Numbers keep
/// their exact value on the way, by the feature `float_roundtrip`.
#[verifier::external_body]
fn read_compact(text: &str) -> (json: Option<String>)
    ensures
        compact_json(text@) == match json {
            Some(json) => Some(json@),
            None => None,
        },
        json matches Some(json) ==> compact_json(json@) == Some(json@),
{
    let value: serde_json::Value = serde_json::from_str(text).ok()?;
    Some(value.to_string())
}

/// `to_string` of `serde_json::Value::Null`.
#[verifier::external_body]
fn null_text() -> (json: String)
    ensures
        json@ == "null"@,
        compact_json(json@) == Some(json@),
{
    serde_json::Value::Null.to_string()
}

/// `to_string` of a `serde_json::Value` made of an integer: the integer in
/// decimal.
#[verifier::external_body]
fn int_text(n: i64) -> (json: String)
    ensures
        json@ == signed_decimal(n as int),
        compact_json(json@) == Some(json@),
{
    serde_json::Value::from(n).to_string()
}

/// `serde_json::to_string` of a string: the string in quotes, with quotes,
/// backslashes and control characters escaped. It fails for no string.
#[verifier::external_body]
fn string_text(text: &str) -> (json: String)
    ensures
        json@ == json_string(text@),
        compact_json(json@) == Some(json@),
{
    serde_json::to_string(text).unwrap()
}

/// `serde_json::to_string` of a list of strings: the strings as above, without
/// spaces. It fails for no list.
#[verifier::external_body]
fn list_text(items: &Vec<String>) -> (json: String)
    ensures
        json@ == json_list(texts(items@)),
        compact_json(json@) == Some(json@),
{
    serde_json::to_string(items).unwrap()
}

/// `to_string` of a `serde_json::Value` that is an object: the fields in the
/// order of their names, without spaces. The values are read by
/// `serde_json::from_str`, which takes shallow ones whatever they hold.
#[verifier::external_body]
fn object_text(fields: &Vec<(String, Json)>) -> (json: String)
    requires
        is_increasing(field_names(fields@)),
        forall|k: int| 0 <= k < fields@.len() ==> is_shallow((#[trigger] fields@[k]).1@),
    ensures
        json@ == json_object(field_texts(fields@)),
        compact_json(json@) == Some(json@),
{
    let map: serde_json::Map<String, serde_json::Value> = fields.iter().map(
        |field| (field.0.clone(), serde_json::from_str(&field.1.text).unwrap()),
    ).collect();
    serde_json::Value::Object(map).to_string()
}

proof fn lemma_escaped_text_from_front(text: Seq<char>)
    requires
        text.len() > 0,
    ensures
        escaped_text(text) == escaped(text[0]) + escaped_text(text.drop_first()),
    decreases text.len(),
{
    let rest = text.drop_first();
    if text.len() == 1 {
        assert(text.drop_last() =~= Seq::empty());
        assert(escaped_text(text.drop_last()) =~= Seq::empty());
        assert(escaped_text(rest) =~= Seq::empty());
        assert(escaped_text(text) =~= escaped(text[0]) + escaped_text(rest));
    } else {
        lemma_escaped_text_from_front(text.drop_last());
        assert(text.drop_last().drop_first() =~= rest.drop_last());
        assert(escaped_text(text) =~= escaped(text[0]) + escaped_text(rest));
    }
}

/// No character is written as the start of what another is written as.
proof fn lemma_escapes_differ(a: char, b: char, x: Seq<char>, y: Seq<char>)
    requires
        escaped(a) + x == escaped(b) + y,
    ensures
        a == b,
        x == y,
{
    let p = escaped(a) + x;
    let q = escaped(b) + y;
    assert(p[0] == escaped(a)[0] && q[0] == escaped(b)[0]);
    if escaped(a).len() > 1 && escaped(b).len() > 1 {
        assert(p[1] == escaped(a)[1] && q[1] == escaped(b)[1]);
        if escaped(a).len() == 6 && escaped(b).len() == 6 {
            assert(p[4] == escaped(a)[4] && q[4] == escaped(b)[4]);
            assert(p[5] == escaped(a)[5] && q[5] == escaped(b)[5]);
            lemma_hex_digits_differ(a as nat / 16, b as nat / 16);
            lemma_hex_digits_differ(a as nat % 16, b as nat % 16);
            assert(a as nat == b as nat);
        }
    }
    assert(a == b);
    assert(p.skip(escaped(a).len() as int) =~= x);
    assert(q.skip(escaped(b).len() as int) =~= y);
}

proof fn lemma_hex_digits_differ(a: nat, b: nat)
    requires
        a < 16,
        b < 16,
        hex_digit(a) == hex_digit(b),
    ensures
        a == b,
{
    assert(hex_digit(a) as nat == if a < 10 { 48 + a } else { 87 + a });
    assert(hex_digit(b) as nat == if b < 10 { 48 + b } else { 87 + b });
}

proof fn lemma_escaped_texts_differ(a: Seq<char>, b: Seq<char>)
    requires
        escaped_text(a) == escaped_text(b),
    ensures
        a == b,
    decreases a.len(),
{
    if a.len() > 0 {
        lemma_escaped_text_from_front(a);
        assert(escaped(a[0]).len() > 0);
    }
    if b.len() > 0 {
        lemma_escaped_text_from_front(b);
        assert(escaped(b[0]).len() > 0);
    }
    if a.len() > 0 && b.len() > 0 {
        let x = a.drop_first();
        let y = b.drop_first();
        lemma_escapes_differ(a[0], b[0], escaped_text(x), escaped_text(y));
        lemma_escaped_texts_differ(x, y);
        assert(a =~= seq![a[0]] + x);
        assert(b =~= seq![b[0]] + y);
    } else {
        assert(a =~= b);
    }
}

/// Different texts have different JSON strings.
pub proof fn json_strings_differ(a: Seq<char>, b: Seq<char>)
    requires
        json_string(a) == json_string(b),
    ensures
        a == b,
{
    let p = json_string(a);
    let q = json_string(b);
    assert(p.subrange(1, p.len() - 1) =~= escaped_text(a));
    assert(q.subrange(1, q.len() - 1) =~= escaped_text(b));
    lemma_escaped_texts_differ(a, b);
}

/// Characters that JSON need not escape: neither quotes nor backslashes nor
/// control characters.
pub open spec fn is_plain(text: Seq<char>) -> bool {
    forall|k: int|
        0 <= k < text.len() ==> (#[trigger] text[k]) != '"' && text[k] != '\\' && text[k] as nat
            >= 32
}

/// A text that needs no escapes stands in its JSON string as it is.
pub proof fn plain_text_is_only_quoted(text: Seq<char>)
    requires
        is_plain(text),
    ensures
        json_string(text) == seq!['"'] + text + seq!['"'],
    decreases text.len(),
{
    if text.len() > 0 {
        let front = text.drop_last();
        plain_text_is_only_quoted(front);
        let quoted = json_string(front);
        assert(quoted.subrange(1, quoted.len() - 1) =~= front);
        assert(quoted.subrange(1, quoted.len() - 1) =~= escaped_text(front));
        assert(text[text.len() - 1] == text.last());
        assert(escaped(text.last()) == seq![text.last()]);
        assert(escaped_text(text) =~= text);
    } else {
        assert(json_string(text) =~= seq!['"'] + text + seq!['"']);
    }
}

/// With a comma before each, the parts come one after the other.
pub proof fn commas_stand_between_parts(parts: Seq<Seq<char>>)
    requires
        parts.len() > 0,
    ensures
        seq![','] + comma_separated(parts) == parts.map_values(
            |part: Seq<char>| seq![','] + part,
        ).flatten(),
    decreases parts.len(),
{
    let led = parts.map_values(|part: Seq<char>| seq![','] + part);
    led.lemma_flatten_and_flatten_alt_are_equivalent();
    let front = parts.drop_last();
    let led_front = front.map_values(|part: Seq<char>| seq![','] + part);
    assert(led.drop_last() =~= led_front);
    if parts.len() == 1 {
        assert(led_front.flatten_alt() =~= Seq::empty());
        assert(seq![','] + comma_separated(parts) =~= led.flatten_alt());
    } else {
        commas_stand_between_parts(front);
        led_front.lemma_flatten_and_flatten_alt_are_equivalent();
        assert(seq![','] + comma_separated(parts) =~= led.flatten_alt());
    }
}

/// The JSON of an object of one field, and of one of two.
pub proof fn small_objects_in_full(
    name: Seq<char>,
    value: Seq<char>,
    other: Seq<char>,
    second: Seq<char>,
)
    ensures
        json_object(seq![(name, value)]) == "{"@ + json_string(name) + ":"@ + value + "}"@,
        json_object(seq![(name, value), (other, second)]) == "{"@ + json_string(name) + ":"@ + value
            + ","@ + json_string(other) + ":"@ + second + "}"@,
{
    reveal_strlit("{");
    reveal_strlit("}");
    reveal_strlit(":");
    reveal_strlit(",");
    let write = |field: (Seq<char>, Seq<char>)| json_string(field.0) + seq![':'] + field.1;
    let one = seq![(name, value)].map_values(write);
    let two = seq![(name, value), (other, second)].map_values(write);
    assert(two.drop_last() =~= one);
    assert(comma_separated(two) == comma_separated(one) + seq![','] + two.last());
    assert(json_object(seq![(name, value)]) =~= "{"@ + json_string(name) + ":"@ + value + "}"@);
    assert(json_object(seq![(name, value), (other, second)]) =~= "{"@ + json_string(name) + ":"@
        + value + ","@ + json_string(other) + ":"@ + second + "}"@);
}

impl Json {
    /// The text, which is JSON without spaces.
    pub fn text(&self) -> (text: &str)
        ensures
            text@ == self@,
            compact_json(self@) == Some(self@),
    {
        proof {
            use_type_invariant(self);
        }
        self.text.as_str()
    }

    /// The JSON value that `text` holds, if it holds one.
    pub fn parse(text: &str) -> (json: Option<Json>)
        ensures
            match json {
                Some(json) => compact_json(text@) == Some(json@),
                None => compact_json(text@) is None,
            },
    {
        match read_compact(text) {
            Some(text) => Some(Json { text }),
            None => None,
        }
    }

    /// The JSON value that stands for none.
    pub fn null() -> (json: Json)
        ensures
            json@ == "null"@,
    {
        Json { text: null_text() }
    }

    /// The JSON number of an integer.
    pub fn integer(n: i64) -> (json: Json)
        ensures
            json@ == signed_decimal(n as int),
    {
        Json { text: int_text(n) }
    }

    /// The JSON string of `text`.
    pub fn string(text: &str) -> (json: Json)
        ensures
            json@ == json_string(text@),
    {
        Json { text: string_text(text) }
    }

    /// The JSON array of strings.
    pub fn list(items: &Vec<String>) -> (json: Json)
        ensures
            json@ == json_list(texts(items@)),
    {
        Json { text: list_text(items) }
    }

    /// The JSON object of `fields`, whose names come in order.
    pub fn object(fields: &Vec<(String, Json)>) -> (json: Json)
        requires
            is_increasing(field_names(fields@)),
            forall|k: int| 0 <= k < fields@.len() ==> is_shallow((#[trigger] fields@[k]).1@),
        ensures
            json@ == json_object(field_texts(fields@)),
    {
        Json { text: object_text(fields) }
    }
}

} // verus!
