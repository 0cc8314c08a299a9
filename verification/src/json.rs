//! A JSON value model of the library's own, with a verified serializer.
//!
//! Parsing is delegated to serde_json behind a trusted boundary; everything
//! the library then does with a parsed value (validation, re-emission) is
//! verified against the [`JsonView`] mathematical model.  Numbers are kept
//! in their textual form so that range checks can be carried out exactly,
//! without floating point.

use vstd::prelude::*;

verus! {

use vstd::string::StringExecFns;
use crate::text::chars_to_string;
use crate::text::str_to_chars;

broadcast use vstd::std_specs::vec::group_vec_axioms, vstd::seq::group_seq_axioms;

/// A JSON value.  Numbers carry the decimal text the parser produced for
/// them; objects keep their fields in order.
pub enum JsonValue {
    Null,
    Bool(bool),
    NumText(String),
    Str(String),
    Arr(Vec<JsonValue>),
    Obj(Vec<JsonField>),
}

/// One `key: value` member of a JSON object.
pub struct JsonField {
    pub key: String,
    pub value: JsonValue,
}

/// The mathematical value of a [`JsonValue`].
pub enum JsonView {
    Null,
    Bool(bool),
    NumText(Seq<char>),
    Str(Seq<char>),
    Arr(Seq<JsonView>),
    Obj(Seq<(Seq<char>, JsonView)>),
}

impl View for JsonValue {
    type V = JsonView;

    open spec fn view(&self) -> JsonView {
        self.value_view()
    }
}

impl JsonValue {
    /// The mathematical value of this JSON value.
    pub open spec fn value_view(&self) -> JsonView
        decreases self,
        via Self::view_decreases
    {
        match self {
            JsonValue::Null => JsonView::Null,
            JsonValue::Bool(b) => JsonView::Bool(*b),
            JsonValue::NumText(s) => JsonView::NumText(s@),
            JsonValue::Str(s) => JsonView::Str(s@),
            JsonValue::Arr(_) => JsonView::Arr(Self::values_view(self->Arr_0@)),
            JsonValue::Obj(_) => JsonView::Obj(Self::fields_view(self->Obj_0@)),
        }
    }

    #[via_fn]
    proof fn view_decreases(&self) {
        match self {
            JsonValue::Arr(_) => {
                assert(decreases_to!(self => self->Arr_0));
                assert(decreases_to!(self->Arr_0 => self->Arr_0@));
            },
            JsonValue::Obj(_) => {
                assert(decreases_to!(self => self->Obj_0));
                assert(decreases_to!(self->Obj_0 => self->Obj_0@));
            },
            _ => {},
        }
    }

    /// The views of a sequence of values, element by element.
    pub open spec fn values_view(s: Seq<JsonValue>) -> Seq<JsonView>
        decreases s,
        via Self::values_view_decreases
    {
        if s.len() == 0 {
            Seq::<JsonView>::empty()
        } else {
            Self::values_view(s.drop_last()).push(s.last().value_view())
        }
    }

    #[via_fn]
    proof fn values_view_decreases(s: Seq<JsonValue>) {
        if s.len() > 0 {
            assert(decreases_to!(s => s.subrange(0, s.len() - 1)));
            assert(decreases_to!(s => s[s.len() - 1]));
        }
    }

    /// The views of a sequence of object members, key and value.
    pub open spec fn fields_view(s: Seq<JsonField>) -> Seq<(Seq<char>, JsonView)>
        decreases s,
        via Self::fields_view_decreases
    {
        if s.len() == 0 {
            Seq::<(Seq<char>, JsonView)>::empty()
        } else {
            Self::fields_view(s.drop_last()).push(
                (s.last().key@, s.last().value.value_view()),
            )
        }
    }

    #[via_fn]
    proof fn fields_view_decreases(s: Seq<JsonField>) {
        if s.len() > 0 {
            assert(decreases_to!(s => s.subrange(0, s.len() - 1)));
            assert(decreases_to!(s => s[s.len() - 1]));
            assert(decreases_to!(s[s.len() - 1] => s[s.len() - 1].value));
        }
    }

    /// `values_view` maps the sequence element by element.
    pub proof fn lemma_values_view_index(s: Seq<JsonValue>)
        ensures
            Self::values_view(s).len() == s.len(),
            forall|i: int|
                0 <= i < s.len() ==> Self::values_view(s)[i] == s[i].value_view(),
        decreases s.len(),
    {
        if s.len() > 0 {
            Self::lemma_values_view_index(s.drop_last());
        }
    }

    /// `fields_view` maps the sequence member by member.
    pub proof fn lemma_fields_view_index(s: Seq<JsonField>)
        ensures
            Self::fields_view(s).len() == s.len(),
            forall|i: int|
                0 <= i < s.len() ==> Self::fields_view(s)[i] == (
                    s[i].key@,
                    s[i].value.value_view(),
                ),
        decreases s.len(),
    {
        if s.len() > 0 {
            Self::lemma_fields_view_index(s.drop_last());
        }
    }
}

/// The escape sequence the serializer writes for one string character.
pub open spec fn esc_char(c: char) -> Seq<char> {
    if c == '"' {
        seq!['\\', '"']
    } else if c == '\\' {
        seq!['\\', '\\']
    } else if c == '\n' {
        seq!['\\', 'n']
    } else if c == '\r' {
        seq!['\\', 'r']
    } else if c == '\t' {
        seq!['\\', 't']
    } else if (c as u32) < 32 {
        seq!['\\', 'u', '0', '0', hex_digit((c as u32 / 16) as int), hex_digit((c as u32 % 16) as int)]
    } else {
        seq![c]
    }
}

/// The lower-case hexadecimal digit for `d` (below sixteen).
pub open spec fn hex_digit(d: int) -> char {
    "0123456789abcdef"@[d]
}

/// A whole string escaped for inclusion between JSON quotes.
pub open spec fn json_escaped(s: Seq<char>) -> Seq<char>
    decreases s.len(),
{
    if s.len() == 0 {
        Seq::<char>::empty()
    } else {
        json_escaped(s.drop_last()) + esc_char(s.last())
    }
}

/// The serialized text of a JSON value: members in order, no added
/// whitespace, strings escaped as [`esc_char`] says.
pub open spec fn json_text_of(v: JsonView) -> Seq<char>
    decreases v,
{
    match v {
        JsonView::Null => "null"@,
        JsonView::Bool(b) => if b {
            "true"@
        } else {
            "false"@
        },
        JsonView::NumText(s) => s,
        JsonView::Str(s) => "\""@ + json_escaped(s) + "\""@,
        JsonView::Arr(items) => "["@ + json_items_text(items) + "]"@,
        JsonView::Obj(fields) => "{"@ + json_fields_text(fields) + "}"@,
    }
}

/// Array elements joined by commas.
pub open spec fn json_items_text(items: Seq<JsonView>) -> Seq<char>
    decreases items,
{
    if items.len() == 0 {
        Seq::<char>::empty()
    } else if items.len() == 1 {
        json_text_of(items[0])
    } else {
        json_items_text(items.drop_last()) + ","@ + json_text_of(items.last())
    }
}

/// Object members, each `"key":value`, joined by commas.
pub open spec fn json_fields_text(fields: Seq<(Seq<char>, JsonView)>) -> Seq<char>
    decreases fields,
{
    if fields.len() == 0 {
        Seq::<char>::empty()
    } else if fields.len() == 1 {
        json_field_text(fields[0])
    } else {
        json_fields_text(fields.drop_last()) + ","@ + json_field_text(fields.last())
    }
}

/// One object member: the quoted, escaped key, a colon, the value.
pub open spec fn json_field_text(f: (Seq<char>, JsonView)) -> Seq<char>
    decreases f,
{
    "\""@ + json_escaped(f.0) + "\":"@ + json_text_of(f.1)
}

/// Appends the escape sequence of `c` to `out`.
fn push_escaped_char(out: &mut Vec<char>, c: char)
    ensures
        final(out)@ == old(out)@ + esc_char(c),
{
    if c == '"' {
        out.push('\\');
        out.push('"');
    } else if c == '\\' {
        out.push('\\');
        out.push('\\');
    } else if c == '\n' {
        out.push('\\');
        out.push('n');
    } else if c == '\r' {
        out.push('\\');
        out.push('r');
    } else if c == '\t' {
        out.push('\\');
        out.push('t');
    } else {
        let u: u32 = c as u32;
        if u < 32 {
            let hex: Vec<char> = str_to_chars("0123456789abcdef");
            proof {
                reveal_strlit("0123456789abcdef");
            }
            out.push('\\');
            out.push('u');
            out.push('0');
            out.push('0');
            out.push(hex[(u / 16) as usize]);
            out.push(hex[(u % 16) as usize]);
        } else {
            out.push(c);
        }
    }
    proof {
        assert(out@ =~= old(out)@ + esc_char(c));
    }
}

/// Appends the escaped form of every character of `s` to `out`.
fn push_escaped(out: &mut Vec<char>, s: &str)
    ensures
        final(out)@ == old(out)@ + json_escaped(s@),
{
    let cs: Vec<char> = str_to_chars(s);
    let n: usize = cs.len();
    for i in 0..n
        invariant
            n == cs@.len(),
            cs@ == s@,
            out@ == old(out)@ + json_escaped(cs@.take(i as int)),
    {
        push_escaped_char(out, cs[i]);
        proof {
            let t = cs@.take(i + 1);
            assert(t.drop_last() =~= cs@.take(i as int));
            assert(t.last() == cs@[i as int]);
        }
    }
    proof {
        assert(cs@.take(n as int) =~= cs@);
    }
}

/// The serialized text of a string value, quotes included.
pub fn escape_to_quoted(s: &str) -> (r: Vec<char>)
    ensures
        r@ == "\""@ + json_escaped(s@) + "\""@,
{
    let mut out: Vec<char> = Vec::new();
    out.push('"');
    proof {
        reveal_strlit("\"");
        assert(out@ =~= "\""@);
    }
    push_escaped(&mut out, s);
    out.push('"');
    proof {
        assert(out@ =~= "\""@ + json_escaped(s@) + "\""@);
    }
    out
}

impl JsonValue {
    /// Serializes the value; the result is always well-formed JSON text.
    pub fn to_text(&self) -> (r: String)
        ensures
            r@ == json_text_of(self@),
    {
        let mut out: Vec<char> = Vec::new();
        self.write_text(&mut out);
        chars_to_string(&out)
    }

    /// Appends the serialized text of `self` to `out`.
    fn write_text(&self, out: &mut Vec<char>)
        ensures
            final(out)@ == old(out)@ + json_text_of(self@),
        decreases self,
    {
        match self {
            JsonValue::Null => {
                let mut lit: Vec<char> = str_to_chars("null");
                out.append(&mut lit);
            },
            JsonValue::Bool(b) => {
                let mut lit: Vec<char> = if *b {
                    str_to_chars("true")
                } else {
                    str_to_chars("false")
                };
                out.append(&mut lit);
            },
            JsonValue::NumText(s) => {
                let mut lit: Vec<char> = str_to_chars(s.as_str());
                out.append(&mut lit);
            },
            JsonValue::Str(s) => {
                let mut quoted: Vec<char> = escape_to_quoted(s.as_str());
                out.append(&mut quoted);
            },
            JsonValue::Arr(items) => {
                out.push('[');
                let n: usize = items.len();
                let ghost iv = JsonValue::values_view(items@);
                proof {
                    reveal_strlit("[");
                    JsonValue::lemma_values_view_index(items@);
                    assert(iv.take(0).len() == 0);
                    assert(out@ =~= old(out)@ + "["@ + json_items_text(iv.take(0)));
                }
                for i in 0..n
                    invariant
                        n == items@.len(),
                        iv == JsonValue::values_view(items@),
                        iv.len() == n,
                        forall|j: int| 0 <= j < n ==> iv[j] == items@[j].value_view(),
                        self == JsonValue::Arr(*items),
                        out@ == old(out)@ + "["@ + json_items_text(iv.take(i as int)),
                {
                    if i > 0 {
                        out.push(',');
                        proof {
                            reveal_strlit(",");
                            assert(out@ =~= old(out)@ + "["@ + json_items_text(
                                iv.take(i as int),
                            ) + ","@);
                        }
                    }
                    proof {
                        assert(items@[i as int]@ == iv[i as int]);
                        assert(*items == self->Arr_0);
                        assert(decreases_to!(self => self->Arr_0));
                        assert(decreases_to!(self->Arr_0 => self->Arr_0@));
                        assert(decreases_to!(self->Arr_0@ => self->Arr_0@[i as int]));
                    }
                    items[i].write_text(out);
                    proof {
                        let t = iv.take(i + 1);
                        assert(t.drop_last() =~= iv.take(i as int));
                        assert(t.last() == iv[i as int]);
                        if i == 0 {
                            assert(json_items_text(t) == json_text_of(iv[0]));
                        }
                        assert(out@ =~= old(out)@ + "["@ + json_items_text(iv.take(i + 1)));
                    }
                }
                out.push(']');
                proof {
                    reveal_strlit("]");
                    assert(iv.take(n as int) =~= iv);
                    assert(out@ =~= old(out)@ + json_text_of(self@));
                }
            },
            JsonValue::Obj(fields) => {
                out.push('{');
                let n: usize = fields.len();
                let ghost fv = JsonValue::fields_view(fields@);
                proof {
                    reveal_strlit("{");
                    JsonValue::lemma_fields_view_index(fields@);
                    assert(fv.take(0).len() == 0);
                    assert(out@ =~= old(out)@ + "{"@ + json_fields_text(fv.take(0)));
                }
                for i in 0..n
                    invariant
                        n == fields@.len(),
                        fv == JsonValue::fields_view(fields@),
                        fv.len() == n,
                        forall|j: int| 0 <= j < n ==> fv[j] == (
                            fields@[j].key@,
                            fields@[j].value.value_view(),
                        ),
                        self == JsonValue::Obj(*fields),
                        out@ == old(out)@ + "{"@ + json_fields_text(fv.take(i as int)),
                {
                    if i > 0 {
                        out.push(',');
                        proof {
                            reveal_strlit(",");
                            assert(out@ =~= old(out)@ + "{"@ + json_fields_text(
                                fv.take(i as int),
                            ) + ","@);
                        }
                    }
                    let mut quoted: Vec<char> = escape_to_quoted(fields[i].key.as_str());
                    out.append(&mut quoted);
                    out.push(':');
                    proof {
                        reveal_strlit(":");
                        reveal_strlit("\"");
                        reveal_strlit("\":");
                        assert(fields@[i as int].value@ == fv[i as int].1);
                        assert(fields@[i as int].key@ == fv[i as int].0);
                        assert(*fields == self->Obj_0);
                        assert(decreases_to!(self => self->Obj_0));
                        assert(decreases_to!(self->Obj_0 => self->Obj_0@));
                        assert(decreases_to!(self->Obj_0@ => self->Obj_0@[i as int]));
                        assert(decreases_to!(self->Obj_0@[i as int] => self->Obj_0@[i as int].value));
                    }
                    fields[i].value.write_text(out);
                    proof {
                        let t = fv.take(i + 1);
                        assert(t.drop_last() =~= fv.take(i as int));
                        assert(t.last() == fv[i as int]);
                        if i == 0 {
                            assert(json_fields_text(t) == json_field_text(fv[0]));
                        } else {
                            assert(json_fields_text(t) == json_fields_text(fv.take(i as int))
                                + ","@ + json_field_text(fv[i as int]));
                        }
                        assert("\":"@ =~= "\""@ + ":"@);
                        assert(json_field_text(fv[i as int]) == "\""@ + json_escaped(
                            fv[i as int].0,
                        ) + "\":"@ + json_text_of(fv[i as int].1));
                        assert(out@ =~= old(out)@ + "{"@ + json_fields_text(fv.take(i + 1)));
                    }
                }
                out.push('}');
                proof {
                    reveal_strlit("}");
                    assert(fv.take(n as int) =~= fv);
                    assert(out@ =~= old(out)@ + json_text_of(self@));
                }
            },
        }
    }
}

/// serde_json's parsed value type, declared so the conversion boundary
/// below can mention it.
#[verifier::external_type_specification]
#[verifier::external_body]
pub struct ExValue(serde_json::Value);

/// What parsing a text as JSON yields: the parsed value, or `None` when the
/// text is not valid JSON.  The result depends on the text alone.
pub uninterp spec fn json_parse(s: Seq<char>) -> Option<JsonView>;

/// Relies on serde_json::Value's variants: each arm moves one variant's
/// data across, numbers through the decimal text serde_json renders for
/// them.
#[verifier::external_body]
fn value_to_json(v: &serde_json::Value) -> JsonValue {
    match v {
        serde_json::Value::Null => JsonValue::Null,
        serde_json::Value::Bool(b) => JsonValue::Bool(*b),
        serde_json::Value::Number(n) => JsonValue::NumText(n.to_string()),
        serde_json::Value::String(s) => JsonValue::Str(s.clone()),
        serde_json::Value::Array(a) => JsonValue::Arr(a.iter().map(value_to_json).collect()),
        serde_json::Value::Object(m) => JsonValue::Obj(
            m.iter().map(|(k, x)| JsonField { key: k.clone(), value: value_to_json(x) }).collect(),
        ),
    }
}

/// Relies on serde_json::from_str: whether a text is valid JSON, and what
/// value it denotes, depend on the text alone.
#[verifier::external_body]
pub fn parse_json(text: &str) -> (r: Option<JsonValue>)
    ensures
        match r {
            Some(v) => json_parse(text@) == Some(v@),
            None => json_parse(text@) is None,
        },
{
    match serde_json::from_str::<serde_json::Value>(text) {
        Ok(v) => Some(value_to_json(&v)),
        Err(_) => None,
    }
}

} // verus!
