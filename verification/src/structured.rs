//! The structured-report pipeline: the typed report shape, its validation
//! against a parsed JSON value, and the repair rule that turns any model
//! answer into either a report or an explicit error payload.

use vstd::prelude::*;

verus! {

use crate::json::JsonField;
use crate::json::JsonValue;
use crate::json::JsonView;
use crate::json::json_parse;
use crate::json::parse_json;
use crate::number::num_text_in_unit;
use crate::number::check_unit_interval;
use crate::text::str_eq;

/// One countermeasure inside a report item.
pub struct Mitigation {
    pub name: String,
    pub description: String,
    pub url: Option<String>,
    pub citations: Option<String>,
}

/// One identified threat with its mitigations.  The likelihood, when the
/// model supplied one, is kept as the number text it arrived in.
pub struct RapportItem {
    pub name: String,
    pub description: String,
    pub mitigations: Vec<Mitigation>,
    pub likelihood: Option<String>,
}

/// A validated structured report.
pub struct Rapport {
    pub summary: String,
    pub items: Vec<RapportItem>,
}

/// An explicit error payload; the caller always receives valid JSON, either
/// a report or this.
pub struct ErrorReport {
    pub error: String,
}

/// The mathematical value of a [`Mitigation`].
pub struct MitigationView {
    pub name: Seq<char>,
    pub description: Seq<char>,
    pub url: Option<Seq<char>>,
    pub citations: Option<Seq<char>>,
}

/// The mathematical value of a [`RapportItem`].
pub struct RapportItemView {
    pub name: Seq<char>,
    pub description: Seq<char>,
    pub mitigations: Seq<MitigationView>,
    pub likelihood: Option<Seq<char>>,
}

/// The mathematical value of a [`Rapport`].
pub struct RapportView {
    pub summary: Seq<char>,
    pub items: Seq<RapportItemView>,
}

impl View for Mitigation {
    type V = MitigationView;

    open spec fn view(&self) -> MitigationView {
        MitigationView {
            name: self.name@,
            description: self.description@,
            url: match self.url {
                Some(u) => Some(u@),
                None => None,
            },
            citations: match self.citations {
                Some(c) => Some(c@),
                None => None,
            },
        }
    }
}

impl View for RapportItem {
    type V = RapportItemView;

    open spec fn view(&self) -> RapportItemView {
        RapportItemView {
            name: self.name@,
            description: self.description@,
            mitigations: Seq::new(self.mitigations@.len(), |i: int| self.mitigations@[i]@),
            likelihood: match self.likelihood {
                Some(l) => Some(l@),
                None => None,
            },
        }
    }
}

impl View for Rapport {
    type V = RapportView;

    open spec fn view(&self) -> RapportView {
        RapportView {
            summary: self.summary@,
            items: Seq::new(self.items@.len(), |i: int| self.items@[i]@),
        }
    }
}

impl View for ErrorReport {
    type V = Seq<char>;

    open spec fn view(&self) -> Seq<char> {
        self.error@
    }
}

/// The first member of an object with the given key.
pub open spec fn obj_lookup(fields: Seq<(Seq<char>, JsonView)>, key: Seq<char>) -> Option<
    JsonView,
>
    decreases fields.len(),
{
    if fields.len() == 0 {
        None
    } else if fields[0].0 == key {
        Some(fields[0].1)
    } else {
        obj_lookup(fields.drop_first(), key)
    }
}

/// What a JSON value must look like to be one mitigation: an object whose
/// `name` and `description` are strings, and whose `url` and `citations`,
/// when present, are strings.
pub open spec fn validate_mitigation_spec(v: JsonView) -> Option<MitigationView> {
    match v {
        JsonView::Obj(fs) => {
            let name = obj_lookup(fs, "name"@);
            let desc = obj_lookup(fs, "description"@);
            let url = obj_lookup(fs, "url"@);
            let cit = obj_lookup(fs, "citations"@);
            if name matches Some(JsonView::Str(n)) && desc matches Some(JsonView::Str(d)) && (
            url matches Some(u) ==> u is Str) && (cit matches Some(c) ==> c is Str) {
                Some(
                    MitigationView {
                        name: name->0->Str_0,
                        description: desc->0->Str_0,
                        url: match url {
                            Some(u) => Some(u->Str_0),
                            None => None,
                        },
                        citations: match cit {
                            Some(c) => Some(c->Str_0),
                            None => None,
                        },
                    },
                )
            } else {
                None
            }
        },
        _ => None,
    }
}

/// Element-wise validation of a mitigation list.
pub open spec fn validate_mitigations_spec(items: Seq<JsonView>) -> Option<Seq<MitigationView>>
    decreases items.len(),
{
    if items.len() == 0 {
        Some(Seq::<MitigationView>::empty())
    } else {
        match (validate_mitigations_spec(items.drop_last()), validate_mitigation_spec(
            items.last(),
        )) {
            (Some(rest), Some(m)) => Some(rest.push(m)),
            _ => None,
        }
    }
}

/// What a JSON value must look like to be one report item: `name` and
/// `description` strings, `mitigations` a list of valid mitigations, and
/// `likelihood`, when present, a number lying in the closed unit interval.
pub open spec fn validate_item_spec(v: JsonView) -> Option<RapportItemView> {
    match v {
        JsonView::Obj(fs) => {
            let name = obj_lookup(fs, "name"@);
            let desc = obj_lookup(fs, "description"@);
            let mits = obj_lookup(fs, "mitigations"@);
            let lik = obj_lookup(fs, "likelihood"@);
            if name matches Some(JsonView::Str(n)) && desc matches Some(JsonView::Str(d)) && mits
                matches Some(JsonView::Arr(ms)) && validate_mitigations_spec(ms) is Some && (lik
                matches Some(l) ==> (l is NumText && num_text_in_unit(l->NumText_0))) {
                Some(
                    RapportItemView {
                        name: name->0->Str_0,
                        description: desc->0->Str_0,
                        mitigations: validate_mitigations_spec(mits->0->Arr_0)->0,
                        likelihood: match lik {
                            Some(l) => Some(l->NumText_0),
                            None => None,
                        },
                    },
                )
            } else {
                None
            }
        },
        _ => None,
    }
}

/// Element-wise validation of the item list.
pub open spec fn validate_items_spec(items: Seq<JsonView>) -> Option<Seq<RapportItemView>>
    decreases items.len(),
{
    if items.len() == 0 {
        Some(Seq::<RapportItemView>::empty())
    } else {
        match (validate_items_spec(items.drop_last()), validate_item_spec(items.last())) {
            (Some(rest), Some(m)) => Some(rest.push(m)),
            _ => None,
        }
    }
}

/// What a JSON value must look like to be a report: an object whose
/// `summary` is a string and whose `items` is a list of valid items.
pub open spec fn validate_report_spec(v: JsonView) -> Option<RapportView> {
    match v {
        JsonView::Obj(fs) => {
            let summary = obj_lookup(fs, "summary"@);
            let items = obj_lookup(fs, "items"@);
            if summary matches Some(JsonView::Str(s)) && items matches Some(JsonView::Arr(its))
                && validate_items_spec(its) is Some {
                Some(
                    RapportView {
                        summary: summary->0->Str_0,
                        items: validate_items_spec(items->0->Arr_0)->0,
                    },
                )
            } else {
                None
            }
        },
        _ => None,
    }
}

/// The outcome of structured generation: a validated report, or an explicit
/// error payload.
pub enum GenOutcome {
    Report(Rapport),
    Error(ErrorReport),
}

/// The mathematical value of a [`GenOutcome`].
pub enum GenOutcomeView {
    Report(RapportView),
    Error(Seq<char>),
}

impl View for GenOutcome {
    type V = GenOutcomeView;

    open spec fn view(&self) -> GenOutcomeView {
        match self {
            GenOutcome::Report(r) => GenOutcomeView::Report(r@),
            GenOutcome::Error(e) => GenOutcomeView::Error(e@),
        }
    }
}

/// What the caller gets back for each possible parse result: an explicit
/// parse error for text that is not JSON, an explicit validation error for
/// JSON of the wrong shape, and the validated report otherwise.
pub open spec fn generate_spec(p: Option<JsonView>) -> GenOutcomeView {
    match p {
        None => GenOutcomeView::Error("Failed to parse LLM response"@),
        Some(v) => match validate_report_spec(v) {
            Some(r) => GenOutcomeView::Report(r),
            None => GenOutcomeView::Error("Report failed validation"@),
        },
    }
}

/// Looks up the first member of an object with the given key.
pub(crate) fn obj_get<'a>(fields: &'a Vec<JsonField>, key: &str) -> (r: Option<&'a JsonValue>)
    ensures
        match r {
            Some(v) => obj_lookup(JsonValue::fields_view(fields@), key@) == Some(v.value_view()),
            None => obj_lookup(JsonValue::fields_view(fields@), key@) is None,
        },
{
    let ghost fv = JsonValue::fields_view(fields@);
    proof {
        JsonValue::lemma_fields_view_index(fields@);
        assert(fv.skip(0) =~= fv);
    }
    let n: usize = fields.len();
    for i in 0..n
        invariant
            n == fields@.len(),
            fv == JsonValue::fields_view(fields@),
            fv.len() == n,
            forall|j: int| 0 <= j < n ==> #[trigger] fv[j] == (
                fields@[j].key@,
                fields@[j].value.value_view(),
            ),
            obj_lookup(fv, key@) == obj_lookup(fv.skip(i as int), key@),
    {
        proof {
            assert(fv.skip(i as int)[0] == fv[i as int]);
            assert(fv.skip(i as int).drop_first() =~= fv.skip(i + 1));
        }
        if str_eq(fields[i].key.as_str(), key) {
            return Some(&fields[i].value);
        }
    }
    None
}

/// Validates one mitigation object.
fn validate_mitigation(v: &JsonValue) -> (r: Option<Mitigation>)
    ensures
        match r {
            Some(m) => validate_mitigation_spec(v.value_view()) == Some(m@),
            None => validate_mitigation_spec(v.value_view()) is None,
        },
{
    let fields = match v {
        JsonValue::Obj(fields) => fields,
        _ => {
            return None;
        },
    };
    let name = match obj_get(fields, "name") {
        Some(JsonValue::Str(n)) => n.clone(),
        _ => {
            return None;
        },
    };
    let description = match obj_get(fields, "description") {
        Some(JsonValue::Str(d)) => d.clone(),
        _ => {
            return None;
        },
    };
    let url = match obj_get(fields, "url") {
        Some(JsonValue::Str(u)) => Some(u.clone()),
        Some(_) => {
            return None;
        },
        None => None,
    };
    let citations = match obj_get(fields, "citations") {
        Some(JsonValue::Str(c)) => Some(c.clone()),
        Some(_) => {
            return None;
        },
        None => None,
    };
    Some(Mitigation { name, description, url, citations })
}

/// Validates the mitigation list of one item.
fn validate_mitigations(items: &Vec<JsonValue>) -> (r: Option<Vec<Mitigation>>)
    ensures
        match r {
            Some(ms) => validate_mitigations_spec(JsonValue::values_view(items@)) == Some(
                Seq::new(ms@.len(), |i: int| ms@[i]@),
            ),
            None => validate_mitigations_spec(JsonValue::values_view(items@)) is None,
        },
{
    let ghost iv = JsonValue::values_view(items@);
    proof {
        JsonValue::lemma_values_view_index(items@);
    }
    let n: usize = items.len();
    let mut out: Vec<Mitigation> = Vec::new();
    for i in 0..n
        invariant
            n == items@.len(),
            iv == JsonValue::values_view(items@),
            iv.len() == n,
            forall|j: int| 0 <= j < n ==> #[trigger] iv[j] == items@[j].value_view(),
            validate_mitigations_spec(iv.take(i as int)) == Some(
                Seq::new(out@.len(), |j: int| out@[j]@),
            ),
    {
        match validate_mitigation(&items[i]) {
            Some(m) => {
                out.push(m);
            },
            None => {
                proof {
                    lemma_mitigations_prefix_none(iv, i as int);
                }
                return None;
            },
        }
        proof {
            let t = iv.take(i + 1);
            assert(t.drop_last() =~= iv.take(i as int));
            assert(t.last() == iv[i as int]);
            assert(Seq::new(out@.len(), |j: int| out@[j]@) =~= Seq::new(
                (out@.len() - 1) as nat,
                |j: int| out@[j]@,
            ).push(out@[out@.len() - 1]@));
        }
    }
    proof {
        assert(iv.take(n as int) =~= iv);
    }
    Some(out)
}

/// If one element fails validation, the whole list does.
proof fn lemma_mitigations_prefix_none(items: Seq<JsonView>, i: int)
    requires
        0 <= i < items.len(),
        validate_mitigation_spec(items[i]) is None,
    ensures
        validate_mitigations_spec(items) is None,
    decreases items.len(),
{
    if items.len() > 0 {
        if i == items.len() - 1 {
        } else {
            lemma_mitigations_prefix_none(items.drop_last(), i);
        }
    }
}

/// Validates one report item.
fn validate_item(v: &JsonValue) -> (r: Option<RapportItem>)
    ensures
        match r {
            Some(it) => validate_item_spec(v.value_view()) == Some(it@),
            None => validate_item_spec(v.value_view()) is None,
        },
{
    let fields = match v {
        JsonValue::Obj(fields) => fields,
        _ => {
            return None;
        },
    };
    let name = match obj_get(fields, "name") {
        Some(JsonValue::Str(n)) => n.clone(),
        _ => {
            return None;
        },
    };
    let description = match obj_get(fields, "description") {
        Some(JsonValue::Str(d)) => d.clone(),
        _ => {
            return None;
        },
    };
    let mitigations = match obj_get(fields, "mitigations") {
        Some(JsonValue::Arr(ms)) => match validate_mitigations(ms) {
            Some(out) => out,
            None => {
                return None;
            },
        },
        _ => {
            return None;
        },
    };
    let likelihood = match obj_get(fields, "likelihood") {
        Some(JsonValue::NumText(l)) => {
            if check_unit_interval(l.as_str()) {
                Some(l.clone())
            } else {
                return None;
            }
        },
        Some(_) => {
            return None;
        },
        None => None,
    };
    let it = RapportItem { name, description, mitigations, likelihood };
    proof {
        assert(validate_item_spec(v.value_view()) == Some(it@));
    }
    Some(it)
}

/// If one element fails validation, the whole list does.
proof fn lemma_items_prefix_none(items: Seq<JsonView>, i: int)
    requires
        0 <= i < items.len(),
        validate_item_spec(items[i]) is None,
    ensures
        validate_items_spec(items) is None,
    decreases items.len(),
{
    if items.len() > 0 {
        if i == items.len() - 1 {
        } else {
            lemma_items_prefix_none(items.drop_last(), i);
        }
    }
}

/// Validates the item list of a report.
fn validate_items(items: &Vec<JsonValue>) -> (r: Option<Vec<RapportItem>>)
    ensures
        match r {
            Some(its) => validate_items_spec(JsonValue::values_view(items@)) == Some(
                Seq::new(its@.len(), |i: int| its@[i]@),
            ),
            None => validate_items_spec(JsonValue::values_view(items@)) is None,
        },
{
    let ghost iv = JsonValue::values_view(items@);
    proof {
        JsonValue::lemma_values_view_index(items@);
    }
    let n: usize = items.len();
    let mut out: Vec<RapportItem> = Vec::new();
    for i in 0..n
        invariant
            n == items@.len(),
            iv == JsonValue::values_view(items@),
            iv.len() == n,
            forall|j: int| 0 <= j < n ==> #[trigger] iv[j] == items@[j].value_view(),
            validate_items_spec(iv.take(i as int)) == Some(
                Seq::new(out@.len(), |j: int| out@[j]@),
            ),
    {
        match validate_item(&items[i]) {
            Some(it) => {
                out.push(it);
            },
            None => {
                proof {
                    lemma_items_prefix_none(iv, i as int);
                }
                return None;
            },
        }
        proof {
            let t = iv.take(i + 1);
            assert(t.drop_last() =~= iv.take(i as int));
            assert(t.last() == iv[i as int]);
            assert(Seq::new(out@.len(), |j: int| out@[j]@) =~= Seq::new(
                (out@.len() - 1) as nat,
                |j: int| out@[j]@,
            ).push(out@[out@.len() - 1]@));
        }
    }
    proof {
        assert(iv.take(n as int) =~= iv);
    }
    Some(out)
}

/// Validates a parsed JSON value against the report shape.
pub fn validate_report(v: &JsonValue) -> (r: Option<Rapport>)
    ensures
        match r {
            Some(rep) => validate_report_spec(v.value_view()) == Some(rep@),
            None => validate_report_spec(v.value_view()) is None,
        },
{
    let fields = match v {
        JsonValue::Obj(fields) => fields,
        _ => {
            return None;
        },
    };
    let summary = match obj_get(fields, "summary") {
        Some(JsonValue::Str(s)) => s.clone(),
        _ => {
            return None;
        },
    };
    let items = match obj_get(fields, "items") {
        Some(JsonValue::Arr(its)) => match validate_items(its) {
            Some(out) => out,
            None => {
                return None;
            },
        },
        _ => {
            return None;
        },
    };
    let rep = Rapport { summary, items };
    proof {
        assert(validate_report_spec(v.value_view()) == Some(rep@));
    }
    Some(rep)
}

/// Turns a model answer into a report or an explicit error: text that is
/// not JSON yields the parse-error payload, JSON of the wrong shape (a
/// missing field, an ill-typed member, a likelihood outside the unit
/// interval) yields the validation-error payload, and only a well-shaped
/// report is returned as one.
pub fn generate_from_text(text: &str) -> (r: GenOutcome)
    ensures
        r@ == generate_spec(json_parse(text@)),
{
    match parse_json(text) {
        None => GenOutcome::Error(
            ErrorReport { error: String::from_str("Failed to parse LLM response") },
        ),
        Some(v) => match validate_report(&v) {
            Some(rep) => GenOutcome::Report(rep),
            None => GenOutcome::Error(
                ErrorReport { error: String::from_str("Report failed validation") },
            ),
        },
    }
}

/// A JSON error object, `{"error": message}`.
pub fn error_body(message: &str) -> (r: JsonValue)
    ensures
        r.value_view() == JsonView::Obj(
            seq![("error"@, JsonView::Str(message@))],
        ),
{
    let mut fields: Vec<JsonField> = Vec::new();
    fields.push(JsonField { key: String::from_str("error"), value: JsonValue::Str(String::from_str(message)) });
    let r = JsonValue::Obj(fields);
    proof {
        JsonValue::lemma_fields_view_index(fields@);
        assert(JsonValue::fields_view(fields@) =~= seq![("error"@, JsonView::Str(message@))]);
    }
    r
}

/// The JSON body answered for a structured request: the model's own JSON
/// when it parses and validates as a report, and otherwise an explicit
/// error object — so the caller always receives valid JSON.
pub fn structured_response_body(text: &str) -> (r: JsonValue)
    ensures
        r.value_view() == match json_parse(text@) {
            Some(v) => if validate_report_spec(v) is Some {
                v
            } else {
                JsonView::Obj(seq![("error"@, JsonView::Str("Report failed validation"@))])
            },
            None => JsonView::Obj(
                seq![("error"@, JsonView::Str("Failed to parse LLM response"@))],
            ),
        },
{
    match parse_json(text) {
        Some(v) => {
            match validate_report(&v) {
                Some(_) => v,
                None => error_body("Report failed validation"),
            }
        },
        None => error_body("Failed to parse LLM response"),
    }
}

} // verus!
