//! The accumulated text report built from streamed chunks, and its
//! presentation clean-up pass.

use vstd::prelude::*;

verus! {

use vstd::string::StringExecFns;
use crate::json::JsonValue;
use crate::json::JsonView;
use crate::json::json_parse;
use crate::json::parse_json;
use crate::structured::obj_get;
use crate::structured::obj_lookup;
use crate::text::chars_to_string;
use crate::text::piece_views;
use crate::text::split_on;
use crate::text::split_text;
use crate::text::char_is_alphabetic;
use crate::text::is_alphabetic_of;
use crate::text::str_to_chars;
use crate::text::trim_chars;
use crate::text::trim_end_chars;
use crate::text::trim_end_spec;
use crate::text::trim_spec;
use crate::text::upper_char;
use crate::text::ascii_upper;

/// A running report: plain text accumulated from stream chunks.
pub struct Report {
    pub contents: String,
}

/// What one clean-up step does to the text built so far.  The pair holds the
/// text and whether the next letter is to be capitalized.
pub open spec fn fmt_step(st: (Seq<char>, bool), c: char) -> (Seq<char>, bool) {
    if c == '.' || c == ',' || c == ')' {
        (trim_end_spec(st.0).push(c), c == '.')
    } else if c == ' ' {
        (
            if st.0.len() > 0 && st.0.last() == ' ' {
                st.0
            } else {
                st.0.push(' ')
            },
            st.1,
        )
    } else if c == '\'' {
        (
            if st.0.len() > 0 && st.0.last() == ' ' {
                st.0.drop_last().push(c)
            } else {
                st.0.push(c)
            },
            st.1,
        )
    } else if st.1 && is_alphabetic_of(c) {
        (st.0.push(upper_char(c)), false)
    } else {
        (st.0.push(c), st.1)
    }
}

/// The clean-up state after the first `i` characters of `s`.
pub open spec fn fmt_state(s: Seq<char>, i: int) -> (Seq<char>, bool)
    decreases i,
{
    if i <= 0 {
        (Seq::<char>::empty(), true)
    } else {
        fmt_step(fmt_state(s, i - 1), s[i - 1])
    }
}

/// The clean-up pass over a whole text: spacing is collapsed, punctuation is
/// re-attached, sentence starts are capitalized.
pub open spec fn formatting_spec(s: Seq<char>) -> Seq<char> {
    fmt_state(s, s.len() as int).0
}

/// The text `append` adds for chunk `data`: the chunk trimmed, preceded by a
/// separating space when both sides are non-empty.
pub open spec fn append_spec(contents: Seq<char>, data: Seq<char>) -> Seq<char> {
    if contents.len() > 0 && trim_spec(data).len() > 0 {
        contents + " "@ + trim_spec(data)
    } else {
        contents + trim_spec(data)
    }
}

impl Report {
    /// An empty report.
    pub fn new() -> (r: Self)
        ensures
            r.contents@ == Seq::<char>::empty(),
    {
        Report { contents: String::new() }
    }

    /// Adds one chunk of text, trimmed, separated from earlier text by a
    /// single space.
    pub fn append(&mut self, data: &str)
        ensures
            final(self).contents@ == append_spec(old(self).contents@, data@),
    {
        let trimmed: Vec<char> = trim_chars(str_to_chars(data));
        let t: String = chars_to_string(&trimmed);
        if !self.contents.as_str().is_empty() && !t.as_str().is_empty() {
            self.contents.append(" ");
        }
        self.contents.append(t.as_str());
    }

    /// The clean-up pass over the accumulated text: collapses doubled
    /// spaces, re-attaches `.`, `,`, `)` and apostrophes to the word before
    /// them, and capitalizes the first letter of each sentence.
    pub fn formatting(&self) -> (r: String)
        ensures
            r@ == formatting_spec(self.contents@),
    {
        let cs: Vec<char> = str_to_chars(self.contents.as_str());
        let n: usize = cs.len();
        let mut out: Vec<char> = Vec::new();
        let mut cap: bool = true;
        for i in 0..n
            invariant
                n == cs@.len(),
                cs@ == self.contents@,
                (out@, cap) == fmt_state(cs@, i as int),
        {
            let c: char = cs[i];
            if c == '.' || c == ',' || c == ')' {
                trim_end_chars(&mut out);
                out.push(c);
                cap = c == '.';
            } else if c == ' ' {
                let m: usize = out.len();
                if !(m > 0 && out[m - 1] == ' ') {
                    out.push(' ');
                }
            } else if c == '\'' {
                let m: usize = out.len();
                if m > 0 && out[m - 1] == ' ' {
                    out.pop();
                }
                out.push(c);
            } else if cap && char_is_alphabetic(c) {
                out.push(ascii_upper(c));
                cap = false;
            } else {
                out.push(c);
            }
            proof {
                assert((out@, cap) == fmt_step(fmt_state(cs@, i as int), cs@[i as int]));
            }
        }
        chars_to_string(&out)
    }
}

/// What one stream segment adds to the report: if the segment, closed with
/// a brace, parses as a JSON object whose `contents` member is a string,
/// that string is appended; anything else adds nothing.
pub open spec fn seg_step(contents: Seq<char>, seg: Seq<char>) -> Seq<char> {
    match json_parse(seg + "}"@) {
        Some(JsonView::Obj(fs)) => match obj_lookup(fs, "contents"@) {
            Some(JsonView::Str(c)) => append_spec(contents, c),
            _ => contents,
        },
        _ => contents,
    }
}

/// The report text after absorbing every segment, in order.
pub open spec fn report_after(contents: Seq<char>, segs: Seq<Seq<char>>) -> Seq<char>
    decreases segs.len(),
{
    if segs.len() == 0 {
        contents
    } else {
        seg_step(report_after(contents, segs.drop_last()), segs.last())
    }
}

impl Report {
    /// Absorbs a raw stream transcript: the text is split on closing
    /// braces, each piece re-closed and parsed, and every `contents` string
    /// found is appended; the whole is then run through the clean-up pass.
    pub fn format(&mut self, raw_data: &String)
        ensures
            final(self).contents@ == formatting_spec(
                report_after(old(self).contents@, split_on(raw_data@, '}')),
            ),
    {
        let segs: Vec<String> = split_text(raw_data.as_str(), '}');
        let ghost sv = piece_views(segs@);
        let n: usize = segs.len();
        for i in 0..n
            invariant
                n == segs@.len(),
                sv == piece_views(segs@),
                sv.len() == n,
                self.contents@ == report_after(old(self).contents@, sv.take(i as int)),
        {
            proof {
                assert(sv[i as int] == segs@[i as int]@);
            }
            let mut cand: Vec<char> = crate::text::str_to_chars(segs[i].as_str());
            cand.push('}');
            proof {
                reveal_strlit("}");
                assert(cand@ =~= sv[i as int] + "}"@);
            }
            let cand_str: String = chars_to_string(&cand);
            match parse_json(cand_str.as_str()) {
                Some(JsonValue::Obj(fields)) => {
                    match obj_get(&fields, "contents") {
                        Some(JsonValue::Str(c)) => {
                            let text: String = c.clone();
                            self.append(text.as_str());
                        },
                        _ => {},
                    }
                },
                _ => {},
            }
            proof {
                let t = sv.take(i + 1);
                assert(t.drop_last() =~= sv.take(i as int));
                assert(t.last() == sv[i as int]);
                assert(self.contents@ == report_after(old(self).contents@, sv.take(i + 1)));
            }
        }
        proof {
            assert(sv.take(n as int) =~= sv);
        }
        self.contents = self.formatting();
    }
}

} // verus!
