//! Prompt assembly: the report prompt built from the user's text, the
//! output-format contract and the selected mitigations, and the templated
//! prompt built by placeholder substitution.

use vstd::prelude::*;

verus! {

use vstd::string::StringExecFns;
use crate::catalog::MitreMitigationView;
use crate::catalog::MitreMitigations;
use crate::catalog::mitigations_text;
use crate::text::chars_to_string;
use crate::text::piece_views;
use crate::text::str_to_chars;

/// `s` with every occurrence of `pat` replaced by `rep`, scanning left to
/// right without overlap.
pub open spec fn replace_spec(s: Seq<char>, pat: Seq<char>, rep: Seq<char>) -> Seq<char>
    decreases s.len(),
        when pat.len() > 0
{
    if s.len() < pat.len() {
        s
    } else if s.take(pat.len() as int) == pat {
        rep + replace_spec(s.skip(pat.len() as int), pat, rep)
    } else {
        seq![s[0]] + replace_spec(s.drop_first(), pat, rep)
    }
}

/// Whether `pat` occurs in `cs` at position `i`.
pub(crate) fn match_at(cs: &Vec<char>, i: usize, pat: &Vec<char>) -> (r: bool)
    requires
        i <= cs@.len(),
    ensures
        r <==> (i + pat@.len() <= cs@.len() && cs@.subrange(i as int, i + pat@.len())
            == pat@),
{
    let plen: usize = pat.len();
    let n: usize = cs.len();
    if n - i < plen {
        return false;
    }
    for j in 0..plen
        invariant
            i + plen <= n,
            n == cs@.len(),
            plen == pat@.len(),
            forall|q: int| 0 <= q < j ==> #[trigger] cs@[i + q] == pat@[q],
    {
        if cs[i + j] != pat[j] {
            proof {
                assert(cs@.subrange(i as int, i + pat@.len())[j as int] != pat@[j as int]);
            }
            return false;
        }
    }
    proof {
        assert forall|q: int| 0 <= q < plen implies cs@.subrange(
            i as int,
            i + pat@.len(),
        )[q] == pat@[q] by {
            assert(cs@.subrange(i as int, i + pat@.len())[q] == cs@[i + q]);
        }
        assert(cs@.subrange(i as int, i + pat@.len()) =~= pat@);
    }
    true
}

/// Replaces every occurrence of `pat` in `s` by `rep`, scanning left to
/// right without overlap.
pub fn replace_text(s: &str, pat: &str, rep: &str) -> (r: String)
    requires
        pat@.len() > 0,
    ensures
        r@ == replace_spec(s@, pat@, rep@),
{
    let cs: Vec<char> = str_to_chars(s);
    let pv: Vec<char> = str_to_chars(pat);
    let rv: Vec<char> = str_to_chars(rep);
    let n: usize = cs.len();
    let plen: usize = pv.len();
    let mut out: Vec<char> = Vec::new();
    let mut i: usize = 0;
    proof {
        assert(cs@.skip(0) =~= cs@);
    }
    while i < n
        invariant
            i <= n,
            n == cs@.len(),
            cs@ == s@,
            pv@ == pat@,
            rv@ == rep@,
            plen == pat@.len(),
            plen > 0,
            out@ + replace_spec(cs@.skip(i as int), pat@, rep@) == replace_spec(s@, pat@, rep@),
        decreases n - i,
    {
        let ghost rest = cs@.skip(i as int);
        proof {
            assert(rest.len() == n - i);
        }
        if match_at(&cs, i, &pv) {
            proof {
                assert(rest.take(plen as int) =~= cs@.subrange(i as int, i + plen));
                assert(rest.skip(plen as int) =~= cs@.skip((i + plen) as int));
                assert(replace_spec(rest, pat@, rep@) == rep@ + replace_spec(
                    cs@.skip((i + plen) as int),
                    pat@,
                    rep@,
                ));
            }
            let mut piece: Vec<char> = crate::text::copy_chars(&rv);
            out.append(&mut piece);
            proof {
                assert(out@ + replace_spec(cs@.skip((i + plen) as int), pat@, rep@) =~= replace_spec(
                    s@,
                    pat@,
                    rep@,
                ));
            }
            i = i + plen;
        } else {
            proof {
                if rest.len() >= plen {
                    assert(rest.take(plen as int) =~= cs@.subrange(i as int, i + plen));
                    assert(rest.take(plen as int) != pat@);
                    assert(replace_spec(rest, pat@, rep@) == seq![rest[0]] + replace_spec(
                        rest.drop_first(),
                        pat@,
                        rep@,
                    ));
                }
                assert(rest[0] == cs@[i as int]);
                assert(rest.drop_first() =~= cs@.skip(i + 1));
            }
            out.push(cs[i]);
            proof {
                assert(out@ + replace_spec(cs@.skip(i + 1), pat@, rep@) =~= replace_spec(
                    s@,
                    pat@,
                    rep@,
                ));
            }
            i = i + 1;
        }
    }
    proof {
        assert(cs@.skip(n as int) =~= Seq::<char>::empty());
        assert(replace_spec(Seq::<char>::empty(), pat@, rep@) == Seq::<char>::empty());
        assert(out@ =~= replace_spec(s@, pat@, rep@));
    }
    chars_to_string(&out)
}

/// The pieces joined by the separator.
pub open spec fn join_spec(parts: Seq<Seq<char>>, sep: Seq<char>) -> Seq<char>
    decreases parts.len(),
{
    if parts.len() == 0 {
        Seq::<char>::empty()
    } else if parts.len() == 1 {
        parts[0]
    } else {
        join_spec(parts.drop_last(), sep) + sep + parts.last()
    }
}

/// Joins the pieces with the separator.
pub fn join_text(parts: &Vec<String>, sep: &str) -> (r: String)
    ensures
        r@ == join_spec(piece_views(parts@), sep@),
{
    let ghost pv = piece_views(parts@);
    proof {
        crate::text::lemma_piece_views(parts@);
    }
    let n: usize = parts.len();
    let mut out = String::new();
    for i in 0..n
        invariant
            n == parts@.len(),
            pv == piece_views(parts@),
            pv.len() == n,
            out@ == join_spec(pv.take(i as int), sep@),
    {
        if i > 0 {
            out.append(sep);
        }
        out.append(parts[i].as_str());
        proof {
            let t = pv.take(i + 1);
            assert(t.drop_last() =~= pv.take(i as int));
            assert(t.last() == pv[i as int]);
            assert(parts@[i as int]@ == pv[i as int]);
            if i == 0 {
                assert(join_spec(t, sep@) == pv[0]);
                assert(out@ =~= join_spec(t, sep@));
            }
        }
    }
    proof {
        assert(pv.take(n as int) =~= pv);
    }
    out
}

/// The statement of the report's required JSON shape, given to the model
/// ahead of generation.
pub open spec fn report_format_text() -> Seq<char> {
    "{ \"summary\": string, \"items\": [{ \"name\": string, \"description\": string, \"mitigations\": [{ \"name\": string, \"description\": string, \"url\": string, \"citations\": string }], \"likelihood\": number }] }"@
}

/// The prompt handed to the structured generator: the user's text verbatim,
/// the instruction with the output shape, and — only when any were selected
/// — the mitigation listing.
pub open spec fn report_prompt_spec(user: Seq<char>, mits: Seq<MitreMitigationView>) -> Seq<
    char,
> {
    let base = user + ". \n Answer using this format "@ + report_format_text() + "..."@;
    if mits.len() == 0 {
        base
    } else {
        base + "\n Consider these mitigations:\n"@ + mitigations_text(mits)
    }
}

/// Builds the structured-generation prompt.  The user's intent is kept
/// verbatim; the mitigation section is omitted entirely when the selection
/// is empty.
pub fn build_report_prompt(user: &str, mits: &MitreMitigations) -> (r: String)
    ensures
        r@ == report_prompt_spec(user@, mits@),
{
    let mut out = String::new();
    out.append(user);
    out.append(". \n Answer using this format ");
    out.append(
        "{ \"summary\": string, \"items\": [{ \"name\": string, \"description\": string, \"mitigations\": [{ \"name\": string, \"description\": string, \"url\": string, \"citations\": string }], \"likelihood\": number }] }",
    );
    out.append("...");
    if mits.0.len() > 0 {
        out.append("\n Consider these mitigations:\n");
        let listing: String = mits.format_mitigations();
        out.append(listing.as_str());
    }
    proof {
        if mits@.len() > 0 {
            assert(mits.0@.len() > 0);
        }
    }
    out
}

/// The templated prompt: the template with its four placeholders replaced
/// by the group's name, its description, its associated names joined by
/// commas, and the caller's question.
pub open spec fn templated_prompt_spec(
    template: Seq<char>,
    name: Seq<char>,
    description: Seq<char>,
    associated_names: Seq<Seq<char>>,
    question: Seq<char>,
) -> Seq<char> {
    replace_spec(
        replace_spec(
            replace_spec(
                replace_spec(template, "{name}"@, name),
                "{description}"@,
                description,
            ),
            "{associated_names}"@,
            join_spec(associated_names, ", "@),
        ),
        "{template_question}"@,
        question,
    )
}

/// Builds the templated prompt by placeholder substitution.
pub fn build_templated_prompt(
    template: &str,
    name: &str,
    description: &str,
    associated_names: &Vec<String>,
    question: &str,
) -> (r: String)
    ensures
        r@ == templated_prompt_spec(
            template@,
            name@,
            description@,
            piece_views(associated_names@),
            question@,
        ),
{
    proof {
        reveal_strlit("{name}");
        reveal_strlit("{description}");
        reveal_strlit("{associated_names}");
        reveal_strlit("{template_question}");
    }
    let joined: String = join_text(associated_names, ", ");
    let step1: String = replace_text(template, "{name}", name);
    let step2: String = replace_text(step1.as_str(), "{description}", description);
    let step3: String = replace_text(step2.as_str(), "{associated_names}", joined.as_str());
    replace_text(step3.as_str(), "{template_question}", question)
}

} // verus!
