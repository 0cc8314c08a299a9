//! The keyword augmenter: free-text prompts are normalized and tokenized,
//! tokens are looked up in a static keyword table, and the mitigation ids
//! found are sorted, deduplicated and resolved against the catalog.
//!
//! The selected id list is fully characterized: sorted ascending, free of
//! duplicates, and holding exactly the resolvable ids of the token set —
//! so the outcome cannot depend on the order tokens were seen in.

use vstd::prelude::*;

verus! {

use vstd::relations::sorted_by;

broadcast use vstd::seq::group_seq_axioms;

use crate::catalog::MitigationCatalog;
use crate::catalog::MitreMitigation;
use crate::catalog::MitreMitigationView;
use crate::catalog::MitreMitigations;
use crate::catalog::catalog_lookup;
use crate::text::is_whitespace_of;
use crate::text::char_is_whitespace;
use crate::text::ascii_lower;
use crate::text::lower_char;
use crate::text::lex_le;
use crate::text::lemma_lex_le_antisym;
use crate::text::piece_views;
use crate::text::lemma_piece_views;
use crate::text::lemma_piece_views_push;
use crate::text::str_le;
use crate::text::str_to_chars;
use crate::text::chars_to_string;

/// One row of the static keyword table: a keyword and the mitigation ids it
/// stands for.
#[derive(Clone, Debug)]
pub struct KeywordRule {
    pub keyword: String,
    pub mitigation_ids: Vec<String>,
}

/// The mathematical value of a [`KeywordRule`].
pub struct KeywordRuleView {
    pub keyword: Seq<char>,
    pub mitigation_ids: Seq<Seq<char>>,
}

impl View for KeywordRule {
    type V = KeywordRuleView;

    open spec fn view(&self) -> KeywordRuleView {
        KeywordRuleView {
            keyword: self.keyword@,
            mitigation_ids: Seq::new(
                self.mitigation_ids@.len(),
                |i: int| self.mitigation_ids@[i]@,
            ),
        }
    }
}

/// The ascending id order the selection is returned in.
pub open spec fn id_le() -> spec_fn(Seq<char>, Seq<char>) -> bool {
    |a: Seq<char>, b: Seq<char>| lex_le(a, b)
}

/// A prompt normalized for tokenizing: ASCII lower-cased, with periods and
/// commas removed.
pub open spec fn normalize_spec(s: Seq<char>) -> Seq<char>
    decreases s.len(),
{
    if s.len() == 0 {
        Seq::<char>::empty()
    } else {
        let rest = normalize_spec(s.drop_last());
        let c = lower_char(s.last());
        if c == '.' || c == ',' {
            rest
        } else {
            rest.push(c)
        }
    }
}

/// One tokenizing step: whitespace closes the token being built, any other
/// character extends it.
pub open spec fn tok_step(st: (Seq<Seq<char>>, Seq<char>), c: char) -> (Seq<Seq<char>>, Seq<
    char,
>) {
    if is_whitespace_of(c) {
        if st.1.len() > 0 {
            (st.0.push(st.1), Seq::<char>::empty())
        } else {
            st
        }
    } else {
        (st.0, st.1.push(c))
    }
}

/// The tokenizer state after the first `i` characters of `s`.
pub open spec fn tok_state(s: Seq<char>, i: int) -> (Seq<Seq<char>>, Seq<char>)
    decreases i,
{
    if i <= 0 {
        (Seq::<Seq<char>>::empty(), Seq::<char>::empty())
    } else {
        tok_step(tok_state(s, i - 1), s[i - 1])
    }
}

/// The tokens of a prompt: the normalized text split on whitespace, with
/// empty tokens dropped.
pub open spec fn tokens_of(s: Seq<char>) -> Seq<Seq<char>> {
    let ns = normalize_spec(s);
    let st = tok_state(ns, ns.len() as int);
    if st.1.len() > 0 {
        st.0.push(st.1)
    } else {
        st.0
    }
}

/// Whether the keyword table maps `tok` to `id` in any of its rows.
pub open spec fn rule_has_id(rules: Seq<KeywordRuleView>, tok: Seq<char>, id: Seq<char>) -> bool {
    exists|r: int, j: int|
        0 <= r < rules.len() && rules[r].keyword == tok && 0 <= j
            < rules[r].mitigation_ids.len() && #[trigger] rules[r].mitigation_ids[j] == id
}

/// Every id any token of the set maps to.
pub open spec fn ids_for_tokens(rules: Seq<KeywordRuleView>, toks: Set<Seq<char>>) -> Set<
    Seq<char>,
> {
    Set::new(|id: Seq<char>| exists|t: Seq<char>| toks.contains(t) && rule_has_id(rules, t, id))
}

/// The ids of the token set that the catalog can resolve.
pub open spec fn selectable_ids(
    cat: Seq<MitreMitigationView>,
    rules: Seq<KeywordRuleView>,
    toks: Set<Seq<char>>,
) -> Set<Seq<char>> {
    Set::new(
        |id: Seq<char>| ids_for_tokens(rules, toks).contains(id) && catalog_lookup(cat, id)
            is Some,
    )
}

/// Normalizes and tokenizes a prompt.
pub fn tokenize(prompt: &str) -> (r: Vec<String>)
    ensures
        piece_views(r@) == tokens_of(prompt@),
{
    let cs: Vec<char> = str_to_chars(prompt);
    let n: usize = cs.len();
    let mut normalized: Vec<char> = Vec::new();
    for i in 0..n
        invariant
            n == cs@.len(),
            cs@ == prompt@,
            normalized@ == normalize_spec(cs@.take(i as int)),
    {
        let c: char = ascii_lower(cs[i]);
        if !(c == '.' || c == ',') {
            normalized.push(c);
        }
        proof {
            let t = cs@.take(i + 1);
            assert(t.drop_last() =~= cs@.take(i as int));
            assert(t.last() == cs@[i as int]);
        }
    }
    proof {
        assert(cs@.take(n as int) =~= cs@);
    }
    let ns: Vec<char> = normalized;
    let m: usize = ns.len();
    let ghost nsv = normalize_spec(prompt@);
    let mut tokens: Vec<String> = Vec::new();
    let mut cur: Vec<char> = Vec::new();
    for i in 0..m
        invariant
            m == ns@.len(),
            ns@ == nsv,
            (piece_views(tokens@), cur@) == tok_state(nsv, i as int),
    {
        let c: char = ns[i];
        if char_is_whitespace(c) {
            if cur.len() > 0 {
                let tok: String = chars_to_string(&cur);
                tokens.push(tok);
                cur = Vec::new();
                proof {
                    assert(piece_views(tokens@) =~= tok_state(nsv, i as int).0.push(
                        tok_state(nsv, i as int).1,
                    ));
                }
            }
        } else {
            cur.push(c);
        }
        proof {
            assert((piece_views(tokens@), cur@) == tok_step(tok_state(nsv, i as int), nsv[i as int]));
        }
    }
    if cur.len() > 0 {
        let tok: String = chars_to_string(&cur);
        tokens.push(tok);
        proof {
            assert(piece_views(tokens@) =~= tok_state(nsv, m as int).0.push(
                tok_state(nsv, m as int).1,
            ));
        }
    }
    proof {
        assert(piece_views(tokens@) =~= tokens_of(prompt@));
    }
    tokens
}

/// Collects the ids one token maps to, in table order.
fn ids_for_token(rules: &Vec<KeywordRule>, token: &String) -> (r: Vec<String>)
    ensures
        forall|p: int|
            0 <= p < r@.len() ==> rule_has_id(
                piece_rule_views(rules@),
                token@,
                (#[trigger] r@[p])@,
            ),
        forall|id: Seq<char>|
            rule_has_id(piece_rule_views(rules@), token@, id) ==> piece_views(r@).contains(id),
{
    let ghost rv = piece_rule_views(rules@);
    let n: usize = rules.len();
    let mut out: Vec<String> = Vec::new();
    for i in 0..n
        invariant
            n == rules@.len(),
            rv == piece_rule_views(rules@),
            forall|p: int| 0 <= p < out@.len() ==> rule_has_id(rv, token@, (#[trigger] out@[p])@),
            forall|r: int, j: int|
                0 <= r < i && rv[r].keyword == token@ && 0 <= j
                    < rv[r].mitigation_ids.len() ==> piece_views(out@).contains(
                    #[trigger] rv[r].mitigation_ids[j],
                ),
    {
        if rules[i].keyword == *token {
            let k: usize = rules[i].mitigation_ids.len();
            for j in 0..k
                invariant
                    n == rules@.len(),
                    rv == piece_rule_views(rules@),
                    i < n,
                    k == rules@[i as int].mitigation_ids@.len(),
                    rv[i as int].keyword == token@,
                    forall|p: int|
                        0 <= p < out@.len() ==> rule_has_id(rv, token@, (#[trigger] out@[p])@),
                    forall|r: int, jj: int|
                        0 <= r < i && rv[r].keyword == token@ && 0 <= jj
                            < rv[r].mitigation_ids.len() ==> piece_views(out@).contains(
                            #[trigger] rv[r].mitigation_ids[jj],
                        ),
                    forall|jj: int|
                        0 <= jj < j ==> piece_views(out@).contains(
                            #[trigger] rv[i as int].mitigation_ids[jj],
                        ),
            {
                let ghost before_vec = out@;
                let ghost before = piece_views(out@);
                out.push(rules[i].mitigation_ids[j].clone());
                proof {
                    lemma_piece_views(before_vec);
                    lemma_piece_views(out@);
                    assert(rv[i as int].mitigation_ids[j as int] == rules@[i as int].mitigation_ids@[j as int]@);
                    lemma_piece_views_push(before_vec, rules@[i as int].mitigation_ids@[j as int]);
                    assert(piece_views(out@) =~= before.push(rv[i as int].mitigation_ids[j as int]));
                    assert(forall|p: int|
                        0 <= p < before.len() ==> piece_views(out@)[p] == before[p]);
                    assert forall|id: Seq<char>| before.contains(id) implies piece_views(
                        out@,
                    ).contains(id) by {
                        let k = choose|k: int| 0 <= k < before.len() && before[k] == id;
                        assert(piece_views(out@)[k] == id);
                    }
                    assert(piece_views(out@)[before.len() as int] == rv[i as int].mitigation_ids[j as int]);
                    assert(piece_views(out@).contains(rv[i as int].mitigation_ids[j as int]));
                    assert(rule_has_id(rv, token@, rv[i as int].mitigation_ids[j as int]));
                }
            }
        }
    }
    out
}

/// The views of a rule table.
pub open spec fn piece_rule_views(rs: Seq<KeywordRule>) -> Seq<KeywordRuleView> {
    Seq::new(rs.len(), |i: int| rs[i]@)
}

/// Collects every id any of the tokens maps to.
fn collect_ids(rules: &Vec<KeywordRule>, tokens: &Vec<String>) -> (r: Vec<String>)
    ensures
        piece_views(r@).to_set() == ids_for_tokens(
            piece_rule_views(rules@),
            piece_views(tokens@).to_set(),
        ),
{
    let ghost rv = piece_rule_views(rules@);
    let ghost tv = piece_views(tokens@);
    let n: usize = tokens.len();
    let mut out: Vec<String> = Vec::new();
    for i in 0..n
        invariant
            n == tokens@.len(),
            rv == piece_rule_views(rules@),
            tv == piece_views(tokens@),
            piece_views(out@).to_set() =~= ids_for_tokens(rv, tv.take(i as int).to_set()),
    {
        let ghost before_vec = out@;
        let ghost before = piece_views(out@);
        let mut found: Vec<String> = ids_for_token(rules, &tokens[i]);
        proof {
            lemma_piece_views(tokens@);
            assert(tokens@[i as int]@ == tv[i as int]);
        }
        let ghost found_vec = found@;
        let ghost foundv = piece_views(found@);
        out.append(&mut found);
        proof {
            lemma_piece_views(before_vec);
            lemma_piece_views(found_vec);
            lemma_piece_views(out@);
            assert(out@ == before_vec + found_vec);
            assert(piece_views(out@) =~= before + foundv) by {
                assert forall|k: int| 0 <= k < out@.len() implies piece_views(out@)[k] == (before
                    + foundv)[k] by {
                    if k < before_vec.len() {
                        assert(out@[k] == before_vec[k]);
                    } else {
                        assert(out@[k] == found_vec[k - before_vec.len()]);
                    }
                }
            }
            assert(tv.take(i + 1) =~= tv.take(i as int).push(tv[i as int]));
            assert forall|id: Seq<char>|
                piece_views(out@).to_set().contains(id) implies ids_for_tokens(
                rv,
                tv.take(i + 1).to_set(),
            ).contains(id) by {
                let p = choose|p: int|
                    0 <= p < piece_views(out@).len() && piece_views(out@)[p] == id;
                if p < before.len() {
                    assert(before.to_set().contains(id));
                    let t = choose|t: Seq<char>|
                        tv.take(i as int).to_set().contains(t) && rule_has_id(rv, t, id);
                    assert(tv.take(i + 1).to_set().contains(t));
                } else {
                    assert(foundv[p - before.len()] == id);
                    assert(rule_has_id(rv, tv[i as int], id));
                    assert(tv.take(i + 1)[i as int] == tv[i as int]);
                    assert(tv.take(i + 1).to_set().contains(tv[i as int]));
                }
            }
            assert forall|id: Seq<char>|
                ids_for_tokens(rv, tv.take(i + 1).to_set()).contains(id) implies piece_views(
                out@,
            ).to_set().contains(id) by {
                let t = choose|t: Seq<char>|
                    tv.take(i + 1).to_set().contains(t) && rule_has_id(rv, t, id);
                if tv.take(i as int).to_set().contains(t) {
                    assert(ids_for_tokens(rv, tv.take(i as int).to_set()).contains(id));
                    assert(before.to_set().contains(id));
                    let p = choose|p: int| 0 <= p < before.len() && before[p] == id;
                    assert(piece_views(out@)[p] == id);
                } else {
                    assert(t == tv[i as int]);
                    assert(foundv.contains(id));
                    let p = choose|p: int| 0 <= p < foundv.len() && foundv[p] == id;
                    assert(piece_views(out@)[before.len() + p] == id);
                }
            }
            assert(piece_views(out@).to_set() =~= ids_for_tokens(rv, tv.take(i + 1).to_set()));
        }
    }
    proof {
        assert(tv.take(n as int) =~= tv);
    }
    out
}

/// Instantiates the pairwise order of a sorted id list.
proof fn lemma_sorted_pair(s: Seq<Seq<char>>, i: int, j: int)
    requires
        sorted_by(s, id_le()),
        0 <= i < j < s.len(),
    ensures
        lex_le(s[i], s[j]),
{
    assert(id_le()(s[i], s[j]));
}

/// Where `x` belongs in a sorted id list: everything before the position is
/// at most `x`, and `x` is at most the element at the position.
fn insert_pos(out: &Vec<String>, x: &String) -> (p: usize)
    requires
        sorted_by(piece_views(out@), id_le()),
    ensures
        p <= out@.len(),
        forall|q: int| 0 <= q < p ==> lex_le(#[trigger] piece_views(out@)[q], x@),
        p < out@.len() ==> lex_le(x@, piece_views(out@)[p as int]),
{
    let m: usize = out.len();
    let mut p: usize = 0;
    loop
        invariant
            p <= m,
            m == out@.len(),
            forall|q: int| 0 <= q < p ==> lex_le(#[trigger] piece_views(out@)[q], x@),
        decreases m - p,
    {
        if p == m {
            return p;
        }
        proof {
            assert(out@[p as int]@ == piece_views(out@)[p as int]);
        }
        if !str_le(out[p].as_str(), x.as_str()) {
            proof {
                crate::text::lemma_lex_le_total(piece_views(out@)[p as int], x@);
            }
            return p;
        }
        p = p + 1;
    }
}

/// Sorts ids ascending; the result holds the same ids.
fn sort_ids(ids: Vec<String>) -> (r: Vec<String>)
    ensures
        sorted_by(piece_views(r@), id_le()),
        piece_views(r@).to_set() == piece_views(ids@).to_set(),
{
    let n: usize = ids.len();
    let ghost iv = piece_views(ids@);
    let mut out: Vec<String> = Vec::new();
    proof {
        lemma_piece_views(ids@);
        lemma_piece_views(out@);
        assert(piece_views(out@).to_set() =~= iv.take(0).to_set());
    }
    for i in 0..n
        invariant
            n == ids@.len(),
            iv == piece_views(ids@),
            sorted_by(piece_views(out@), id_le()),
            piece_views(out@).to_set() =~= iv.take(i as int).to_set(),
    {
        let x: String = ids[i].clone();
        proof {
            assert(x@ == iv[i as int]);
        }
        let ghost before_vec = out@;
        let ghost before = piece_views(out@);
        proof {
            lemma_piece_views(before_vec);
        }
        let p: usize = insert_pos(&out, &x);
        let m: usize = out.len();
        let mut next: Vec<String> = Vec::new();
        let mut q: usize = 0;
        while q < p
            invariant
                q <= p <= m,
                m == out@.len(),
                before == piece_views(out@),
                piece_views(next@) =~= before.take(q as int),
            decreases p - q,
        {
            let ghost oldn = next@;
            next.push(out[q].clone());
            proof {
                lemma_piece_views_push(oldn, out@[q as int]);
                assert(out@[q as int]@ == before[q as int]);
                assert(piece_views(next@) =~= before.take(q + 1));
            }
            q = q + 1;
        }
        let ghost oldn2 = next@;
        next.push(x);
        proof {
            lemma_piece_views_push(oldn2, x);
            assert(piece_views(next@) =~= before.take(p as int).push(iv[i as int]));
        }
        let mut q2: usize = p;
        while q2 < m
            invariant
                p <= q2 <= m,
                m == out@.len(),
                before == piece_views(out@),
                piece_views(next@) =~= before.take(p as int).push(iv[i as int]) + before.subrange(
                    p as int,
                    q2 as int,
                ),
            decreases m - q2,
        {
            let ghost oldn3 = next@;
            next.push(out[q2].clone());
            proof {
                lemma_piece_views_push(oldn3, out@[q2 as int]);
                assert(out@[q2 as int]@ == before[q2 as int]);
                assert(piece_views(next@) =~= before.take(p as int).push(iv[i as int])
                    + before.subrange(p as int, q2 + 1));
            }
            q2 = q2 + 1;
        }
        out = next;
        proof {
            lemma_piece_views(out@);
            let after = piece_views(out@);
            assert(after =~= before.take(p as int).push(iv[i as int]) + before.subrange(
                p as int,
                m as int,
            ));
            assert(after.len() == before.len() + 1);
            assert(forall|k: int| 0 <= k < p ==> #[trigger] after[k] == before[k]);
            assert(after[p as int] == iv[i as int]);
            assert(forall|k: int| p < k < after.len() ==> #[trigger] after[k] == before[k - 1]);
            assert forall|q1: int, qq: int| 0 <= q1 < qq < after.len() implies #[trigger] id_le()(
                after[q1],
                after[qq],
            ) by {
                if qq < p {
                    lemma_sorted_pair(before, q1, qq);
                } else if qq == p {
                    assert(lex_le(before[q1], iv[i as int]));
                } else if q1 < p {
                    if q1 < qq - 1 {
                        lemma_sorted_pair(before, q1, qq - 1);
                    } else {
                        crate::text::lemma_lex_le_refl(before[q1]);
                    }
                } else if q1 == p {
                    assert(lex_le(iv[i as int], before[p as int]));
                    if qq - 1 > p {
                        lemma_sorted_pair(before, p as int, qq - 1);
                        crate::text::lemma_lex_le_trans(
                            iv[i as int],
                            before[p as int],
                            before[qq - 1],
                        );
                    }
                } else {
                    lemma_sorted_pair(before, q1 - 1, qq - 1);
                }
            }
            assert forall|id: Seq<char>| after.to_set().contains(id) implies iv.take(
                i + 1,
            ).to_set().contains(id) by {
                let k = choose|k: int| 0 <= k < after.len() && after[k] == id;
                if k == p {
                    assert(iv.take(i + 1)[i as int] == id);
                } else {
                    let kk = if k < p {
                        k
                    } else {
                        k - 1
                    };
                    assert(before[kk] == id);
                    assert(before.to_set().contains(id));
                    let b = choose|b: int|
                        0 <= b < iv.take(i as int).len() && #[trigger] iv.take(i as int)[b] == id;
                    assert(iv.take(i + 1)[b] == id);
                }
            }
            assert forall|id: Seq<char>| iv.take(i + 1).to_set().contains(id) implies
                after.to_set().contains(id) by {
                let b = choose|b: int|
                    0 <= b < iv.take(i + 1).len() && #[trigger] iv.take(i + 1)[b] == id;
                if b == i {
                    assert(after[p as int] == id);
                } else {
                    assert(iv.take(i as int)[b] == id);
                    assert(before.to_set().contains(id));
                    let q3 = choose|q3: int| 0 <= q3 < before.len() && before[q3] == id;
                    if q3 < p {
                        assert(after[q3] == id);
                    } else {
                        assert(after[q3 + 1] == id);
                    }
                }
            }
            assert(piece_views(out@).to_set() =~= iv.take(i + 1).to_set());
        }
    }
    proof {
        assert(iv.take(n as int) =~= iv);
    }
    out
}

/// Drops adjacent duplicates from a sorted id list; the result is sorted,
/// duplicate-free, and holds the same ids.
fn dedup_sorted_ids(ids: Vec<String>) -> (r: Vec<String>)
    requires
        sorted_by(piece_views(ids@), id_le()),
    ensures
        sorted_by(piece_views(r@), id_le()),
        piece_views(r@).no_duplicates(),
        piece_views(r@).to_set() == piece_views(ids@).to_set(),
{
    let ghost iv = piece_views(ids@);
    let n: usize = ids.len();
    let mut out: Vec<String> = Vec::new();
    proof {
        lemma_piece_views(ids@);
        lemma_piece_views(out@);
    }
    let mut i: usize = 0;
    while i < n
        invariant
            i <= n,
            n == ids@.len(),
            iv == piece_views(ids@),
            sorted_by(iv, id_le()),
            sorted_by(piece_views(out@), id_le()),
            piece_views(out@).no_duplicates(),
            piece_views(out@).to_set() =~= iv.take(i as int).to_set(),
            forall|p: int| #![trigger piece_views(out@)[p]]
                0 <= p < piece_views(out@).len() ==> exists|k: int|
                    0 <= k < i && piece_views(out@)[p] == #[trigger] iv[k],
            i > 0 ==> piece_views(out@).len() > 0 && piece_views(out@).last() == iv[i - 1],
        decreases n - i,
    {
        let ghost before_vec = out@;
        let ghost before = piece_views(out@);
        proof {
            lemma_piece_views(before_vec);
            lemma_piece_views(ids@);
        }
        let keep: bool = if out.len() == 0 {
            true
        } else {
            let last_idx: usize = out.len() - 1;
            !(out[last_idx] == ids[i])
        };
        proof {
            assert(ids@[i as int]@ == iv[i as int]);
            if out@.len() > 0 {
                assert(out@[out@.len() - 1]@ == before.last());
            }
        }
        if keep {
            out.push(ids[i].clone());
            proof {
                lemma_piece_views_push(before_vec, ids@[i as int]);
                let after = piece_views(out@);
                assert(after =~= before.push(iv[i as int]));
                assert(forall|p: int| 0 <= p < before.len() ==> #[trigger] after[p] == before[p]);
                // the new id differs from everything already kept
                assert forall|p: int| 0 <= p < before.len() implies after[p] != iv[i as int] by {
                    let k = choose|k: int| 0 <= k < i && before[p] == #[trigger] iv[k];
                    if before[p] == iv[i as int] {
                        if k < i - 1 {
                            lemma_sorted_pair(iv, k, i - 1);
                            lemma_sorted_pair(iv, i - 1, i as int);
                            assert(lex_le(iv[i as int], iv[i - 1]));
                            lemma_lex_le_antisym(iv[i as int], iv[i - 1]);
                            assert(before[p] == iv[i - 1]);
                            assert(before[p] == before.last());
                        } else {
                            assert(before[p] == iv[i - 1]);
                            assert(before[p] == before.last());
                        }
                        assert(before[p] != before.last());
                    }
                }
                assert(after.no_duplicates()) by {
                    assert(forall|p1: int, p2: int|
                        0 <= p1 < p2 < after.len() ==> #[trigger] after[p1] != #[trigger] after[p2]);
                }
                assert forall|q1: int, q2: int|
                    0 <= q1 < q2 < after.len() implies #[trigger] id_le()(after[q1], after[q2]) by {
                    if q2 == after.len() - 1 {
                        let k = choose|k: int| 0 <= k < i && before[q1] == #[trigger] iv[k];
                        if k < i {
                            lemma_sorted_pair(iv, k, i as int);
                        }
                    } else {
                        lemma_sorted_pair(before, q1, q2);
                    }
                }
                assert forall|p: int| #![trigger after[p]] 0 <= p < after.len() implies exists|
                    k: int,
                |
                    0 <= k < i + 1 && after[p] == #[trigger] iv[k] by {
                    if p < before.len() {
                        let k = choose|k: int| 0 <= k < i && before[p] == #[trigger] iv[k];
                        assert(after[p] == iv[k]);
                    } else {
                        assert(after[p] == iv[i as int]);
                    }
                }
                assert forall|id: Seq<char>| iv.take(i + 1).to_set().contains(id) implies
                    after.to_set().contains(id) by {
                    let b = choose|b: int|
                        0 <= b < iv.take(i + 1).len() && #[trigger] iv.take(i + 1)[b] == id;
                    if b == i {
                        assert(after[after.len() - 1] == id);
                    } else {
                        assert(iv.take(i as int)[b] == id);
                        assert(before.to_set().contains(id));
                        let q = choose|q: int| 0 <= q < before.len() && #[trigger] before[q] == id;
                        assert(after[q] == id);
                    }
                }
                assert forall|id: Seq<char>| after.to_set().contains(id) implies iv.take(
                    i + 1,
                ).to_set().contains(id) by {
                    let q = choose|q: int| 0 <= q < after.len() && #[trigger] after[q] == id;
                    if q == after.len() - 1 {
                        assert(iv.take(i + 1)[i as int] == id);
                    } else {
                        assert(before.to_set().contains(id));
                        let b = choose|b: int|
                            0 <= b < iv.take(i as int).len() && #[trigger] iv.take(i as int)[b]
                                == id;
                        assert(iv.take(i + 1)[b] == id);
                    }
                }
                assert(after.to_set() =~= iv.take(i + 1).to_set());
            }
        } else {
            proof {
                assert(before.last() == iv[i - 1]);
                assert(iv[i - 1] == iv[i as int]);
                assert(iv.take(i + 1) =~= iv.take(i as int).push(iv[i as int]));
                assert(before.to_set().contains(iv[i as int])) by {
                    assert(before[before.len() - 1] == iv[i as int]);
                }
                assert forall|id: Seq<char>| iv.take(i + 1).to_set().contains(id) implies
                    before.to_set().contains(id) by {
                    let b = choose|b: int|
                        0 <= b < iv.take(i + 1).len() && #[trigger] iv.take(i + 1)[b] == id;
                    if b == i {
                        assert(before[before.len() - 1] == id);
                    } else {
                        assert(iv.take(i as int)[b] == id);
                    }
                }
                assert forall|id: Seq<char>| before.to_set().contains(id) implies iv.take(
                    i + 1,
                ).to_set().contains(id) by {
                    let q = choose|q: int| 0 <= q < before.len() && #[trigger] before[q] == id;
                    let b = choose|b: int|
                        0 <= b < iv.take(i as int).len() && #[trigger] iv.take(i as int)[b] == id;
                    assert(iv.take(i + 1)[b] == id);
                }
                assert(before.to_set() =~= iv.take(i + 1).to_set());
                assert forall|p: int| #![trigger before[p]] 0 <= p < before.len() implies exists|
                    k: int,
                |
                    0 <= k < i + 1 && before[p] == #[trigger] iv[k] by {
                    let k = choose|k: int| 0 <= k < i && before[p] == #[trigger] iv[k];
                    assert(before[p] == iv[k]);
                }
            }
        }
        proof {
            lemma_piece_views(out@);
            lemma_piece_views(ids@);
        }
        i = i + 1;
    }
    proof {
        assert(iv.take(n as int) =~= iv);
    }
    out
}

/// The augmenter: the static keyword table and the catalog it resolves
/// against.
pub struct KeywordAugmenter {
    pub rules: Vec<KeywordRule>,
    pub catalog: MitigationCatalog,
}

impl KeywordAugmenter {
    /// The views of this augmenter's rule table.
    pub open spec fn rules_view(&self) -> Seq<KeywordRuleView> {
        piece_rule_views(self.rules@)
    }

    pub fn new(rules: Vec<KeywordRule>, catalog: MitigationCatalog) -> (r: Self)
        ensures
            r.rules_view() == piece_rule_views(rules@),
            r.catalog@ == catalog@,
    {
        KeywordAugmenter { rules, catalog }
    }

    /// Selects the mitigation records for a prompt: its tokens (or the
    /// explicit keywords, when given) are looked up in the table, and the
    /// ids found come back resolved, in ascending id order, without
    /// duplicates.  Unknown tokens and unresolvable ids contribute nothing;
    /// an empty selection is valid.
    #[verifier::rlimit(100)]
    pub fn select(&self, prompt: &str, explicit_keywords: Option<&Vec<String>>) -> (r:
        MitreMitigations)
        ensures
            ({
                let toks = match explicit_keywords {
                    Some(ks) => piece_views(ks@),
                    None => tokens_of(prompt@),
                };
                let sel = Seq::new(r@.len(), |i: int| r@[i].id);
                &&& sorted_by(sel, id_le())
                &&& sel.no_duplicates()
                &&& sel.to_set() == selectable_ids(self.catalog@, self.rules_view(), toks.to_set())
                &&& forall|i: int|
                    0 <= i < r@.len() ==> catalog_lookup(self.catalog@, (#[trigger] r@[i]).id)
                        == Some(r@[i])
            }),
    {
        let tokens: Vec<String> = match explicit_keywords {
            Some(ks) => {
                let m: usize = ks.len();
                let mut copied: Vec<String> = Vec::new();
                for i in 0..m
                    invariant
                        m == ks@.len(),
                        piece_views(copied@) =~= piece_views(ks@).take(i as int),
                {
                    let ghost old_copied = copied@;
                    copied.push(ks[i].clone());
                    proof {
                        lemma_piece_views(ks@);
                        lemma_piece_views(old_copied);
                        lemma_piece_views_push(old_copied, ks@[i as int]);
                        assert(old_copied.len() == i);
                        assert(piece_views(copied@) =~= piece_views(ks@).take(i + 1));
                    }
                }
                proof {
                    assert(piece_views(copied@) =~= piece_views(ks@));
                }
                copied
            },
            None => tokenize(prompt),
        };
        let raw_ids: Vec<String> = collect_ids(&self.rules, &tokens);
        let sorted: Vec<String> = sort_ids(raw_ids);
        let unique: Vec<String> = dedup_sorted_ids(sorted);
        let ghost uv = piece_views(unique@);
        let n: usize = unique.len();
        let mut out: Vec<MitreMitigation> = Vec::new();
        proof {
            lemma_piece_views(unique@);
        }
        let mut i: usize = 0;
        while i < n
            invariant
                i <= n,
                n == unique@.len(),
                uv == piece_views(unique@),
                sorted_by(uv, id_le()),
                uv.no_duplicates(),
                forall|p: int|
                    0 <= p < out@.len() ==> catalog_lookup(
                        self.catalog@,
                        (#[trigger] out@[p]@).id,
                    ) == Some(out@[p]@),
                forall|p: int| #![trigger out@[p]]
                    0 <= p < out@.len() ==> exists|k: int|
                        0 <= k < i && out@[p]@.id == #[trigger] uv[k],
                forall|k: int|
                    0 <= k < i && catalog_lookup(self.catalog@, #[trigger] uv[k]) is Some
                        ==> exists|p: int| 0 <= p < out@.len() && uv[k] == (#[trigger] out@[p])@.id,
                sorted_by(Seq::new(out@.len(), |p: int| out@[p]@.id), id_le()),
                Seq::new(out@.len(), |p: int| out@[p]@.id).no_duplicates(),
            decreases n - i,
        {
            let ghost before = Seq::new(out@.len(), |p: int| out@[p]@.id);
            proof {
                assert(unique@[i as int]@ == uv[i as int]);
            }
            match self.catalog.find_by_id(unique[i].as_str()) {
                Some(found) => {
                    proof {
                        assert(catalog_lookup(self.catalog@, uv[i as int]) == Some(found@));
                        lemma_catalog_lookup_id(self.catalog@, uv[i as int]);
                        assert(found@.id == uv[i as int]);
                    }
                    let ghost out_before = out@;
                    out.push(found);
                    proof {
                        assert(forall|p: int|
                            0 <= p < out_before.len() ==> #[trigger] out@[p] == out_before[p]);
                        let after = Seq::new(out@.len(), |p: int| out@[p]@.id);
                        assert(after.len() == out@.len());
                        assert(forall|p: int|
                            0 <= p < out@.len() ==> #[trigger] after[p] == out@[p]@.id);
                        assert(before.len() == out_before.len());
                        assert(forall|p: int|
                            0 <= p < out_before.len() ==> #[trigger] before[p]
                                == out_before[p]@.id);
                        assert(after =~= before.push(uv[i as int]));
                        assert(forall|p: int|
                            0 <= p < before.len() ==> #[trigger] after[p] == before[p]);
                        assert forall|p: int| #![trigger out@[p]] 0 <= p < out@.len() implies
                            exists|k: int| 0 <= k < i + 1 && out@[p]@.id == #[trigger] uv[k] by {
                            if p < before.len() {
                                let k = choose|k: int|
                                    0 <= k < i && out_before[p]@.id == #[trigger] uv[k];
                                assert(out@[p]@.id == uv[k]);
                            } else {
                                assert(out@[p]@.id == uv[i as int]);
                            }
                        }
                        assert forall|k: int|
                            0 <= k < i + 1 && catalog_lookup(self.catalog@, #[trigger] uv[k])
                                is Some implies exists|p: int|
                            0 <= p < out@.len() && uv[k] == (#[trigger] out@[p])@.id by {
                            if k < i {
                                let p = choose|p: int|
                                    0 <= p < out_before.len() && uv[k] == (
                                    #[trigger] out_before[p])@.id;
                                assert(out@[p] == out_before[p]);
                                assert(uv[k] == out@[p]@.id);
                            } else {
                                assert(out@[out@.len() - 1]@.id == uv[i as int]);
                            }
                        }
                        assert forall|p: int| 0 <= p < before.len() implies after[p] != uv[i as int]
                        by {
                            let k = choose|k: int| 0 <= k < i && before[p] == #[trigger] uv[k];
                            assert(uv[k] != uv[i as int]);
                        }
                        assert(after.no_duplicates()) by {
                            assert(forall|p1: int, p2: int|
                                0 <= p1 < p2 < after.len() ==> #[trigger] after[p1]
                                    != #[trigger] after[p2]);
                        }
                        assert forall|q1: int, q2: int|
                            0 <= q1 < q2 < after.len() implies #[trigger] id_le()(
                            after[q1],
                            after[q2],
                        ) by {
                            if q2 == after.len() - 1 {
                                assert(after[q1] == before[q1]);
                                assert(before[q1] == out@[q1]@.id);
                                let k = choose|k: int| 0 <= k < i && before[q1] == #[trigger] uv[k];
                                lemma_sorted_pair(uv, k, i as int);
                            } else {
                                assert(id_le()(before[q1], before[q2]));
                            }
                        }
                    }
                },
                None => {
                    proof {
                        assert(catalog_lookup(self.catalog@, uv[i as int]) is None);
                        assert forall|p: int| #![trigger out@[p]] 0 <= p < out@.len() implies
                            exists|k: int| 0 <= k < i + 1 && out@[p]@.id == #[trigger] uv[k] by {
                            let k = choose|k: int| 0 <= k < i && out@[p]@.id == #[trigger] uv[k];
                            assert(out@[p]@.id == uv[k]);
                        }
                        assert forall|k: int|
                            0 <= k < i + 1 && catalog_lookup(self.catalog@, #[trigger] uv[k])
                                is Some implies exists|p: int|
                            0 <= p < out@.len() && uv[k] == (#[trigger] out@[p])@.id by {
                            if k < i {
                                let p = choose|p: int|
                                    0 <= p < out@.len() && uv[k] == (#[trigger] out@[p])@.id;
                                assert(uv[k] == out@[p]@.id);
                            }
                        }
                    }
                },
            }
            i = i + 1;
        }
        proof {
            let sel = Seq::new(out@.len(), |p: int| out@[p]@.id);
            let toks = match explicit_keywords {
                Some(ks) => piece_views(ks@),
                None => tokens_of(prompt@),
            };
            let want = selectable_ids(self.catalog@, self.rules_view(), toks.to_set());
            assert forall|id: Seq<char>| sel.to_set().contains(id) implies want.contains(id) by {
                let p = choose|p: int| 0 <= p < sel.len() && #[trigger] sel[p] == id;
                assert(out@[p]@.id == id);
                let k = choose|k: int| 0 <= k < n && out@[p]@.id == #[trigger] uv[k];
                assert(uv.to_set().contains(id)) by {
                    assert(uv[k] == id);
                }
                assert(catalog_lookup(self.catalog@, id) == Some(out@[p]@));
            }
            assert forall|id: Seq<char>| want.contains(id) implies sel.to_set().contains(id) by {
                assert(uv.to_set().contains(id));
                let k = choose|k: int| 0 <= k < uv.len() && #[trigger] uv[k] == id;
                assert(catalog_lookup(self.catalog@, uv[k]) is Some);
                let p = choose|p: int| 0 <= p < out@.len() && uv[k] == (#[trigger] out@[p])@.id;
                assert(sel[p] == id);
            }
            assert(sel.to_set() =~= want);
        }
        let result = MitreMitigations(out);
        proof {
            let sel = Seq::new(result.0@.len(), |p: int| result.0@[p]@.id);
            let rv = result@;
            assert(rv.len() == result.0@.len());
            assert(forall|i: int| 0 <= i < rv.len() ==> #[trigger] rv[i] == result.0@[i]@);
            let sel2 = Seq::new(rv.len(), |i: int| rv[i].id);
            assert(sel2.len() == rv.len());
            assert(forall|i: int| 0 <= i < rv.len() ==> #[trigger] sel2[i] == rv[i].id);
            assert(sel2 =~= sel);
        }
        result
    }
}

/// A record the catalog returns for an id carries that id.
pub proof fn lemma_catalog_lookup_id(cat: Seq<MitreMitigationView>, id: Seq<char>)
    requires
        catalog_lookup(cat, id) is Some,
    ensures
        catalog_lookup(cat, id)->0.id == id,
    decreases cat.len(),
{
    if cat.len() > 0 && cat[0].id != id {
        lemma_catalog_lookup_id(cat.drop_first(), id);
    }
}

/// Law: the selection is independent of token order.  Two selections whose
/// token sets agree have the same id list — both are sorted, duplicate-free
/// and hold exactly the resolvable ids of that set — and therefore the same
/// records.
pub proof fn law_select_order_independent(
    cat: Seq<MitreMitigationView>,
    rules: Seq<KeywordRuleView>,
    toks1: Set<Seq<char>>,
    toks2: Set<Seq<char>>,
    ids1: Seq<Seq<char>>,
    ids2: Seq<Seq<char>>,
)
    requires
        toks1 == toks2,
        sorted_by(ids1, id_le()),
        ids1.no_duplicates(),
        ids1.to_set() == selectable_ids(cat, rules, toks1),
        sorted_by(ids2, id_le()),
        ids2.no_duplicates(),
        ids2.to_set() == selectable_ids(cat, rules, toks2),
    ensures
        ids1 == ids2,
{
    lemma_sorted_nodup_unique(ids1, ids2);
}

/// Two sorted, duplicate-free id lists with the same underlying set are
/// equal.
pub proof fn lemma_sorted_nodup_unique(a: Seq<Seq<char>>, b: Seq<Seq<char>>)
    requires
        sorted_by(a, id_le()),
        a.no_duplicates(),
        sorted_by(b, id_le()),
        b.no_duplicates(),
        a.to_set() == b.to_set(),
    ensures
        a == b,
    decreases a.len(),
{
    if a.len() == 0 {
        if b.len() > 0 {
            assert(b.to_set().contains(b[0]));
            assert(a.to_set().contains(b[0]));
            assert(false);
        }
        assert(a =~= b);
    } else {
        assert(a.to_set().contains(a.last())) by {
            assert(a[a.len() - 1] == a.last());
        }
        assert(b.len() > 0) by {
            if b.len() == 0 {
                assert(b.to_set().contains(a.last()));
            }
        }
        // the last elements are the maxima, so they agree
        assert(b.to_set().contains(b.last())) by {
            assert(b[b.len() - 1] == b.last());
        }
        let ka = choose|k: int| 0 <= k < b.len() && b[k] == a.last();
        assert(lex_le(b[ka], b.last()) || ka == b.len() - 1) by {
            if ka < b.len() - 1 {
                assert(id_le()(b[ka], b[b.len() - 1]));
            }
        }
        let kb = choose|k: int| 0 <= k < a.len() && a[k] == b.last();
        assert(lex_le(a[kb], a.last()) || kb == a.len() - 1) by {
            if kb < a.len() - 1 {
                assert(id_le()(a[kb], a[a.len() - 1]));
            }
        }
        if ka == b.len() - 1 {
            assert(a.last() == b.last());
        } else if kb == a.len() - 1 {
            assert(a.last() == b.last());
        } else {
            lemma_lex_le_antisym(a.last(), b.last());
        }
        let a1 = a.drop_last();
        let b1 = b.drop_last();
        lemma_drop_last_set(a);
        lemma_drop_last_set(b);
        assert(a1.to_set() =~= b1.to_set()) by {
            assert(a1.to_set() == a.to_set().remove(a.last()));
            assert(b1.to_set() == b.to_set().remove(b.last()));
        }
        assert(sorted_by(a1, id_le())) by {
            assert(forall|i: int, j: int|
                0 <= i < j < a1.len() ==> id_le()(#[trigger] a1[i], #[trigger] a1[j]));
        }
        assert(sorted_by(b1, id_le())) by {
            assert(forall|i: int, j: int|
                0 <= i < j < b1.len() ==> id_le()(#[trigger] b1[i], #[trigger] b1[j]));
        }
        assert(a1.no_duplicates());
        assert(b1.no_duplicates());
        lemma_sorted_nodup_unique(a1, b1);
        assert(a =~= a1.push(a.last()));
        assert(b =~= b1.push(b.last()));
    }
}

/// Dropping the last element of a duplicate-free sequence removes exactly
/// that element from its set.
proof fn lemma_drop_last_set(a: Seq<Seq<char>>)
    requires
        a.len() > 0,
        a.no_duplicates(),
    ensures
        a.drop_last().to_set() == a.to_set().remove(a.last()),
{
    let a1 = a.drop_last();
    assert forall|x: Seq<char>| a1.to_set().contains(x) implies a.to_set().remove(
        a.last(),
    ).contains(x) by {
        let k = choose|k: int| 0 <= k < a1.len() && a1[k] == x;
        assert(a[k] == x);
        assert(a[k] != a[a.len() - 1]);
    }
    assert forall|x: Seq<char>| a.to_set().remove(a.last()).contains(x) implies
        a1.to_set().contains(x) by {
        let k = choose|k: int| 0 <= k < a.len() && a[k] == x;
        assert(x != a.last());
        assert(k < a.len() - 1) by {
            if k == a.len() - 1 {
                assert(a[k] == a.last());
            }
        }
        assert(a1[k] == x);
    }
    assert(a1.to_set() =~= a.to_set().remove(a.last()));
}

} // verus!
