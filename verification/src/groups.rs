//! Threat-group reference data: named actor records with their aliases,
//! and the name lookup the templated prompt builder relies on.

use vstd::prelude::*;

verus! {

use crate::text::str_eq;

/// A threat group: a named actor with a description and known aliases.
#[derive(Clone, Debug)]
pub struct Actor {
    pub id: String,
    pub name: String,
    pub description: String,
    pub url: String,
    pub associated_names: Vec<String>,
}

/// The mathematical value of an [`Actor`].
pub struct ActorView {
    pub id: Seq<char>,
    pub name: Seq<char>,
    pub description: Seq<char>,
    pub url: Seq<char>,
    pub associated_names: Seq<Seq<char>>,
}

impl View for Actor {
    type V = ActorView;

    open spec fn view(&self) -> ActorView {
        ActorView {
            id: self.id@,
            name: self.name@,
            description: self.description@,
            url: self.url@,
            associated_names: Seq::new(
                self.associated_names@.len(),
                |i: int| self.associated_names@[i]@,
            ),
        }
    }
}

/// The first group in `gs` bearing the given name.
pub open spec fn group_lookup(gs: Seq<ActorView>, name: Seq<char>) -> Option<ActorView>
    decreases gs.len(),
{
    if gs.len() == 0 {
        None
    } else if gs[0].name == name {
        Some(gs[0])
    } else {
        group_lookup(gs.drop_first(), name)
    }
}

/// Scans a group table for the first record with the given name.
pub fn find_group_by_name<'a>(groups: &'a Vec<Actor>, name: &str) -> (r: Option<&'a Actor>)
    ensures
        match r {
            Some(g) => group_lookup(Seq::new(groups@.len(), |i: int| groups@[i]@), name@)
                == Some(g@),
            None => group_lookup(
                Seq::new(groups@.len(), |i: int| groups@[i]@),
                name@,
            ) is None,
        },
{
    let ghost gv = Seq::new(groups@.len(), |i: int| groups@[i]@);
    let n: usize = groups.len();
    proof {
        assert(gv.len() == n);
        assert(gv.skip(0) =~= gv);
    }
    for i in 0..n
        invariant
            n == groups@.len(),
            gv == Seq::new(groups@.len(), |j: int| groups@[j]@),
            gv.len() == n,
            group_lookup(gv, name@) == group_lookup(gv.skip(i as int), name@),
    {
        proof {
            assert(gv.skip(i as int)[0] == gv[i as int]);
            assert(gv[i as int] == groups@[i as int]@);
            assert(gv.skip(i as int).drop_first() =~= gv.skip(i + 1));
        }
        if str_eq(groups[i].name.as_str(), name) {
            return Some(&groups[i]);
        }
    }
    None
}

/// Whether a text mentions the group: its name occurs in the text, or one
/// of its aliases does.
pub open spec fn mentioned_spec(g: ActorView, text: Seq<char>) -> bool {
    contains_spec(text, g.name) || exists|i: int|
        0 <= i < g.associated_names.len() && contains_spec(text, #[trigger] g.associated_names[i])
}

/// Whether `text` contains the group's name or any of its aliases; this is
/// how a free-text question is matched to a known group.
pub fn group_mentioned(group: &Actor, text: &str) -> (r: bool)
    ensures
        r == mentioned_spec(group@, text@),
{
    if contains_text(text, group.name.as_str()) {
        return true;
    }
    let n: usize = group.associated_names.len();
    for i in 0..n
        invariant
            n == group.associated_names@.len(),
            !contains_spec(text@, group@.name),
            forall|j: int|
                0 <= j < i ==> !contains_spec(text@, #[trigger] group@.associated_names[j]),
    {
        proof {
            assert(group@.associated_names[i as int] == group.associated_names@[i as int]@);
        }
        if contains_text(text, group.associated_names[i].as_str()) {
            return true;
        }
    }
    false
}

/// Whether `needle` occurs in `haystack` as a contiguous run.
pub open spec fn contains_spec(haystack: Seq<char>, needle: Seq<char>) -> bool {
    exists|i: int|
        0 <= i <= haystack.len() - needle.len() && #[trigger] haystack.subrange(
            i,
            i + needle.len(),
        ) == needle
}

/// Finds whether `needle` occurs anywhere in `haystack`.
pub fn contains_text(haystack: &str, needle: &str) -> (r: bool)
    ensures
        r == contains_spec(haystack@, needle@),
{
    let hs: Vec<char> = crate::text::str_to_chars(haystack);
    let nd: Vec<char> = crate::text::str_to_chars(needle);
    let n: usize = hs.len();
    let m: usize = nd.len();
    if m > n {
        proof {
            assert(!contains_spec(haystack@, needle@));
        }
        return false;
    }
    if m == 0 {
        proof {
            assert(haystack@.subrange(0, 0 + needle@.len() as int) =~= needle@);
            assert(contains_spec(haystack@, needle@));
        }
        return true;
    }
    let mut i: usize = 0;
    while i <= n - m
        invariant
            0 < m <= n,
            n == hs@.len(),
            m == nd@.len(),
            hs@ == haystack@,
            nd@ == needle@,
            i <= n - m + 1,
            forall|j: int| 0 <= j < i ==> #[trigger] hs@.subrange(j, j + m) != nd@,
        decreases n - i,
    {
        if crate::assemble::match_at(&hs, i, &nd) {
            proof {
                assert(contains_spec(haystack@, needle@));
            }
            return true;
        }
        i = i + 1;
    }
    proof {
        assert(!contains_spec(haystack@, needle@));
    }
    false
}

} // verus!
