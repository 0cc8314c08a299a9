//! The mitigation catalog: a static, read-only table of countermeasure
//! records, keyed by id, together with the prompt-ready rendering of a
//! selection of records.

use vstd::prelude::*;

verus! {

use vstd::string::StringExecFns;
use crate::text::str_eq;

/// A static reference entry describing a countermeasure, keyed by `id`.
#[derive(Clone, Debug)]
pub struct MitreMitigation {
    pub id: String,
    pub name: String,
    pub description: String,
    pub url: String,
}

/// The mathematical value of a [`MitreMitigation`]: its four fields as
/// character sequences.
pub struct MitreMitigationView {
    pub id: Seq<char>,
    pub name: Seq<char>,
    pub description: Seq<char>,
    pub url: Seq<char>,
}

impl View for MitreMitigation {
    type V = MitreMitigationView;

    open spec fn view(&self) -> MitreMitigationView {
        MitreMitigationView {
            id: self.id@,
            name: self.name@,
            description: self.description@,
            url: self.url@,
        }
    }
}

impl MitreMitigation {
    pub fn new(id: String, name: String, description: String, url: String) -> (r: Self)
        ensures
            r@.id == id@,
            r@.name == name@,
            r@.description == description@,
            r@.url == url@,
    {
        MitreMitigation { id, name, description, url }
    }

    /// A field-for-field copy whose value Verus can track (the derived
    /// `Clone` says nothing about the result).
    pub fn duplicate(&self) -> (r: Self)
        ensures
            r@ == self@,
    {
        MitreMitigation {
            id: self.id.clone(),
            name: self.name.clone(),
            description: self.description.clone(),
            url: self.url.clone(),
        }
    }
}

/// The line describing one mitigation inside an assembled prompt.
pub open spec fn mitigation_line(m: MitreMitigationView) -> Seq<char> {
    "-name: "@ + m.name + ", description: "@ + m.description + "\n  url: "@ + m.url
}

/// The mitigation listing: one line per record, joined by newlines.
pub open spec fn mitigations_text(ms: Seq<MitreMitigationView>) -> Seq<char>
    decreases ms.len(),
{
    if ms.len() == 0 {
        Seq::<char>::empty()
    } else if ms.len() == 1 {
        mitigation_line(ms[0])
    } else {
        mitigations_text(ms.drop_last()) + "\n"@ + mitigation_line(ms.last())
    }
}

/// An ordered selection of mitigation records.
#[derive(Clone, Debug)]
pub struct MitreMitigations(pub Vec<MitreMitigation>);

impl View for MitreMitigations {
    type V = Seq<MitreMitigationView>;

    open spec fn view(&self) -> Seq<MitreMitigationView> {
        Seq::new(self.0@.len(), |i: int| self.0@[i]@)
    }
}

impl MitreMitigations {
    /// Renders the selection for inclusion in a prompt, one record per line.
    pub fn format_mitigations(&self) -> (r: String)
        ensures
            r@ == mitigations_text(self@),
    {
        let mut out = String::new();
        let n: usize = self.0.len();
        proof {
            assert(self@.take(0) =~= Seq::<MitreMitigationView>::empty());
        }
        for i in 0..n
            invariant
                n == self.0@.len(),
                out@ == mitigations_text(self@.take(i as int)),
        {
            if i > 0 {
                out.append("\n");
            }
            let m = &self.0[i];
            out.append("-name: ");
            out.append(m.name.as_str());
            out.append(", description: ");
            out.append(m.description.as_str());
            out.append("\n  url: ");
            out.append(m.url.as_str());
            proof {
                let t = self@.take(i + 1);
                assert(t.last() == self@[i as int]);
                assert(t.drop_last() =~= self@.take(i as int));
                if i == 0 {
                    assert(t.len() == 1);
                }
            }
        }
        proof {
            assert(self@.take(n as int) =~= self@);
        }
        out
    }
}

/// The in-memory mitigation catalog, immutable after startup.
#[derive(Clone, Debug)]
pub struct MitigationCatalog {
    pub records: Vec<MitreMitigation>,
}

/// The first record in `rs` whose id is `id`.
pub open spec fn catalog_lookup(rs: Seq<MitreMitigationView>, id: Seq<char>) -> Option<
    MitreMitigationView,
>
    decreases rs.len(),
{
    if rs.len() == 0 {
        None
    } else if rs[0].id == id {
        Some(rs[0])
    } else {
        catalog_lookup(rs.drop_first(), id)
    }
}

impl View for MitigationCatalog {
    type V = Seq<MitreMitigationView>;

    open spec fn view(&self) -> Seq<MitreMitigationView> {
        Seq::new(self.records@.len(), |i: int| self.records@[i]@)
    }
}

impl MitigationCatalog {
    /// Wraps an already-loaded record table; the table is never mutated
    /// afterwards.
    pub fn new(records: Vec<MitreMitigation>) -> (r: Self)
        ensures
            r@ == Seq::new(records@.len(), |i: int| records@[i]@),
    {
        MitigationCatalog { records }
    }

    /// Scans the table for the first record with the given id.
    pub fn find_by_id(&self, id: &str) -> (r: Option<MitreMitigation>)
        ensures
            match r {
                Some(m) => catalog_lookup(self@, id@) == Some(m@),
                None => catalog_lookup(self@, id@) is None,
            },
    {
        let n: usize = self.records.len();
        proof {
            assert(self@.skip(0) =~= self@);
        }
        for i in 0..n
            invariant
                n == self.records@.len(),
                self@.len() == n,
                catalog_lookup(self@, id@) == catalog_lookup(self@.skip(i as int), id@),
        {
            proof {
                assert(self@.skip(i as int)[0] == self@[i as int]);
                assert(self@.skip(i as int).drop_first() =~= self@.skip(i + 1));
            }
            if str_eq(self.records[i].id.as_str(), id) {
                return Some(self.records[i].duplicate());
            }
        }
        None
    }
}

} // verus!
