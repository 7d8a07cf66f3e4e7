//! The decomposed form of one input domain line, as the external domain
//! decomposer hands it over: the raw line, the optional subdomain portion,
//! and the optional root domain (registrable domain plus public suffix).

use vstd::prelude::*;

verus! {

/// The mathematical view of a decomposed domain line.
pub ghost struct EntryView {
    /// The raw input line.
    pub line: Seq<char>,
    /// The dotted subdomain portion, absent when the domain has none.
    pub sub: Option<Seq<char>>,
    /// The root domain, absent when decomposition yielded none.
    pub root: Option<Seq<char>>,
}

/// One input domain line together with the result of decomposing it.
/// Decomposition itself is an external collaborator; the library receives
/// its outcome as plain values.
pub struct DomainEntry {
    /// The raw input line.
    pub line: String,
    /// The dotted subdomain portion, absent when the domain has none.
    pub sub: Option<String>,
    /// The root domain, absent when decomposition yielded none.
    pub root: Option<String>,
}

impl View for DomainEntry {
    type V = EntryView;

    open spec fn view(&self) -> EntryView {
        EntryView {
            line: self.line@,
            sub: match self.sub {
                Some(s) => Some(s@),
                None => None,
            },
            root: match self.root {
                Some(r) => Some(r@),
                None => None,
            },
        }
    }
}

/// The views of a sequence of entries.
pub open spec fn entry_views(es: Seq<DomainEntry>) -> Seq<EntryView> {
    es.map_values(|e: DomainEntry| e@)
}

/// A well-formed entry: where decomposition yields a subdomain it also
/// yields a non-empty root domain.
pub open spec fn wf_entry(e: EntryView) -> bool {
    e.sub is Some ==> (e.root is Some && e.root->0.len() > 0)
}

/// Whether every entry of the sequence is well formed.
pub open spec fn wf_entries(es: Seq<EntryView>) -> bool {
    forall|i: int| 0 <= i < es.len() ==> wf_entry(#[trigger] es[i])
}

} // verus!
