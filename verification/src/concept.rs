//! Flat concept records: one ontology node each, independent of hierarchy.

use vstd::prelude::*;

verus! {

/// An external terminology reference attached to a concept.
#[derive(Debug)]
pub struct Coding {
    pub code: String,
    pub system: String,
    pub display: String,
    pub version: Option<String>,
}

/// Mathematical image of a [`Coding`]: every string as a sequence of
/// characters.
pub struct CodingView {
    pub code: Seq<char>,
    pub system: Seq<char>,
    pub display: Seq<char>,
    pub version: Option<Seq<char>>,
}

pub open spec fn opt_string_view(o: Option<String>) -> Option<Seq<char>> {
    match o {
        Some(s) => Some(s@),
        None => None,
    }
}

impl View for Coding {
    type V = CodingView;

    open spec fn view(&self) -> CodingView {
        CodingView {
            code: self.code@,
            system: self.system@,
            display: self.display@,
            version: opt_string_view(self.version),
        }
    }
}

impl Clone for Coding {
    fn clone(&self) -> (r: Self)
        ensures
            r == *self,
    {
        Coding {
            code: self.code.clone(),
            system: self.system.clone(),
            display: self.display.clone(),
            version: clone_opt_string(&self.version),
        }
    }
}

fn clone_opt_string(o: &Option<String>) -> (r: Option<String>)
    ensures
        r == *o,
{
    match o {
        Some(s) => Some(s.clone()),
        None => None,
    }
}

/// One ontology node, exactly as the store returns it.  `parent_id` being
/// absent marks a root of the canonical hierarchy; identifiers are unique
/// across the whole store.
#[derive(Debug)]
pub struct Concept {
    pub id: u128,
    pub display: String,
    pub parent_id: Option<u128>,
    pub module_id: u128,
    pub term_codes: Option<Vec<Coding>>,
    pub leaf: bool,
    pub time_restriction_allowed: Option<bool>,
    pub filter_type: Option<String>,
    pub selectable: bool,
    pub filter_options: Option<Vec<Coding>>,
    pub version: String,
}

/// Mathematical image of a [`Concept`].
pub struct ConceptView {
    pub id: u128,
    pub display: Seq<char>,
    pub parent_id: Option<u128>,
    pub module_id: u128,
    pub term_codes: Option<Seq<CodingView>>,
    pub leaf: bool,
    pub time_restriction_allowed: Option<bool>,
    pub filter_type: Option<Seq<char>>,
    pub selectable: bool,
    pub filter_options: Option<Seq<CodingView>>,
    pub version: Seq<char>,
}

pub open spec fn codings_view(s: Seq<Coding>) -> Seq<CodingView> {
    Seq::new(s.len(), |i: int| s[i]@)
}

pub open spec fn opt_codings_view(o: Option<Vec<Coding>>) -> Option<Seq<CodingView>> {
    match o {
        Some(v) => Some(codings_view(v@)),
        None => None,
    }
}

impl View for Concept {
    type V = ConceptView;

    open spec fn view(&self) -> ConceptView {
        ConceptView {
            id: self.id,
            display: self.display@,
            parent_id: self.parent_id,
            module_id: self.module_id,
            term_codes: opt_codings_view(self.term_codes),
            leaf: self.leaf,
            time_restriction_allowed: self.time_restriction_allowed,
            filter_type: opt_string_view(self.filter_type),
            selectable: self.selectable,
            filter_options: opt_codings_view(self.filter_options),
            version: self.version@,
        }
    }
}

/// Mathematical image of a whole record list.
pub open spec fn recs_view(s: Seq<Concept>) -> Seq<ConceptView> {
    Seq::new(s.len(), |i: int| s[i]@)
}

fn clone_codings(v: &Vec<Coding>) -> (r: Vec<Coding>)
    ensures
        r@ == v@,
{
    let mut r: Vec<Coding> = Vec::new();
    for i in 0..v.len()
        invariant
            r@ =~= v@.take(i as int),
    {
        r.push(v[i].clone());
        assert(r@ =~= v@.take(i + 1));
    }
    assert(r@ =~= v@);
    r
}

fn clone_opt_codings(o: &Option<Vec<Coding>>) -> (r: Option<Vec<Coding>>)
    ensures
        opt_codings_view(r) == opt_codings_view(*o),
{
    match o {
        Some(v) => Some(clone_codings(v)),
        None => None,
    }
}

impl Clone for Concept {
    fn clone(&self) -> (r: Self)
        ensures
            r@ == self@,
    {
        Concept {
            id: self.id,
            display: self.display.clone(),
            parent_id: self.parent_id,
            module_id: self.module_id,
            term_codes: clone_opt_codings(&self.term_codes),
            leaf: self.leaf,
            time_restriction_allowed: self.time_restriction_allowed,
            filter_type: clone_opt_string(&self.filter_type),
            selectable: self.selectable,
            filter_options: clone_opt_codings(&self.filter_options),
            version: self.version.clone(),
        }
    }
}

impl Default for Concept {
    /// A blank record: zero identifiers, empty strings, no optional parts,
    /// all flags off.
    fn default() -> (c: Self)
        ensures
            c.id == 0,
            c.display@ == Seq::<char>::empty(),
            c.parent_id is None,
            c.module_id == 0,
            c.term_codes is None,
            !c.leaf,
            c.time_restriction_allowed is None,
            c.filter_type is None,
            !c.selectable,
            c.filter_options is None,
            c.version@ == Seq::<char>::empty(),
    {
        Concept {
            id: 0,
            display: String::new(),
            parent_id: None,
            module_id: 0,
            term_codes: None,
            leaf: false,
            time_restriction_allowed: None,
            filter_type: None,
            selectable: false,
            filter_options: None,
            version: String::new(),
        }
    }
}

} // verus!
