//! The locally mirrored annotation record and its mathematical view.
//!
//! An annotation is externally authored and cached verbatim: an opaque
//! unique `id`, free-text fields, an ordered tag list (treated as a set for
//! indexing), two timestamps, the exact texts of its highlighted quotes, and
//! whether it carries any selector payload (an annotation without one is a
//! page note).

use vstd::prelude::*;

use crate::utils::views_of;

verus! {

/// One remote-sourced record being mirrored locally.
#[verifier::ext_equal]
pub struct Annotation {
    /// opaque unique ID assigned by the remote source
    pub id: String,
    /// group the annotation lives in
    pub group: String,
    /// URI of the annotated document
    pub uri: String,
    /// the textual body of the annotation
    pub text: String,
    /// ordered tag list; duplicates and blanks are folded away by indexing
    pub tags: Vec<String>,
    /// creation time
    pub created: u64,
    /// last update time; non-decreasing across edits of one id
    pub updated: u64,
    /// exact texts of the highlighted quotes
    pub quotes: Vec<String>,
    /// whether the record carries any highlight/selector payload
    pub has_selectors: bool,
}

/// The view of an annotation: every field as a mathematical value.
#[verifier::ext_equal]
pub ghost struct AnnotationView {
    pub id: Seq<char>,
    pub group: Seq<char>,
    pub uri: Seq<char>,
    pub text: Seq<char>,
    pub tags: Seq<Seq<char>>,
    pub created: u64,
    pub updated: u64,
    pub quotes: Seq<Seq<char>>,
    pub has_selectors: bool,
}

impl View for Annotation {
    type V = AnnotationView;

    open spec fn view(&self) -> AnnotationView {
        AnnotationView {
            id: self.id@,
            group: self.group@,
            uri: self.uri@,
            text: self.text@,
            tags: views_of(self.tags@),
            created: self.created,
            updated: self.updated,
            quotes: views_of(self.quotes@),
            has_selectors: self.has_selectors,
        }
    }
}

/// The views of a sequence of annotations.
pub open spec fn ann_views(v: Seq<Annotation>) -> Seq<AnnotationView> {
    v.map_values(|a: Annotation| a@)
}

/// Clones a vector of strings exactly.
pub fn clone_strings(v: &Vec<String>) -> (r: Vec<String>)
    ensures
        r@ == v@,
{
    let mut out: Vec<String> = Vec::new();
    let mut i: usize = 0;
    while i < v.len()
        invariant
            0 <= i <= v@.len(),
            out@ == v@.take(i as int),
        decreases v@.len() - i,
    {
        out.push(v[i].clone());
        proof {
            assert(v@.take(i + 1) =~= v@.take(i as int).push(v@[i as int]));
        }
        i = i + 1;
    }
    proof {
        assert(v@.take(v@.len() as int) =~= v@);
    }
    out
}

impl Clone for Annotation {
    /// A copy with the same view.
    fn clone(&self) -> (r: Self)
        ensures
            r@ == self@,
    {
        let r = Annotation {
            id: self.id.clone(),
            group: self.group.clone(),
            uri: self.uri.clone(),
            text: self.text.clone(),
            tags: clone_strings(&self.tags),
            created: self.created,
            updated: self.updated,
            quotes: clone_strings(&self.quotes),
            has_selectors: self.has_selectors,
        };
        proof {
            assert(r@ =~= self@);
        }
        r
    }
}

} // verus!
