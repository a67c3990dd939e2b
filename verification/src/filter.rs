//! The filter engine: a declarative, immutable filter specification and its
//! evaluation as a pure predicate over one annotation, plus the full-scan
//! query over the mirror, sorted ascending by creation time.

use vstd::prelude::*;
use vstd::multiset::Multiset;

use crate::annotation::ann_views;
use crate::annotation::Annotation;
use crate::annotation::AnnotationView;
use crate::codec::dec_ann;
use crate::database::Gooseberry;
use crate::errors::Apologize;
use crate::utils::contains_pattern;
use crate::utils::contains_string;
use crate::utils::is_substring;
use crate::utils::join_seq;
use crate::utils::join_strings;
use crate::utils::views_of;

verus! {

/// A declarative filter over annotations, constructed once per query.
pub struct Filters {
    /// only annotations created (or updated) at or after this time
    pub from: Option<u64>,
    /// only annotations created (or updated) strictly before this time
    pub before: Option<u64>,
    /// compare the update time instead of the creation time
    pub include_updated: bool,
    /// only annotations with this pattern in their URI
    pub uri: String,
    /// only annotations with this pattern in quote, tags, text or URI
    pub any: String,
    /// only annotations with ANY of these tags (ALL with `and`)
    pub tags: Vec<String>,
    /// only annotations without ANY of these tags
    pub exclude_tags: Vec<String>,
    /// only annotations with this pattern inside the quoted text
    pub quote: String,
    /// only annotations with this pattern in their textual body
    pub text: String,
    /// keep annotations NOT matching the other criteria
    pub not: bool,
    /// with `tags`: require ALL of the given tags
    pub and: bool,
    /// only page notes (no selector payload)
    pub page: bool,
    /// only in-document annotations (some selector payload)
    pub annotation: bool,
}

/// The view of a filter: every field as a mathematical value.
pub ghost struct FiltersView {
    pub from: Option<u64>,
    pub before: Option<u64>,
    pub include_updated: bool,
    pub uri: Seq<char>,
    pub any: Seq<char>,
    pub tags: Seq<Seq<char>>,
    pub exclude_tags: Seq<Seq<char>>,
    pub quote: Seq<char>,
    pub text: Seq<char>,
    pub not: bool,
    pub and: bool,
    pub page: bool,
    pub annotation: bool,
}

impl View for Filters {
    type V = FiltersView;

    open spec fn view(&self) -> FiltersView {
        FiltersView {
            from: self.from,
            before: self.before,
            include_updated: self.include_updated,
            uri: self.uri@,
            any: self.any@,
            tags: views_of(self.tags@),
            exclude_tags: views_of(self.exclude_tags@),
            quote: self.quote@,
            text: self.text@,
            not: self.not,
            and: self.and,
            page: self.page,
            annotation: self.annotation,
        }
    }
}

/// The filter that matches everything.
pub open spec fn default_filters() -> FiltersView {
    FiltersView {
        from: None,
        before: None,
        include_updated: false,
        uri: Seq::empty(),
        any: Seq::empty(),
        tags: Seq::empty(),
        exclude_tags: Seq::empty(),
        quote: Seq::empty(),
        text: Seq::empty(),
        not: false,
        and: false,
        page: false,
        annotation: false,
    }
}

impl Default for Filters {
    /// No restriction at all.
    fn default() -> (r: Filters)
        ensures
            r@ == default_filters(),
    {
        let r = Filters {
            from: None,
            before: None,
            include_updated: false,
            uri: String::new(),
            any: String::new(),
            tags: Vec::new(),
            exclude_tags: Vec::new(),
            quote: String::new(),
            text: String::new(),
            not: false,
            and: false,
            page: false,
            annotation: false,
        };
        proof {
            assert(views_of(r.tags@) =~= Seq::<Seq<char>>::empty());
            assert(views_of(r.exclude_tags@) =~= Seq::<Seq<char>>::empty());
        }
        r
    }
}

/// The time the range predicates compare.
pub open spec fn time_of(av: AnnotationView, include_updated: bool) -> u64 {
    if include_updated {
        av.updated
    } else {
        av.created
    }
}

/// Whether the "any" pattern occurs in the joined quotes, a tag, the text
/// or the URI.
pub open spec fn any_matches(av: AnnotationView, pat: Seq<char>) -> bool {
    ||| is_substring(pat, join_seq(av.quotes, ' '))
    ||| exists|k: int| 0 <= k < av.tags.len() && is_substring(pat, #[trigger] av.tags[k])
    ||| is_substring(pat, av.text)
    ||| is_substring(pat, av.uri)
}

/// The tag predicate: ANY-of by default, ALL-of with the `and` flag.
pub open spec fn tag_pred(tags: Seq<Seq<char>>, query: Seq<Seq<char>>, all: bool) -> bool {
    if all {
        forall|k: int| 0 <= k < query.len() ==> tags.contains(#[trigger] query[k])
    } else {
        exists|k: int| 0 <= k < tags.len() && query.contains(#[trigger] tags[k])
    }
}

/// The conjunction of every positive criterion of the filter.
pub open spec fn matches_filters(av: AnnotationView, f: FiltersView) -> bool {
    &&& (f.page ==> !av.has_selectors)
    &&& (f.annotation ==> av.has_selectors)
    &&& (f.from matches Some(d) ==> time_of(av, f.include_updated) >= d)
    &&& (f.before matches Some(d) ==> time_of(av, f.include_updated) < d)
    &&& (f.uri.len() > 0 ==> is_substring(f.uri, av.uri))
    &&& (f.any.len() > 0 ==> any_matches(av, f.any))
    &&& (f.tags.len() > 0 ==> tag_pred(av.tags, f.tags, f.and))
    &&& !(exists|k: int|
        0 <= k < av.tags.len() && f.exclude_tags.contains(#[trigger] av.tags[k]))
    &&& (f.quote.len() > 0 ==> is_substring(f.quote, join_seq(av.quotes, ' ')))
    &&& (f.text.len() > 0 ==> is_substring(f.text, av.text))
}

/// Whether the annotation carries one of the configured ignore tags.
pub open spec fn carries_ignored_tag(av: AnnotationView, ignore: Seq<Seq<char>>) -> bool {
    exists|k: int| 0 <= k < av.tags.len() && ignore.contains(#[trigger] av.tags[k])
}

/// What a query keeps: the conjunction, or its failures when the top-level
/// negation flag is set. NOT applies to the whole composed predicate, never
/// per field.
pub open spec fn keep_filter(av: AnnotationView, f: FiltersView) -> bool {
    if f.not {
        !matches_filters(av, f)
    } else {
        matches_filters(av, f)
    }
}

/// Whether some of the annotation's tags is in the query list.
fn tags_any(tags: &Vec<String>, query: &Vec<String>) -> (r: bool)
    ensures
        r == exists|k: int|
            0 <= k < views_of(tags@).len() && query@.map_values(|s: String| s@).contains(
                #[trigger] views_of(tags@)[k],
            ),
{
    let mut i: usize = 0;
    while i < tags.len()
        invariant
            0 <= i <= tags@.len(),
            forall|k: int| 0 <= k < i ==> !views_of(query@).contains(#[trigger] views_of(tags@)[k]),
        decreases tags@.len() - i,
    {
        if contains_string(query, &tags[i]) {
            proof {
                assert(views_of(tags@)[i as int] == tags@[i as int]@);
            }
            return true;
        }
        i = i + 1;
    }
    false
}

/// Whether every query tag is among the annotation's tags.
fn tags_all(tags: &Vec<String>, query: &Vec<String>) -> (r: bool)
    ensures
        r == forall|k: int|
            0 <= k < views_of(query@).len() ==> views_of(tags@).contains(
                #[trigger] views_of(query@)[k],
            ),
{
    let mut i: usize = 0;
    while i < query.len()
        invariant
            0 <= i <= query@.len(),
            forall|k: int| 0 <= k < i ==> views_of(tags@).contains(#[trigger] views_of(query@)[k]),
        decreases query@.len() - i,
    {
        if !contains_string(tags, &query[i]) {
            proof {
                assert(views_of(query@)[i as int] == query@[i as int]@);
            }
            return false;
        }
        i = i + 1;
    }
    true
}

/// Whether the pattern occurs inside some tag.
fn tags_substring(tags: &Vec<String>, pat: &String) -> (r: bool)
    ensures
        r == exists|k: int|
            0 <= k < views_of(tags@).len() && is_substring(pat@, #[trigger] views_of(tags@)[k]),
{
    let mut i: usize = 0;
    while i < tags.len()
        invariant
            0 <= i <= tags@.len(),
            forall|k: int| 0 <= k < i ==> !is_substring(pat@, #[trigger] views_of(tags@)[k]),
        decreases tags@.len() - i,
    {
        if contains_pattern(tags[i].as_str(), pat.as_str()) {
            proof {
                assert(views_of(tags@)[i as int] == tags@[i as int]@);
            }
            return true;
        }
        i = i + 1;
    }
    false
}

impl Gooseberry {
    /// Evaluates the filter as a pure predicate over one annotation: the
    /// conjunction of every positive criterion (the `not` flag is applied
    /// by the callers, over the whole conjunction).
    #[verifier::rlimit(60)]
    #[verifier::spinoff_prover]
    pub fn filter_annotation(&self, annotation: &Annotation, filters: &Filters) -> (r: bool)
        ensures
            r == matches_filters(annotation@, filters@),
    {
        // Check if page note
        if filters.page && annotation.has_selectors {
            return false;
        }
        // Check if annotation
        if filters.annotation && !annotation.has_selectors {
            return false;
        }
        let when = if filters.include_updated {
            annotation.updated
        } else {
            annotation.created
        };
        // Check if date >= from date
        if let Some(from) = filters.from {
            if when < from {
                return false;
            }
        }
        // Check if date < before date: the upper bound is exclusive
        if let Some(before) = filters.before {
            if when >= before {
                return false;
            }
        }
        // Check if URI has pattern
        if !filters.uri.as_str().is_empty() && !contains_pattern(
            annotation.uri.as_str(),
            filters.uri.as_str(),
        ) {
            return false;
        }
        // Check if pattern in quote, tags, text, or URI
        if !filters.any.as_str().is_empty() {
            let quotes = join_strings(&annotation.quotes, ' ');
            let in_quotes = contains_pattern(quotes.as_str(), filters.any.as_str());
            let in_tags = tags_substring(&annotation.tags, &filters.any);
            let in_text = contains_pattern(annotation.text.as_str(), filters.any.as_str());
            let in_uri = contains_pattern(annotation.uri.as_str(), filters.any.as_str());
            proof {
                assert(annotation@.tags == views_of(annotation.tags@));
                assert(in_tags == (exists|k: int|
                    0 <= k < annotation@.tags.len() && is_substring(
                        filters@.any,
                        #[trigger] annotation@.tags[k],
                    ))) by {
                    if in_tags {
                        let k = choose|k: int|
                            0 <= k < views_of(annotation.tags@).len() && is_substring(
                                filters.any@,
                                #[trigger] views_of(annotation.tags@)[k],
                            );
                        assert(is_substring(filters@.any, annotation@.tags[k]));
                    }
                    if exists|k: int|
                        0 <= k < annotation@.tags.len() && is_substring(
                            filters@.any,
                            #[trigger] annotation@.tags[k],
                        ) {
                        let k = choose|k: int|
                            0 <= k < annotation@.tags.len() && is_substring(
                                filters@.any,
                                #[trigger] annotation@.tags[k],
                            );
                        assert(is_substring(filters.any@, views_of(annotation.tags@)[k]));
                    }
                }
                assert((in_quotes || in_tags || in_text || in_uri) == any_matches(
                    annotation@,
                    filters@.any,
                ));
            }
            if !(in_quotes || in_tags || in_text || in_uri) {
                return false;
            }
        }
        // Check if tags overlap: all must match with `and`, any without
        if filters.tags.len() > 0 {
            if filters.and {
                if !tags_all(&annotation.tags, &filters.tags) {
                    return false;
                }
            } else {
                if !tags_any(&annotation.tags, &filters.tags) {
                    return false;
                }
            }
        }
        // Check if tags are in excluded tags
        if tags_any(&annotation.tags, &filters.exclude_tags) {
            return false;
        }
        // Check if pattern in quote
        if !filters.quote.as_str().is_empty() {
            let quotes = join_strings(&annotation.quotes, ' ');
            if !contains_pattern(quotes.as_str(), filters.quote.as_str()) {
                return false;
            }
        }
        // Check if pattern in text
        if !filters.text.as_str().is_empty() && !contains_pattern(
            annotation.text.as_str(),
            filters.text.as_str(),
        ) {
            return false;
        }
        true
    }
}

/// Ascending by creation time.
pub open spec fn sorted_by_created(s: Seq<Annotation>) -> bool {
    forall|i: int, j: int| 0 <= i < j < s.len() ==> (#[trigger] s[i])@.created <= (#[trigger] s[j])@.created
}

/// Sorts annotations ascending by creation time; the result holds exactly
/// the given annotations.
pub fn sort_by_created(v: Vec<Annotation>) -> (r: Vec<Annotation>)
    ensures
        r@.to_multiset() == v@.to_multiset(),
        r@.len() == v@.len(),
        sorted_by_created(r@),
{
    broadcast use vstd::seq_lib::group_to_multiset_ensures;
    broadcast use vstd::multiset::group_multiset_axioms;

    let mut src = v;
    let mut out: Vec<Annotation> = Vec::new();
    proof {
        assert(out@.to_multiset().add(src@.to_multiset()) =~= src@.to_multiset());
    }
    while src.len() > 0
        invariant
            out@.to_multiset().add(src@.to_multiset()) == v@.to_multiset(),
            out@.len() + src@.len() == v@.len(),
            sorted_by_created(out@),
        decreases src@.len(),
    {
        let ghost pre_src = src@;
        let x = src.remove(0);
        proof {
            vstd::seq_lib::to_multiset_remove(pre_src, 0);
            assert(pre_src.remove(0) == src@);
            assert(pre_src[0] == x);
            assert(src@.to_multiset() == pre_src.to_multiset().remove(x));
        }
        let mut pos: usize = 0;
        while pos < out.len() && out[pos].created <= x.created
            invariant
                0 <= pos <= out@.len(),
                forall|k: int| 0 <= k < pos ==> (#[trigger] out@[k])@.created <= x@.created,
                sorted_by_created(out@),
            decreases out@.len() - pos,
        {
            pos = pos + 1;
        }
        let ghost pre_out = out@;
        out.insert(pos, x);
        proof {
            vstd::seq_lib::to_multiset_insert(pre_out, pos as int, x);
            assert(out@.to_multiset() == pre_out.to_multiset().insert(x));
            assert(pre_src.contains(x)) by {
                assert(pre_src[0] == x);
            }
            vstd::seq_lib::to_multiset_contains(pre_src, x);
            assert(pre_src.to_multiset().count(x) > 0);
            assert(out@.to_multiset().add(src@.to_multiset()) =~= pre_out.to_multiset().add(
                pre_src.to_multiset(),
            ));
            assert forall|i: int, j: int|
                0 <= i < j < out@.len() implies (#[trigger] out@[i])@.created <= (
            #[trigger] out@[j])@.created by {
                if j < pos {
                    assert(out@[i] == pre_out[i] && out@[j] == pre_out[j]);
                } else if j == pos {
                    assert(out@[i] == pre_out[i]);
                    assert(out@[j] == x);
                } else if i < pos {
                    assert(out@[i] == pre_out[i] && out@[j] == pre_out[j - 1]);
                } else if i == pos {
                    assert(out@[i] == x && out@[j] == pre_out[j - 1]);
                    assert(pre_out[pos as int]@.created > x@.created || pre_out.len()
                        == pos as int);
                    assert(pre_out[pos as int]@.created <= pre_out[j - 1]@.created || pos as int
                        == j - 1);
                } else {
                    assert(out@[i] == pre_out[i - 1] && out@[j] == pre_out[j - 1]);
                }
            }
        }
    }
    proof {
        broadcast use vstd::multiset::group_multiset_axioms;

        assert(src@.to_multiset() =~= Multiset::<Annotation>::empty());
        assert(out@.to_multiset().add(src@.to_multiset()) =~= out@.to_multiset());
    }
    out
}

/// Equal multisets of annotations carry ids with the same multiplicity, so
/// id-distinctness transfers across a reordering.
proof fn lemma_distinct_ids_transfer(a: Seq<Annotation>, b: Seq<Annotation>)
    requires
        a.to_multiset() == b.to_multiset(),
        forall|i: int, j: int| 0 <= i < j < a.len() ==> (#[trigger] a[i])@.id != (#[trigger] a[j])@.id,
    ensures
        forall|i: int, j: int| 0 <= i < j < b.len() ==> (#[trigger] b[i])@.id != (#[trigger] b[j])@.id,
{
    broadcast use vstd::seq_lib::group_to_multiset_ensures;

    assert forall|i: int, j: int|
        0 <= i < j < b.len() implies (#[trigger] b[i])@.id != (#[trigger] b[j])@.id by {
        let x = b[i];
        let y = b[j];
        if x@.id == y@.id {
            if x == y {
                vstd::seq_lib::to_multiset_remove(b, i);
                assert(b.remove(i).to_multiset() == b.to_multiset().remove(x));
                assert(b.remove(i)[j - 1] == y);
                assert(b.remove(i).contains(y));
                assert(b.remove(i).to_multiset().count(y) > 0);
                assert(b.to_multiset().count(x) >= 2);
                assert(a.to_multiset().count(x) >= 2);
                assert(a.contains(x));
                let i1 = choose|i1: int| 0 <= i1 < a.len() && a[i1] == x;
                vstd::seq_lib::to_multiset_remove(a, i1);
                assert(a.remove(i1).to_multiset() == a.to_multiset().remove(x));
                assert(a.remove(i1).to_multiset().count(x) >= 1);
                assert(a.remove(i1).contains(x));
                let i2 = choose|i2: int| 0 <= i2 < a.remove(i1).len() && a.remove(i1)[i2] == x;
                if i2 < i1 {
                    assert(a[i2] == x);
                } else {
                    assert(a[i2 + 1] == x);
                }
            } else {
                assert(b.contains(x) && b.contains(y));
                assert(a.to_multiset().count(x) > 0 && a.to_multiset().count(y) > 0);
                assert(a.contains(x) && a.contains(y));
                let ix = choose|ix: int| 0 <= ix < a.len() && a[ix] == x;
                let iy = choose|iy: int| 0 <= iy < a.len() && a[iy] == y;
                assert(ix != iy);
            }
        }
    }
}

impl Gooseberry {
    /// Every annotation of the mirror that the filter keeps (those that
    /// fail the composed predicate when `not` is set), ascending by
    /// creation time. Each id appears once, with its stored record.
    #[verifier::rlimit(80)]
    pub fn filter_annotations(&self, filters: &Filters) -> (r: Result<Vec<Annotation>, Apologize>)
        requires
            self.inv(),
        ensures
            r matches Ok(v) ==> {
                &&& sorted_by_created(v@)
                &&& forall|i: int|
                    0 <= i < v@.len() ==> self.model().recs.contains_key((#[trigger] v@[i])@.id)
                        && dec_ann(self.model().recs[v@[i]@.id]) == Some(v@[i]@) && keep_filter(
                        v@[i]@,
                        filters@,
                    )
                &&& forall|i: int, j: int|
                    0 <= i < j < v@.len() ==> (#[trigger] v@[i])@.id != (#[trigger] v@[j])@.id
                &&& forall|id: Seq<char>|
                    #[trigger] self.model().recs.contains_key(id) && dec_ann(
                        self.model().recs[id],
                    ) is Some && keep_filter(dec_ann(self.model().recs[id])->Some_0, filters@)
                        ==> exists|i: int| 0 <= i < v@.len() && (#[trigger] v@[i])@.id == id
            },
            r matches Err(e) ==> e matches Apologize::StorageError,
    {
        broadcast use vstd::seq_lib::group_to_multiset_ensures;

        let all = match self.iter_annotations() {
            Ok(a) => a,
            Err(e) => {
                return Err(e);
            },
        };
        let mut kept: Vec<Annotation> = Vec::new();
        let mut i: usize = 0;
        while i < all.len()
            invariant
                self.inv(),
                0 <= i <= all@.len(),
                forall|k: int|
                    0 <= k < all@.len() ==> self.model().recs.contains_key(
                        (#[trigger] all@[k])@.id,
                    ) && dec_ann(self.model().recs[all@[k]@.id]) == Some(all@[k]@),
                forall|k: int, l: int|
                    0 <= k < l < all@.len() ==> (#[trigger] all@[k])@.id != (
                    #[trigger] all@[l])@.id,
                forall|id: Seq<char>|
                    self.model().recs.contains_key(id) ==> exists|k: int|
                        0 <= k < all@.len() && (#[trigger] all@[k])@.id == id,
                forall|k: int|
                    0 <= k < kept@.len() ==> self.model().recs.contains_key(
                        (#[trigger] kept@[k])@.id,
                    ) && dec_ann(self.model().recs[kept@[k]@.id]) == Some(kept@[k]@)
                        && keep_filter(kept@[k]@, filters@),
                forall|k: int|
                    0 <= k < kept@.len() ==> exists|l: int|
                        0 <= l < i && (#[trigger] kept@[k])@.id == all@[l]@.id,
                forall|k: int, l: int|
                    0 <= k < l < kept@.len() ==> (#[trigger] kept@[k])@.id != (
                    #[trigger] kept@[l])@.id,
                forall|l: int|
                    0 <= l < i && keep_filter((#[trigger] all@[l])@, filters@) ==> exists|k: int|
                        0 <= k < kept@.len() && (#[trigger] kept@[k])@.id == all@[l]@.id,
            decreases all@.len() - i,
        {
            let m = self.filter_annotation(&all[i], filters);
            let keep = if filters.not {
                !m
            } else {
                m
            };
            if keep {
                let ghost pre = kept@;
                let a = all[i].clone();
                proof {
                    assert(a@ == all@[i as int]@);
                }
                kept.push(a);
                proof {
                    assert(kept@[kept@.len() - 1]@ == all@[i as int]@);
                    assert forall|k: int|
                        0 <= k < kept@.len() implies exists|l: int|
                        0 <= l < i + 1 && (#[trigger] kept@[k])@.id == all@[l]@.id by {
                        if k == kept@.len() - 1 {
                            assert(kept@[k]@.id == all@[i as int]@.id);
                        } else {
                            let l0 = choose|l0: int|
                                0 <= l0 < i && (#[trigger] pre[k])@.id == all@[l0]@.id;
                            assert(kept@[k]@.id == all@[l0]@.id);
                        }
                    }
                    assert forall|k: int, l: int|
                        0 <= k < l < kept@.len() implies (#[trigger] kept@[k])@.id != (
                    #[trigger] kept@[l])@.id by {
                        if l == kept@.len() - 1 {
                            let l0 = choose|l0: int|
                                0 <= l0 < i && (#[trigger] pre[k])@.id == all@[l0]@.id;
                            assert(all@[l0]@.id != all@[i as int]@.id);
                        }
                    }
                    assert forall|l: int|
                        0 <= l < i + 1 && keep_filter((#[trigger] all@[l])@, filters@) implies
                        exists|k: int|
                        0 <= k < kept@.len() && (#[trigger] kept@[k])@.id == all@[l]@.id by {
                        if l < i {
                            let k = choose|k: int|
                                0 <= k < pre.len() && (#[trigger] pre[k])@.id == all@[l]@.id;
                            assert(kept@[k]@.id == all@[l]@.id);
                        } else {
                            assert(kept@[kept@.len() - 1]@.id == all@[l]@.id);
                        }
                    }
                }
            } else {
                proof {
                    assert(!keep_filter(all@[i as int]@, filters@));
                }
            }
            i = i + 1;
        }
        let ghost keptg = kept@;
        let sorted = sort_by_created(kept);
        proof {
            lemma_distinct_ids_transfer(keptg, sorted@);
            assert forall|k: int|
                0 <= k < sorted@.len() implies self.model().recs.contains_key(
                (#[trigger] sorted@[k])@.id,
            ) && dec_ann(self.model().recs[sorted@[k]@.id]) == Some(sorted@[k]@) && keep_filter(
                sorted@[k]@,
                filters@,
            ) by {
                vstd::seq_lib::to_multiset_contains(sorted@, sorted@[k]);
                vstd::seq_lib::to_multiset_contains(keptg, sorted@[k]);
                assert(sorted@.contains(sorted@[k]));
                assert(keptg.contains(sorted@[k]));
                let src = choose|src: int| 0 <= src < keptg.len() && keptg[src] == sorted@[k];
            }
            assert forall|id: Seq<char>|
                #[trigger] self.model().recs.contains_key(id) && dec_ann(
                    self.model().recs[id],
                ) is Some && keep_filter(dec_ann(self.model().recs[id])->Some_0, filters@) implies
                exists|i2: int| 0 <= i2 < sorted@.len() && (#[trigger] sorted@[i2])@.id == id by {
                let l = choose|l: int| 0 <= l < all@.len() && (#[trigger] all@[l])@.id == id;
                assert(dec_ann(self.model().recs[id]) == Some(all@[l]@));
                assert(keep_filter(all@[l]@, filters@));
                let k = choose|k: int|
                    0 <= k < keptg.len() && (#[trigger] keptg[k])@.id == all@[l]@.id;
                vstd::seq_lib::to_multiset_contains(keptg, keptg[k]);
                vstd::seq_lib::to_multiset_contains(sorted@, keptg[k]);
                assert(keptg.contains(keptg[k]));
                assert(sorted@.contains(keptg[k]));
                let i2 = choose|i2: int| 0 <= i2 < sorted@.len() && sorted@[i2] == keptg[k];
                assert(sorted@[i2]@.id == id);
            }
        }
        Ok(sorted)
    }

    /// Annotations for the knowledge base: the filtered mirror, with every
    /// annotation carrying one of the configured ignore tags left out.
    pub fn filter_annotations_make(&self, filters: &Filters, ignore_tags: &Vec<String>) -> (r:
        Result<Vec<Annotation>, Apologize>)
        requires
            self.inv(),
        ensures
            r matches Ok(v) ==> {
                &&& sorted_by_created(v@)
                &&& forall|i: int|
                    0 <= i < v@.len() ==> self.model().recs.contains_key((#[trigger] v@[i])@.id)
                        && dec_ann(self.model().recs[v@[i]@.id]) == Some(v@[i]@) && keep_filter(
                        v@[i]@,
                        filters@,
                    ) && !carries_ignored_tag(v@[i]@, views_of(ignore_tags@))
                &&& forall|i: int, j: int|
                    0 <= i < j < v@.len() ==> (#[trigger] v@[i])@.id != (#[trigger] v@[j])@.id
                &&& forall|id: Seq<char>|
                    #[trigger] self.model().recs.contains_key(id) && dec_ann(
                        self.model().recs[id],
                    ) is Some && keep_filter(dec_ann(self.model().recs[id])->Some_0, filters@)
                        && !carries_ignored_tag(
                        dec_ann(self.model().recs[id])->Some_0,
                        views_of(ignore_tags@),
                    ) ==> exists|i: int| 0 <= i < v@.len() && (#[trigger] v@[i])@.id == id
            },
            r matches Err(e) ==> e matches Apologize::StorageError,
    {
        let all = match self.filter_annotations(filters) {
            Ok(a) => a,
            Err(e) => {
                return Err(e);
            },
        };
        let mut out: Vec<Annotation> = Vec::new();
        let mut i: usize = 0;
        while i < all.len()
            invariant
                self.inv(),
                0 <= i <= all@.len(),
                sorted_by_created(all@),
                forall|k: int|
                    0 <= k < all@.len() ==> self.model().recs.contains_key(
                        (#[trigger] all@[k])@.id,
                    ) && dec_ann(self.model().recs[all@[k]@.id]) == Some(all@[k]@) && keep_filter(
                        all@[k]@,
                        filters@,
                    ),
                forall|k: int, l: int|
                    0 <= k < l < all@.len() ==> (#[trigger] all@[k])@.id != (
                    #[trigger] all@[l])@.id,
                forall|id: Seq<char>|
                    #[trigger] self.model().recs.contains_key(id) && dec_ann(
                        self.model().recs[id],
                    ) is Some && keep_filter(dec_ann(self.model().recs[id])->Some_0, filters@)
                        ==> exists|k: int| 0 <= k < all@.len() && (#[trigger] all@[k])@.id == id,
                forall|k: int|
                    0 <= k < out@.len() ==> exists|l: int|
                        0 <= l < i && (#[trigger] out@[k])@ == all@[l]@,
                forall|k: int, l: int|
                    0 <= k < l < out@.len() ==> (#[trigger] out@[k])@.id != (
                    #[trigger] out@[l])@.id,
                forall|k: int|
                    0 <= k < out@.len() ==> !carries_ignored_tag(
                        (#[trigger] out@[k])@,
                        views_of(ignore_tags@),
                    ),
                forall|k: int, l: int|
                    0 <= k < l < out@.len() ==> (#[trigger] out@[k])@.created <= (
                    #[trigger] out@[l])@.created,
                forall|l: int|
                    0 <= l < i && !carries_ignored_tag((#[trigger] all@[l])@, views_of(ignore_tags@))
                        ==> exists|k: int|
                        0 <= k < out@.len() && (#[trigger] out@[k])@.id == all@[l]@.id,
            decreases all@.len() - i,
        {
            let ignored = tags_any(&all[i].tags, ignore_tags);
            proof {
                assert(all@[i as int]@.tags == views_of(all@[i as int].tags@));
                assert(ignored == carries_ignored_tag(all@[i as int]@, views_of(ignore_tags@)))
                    by {
                    if ignored {
                        let k = choose|k: int|
                            0 <= k < views_of(all@[i as int].tags@).len() && views_of(
                                ignore_tags@,
                            ).contains(#[trigger] views_of(all@[i as int].tags@)[k]);
                        assert(views_of(ignore_tags@).contains(all@[i as int]@.tags[k]));
                    }
                    if carries_ignored_tag(all@[i as int]@, views_of(ignore_tags@)) {
                        let k = choose|k: int|
                            0 <= k < all@[i as int]@.tags.len() && views_of(ignore_tags@).contains(
                                #[trigger] all@[i as int]@.tags[k],
                            );
                        assert(views_of(ignore_tags@).contains(views_of(all@[i as int].tags@)[k]));
                    }
                }
            }
            if !ignored {
                let ghost pre = out@;
                let a = all[i].clone();
                out.push(a);
                proof {
                    assert(out@[out@.len() - 1]@ == all@[i as int]@);
                    assert forall|k: int, l: int|
                        0 <= k < l < out@.len() implies (#[trigger] out@[k])@.created <= (
                    #[trigger] out@[l])@.created by {
                        if l == out@.len() - 1 {
                            let l0 = choose|l0: int|
                                0 <= l0 < i && (#[trigger] pre[k])@ == all@[l0]@;
                            assert(all@[l0]@.created <= all@[i as int]@.created);
                        }
                    }
                    assert forall|k: int|
                        0 <= k < out@.len() implies exists|l: int|
                        0 <= l < i + 1 && (#[trigger] out@[k])@ == all@[l]@ by {
                        if k < out@.len() - 1 {
                            let l0 = choose|l0: int|
                                0 <= l0 < i && (#[trigger] pre[k])@ == all@[l0]@;
                            assert(0 <= l0 < i + 1 && out@[k]@ == all@[l0]@);
                        } else {
                            assert(0 <= i < i + 1 && out@[k]@ == all@[i as int]@);
                        }
                    }
                    assert forall|k: int, l: int|
                        0 <= k < l < out@.len() implies (#[trigger] out@[k])@.id != (
                    #[trigger] out@[l])@.id by {
                        if l == out@.len() - 1 {
                            let l0 = choose|l0: int|
                                0 <= l0 < i && (#[trigger] pre[k])@ == all@[l0]@;
                            assert(all@[l0]@.id != all@[i as int]@.id);
                        }
                    }
                    assert forall|l: int|
                        0 <= l < i + 1 && !carries_ignored_tag(
                            (#[trigger] all@[l])@,
                            views_of(ignore_tags@),
                        ) implies exists|k: int|
                        0 <= k < out@.len() && (#[trigger] out@[k])@.id == all@[l]@.id by {
                        if l < i {
                            let k0 = choose|k0: int|
                                0 <= k0 < pre.len() && (#[trigger] pre[k0])@.id == all@[l]@.id;
                            assert(out@[k0]@.id == all@[l]@.id);
                        } else {
                            assert(out@[out@.len() - 1]@.id == all@[l]@.id);
                        }
                    }
                }
            } else {
                proof {
                    assert forall|l: int|
                        0 <= l < i + 1 && !carries_ignored_tag(
                            (#[trigger] all@[l])@,
                            views_of(ignore_tags@),
                        ) implies exists|k: int|
                        0 <= k < out@.len() && (#[trigger] out@[k])@.id == all@[l]@.id by {
                        if l < i {
                            let k0 = choose|k0: int|
                                0 <= k0 < out@.len() && (#[trigger] out@[k0])@.id == all@[l]@.id;
                            assert(out@[k0]@.id == all@[l]@.id);
                        }
                    }
                }
            }
            i = i + 1;
        }
        proof {
            assert forall|k: int|
                0 <= k < out@.len() implies self.model().recs.contains_key(
                (#[trigger] out@[k])@.id,
            ) && dec_ann(self.model().recs[out@[k]@.id]) == Some(out@[k]@) && keep_filter(
                out@[k]@,
                filters@,
            ) by {
                let l = choose|l: int| 0 <= l < all@.len() && (#[trigger] out@[k])@ == all@[l]@;
            }
            assert forall|id: Seq<char>|
                #[trigger] self.model().recs.contains_key(id) && dec_ann(
                    self.model().recs[id],
                ) is Some && keep_filter(dec_ann(self.model().recs[id])->Some_0, filters@)
                    && !carries_ignored_tag(
                    dec_ann(self.model().recs[id])->Some_0,
                    views_of(ignore_tags@),
                ) implies exists|i2: int|
                0 <= i2 < out@.len() && (#[trigger] out@[i2])@.id == id by {
                let l = choose|l: int| 0 <= l < all@.len() && (#[trigger] all@[l])@.id == id;
                assert(dec_ann(self.model().recs[id]) == Some(all@[l]@));
                assert(!carries_ignored_tag(all@[l]@, views_of(ignore_tags@)));
                let k = choose|k: int|
                    0 <= k < out@.len() && (#[trigger] out@[k])@.id == all@[l]@.id;
            }
        }
        Ok(out)
    }
}


/// Whether the id list selects this annotation: an empty list selects all.
pub open spec fn uri_selected(av: AnnotationView, ids: Seq<Seq<char>>) -> bool {
    ids.len() == 0 || ids.contains(av.id)
}

/// The URIs of the selected annotations, in order, duplicates included.
pub open spec fn selected_uris(avs: Seq<AnnotationView>, ids: Seq<Seq<char>>) -> Seq<Seq<char>>
    decreases avs.len(),
{
    if avs.len() == 0 {
        Seq::empty()
    } else {
        let rest = selected_uris(avs.drop_last(), ids);
        if uri_selected(avs.last(), ids) {
            rest.push(avs.last().uri)
        } else {
            rest
        }
    }
}

/// The distinct URIs of the selected annotations, first occurrences first:
/// the compute side of the `uri` command, whose printing stays with the
/// callers.
#[verifier::rlimit(100)]
#[verifier::spinoff_prover]
pub fn distinct_uris(annotations: &Vec<Annotation>, ids: &Vec<String>) -> (r: Vec<String>)
    ensures
        forall|i: int, j: int| 0 <= i < j < r@.len() ==> (#[trigger] r@[i])@ != (#[trigger] r@[j])@,
        forall|i: int|
            0 <= i < r@.len() ==> selected_uris(ann_views(annotations@), views_of(ids@)).contains(
                (#[trigger] r@[i])@,
            ),
        forall|l: int|
            0 <= l < annotations@.len() && uri_selected(
                (#[trigger] annotations@[l])@,
                views_of(ids@),
            ) ==> views_of(r@).contains(annotations@[l]@.uri),
{
    let ghost avs = ann_views(annotations@);
    let mut out: Vec<String> = Vec::new();
    let mut i: usize = 0;
    let select_all = ids.len() == 0;
    while i < annotations.len()
        invariant
            avs == ann_views(annotations@),
            select_all == (ids@.len() == 0),
            0 <= i <= annotations@.len(),
            forall|k: int, l: int|
                0 <= k < l < out@.len() ==> (#[trigger] out@[k])@ != (#[trigger] out@[l])@,
            forall|k: int|
                0 <= k < out@.len() ==> selected_uris(avs.take(i as int), views_of(ids@)).contains(
                    (#[trigger] out@[k])@,
                ),
            forall|l: int|
                0 <= l < i && uri_selected((#[trigger] annotations@[l])@, views_of(ids@))
                    ==> views_of(out@).contains(annotations@[l]@.uri),
        decreases annotations@.len() - i,
    {
        let selected = select_all || contains_string(ids, &annotations[i].id);
        let already = if selected {
            contains_string(&out, &annotations[i].uri)
        } else {
            true
        };
        let ghost pre = out@;
        let ghost uri_i = annotations@[i as int]@.uri;
        let ghost su_pre = selected_uris(avs.take(i as int), views_of(ids@));
        let ghost su_post = selected_uris(avs.take(i + 1), views_of(ids@));
        proof {
            assert(avs[i as int] == annotations@[i as int]@);
            assert(selected == uri_selected(avs[i as int], views_of(ids@)));
            assert(avs.take(i + 1).drop_last() =~= avs.take(i as int));
            assert(avs.take(i + 1).last() == avs[i as int]);
            assert(su_post == if selected {
                su_pre.push(uri_i)
            } else {
                su_pre
            });
        }
        if selected && !already {
            out.push(annotations[i].uri.clone());
        }
        proof {
            assert forall|k: int|
                0 <= k < out@.len() implies su_post.contains((#[trigger] out@[k])@) by {
                if k < pre.len() {
                    assert(out@[k] == pre[k]);
                    assert(su_pre.contains(pre[k]@));
                    let w = choose|w: int| 0 <= w < su_pre.len() && su_pre[w] == pre[k]@;
                    assert(su_post[w] == out@[k]@);
                } else {
                    assert(out@[k]@ == uri_i);
                    assert(su_post.last() == uri_i);
                }
            }
            assert forall|l: int|
                0 <= l < i + 1 && uri_selected((#[trigger] annotations@[l])@, views_of(ids@))
                    implies views_of(out@).contains(annotations@[l]@.uri) by {
                if l < i {
                    let k0 = choose|k0: int|
                        0 <= k0 < views_of(pre).len() && #[trigger] views_of(pre)[k0]
                            == annotations@[l]@.uri;
                    assert(views_of(out@)[k0] == annotations@[l]@.uri);
                } else {
                    if selected && !already {
                        assert(views_of(out@)[out@.len() - 1] == annotations@[l]@.uri);
                    } else {
                        let kw = choose|kw: int|
                            0 <= kw < views_of(pre).len() && #[trigger] views_of(pre)[kw] == uri_i;
                        assert(views_of(out@)[kw] == annotations@[l]@.uri);
                    }
                }
            }
            assert forall|k: int, l: int|
                0 <= k < l < out@.len() implies (#[trigger] out@[k])@ != (#[trigger] out@[l])@ by {
                if l >= pre.len() {
                    assert(out@[k] == pre[k]);
                    assert(out@[l]@ == uri_i);
                    assert(!views_of(pre).contains(uri_i));
                    if pre[k]@ == uri_i {
                        assert(views_of(pre)[k] == uri_i);
                    }
                }
            }
        }
        i = i + 1;
    }
    proof {
        assert(avs.take(avs.len() as int) =~= avs);
    }
    out
}

/// The local refinement applied to remotely fetched results: the exclude,
/// page-note and in-document criteria.
pub open spec fn api_keep(av: AnnotationView, f: FiltersView) -> bool {
    &&& !(exists|k: int|
        0 <= k < av.tags.len() && f.exclude_tags.contains(#[trigger] av.tags[k]))
    &&& (f.page ==> !av.has_selectors)
    &&& (f.annotation ==> av.has_selectors)
}

/// The annotations a refinement keeps, in their incoming order.
pub open spec fn api_kept(avs: Seq<Annotation>, f: FiltersView) -> Seq<Annotation>
    decreases avs.len(),
{
    if avs.len() == 0 {
        Seq::empty()
    } else {
        let rest = api_kept(avs.drop_last(), f);
        if api_keep(avs.last()@, f) {
            rest.push(avs.last())
        } else {
            rest
        }
    }
}

/// Refines a remotely fetched result list: drops annotations carrying an
/// excluded tag or of the wrong kind, and sorts ascending by creation time.
/// The remote query itself, and the full fetch that the `not` flag needs,
/// stay with the callers.
pub fn refine_api_results(annotations: Vec<Annotation>, filters: &Filters) -> (r: Vec<Annotation>)
    ensures
        sorted_by_created(r@),
        r@.to_multiset() == api_kept(annotations@, filters@).to_multiset(),
{
    let mut src = annotations;
    let ghost whole = src@;
    let mut kept: Vec<Annotation> = Vec::new();
    let mut i: usize = 0;
    let total = src.len();
    proof {
        assert(whole.take(0) =~= Seq::<Annotation>::empty());
    }
    while src.len() > 0
        invariant
            whole.len() == total,
            i + src@.len() == whole.len(),
            src@ =~= whole.skip(i as int),
            kept@ == api_kept(whole.take(i as int), filters@),
        decreases src@.len(),
    {
        let ghost pre_src = src@;
        let a = src.remove(0);
        proof {
            assert(pre_src[0] == a);
            assert(a == whole[i as int]);
            assert(pre_src.remove(0) =~= whole.skip(i + 1));
            assert(whole.take(i + 1).drop_last() =~= whole.take(i as int));
            assert(whole.take(i + 1).last() == whole[i as int]);
        }
        let excluded = tags_any(&a.tags, &filters.exclude_tags);
        let wrong_page = filters.page && a.has_selectors;
        let wrong_kind = filters.annotation && !a.has_selectors;
        if !excluded && !wrong_page && !wrong_kind {
            proof {
                assert(api_keep(whole[i as int]@, filters@));
            }
            kept.push(a);
        } else {
            proof {
                assert(!api_keep(whole[i as int]@, filters@));
            }
        }
        i = i + 1;
    }
    proof {
        assert(whole.take(whole.len() as int) =~= whole);
    }
    sort_by_created(kept)
}

/// The annotations of `all` whose id is not among the given ids, in order.
pub open spec fn not_among(all: Seq<Annotation>, ids: Seq<Seq<char>>) -> Seq<Annotation>
    decreases all.len(),
{
    if all.len() == 0 {
        Seq::empty()
    } else {
        let rest = not_among(all.drop_last(), ids);
        if ids.contains(all.last()@.id) {
            rest
        } else {
            rest.push(all.last())
        }
    }
}

/// Keeps the annotations of `all` whose id is not among the kept ids: the
/// difference the top-level `not` flag takes against a full remote fetch.
pub fn negate_against(all: Vec<Annotation>, kept_ids: &Vec<String>) -> (r: Vec<Annotation>)
    ensures
        r@ == not_among(all@, views_of(kept_ids@)),
{
    let mut src = all;
    let ghost whole = src@;
    let mut out: Vec<Annotation> = Vec::new();
    let mut i: usize = 0;
    let total = src.len();
    proof {
        assert(whole.take(0) =~= Seq::<Annotation>::empty());
    }
    while src.len() > 0
        invariant
            whole.len() == total,
            i + src@.len() == whole.len(),
            src@ =~= whole.skip(i as int),
            out@ == not_among(whole.take(i as int), views_of(kept_ids@)),
        decreases src@.len(),
    {
        let ghost pre_src = src@;
        let a = src.remove(0);
        proof {
            assert(pre_src[0] == a);
            assert(a == whole[i as int]);
            assert(pre_src.remove(0) =~= whole.skip(i + 1));
            assert(whole.take(i + 1).drop_last() =~= whole.take(i as int));
            assert(whole.take(i + 1).last() == whole[i as int]);
        }
        if !contains_string(kept_ids, &a.id) {
            out.push(a);
        }
        i = i + 1;
    }
    proof {
        assert(whole.take(whole.len() as int) =~= whole);
    }
    out
}

} // verus!
