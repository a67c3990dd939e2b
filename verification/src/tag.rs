//! Local tag editing: add a tag to, or delete a tag from, a set of mirrored
//! annotations. The index is updated here; pushing the same change to the
//! remote service is the callers' side of the bargain, and the modified
//! records are returned to them for exactly that.

use vstd::prelude::*;

use crate::annotation::ann_views;
use crate::annotation::clone_strings;
use crate::annotation::Annotation;
use crate::annotation::AnnotationView;
use crate::database::check_valid;
use crate::database::Gooseberry;
use crate::errors::Apologize;
use crate::index_model::add_tag_fold;
use crate::index_model::delete_tag_fold;
use crate::index_model::valid_ann;
use crate::index_model::valid_tag_value;
use crate::index_model::with_tag;
use crate::index_model::without_tag;
use crate::index_model::without_entry;
use crate::utils::contains_string;
use crate::utils::has_semicolon;
use crate::utils::views_of;
use crate::EMPTY_TAG;
use crate::IGNORE_TAG;

verus! {

/// Whether every record of the batch is acceptable to the index.
pub open spec fn batch_valid(avs: Seq<AnnotationView>) -> bool {
    forall|k: int| 0 <= k < avs.len() ==> valid_ann(#[trigger] avs[k])
}

/// The given annotation with the tag appended.
fn push_tag(a: &Annotation, tag: &String) -> (r: Annotation)
    ensures
        r@ == with_tag(a@, tag@),
{
    let mut tags = clone_strings(&a.tags);
    tags.push(tag.clone());
    let r = Annotation {
        id: a.id.clone(),
        group: a.group.clone(),
        uri: a.uri.clone(),
        text: a.text.clone(),
        tags,
        created: a.created,
        updated: a.updated,
        quotes: clone_strings(&a.quotes),
        has_selectors: a.has_selectors,
    };
    proof {
        assert(views_of(r.tags@) =~= a@.tags.push(tag@));
        assert(r@ =~= with_tag(a@, tag@));
    }
    r
}

/// The given annotation with every copy of the tag removed.
fn drop_tag(a: &Annotation, tag: &String) -> (r: Annotation)
    ensures
        r@ == without_tag(a@, tag@),
{
    let tags = crate::database::without_tag_strings(&a.tags, tag);
    let r = Annotation {
        id: a.id.clone(),
        group: a.group.clone(),
        uri: a.uri.clone(),
        text: a.text.clone(),
        tags,
        created: a.created,
        updated: a.updated,
        quotes: clone_strings(&a.quotes),
        has_selectors: a.has_selectors,
    };
    proof {
        assert(r@ =~= without_tag(a@, tag@));
    }
    r
}

/// Whether the tag itself may be added: no separator, not blank, and not a
/// reserved sentinel.
fn check_new_tag(tag: &String) -> (r: bool)
    ensures
        r == (valid_tag_value(tag@) && !crate::utils::is_blank(tag@)),
{
    if crate::utils::blank(tag.as_str()) {
        return false;
    }
    if has_semicolon(tag.as_str()) {
        return false;
    }
    let sentinel = String::from_str(EMPTY_TAG);
    let ignore = String::from_str(IGNORE_TAG);
    if tag.eq(&sentinel) || tag.eq(&ignore) {
        return false;
    }
    true
}

/// The upstream updaters an add-tag pass produces, in order: one record,
/// with the tag appended, for each listed annotation that lacked it.
pub open spec fn missing_updater_views(avs: Seq<AnnotationView>, tag: Seq<char>) -> Seq<
    AnnotationView,
>
    decreases avs.len(),
{
    if avs.len() == 0 {
        Seq::empty()
    } else {
        let rest = missing_updater_views(avs.drop_last(), tag);
        if avs.last().tags.contains(tag) {
            rest
        } else {
            rest.push(with_tag(avs.last(), tag))
        }
    }
}

/// The upstream updaters a delete-tag pass produces, in order: one record,
/// with the tag removed, for each listed annotation that carried it.
pub open spec fn carrier_updater_views(avs: Seq<AnnotationView>, tag: Seq<char>) -> Seq<
    AnnotationView,
>
    decreases avs.len(),
{
    if avs.len() == 0 {
        Seq::empty()
    } else {
        let rest = carrier_updater_views(avs.drop_last(), tag);
        if avs.last().tags.contains(tag) {
            rest.push(without_tag(avs.last(), tag))
        } else {
            rest
        }
    }
}

impl Gooseberry {
    /// Add a tag to a list of annotations: each annotation that lacks it is
    /// re-upserted with the tag appended, and exactly those modified
    /// records are returned so the same change can be pushed upstream;
    /// annotations already carrying the tag are skipped.
    #[verifier::rlimit(100)]
    #[verifier::spinoff_prover]
    pub fn add_tag_to_annotations(&mut self, annotations: &Vec<Annotation>, new_tag: &String) -> (r:
        Result<Vec<Annotation>, Apologize>)
        requires
            old(self).inv(),
        ensures
            r is Ok ==> batch_valid(ann_views(annotations@)) && valid_tag_value(new_tag@),
            r is Ok ==> final(self).model() == add_tag_fold(
                old(self).model(),
                ann_views(annotations@),
                new_tag@,
            ) && final(self).inv(),
            r matches Ok(updated) ==> ann_views(updated@) == missing_updater_views(
                ann_views(annotations@),
                new_tag@,
            ),
            r matches Err(Apologize::EncodingError) <==> (!(valid_tag_value(new_tag@)
                && !crate::utils::is_blank(new_tag@)) || !batch_valid(ann_views(annotations@))),
            r matches Err(Apologize::EncodingError) ==> final(self).model() == old(self).model()
                && final(self).inv(),
            r matches Err(e) ==> (e matches Apologize::EncodingError || e
                matches Apologize::StorageError),
            (valid_tag_value(new_tag@) && !crate::utils::is_blank(new_tag@) && batch_valid(
                ann_views(annotations@),
            ) && (forall|l: int|
                0 <= l < annotations@.len() ==> (#[trigger] annotations@[l])@.tags.contains(
                    new_tag@,
                ))) ==> r is Ok,
    {
        if !check_new_tag(new_tag) {
            return Err(Apologize::EncodingError);
        }
        let mut k: usize = 0;
        while k < annotations.len()
            invariant
                *self == *old(self),
                old(self).inv(),
                0 <= k <= annotations@.len(),
                forall|j: int| 0 <= j < k ==> valid_ann(#[trigger] ann_views(annotations@)[j]),
            decreases annotations@.len() - k,
        {
            if !check_valid(&annotations[k]) {
                proof {
                    assert(!valid_ann(ann_views(annotations@)[k as int]));
                    assert(!batch_valid(ann_views(annotations@)));
                }
                return Err(Apologize::EncodingError);
            }
            proof {
                assert(ann_views(annotations@)[k as int] == annotations@[k as int]@);
            }
            k = k + 1;
        }
        let ghost m0 = old(self).model();
        let ghost avs = ann_views(annotations@);
        let mut updated: Vec<Annotation> = Vec::new();
        let mut i: usize = 0;
        proof {
            assert(avs.skip(0) =~= avs);
            assert(avs.take(0) =~= Seq::<AnnotationView>::empty());
            assert(ann_views(updated@) =~= Seq::<AnnotationView>::empty());
        }
        while i < annotations.len()
            invariant
                m0 == old(self).model(),
                avs == ann_views(annotations@),
                batch_valid(avs),
                valid_tag_value(new_tag@),
                !crate::utils::is_blank(new_tag@),
                0 <= i <= annotations@.len(),
                self.inv(),
                add_tag_fold(m0, avs, new_tag@) == add_tag_fold(
                    self.model(),
                    avs.skip(i as int),
                    new_tag@,
                ),
                ann_views(updated@) == missing_updater_views(avs.take(i as int), new_tag@),
            decreases annotations@.len() - i,
        {
            proof {
                assert(avs.skip(i as int)[0] == avs[i as int]);
                assert(avs.skip(i as int).skip(1) =~= avs.skip(i + 1));
                assert(avs[i as int] == annotations@[i as int]@);
                assert(avs[i as int].tags == views_of(annotations@[i as int].tags@));
                assert(avs.take(i + 1).drop_last() =~= avs.take(i as int));
                assert(avs.take(i + 1).last() == avs[i as int]);
            }
            if !contains_string(&annotations[i].tags, new_tag) {
                let modified = push_tag(&annotations[i], new_tag);
                proof {
                    assert(valid_ann(modified@)) by {
                        assert(forall|t: int|
                            0 <= t < avs[i as int].tags.len() ==> valid_tag_value(
                                #[trigger] avs[i as int].tags[t],
                            ));
                        assert(modified@.tags.last() == new_tag@);
                        assert(forall|t: int|
                            0 <= t < avs[i as int].tags.len() ==> modified@.tags[t]
                                == avs[i as int].tags[t]);
                    }
                }
                match self.upsert(&modified) {
                    Ok(_) => (),
                    Err(_) => {
                        proof {
                            assert(!(annotations@[i as int])@.tags.contains(new_tag@));
                        }
                        return Err(Apologize::StorageError);
                    },
                }
                let ghost pre_updated = updated@;
                updated.push(modified);
                proof {
                    assert(ann_views(updated@) =~= ann_views(pre_updated).push(with_tag(
                        avs[i as int],
                        new_tag@,
                    )));
                }
            }
            i = i + 1;
        }
        proof {
            assert(avs.skip(avs.len() as int) =~= Seq::<AnnotationView>::empty());
            assert(avs.take(avs.len() as int) =~= avs);
        }
        Ok(updated)
    }

    /// Delete a tag from a list of annotations: each annotation carrying it
    /// is re-upserted without it, and exactly those modified records are
    /// returned so the same change can be pushed upstream; annotations
    /// without the tag are skipped.
    #[verifier::rlimit(100)]
    #[verifier::spinoff_prover]
    pub fn delete_tag_from_annotations(
        &mut self,
        annotations: &Vec<Annotation>,
        remove_tag: &String,
    ) -> (r: Result<Vec<Annotation>, Apologize>)
        requires
            old(self).inv(),
        ensures
            r is Ok ==> batch_valid(ann_views(annotations@)),
            r is Ok ==> final(self).model() == delete_tag_fold(
                old(self).model(),
                ann_views(annotations@),
                remove_tag@,
            ) && final(self).inv(),
            r matches Ok(updated) ==> ann_views(updated@) == carrier_updater_views(
                ann_views(annotations@),
                remove_tag@,
            ),
            r matches Err(Apologize::EncodingError) <==> !batch_valid(ann_views(annotations@)),
            r matches Err(Apologize::EncodingError) ==> final(self).model() == old(self).model()
                && final(self).inv(),
            r matches Err(e) ==> (e matches Apologize::EncodingError || e
                matches Apologize::StorageError),
            (batch_valid(ann_views(annotations@)) && (forall|l: int|
                0 <= l < annotations@.len() ==> !(#[trigger] annotations@[l])@.tags.contains(
                    remove_tag@,
                ))) ==> r is Ok,
    {
        let mut k: usize = 0;
        while k < annotations.len()
            invariant
                *self == *old(self),
                old(self).inv(),
                0 <= k <= annotations@.len(),
                forall|j: int| 0 <= j < k ==> valid_ann(#[trigger] ann_views(annotations@)[j]),
            decreases annotations@.len() - k,
        {
            if !check_valid(&annotations[k]) {
                proof {
                    assert(!valid_ann(ann_views(annotations@)[k as int]));
                    assert(!batch_valid(ann_views(annotations@)));
                }
                return Err(Apologize::EncodingError);
            }
            proof {
                assert(ann_views(annotations@)[k as int] == annotations@[k as int]@);
            }
            k = k + 1;
        }
        let ghost m0 = old(self).model();
        let ghost avs = ann_views(annotations@);
        let mut updated: Vec<Annotation> = Vec::new();
        let mut i: usize = 0;
        proof {
            assert(avs.skip(0) =~= avs);
            assert(avs.take(0) =~= Seq::<AnnotationView>::empty());
            assert(ann_views(updated@) =~= Seq::<AnnotationView>::empty());
        }
        while i < annotations.len()
            invariant
                m0 == old(self).model(),
                avs == ann_views(annotations@),
                batch_valid(avs),
                0 <= i <= annotations@.len(),
                self.inv(),
                delete_tag_fold(m0, avs, remove_tag@) == delete_tag_fold(
                    self.model(),
                    avs.skip(i as int),
                    remove_tag@,
                ),
                ann_views(updated@) == carrier_updater_views(avs.take(i as int), remove_tag@),
            decreases annotations@.len() - i,
        {
            proof {
                assert(avs.skip(i as int)[0] == avs[i as int]);
                assert(avs.skip(i as int).skip(1) =~= avs.skip(i + 1));
                assert(avs[i as int] == annotations@[i as int]@);
                assert(avs[i as int].tags == views_of(annotations@[i as int].tags@));
                assert(avs.take(i + 1).drop_last() =~= avs.take(i as int));
                assert(avs.take(i + 1).last() == avs[i as int]);
            }
            if contains_string(&annotations[i].tags, remove_tag) {
                let modified = drop_tag(&annotations[i], remove_tag);
                proof {
                    crate::index_model::lemma_without_entry(avs[i as int].tags, remove_tag@);
                    assert(valid_ann(modified@)) by {
                        assert(forall|t: int|
                            0 <= t < modified@.tags.len() ==> avs[i as int].tags.contains(
                                #[trigger] modified@.tags[t],
                            ));
                        assert forall|t: int|
                            0 <= t < modified@.tags.len() implies valid_tag_value(
                            #[trigger] modified@.tags[t],
                        ) by {
                            let w = choose|w: int|
                                0 <= w < avs[i as int].tags.len() && avs[i as int].tags[w]
                                    == modified@.tags[t];
                        }
                    }
                }
                match self.upsert(&modified) {
                    Ok(_) => (),
                    Err(_) => {
                        proof {
                            assert((annotations@[i as int])@.tags.contains(remove_tag@));
                        }
                        return Err(Apologize::StorageError);
                    },
                }
                let ghost pre_updated = updated@;
                updated.push(modified);
                proof {
                    assert(ann_views(updated@) =~= ann_views(pre_updated).push(without_tag(
                        avs[i as int],
                        remove_tag@,
                    )));
                }
            }
            i = i + 1;
        }
        proof {
            assert(avs.skip(avs.len() as int) =~= Seq::<AnnotationView>::empty());
            assert(avs.take(avs.len() as int) =~= avs);
        }
        Ok(updated)
    }
}

} // verus!
