//! The index engine: creates, manipulates and retrieves information in the
//! annotation-to-tags and tag-to-annotations trees, the record store and the
//! time of the last sync, keeping all of them mutually consistent.

use vstd::prelude::*;

use crate::annotation::Annotation;
use crate::codec::dec_ann;
use crate::codec::decode_annotation;
use crate::codec::lemma_digits_roundtrip;
use crate::codec::parse_u64_str;
use crate::codec::u64_to_digits;
use crate::codec::val20;
use crate::codec::dec_digits;
use crate::errors::Apologize;
use crate::index_model::bucket_after_delete;
use crate::index_model::bucket_after_upsert;
use crate::index_model::bucket_with;
use crate::index_model::bucket_without;
use crate::index_model::dedup;
use crate::index_model::empty_model;
use crate::index_model::etags;
use crate::index_model::ignore_tag;
use crate::index_model::kept_tags;
use crate::index_model::lemma_delete_wf;
use crate::index_model::lemma_etags;
use crate::index_model::lemma_forward;
use crate::index_model::lemma_sentinels;
use crate::index_model::lemma_upsert_compose;
use crate::index_model::lemma_upsert_wf;
use crate::index_model::all_deletable;
use crate::index_model::delete_lists;
use crate::index_model::delete_partial;
use crate::index_model::delete_tr;
use crate::index_model::has_ignore;
use crate::index_model::old_tags_of;
use crate::index_model::page_valid;
use crate::index_model::sync_fold;
use crate::index_model::upsert_tr;
use crate::index_model::SyncOutcome;
use crate::index_model::opt_val;
use crate::index_model::valid_ann;
use crate::index_model::valid_tag_value;
use crate::index_model::wf_list;
use crate::index_model::without_entry;
use crate::index_model::lemma_empty_wf;
use crate::index_model::lemma_wf_cursor;
use crate::index_model::tags_view;
use crate::index_model::stored_tags;
use crate::index_model::wf;
use crate::index_model::IndexModel;
use crate::index_model::empty_tag;
use crate::store::open_store;
use crate::store::open_temp_store;
use crate::store::tree_entries;
use crate::store::StoreTree;
use crate::store::StoreTrees;
use crate::annotation::ann_views;
use crate::annotation::AnnotationView;
use crate::codec::bounded_ann;
use crate::codec::enc_limit;
use crate::codec::encode_annotation;
use crate::codec::enc_ann;
use crate::utils::contains_string;
use crate::utils::has_semicolon;
use crate::utils::is_blank;
use crate::utils::blank;
use crate::utils::join_ids;
use crate::utils::sep_free;
use crate::utils::split_ids;
use crate::utils::split_seq;
use crate::utils::views_of;
use crate::EMPTY_TAG;
use crate::IGNORE_TAG;
use crate::MIN_DATE;

verus! {

/// The key under which the time of the last sync is stored.
pub open spec fn sync_key() -> Seq<char> {
    "last_sync_time"@
}

/// The cursor a metadata tree holds: the stored timestamp, or the minimum
/// when none (or an unreadable one) is stored.
pub open spec fn cursor_of(meta: Map<Seq<char>, Seq<char>>) -> u64 {
    if meta.contains_key(sync_key()) && val20(meta[sync_key()]) is Some {
        val20(meta[sync_key()])->Some_0
    } else {
        MIN_DATE
    }
}

/// Gooseberry database: the record store, the two derived tag trees, and
/// sync metadata.
pub struct Gooseberry {
    records: StoreTree,
    annotation_to_tags: StoreTree,
    tag_to_annotations: StoreTree,
    meta: StoreTree,
}

impl Gooseberry {
    /// The mathematical content of the store.
    pub closed spec fn model(self) -> IndexModel {
        IndexModel {
            recs: tree_entries(self.records),
            atags: tree_entries(self.annotation_to_tags),
            buckets: tree_entries(self.tag_to_annotations),
            cursor: cursor_of(tree_entries(self.meta)),
        }
    }

    /// The stored sync time, when present, reads back as a number.
    pub closed spec fn meta_ok(self) -> bool {
        tree_entries(self.meta).contains_key(sync_key()) ==> val20(
            tree_entries(self.meta)[sync_key()],
        ) is Some
    }

    /// The engine's invariant: the index is well-formed and the metadata
    /// readable.
    pub open spec fn inv(self) -> bool {
        wf(self.model()) && self.meta_ok()
    }

    /// Wires up an opened set of trees.
    fn from_trees(t: StoreTrees) -> (r: Gooseberry)
        ensures
            r.model().recs == tree_entries(t.records),
            r.model().atags == tree_entries(t.annotation_to_tags),
            r.model().buckets == tree_entries(t.tag_to_annotations),
            r.model().cursor == cursor_of(tree_entries(t.meta)),
            tree_entries(t.meta).contains_key(sync_key()) ==> (val20(
                tree_entries(t.meta)[sync_key()],
            ) is Some ==> r.meta_ok()),
            !tree_entries(t.meta).contains_key(sync_key()) ==> r.meta_ok(),
    {
        Gooseberry {
            records: t.records,
            annotation_to_tags: t.annotation_to_tags,
            tag_to_annotations: t.tag_to_annotations,
            meta: t.meta,
        }
    }

    /// Opens (or creates) the store under the given directory. A persistent
    /// store carries whatever an earlier run left behind, so nothing is
    /// promised of its contents; `clear` followed by a fresh sync
    /// establishes the invariant for a directory of unknown history.
    pub fn new(db_dir: &String) -> (r: Result<Gooseberry, Apologize>)
        ensures
            r is Err ==> r matches Err(Apologize::StorageError),
    {
        match open_store(db_dir) {
            Ok(t) => Ok(Self::from_trees(t)),
            Err(_) => Err(Apologize::StorageError),
        }
    }

    /// Opens a fresh, empty store in a temporary directory that is removed
    /// when the handle drops.
    pub fn new_temp() -> (r: Result<Gooseberry, Apologize>)
        ensures
            r matches Ok(g) ==> g.inv() && g.model() == empty_model(),
    {
        match open_temp_store() {
            Ok(t) => {
                let g = Self::from_trees(t);
                proof {
                    lemma_empty_wf();
                    assert(g.model() =~= empty_model());
                }
                Ok(g)
            },
            Err(_) => Err(Apologize::StorageError),
        }
    }

    /// Removes everything: all records, both tag trees, and the sync time.
    pub fn clear(&mut self) -> (r: Result<(), Apologize>)
        ensures
            r is Ok ==> final(self).model() == empty_model() && final(self).inv(),
            r is Err ==> r matches Err(Apologize::StorageError),
    {
        let res = self.records.clear();
        if res.is_err() {
            return Err(Apologize::StorageError);
        }
        let res = self.annotation_to_tags.clear();
        if res.is_err() {
            return Err(Apologize::StorageError);
        }
        let res = self.tag_to_annotations.clear();
        if res.is_err() {
            return Err(Apologize::StorageError);
        }
        let res = self.meta.clear();
        if res.is_err() {
            return Err(Apologize::StorageError);
        }
        proof {
            lemma_empty_wf();
            assert(final(self).model() =~= empty_model());
        }
        Ok(())
    }

    /// (Re)sets the time of the last sync to the beginning of time.
    pub fn reset_sync_time(&mut self) -> (r: Result<(), Apologize>)
        requires
            old(self).inv(),
        ensures
            r is Ok ==> final(self).inv() && final(self).model() == (IndexModel {
                cursor: MIN_DATE,
                ..old(self).model()
            }),
            r is Err ==> r matches Err(Apologize::StorageError),
    {
        self.set_sync_time(MIN_DATE)
    }

    /// Updates the time of the last sync.
    pub fn set_sync_time(&mut self, datetime: u64) -> (r: Result<(), Apologize>)
        requires
            old(self).inv(),
        ensures
            r is Ok ==> final(self).inv() && final(self).model() == (IndexModel {
                cursor: datetime,
                ..old(self).model()
            }),
            r is Err ==> r matches Err(Apologize::StorageError),
    {
        let key = String::from_str("last_sync_time");
        let value = u64_to_digits(datetime);
        let res = self.meta.insert(&key, &value);
        proof {
            reveal_strlit("last_sync_time");
        }
        match res {
            Ok(_) => {
                proof {
                    lemma_digits_roundtrip(datetime);
                    assert(tree_entries(self.meta)[sync_key()] == dec_digits(datetime as nat, 20));
                    assert(final(self).model() =~= (IndexModel {
                        cursor: datetime,
                        ..old(self).model()
                    }));
                    lemma_wf_cursor(old(self).model(), datetime);
                }
                Ok(())
            },
            Err(_) => Err(Apologize::StorageError),
        }
    }

    /// Reads the time of the last sync; the minimum when none was stored.
    pub fn get_sync_time(&self) -> (r: Result<u64, Apologize>)
        ensures
            r matches Ok(v) ==> v == self.model().cursor,
            r matches Err(e) ==> (e matches Apologize::StorageError || e
                matches Apologize::EncodingError),
            self.inv() ==> !(r matches Err(Apologize::EncodingError)),
    {
        let key = String::from_str("last_sync_time");
        proof {
            reveal_strlit("last_sync_time");
        }
        match self.meta.get(&key) {
            Ok(Some(v)) => match parse_u64_str(&v) {
                Some(n) => Ok(n),
                None => Err(Apologize::EncodingError),
            },
            Ok(None) => Ok(MIN_DATE),
            Err(_) => Err(Apologize::StorageError),
        }
    }

    /// Retrieves the tags associated with an annotation. An annotation filed
    /// under the empty-tag sentinel alone reads back as having no tags.
    pub fn get_annotation_tags(&self, id: &String) -> (r: Result<Vec<String>, Apologize>)
        ensures
            r matches Ok(v) ==> self.model().atags.contains_key(id@) && views_of(v@) == tags_view(
                self.model(),
                id@,
            ),
            r matches Err(e) ==> (e matches Apologize::StorageError || (e
                matches Apologize::AnnotationNotFound { id: eid } && eid@ == id@
                && !self.model().atags.contains_key(id@))),
    {
        match self.annotation_to_tags.get(id) {
            Ok(Some(v)) => {
                let tags = split_ids(v.as_str());
                let sentinel = String::from_str(EMPTY_TAG);
                if tags.len() == 1 && tags[0].eq(&sentinel) {
                    proof {
                        assert(views_of(tags@) =~= seq![empty_tag()]);
                        assert(stored_tags(self.model(), id@) == seq![empty_tag()]);
                        assert(views_of(Seq::<String>::empty()) =~= Seq::<Seq<char>>::empty());
                    }
                    Ok(Vec::new())
                } else {
                    proof {
                        if stored_tags(self.model(), id@) == seq![empty_tag()] {
                            assert(views_of(tags@) == seq![empty_tag()]);
                            assert(views_of(tags@).len() == 1);
                            assert(tags@.len() == 1);
                            assert(views_of(tags@)[0] == empty_tag());
                            assert(tags@[0]@ == empty_tag());
                        }
                    }
                    Ok(tags)
                }
            },
            Ok(None) => Err(Apologize::AnnotationNotFound { id: id.clone() }),
            Err(_) => Err(Apologize::StorageError),
        }
    }

    /// Retrieves the annotations tagged with a given tag (the sentinel
    /// included, which lists the untagged annotations).
    pub fn get_tagged_annotations(&self, tag: &String) -> (r: Result<Vec<String>, Apologize>)
        ensures
            r matches Ok(v) ==> self.model().buckets.contains_key(tag@) && views_of(v@)
                == split_seq(self.model().buckets[tag@], ';'),
            r matches Err(e) ==> (e matches Apologize::StorageError || (e
                matches Apologize::TagNotFound { tag: et } && et@ == tag@
                && !self.model().buckets.contains_key(tag@))),
    {
        match self.tag_to_annotations.get(tag) {
            Ok(Some(v)) => Ok(split_ids(v.as_str())),
            Ok(None) => Err(Apologize::TagNotFound { tag: tag.clone() }),
            Err(_) => Err(Apologize::StorageError),
        }
    }

    /// Retrieves an annotation by ID, decoding the stored record.
    pub fn get_annotation(&self, id: &String) -> (r: Result<Annotation, Apologize>)
        ensures
            r matches Ok(a) ==> self.model().recs.contains_key(id@) && dec_ann(
                self.model().recs[id@],
            ) == Some(a@),
            r matches Err(e) ==> (e matches Apologize::StorageError || e
                matches Apologize::EncodingError || (e matches Apologize::AnnotationNotFound {
                id: eid,
            } && eid@ == id@ && !self.model().recs.contains_key(id@))),
            r matches Err(Apologize::EncodingError) ==> self.model().recs.contains_key(id@)
                && dec_ann(self.model().recs[id@]) is None,
            self.inv() ==> !(r matches Err(Apologize::EncodingError)),
    {
        match self.records.get(id) {
            Ok(Some(v)) => match decode_annotation(&v) {
                Some(a) => Ok(a),
                None => {
                    proof {
                        if self.inv() {
                            assert(self.model().atags.contains_key(id@)) by {
                                assert(self.model().recs.dom() =~= self.model().atags.dom());
                            }
                            let av = choose|av: AnnotationView|
                                crate::index_model::rec_matches(self.model(), id@, av);
                            crate::codec::lemma_ann_roundtrip(av);
                        }
                    }
                    Err(Apologize::EncodingError)
                },
            },
            Ok(None) => Err(Apologize::AnnotationNotFound { id: id.clone() }),
            Err(_) => Err(Apologize::StorageError),
        }
    }

    /// Lists every mirrored annotation, in stored order.
    pub fn iter_annotations(&self) -> (r: Result<Vec<Annotation>, Apologize>)
        requires
            self.inv(),
        ensures
            r matches Ok(v) ==> {
                &&& forall|i: int|
                    0 <= i < v@.len() ==> self.model().recs.contains_key((#[trigger] v@[i])@.id)
                        && dec_ann(self.model().recs[v@[i]@.id]) == Some(v@[i]@)
                &&& forall|i: int, j: int| 0 <= i < j < v@.len() ==> v@[i]@.id != v@[j]@.id
                &&& forall|id: Seq<char>|
                    self.model().recs.contains_key(id) ==> exists|i: int|
                        0 <= i < v@.len() && (#[trigger] v@[i])@.id == id
            },
            r matches Err(e) ==> e matches Apologize::StorageError,
    {
        let entries = match self.records.list() {
            Ok(es) => es,
            Err(_) => {
                return Err(Apologize::StorageError);
            },
        };
        let mut out: Vec<Annotation> = Vec::new();
        let mut i: usize = 0;
        while i < entries.len()
            invariant
                self.inv(),
                0 <= i <= entries@.len(),
                out@.len() == i,
                forall|k: int, l: int|
                    0 <= k < l < entries@.len() ==> entries@[k].0@ != entries@[l].0@,
                forall|k: int|
                    0 <= k < entries@.len() ==> self.model().recs.contains_key(
                        #[trigger] entries@[k].0@,
                    ) && self.model().recs[entries@[k].0@] == entries@[k].1@,
                forall|id: Seq<char>|
                    self.model().recs.contains_key(id) ==> exists|k: int|
                        0 <= k < entries@.len() && #[trigger] entries@[k].0@ == id,
                forall|k: int|
                    0 <= k < i ==> (#[trigger] out@[k])@.id == entries@[k].0@ && dec_ann(
                        self.model().recs[entries@[k].0@],
                    ) == Some(out@[k]@),
            decreases entries@.len() - i,
        {
            let a = match decode_annotation(&entries[i].1) {
                Some(a) => a,
                None => {
                    proof {
                        let key = entries@[i as int].0@;
                        assert(self.model().atags.contains_key(key)) by {
                            assert(self.model().recs.dom() =~= self.model().atags.dom());
                        }
                        let av = choose|av: AnnotationView|
                            crate::index_model::rec_matches(self.model(), key, av);
                        crate::codec::lemma_ann_roundtrip(av);
                    }
                    return Err(Apologize::StorageError);
                },
            };
            proof {
                let key = entries@[i as int].0@;
                assert(self.model().atags.contains_key(key)) by {
                    assert(self.model().recs.dom() =~= self.model().atags.dom());
                }
                let av = choose|av2: crate::annotation::AnnotationView|
                    crate::index_model::rec_matches(self.model(), key, av2);
                crate::codec::lemma_ann_roundtrip(av);
                assert(dec_ann(self.model().recs[key]) == Some(av));
                assert(a@ == av);
                assert(a@.id == key);
            }
            out.push(a);
            i = i + 1;
        }
        proof {
            assert forall|i2: int, j2: int|
                0 <= i2 < j2 < out@.len() implies out@[i2]@.id != out@[j2]@.id by {
                assert(out@[i2]@.id == entries@[i2].0@);
                assert(out@[j2]@.id == entries@[j2].0@);
            }
            assert forall|id: Seq<char>|
                self.model().recs.contains_key(id) implies exists|k: int|
                0 <= k < out@.len() && (#[trigger] out@[k])@.id == id by {
                let k = choose|k: int| 0 <= k < entries@.len() && #[trigger] entries@[k].0@ == id;
                assert(out@[k]@.id == id);
            }
        }
        Ok(out)
    }
}

/// Notes that every field of an in-memory annotation is small enough for
/// the record format: a vector or string held in memory always is.
fn note_bounds(a: &Annotation)
    ensures
        bounded_ann(a@),
{
    let _ = a.id.as_str().unicode_len();
    let _ = a.group.as_str().unicode_len();
    let _ = a.uri.as_str().unicode_len();
    let _ = a.text.as_str().unicode_len();
    let _ = a.tags.len();
    let _ = a.quotes.len();
    let mut k: usize = 0;
    while k < a.tags.len()
        invariant
            forall|j: int| 0 <= j < k ==> (#[trigger] a.tags@[j])@.len() < enc_limit(),
        decreases a.tags@.len() - k,
    {
        let _ = a.tags[k].as_str().unicode_len();
        k = k + 1;
    }
    let mut k2: usize = 0;
    while k2 < a.quotes.len()
        invariant
            forall|j: int| 0 <= j < k2 ==> (#[trigger] a.quotes@[j])@.len() < enc_limit(),
        decreases a.quotes@.len() - k2,
    {
        let _ = a.quotes[k2].as_str().unicode_len();
        k2 = k2 + 1;
    }
    proof {
        assert(a@.tags.len() == a.tags@.len());
        assert(forall|j: int| 0 <= j < a@.tags.len() ==> (#[trigger] a@.tags[j]).len() < enc_limit());
        assert(forall|j: int|
            0 <= j < a@.quotes.len() ==> (#[trigger] a@.quotes[j]).len() < enc_limit());
    }
}

/// Whether the index accepts this annotation: a non-empty id without the
/// list separator, and tags without the separator or a reserved sentinel.
pub fn check_valid(a: &Annotation) -> (r: bool)
    ensures
        r == valid_ann(a@),
{
    if a.id.as_str().is_empty() {
        return false;
    }
    if has_semicolon(a.id.as_str()) {
        return false;
    }
    let sentinel = String::from_str(EMPTY_TAG);
    let ignore = String::from_str(IGNORE_TAG);
    let mut k: usize = 0;
    while k < a.tags.len()
        invariant
            a@.id.len() > 0,
            sep_free(a@.id, ';'),
            sentinel@ == EMPTY_TAG@,
            ignore@ == IGNORE_TAG@,
            0 <= k <= a.tags@.len(),
            forall|j: int| 0 <= j < k ==> valid_tag_value(#[trigger] a@.tags[j]),
        decreases a.tags@.len() - k,
    {
        if has_semicolon(a.tags[k].as_str()) {
            proof {
                assert(!valid_tag_value(a@.tags[k as int]));
            }
            return false;
        }
        if a.tags[k].eq(&sentinel) || a.tags[k].eq(&ignore) {
            proof {
                assert(!valid_tag_value(a@.tags[k as int]));
            }
            return false;
        }
        proof {
            assert(a@.tags[k as int] == a.tags@[k as int]@);
            assert(valid_tag_value(a@.tags[k as int]));
        }
        k = k + 1;
    }
    true
}

/// The effective tags of a tag list: blanks dropped, first occurrences
/// only, and the empty-tag sentinel when nothing remains.
fn effective_tags(tags: &Vec<String>) -> (r: Vec<String>)
    ensures
        views_of(r@) == etags(views_of(tags@)),
{
    let mut out: Vec<String> = Vec::new();
    let mut i: usize = 0;
    while i < tags.len()
        invariant
            0 <= i <= tags@.len(),
            views_of(out@) == dedup(kept_tags(views_of(tags@).take(i as int))),
        decreases tags@.len() - i,
    {
        let ghost vs = views_of(tags@);
        proof {
            assert(vs.take(i + 1).drop_last() =~= vs.take(i as int));
            assert(vs.take(i + 1).last() == vs[i as int]);
            assert(vs[i as int] == tags@[i as int]@);
        }
        if !blank(tags[i].as_str()) {
            let ghost kept = kept_tags(vs.take(i as int));
            proof {
                assert(kept_tags(vs.take(i + 1)) == kept.push(vs[i as int]));
                assert(kept.push(vs[i as int]).drop_last() =~= kept);
                assert(kept.push(vs[i as int]).last() == vs[i as int]);
            }
            if !contains_string(&out, &tags[i]) {
                let ghost old_out = out@;
                out.push(tags[i].clone());
                proof {
                    assert(views_of(out@) =~= views_of(old_out).push(vs[i as int]));
                }
            }
        } else {
            proof {
                assert(kept_tags(vs.take(i + 1)) == kept_tags(vs.take(i as int)));
            }
        }
        i = i + 1;
    }
    proof {
        assert(views_of(tags@).take(tags@.len() as int) =~= views_of(tags@));
    }
    if out.len() == 0 {
        let mut single: Vec<String> = Vec::new();
        single.push(String::from_str(EMPTY_TAG));
        proof {
            assert(views_of(single@) =~= seq![crate::index_model::empty_tag()]);
        }
        single
    } else {
        out
    }
}

/// The list with every copy of the id removed, in order.
pub fn without_tag_strings(list: &Vec<String>, id: &String) -> (r: Vec<String>)
    ensures
        views_of(r@) == without_entry(views_of(list@), id@),
{
    let mut out: Vec<String> = Vec::new();
    let mut i: usize = 0;
    while i < list.len()
        invariant
            0 <= i <= list@.len(),
            views_of(out@) == without_entry(views_of(list@).take(i as int), id@),
        decreases list@.len() - i,
    {
        let ghost vs = views_of(list@);
        proof {
            assert(vs.take(i + 1).drop_last() =~= vs.take(i as int));
            assert(vs.take(i + 1).last() == vs[i as int]);
            assert(vs[i as int] == list@[i as int]@);
        }
        if !list[i].eq(id) {
            let ghost old_out = out@;
            out.push(list[i].clone());
            proof {
                assert(views_of(out@) =~= views_of(old_out).push(vs[i as int]));
            }
        }
        i = i + 1;
    }
    proof {
        assert(views_of(list@).take(list@.len() as int) =~= views_of(list@));
    }
    out
}

impl Gooseberry {
    /// Delete an annotation index from the tag tree; the key leaves with
    /// its last entry.
    fn delete_from_tag_to_annotations_tree(&mut self, tag: &String, annotation_id: &String) -> (r:
        Result<(), Apologize>)
        requires
            old(self).model().buckets.contains_key(tag@),
            wf_list(split_seq(old(self).model().buckets[tag@], ';')),
        ensures
            r is Ok ==> final(self).model().buckets == (match bucket_without(
                old(self).model().buckets[tag@],
                annotation_id@,
            ) {
                Some(v2) => old(self).model().buckets.insert(tag@, v2),
                None => old(self).model().buckets.remove(tag@),
            }) && final(self).model().recs == old(self).model().recs
                && final(self).model().atags == old(self).model().atags
                && final(self).model().cursor == old(self).model().cursor && (old(self).meta_ok()
                ==> final(self).meta_ok()),
            r is Err ==> r matches Err(Apologize::StorageError),
    {
        let v = match self.tag_to_annotations.get(tag) {
            Ok(Some(v)) => v,
            Ok(None) => {
                return Err(Apologize::StorageError);
            },
            Err(_) => {
                return Err(Apologize::StorageError);
            },
        };
        let list = split_ids(v.as_str());
        let kept = without_tag_strings(&list, annotation_id);
        if kept.len() == 0 {
            match self.tag_to_annotations.remove(tag) {
                Ok(_) => {
                    proof {
                        assert(without_entry(split_seq(v@, ';'), annotation_id@).len() == 0);
                    }
                    Ok(())
                },
                Err(_) => Err(Apologize::StorageError),
            }
        } else {
            let joined = join_ids(&kept);
            match self.tag_to_annotations.insert(tag, &joined) {
                Ok(_) => {
                    proof {
                        assert(without_entry(split_seq(v@, ';'), annotation_id@).len() > 0);
                        assert(joined@ == crate::utils::join_seq(
                            without_entry(split_seq(v@, ';'), annotation_id@),
                            ';',
                        ));
                    }
                    Ok(())
                },
                Err(_) => Err(Apologize::StorageError),
            }
        }
    }

    /// Delete an annotation ID from the annotation-to-tags tree, returning
    /// the stored tag list.
    fn delete_from_annotation_to_tags_tree(&mut self, id: &String) -> (r: Result<
        Vec<String>,
        Apologize,
    >)
        ensures
            r matches Ok(tags) ==> old(self).model().atags.contains_key(id@) && views_of(tags@)
                == stored_tags(old(self).model(), id@) && final(self).model().atags == old(self).model().atags.remove(id@) && final(self).model().recs == old(self).model().recs
                && final(self).model().buckets == old(self).model().buckets
                && final(self).model().cursor == old(self).model().cursor && (old(self).meta_ok()
                ==> final(self).meta_ok()),
            r matches Err(e) ==> (e matches Apologize::StorageError || (e
                matches Apologize::AnnotationNotFound { id: eid } && eid@ == id@ && !old(self).model().atags.contains_key(id@) && final(self).model() == old(self).model() && (old(self).meta_ok() ==> final(self).meta_ok()))),
    {
        match self.annotation_to_tags.remove(id) {
            Ok(Some(v)) => Ok(split_ids(v.as_str())),
            Ok(None) => {
                proof {
                    assert(final(self).model() =~= old(self).model());
                }
                Err(Apologize::AnnotationNotFound { id: id.clone() })
            },
            Err(_) => Err(Apologize::StorageError),
        }
    }

    /// Delete an annotation ID from the record store.
    fn delete_from_annotations_tree(&mut self, id: &String) -> (r: Result<(), Apologize>)
        ensures
            r is Ok ==> final(self).model().recs == old(self).model().recs.remove(id@) && final(self).model().atags == old(self).model().atags && final(self).model().buckets == old(self).model().buckets && final(self).model().cursor == old(self).model().cursor && (old(self).meta_ok() ==> final(self).meta_ok()),
            r is Err ==> r matches Err(Apologize::StorageError),
    {
        match self.records.remove(id) {
            Ok(_) => Ok(()),
            Err(_) => Err(Apologize::StorageError),
        }
    }

    /// Delete an annotation from the store and both tag trees, returning
    /// its stored tag list.
    ///
    /// A storage-engine failure is fatal: nothing is promised of the state
    /// then, and this annotation's mappings may be partially removed.
    pub fn delete_annotation(&mut self, id: &String) -> (r: Result<Vec<String>, Apologize>)
        requires
            old(self).inv(),
        ensures
            r matches Ok(tags) ==> old(self).model().atags.contains_key(id@) && views_of(tags@)
                == stored_tags(old(self).model(), id@) && final(self).model() == crate::index_model::delete_tr(
                old(self).model(),
                id@,
            ) && final(self).inv(),
            r matches Err(e) ==> (e matches Apologize::StorageError || (e
                matches Apologize::AnnotationNotFound { id: eid } && eid@ == id@ && !old(self).model().atags.contains_key(id@) && final(self).model() == old(self).model() && final(self).inv())),
    {
        let ghost m0 = old(self).model();
        let tags = match self.delete_from_annotation_to_tags_tree(id) {
            Ok(t) => t,
            Err(e) => {
                return Err(e);
            },
        };
        let ghost ts = stored_tags(m0, id@);
        let mut k: usize = 0;
        while k < tags.len()
            invariant
                crate::index_model::wf(m0),
                old(self).meta_ok(),
                m0.atags.contains_key(id@),
                views_of(tags@) == ts,
                ts == stored_tags(m0, id@),
                0 <= k <= tags@.len(),
                self.model().recs == m0.recs,
                self.model().atags == m0.atags.remove(id@),
                self.model().cursor == m0.cursor,
                self.meta_ok(),
                forall|t: Seq<char>|
                    #[trigger] opt_val(self.model().buckets, t) == bucket_after_delete(
                        m0,
                        ts.take(k as int),
                        id@,
                        t,
                    ),
            decreases tags@.len() - k,
        {
            let ghost tk = ts[k as int];
            let ghost pre = self.model();
            proof {
                assert(tags@[k as int]@ == tk);
                assert(ts.contains(tk));
                lemma_forward(m0, id@, tk);
                assert(!ts.take(k as int).contains(tk)) by {
                    if ts.take(k as int).contains(tk) {
                        let w = choose|w: int| 0 <= w < k && ts.take(k as int)[w] == tk;
                        assert(ts[w] == ts[k as int]);
                    }
                }
                assert(opt_val(pre.buckets, tk) == opt_val(m0.buckets, tk));
                assert(pre.buckets.contains_key(tk));
                assert(pre.buckets[tk] == m0.buckets[tk]);
            }
            let res = self.delete_from_tag_to_annotations_tree(&tags[k], id);
            if res.is_err() {
                return Err(Apologize::StorageError);
            }
            proof {
                assert forall|t: Seq<char>|
                    true implies #[trigger] opt_val(self.model().buckets, t)
                    == bucket_after_delete(m0, ts.take(k + 1), id@, t) by {
                    assert(ts.take(k + 1) =~= ts.take(k as int).push(tk));
                    if t == tk {
                        assert(ts.take(k + 1).contains(t)) by {
                            assert(ts.take(k + 1)[k as int] == tk);
                        }
                        assert(bucket_after_delete(m0, ts.take(k + 1), id@, t) == bucket_without(
                            m0.buckets[tk],
                            id@,
                        ));
                        match bucket_without(pre.buckets[tk], id@) {
                            Some(v2) => {
                                assert(self.model().buckets == pre.buckets.insert(tk, v2));
                                assert(opt_val(self.model().buckets, t) == Some(v2));
                            },
                            None => {
                                assert(self.model().buckets == pre.buckets.remove(tk));
                                assert(opt_val(self.model().buckets, t) is None);
                            },
                        }
                    } else {
                        assert(opt_val(self.model().buckets, t) == opt_val(pre.buckets, t)) by {
                            match bucket_without(pre.buckets[tk], id@) {
                                Some(v2) => {
                                    assert(self.model().buckets == pre.buckets.insert(tk, v2));
                                },
                                None => {
                                    assert(self.model().buckets == pre.buckets.remove(tk));
                                },
                            }
                        }
                        assert(opt_val(pre.buckets, t) == bucket_after_delete(
                            m0,
                            ts.take(k as int),
                            id@,
                            t,
                        ));
                        assert(ts.take(k + 1).contains(t) == ts.take(k as int).contains(t)) by {
                            if ts.take(k + 1).contains(t) {
                                let w = choose|w: int|
                                    0 <= w < k + 1 && #[trigger] ts.take(k + 1)[w] == t;
                                assert(w < k);
                                assert(ts.take(k as int)[w] == t);
                            }
                            if ts.take(k as int).contains(t) {
                                let w = choose|w: int| 0 <= w < k && ts.take(k as int)[w] == t;
                                assert(ts.take(k + 1)[w] == t);
                            }
                        }
                    }
                }
            }
            k = k + 1;
        }
        proof {
            assert(ts.take(ts.len() as int) =~= ts);
        }
        let res = self.delete_from_annotations_tree(id);
        if res.is_err() {
            return Err(Apologize::StorageError);
        }
        proof {
            let md = crate::index_model::delete_tr(m0, id@);
            assert forall|t: Seq<char>| #[trigger] final(self).model().buckets.contains_key(
                t,
            ) implies md.buckets.contains_key(t) && final(self).model().buckets[t]
                == md.buckets[t] by {
                assert(opt_val(final(self).model().buckets, t) == bucket_after_delete(
                    m0,
                    ts,
                    id@,
                    t,
                ));
            }
            assert forall|t: Seq<char>| #[trigger] md.buckets.contains_key(t) implies final(self).model().buckets.contains_key(t) by {
                assert(opt_val(final(self).model().buckets, t) == bucket_after_delete(
                    m0,
                    ts,
                    id@,
                    t,
                ));
            }
            assert(final(self).model().buckets =~= md.buckets);
            assert(final(self).model() =~= md);
            lemma_delete_wf(m0, id@);
        }
        Ok(tags)
    }
}

impl Gooseberry {
    /// Add a fresh annotation to all trees: its record, its tag list, and
    /// its membership in each effective tag's bucket.
    pub fn add_annotation(&mut self, annotation: &Annotation) -> (r: Result<(), Apologize>)
        requires
            old(self).inv(),
            valid_ann(annotation@),
            !old(self).model().atags.contains_key(annotation@.id),
        ensures
            r is Ok ==> final(self).model() == crate::index_model::upsert_tr(
                old(self).model(),
                annotation@,
            ) && final(self).inv(),
            r is Err ==> r matches Err(Apologize::StorageError),
    {
        note_bounds(annotation);
        let ghost m0 = old(self).model();
        let ghost av = annotation@;
        let ghost new_ts = etags(av.tags);
        proof {
            assert(av.id == annotation.id@);
            assert(av.tags == views_of(annotation.tags@));
            lemma_etags(av.tags);
            lemma_sentinels();
            crate::utils::lemma_split_join(new_ts, ';');
        }
        let ets = effective_tags(&annotation.tags);
        let joined = join_ids(&ets);
        let res = self.annotation_to_tags.insert(&annotation.id, &joined);
        if res.is_err() {
            return Err(Apologize::StorageError);
        }
        proof {
            assert(views_of(ets@) == new_ts);
            assert(joined@ == crate::utils::join_seq(new_ts, ';'));
            assert(self.model().atags == m0.atags.insert(av.id, crate::utils::join_seq(
                new_ts,
                ';',
            )));
            assert(old_tags_of(m0, av.id) == Seq::<Seq<char>>::empty());
            assert forall|t: Seq<char>|
                true implies #[trigger] opt_val(self.model().buckets, t) == bucket_after_upsert(
                m0,
                Seq::<Seq<char>>::empty(),
                new_ts.take(0),
                av.id,
                t,
            ) by {
                assert(!new_ts.take(0).contains(t));
                assert(!Seq::<Seq<char>>::empty().contains(t));
            }
        }
        let mut j: usize = 0;
        while j < ets.len()
            invariant
                crate::index_model::wf(m0),
                old(self).meta_ok(),
                m0 == old(self).model(),
                av == annotation@,
                new_ts == etags(av.tags),
                valid_ann(av),
                bounded_ann(av),
                !m0.atags.contains_key(av.id),
                views_of(ets@) == new_ts,
                wf_list(new_ts),
                0 <= j <= ets@.len(),
                self.model().recs == m0.recs,
                self.model().atags == m0.atags.insert(av.id, crate::utils::join_seq(new_ts, ';')),
                self.model().cursor == m0.cursor,
                self.meta_ok(),
                forall|t: Seq<char>|
                    #[trigger] opt_val(self.model().buckets, t) == bucket_after_upsert(
                        m0,
                        Seq::<Seq<char>>::empty(),
                        new_ts.take(j as int),
                        av.id,
                        t,
                    ),
            decreases ets@.len() - j,
        {
            let ghost tj = new_ts[j as int];
            let ghost pre = self.model();
            proof {
                assert(ets@[j as int]@ == tj);
                assert(!new_ts.take(j as int).contains(tj)) by {
                    if new_ts.take(j as int).contains(tj) {
                        let w = choose|w: int| 0 <= w < j && new_ts.take(j as int)[w] == tj;
                        assert(new_ts[w] == new_ts[j as int]);
                    }
                }
                assert(opt_val(pre.buckets, tj) == bucket_after_delete(
                    m0,
                    Seq::<Seq<char>>::empty(),
                    av.id,
                    tj,
                ));
                assert(opt_val(pre.buckets, tj) == opt_val(m0.buckets, tj));
            }
            let cur = match self.tag_to_annotations.get(&ets[j]) {
                Ok(c) => c,
                Err(_) => {
                    return Err(Apologize::StorageError);
                },
            };
            let ghost mid = opt_val(m0.buckets, tj);
            match cur {
                None => {
                    let res = self.tag_to_annotations.insert(&ets[j], &annotation.id);
                    if res.is_err() {
                        return Err(Apologize::StorageError);
                    }
                    proof {
                        assert(mid is None);
                        assert(bucket_with(mid, av.id) == av.id);
                        assert(self.model().buckets == pre.buckets.insert(tj, av.id));
                    }
                },
                Some(v) => {
                    proof {
                        assert(mid == Some(v@));
                    }
                    let list = split_ids(v.as_str());
                    if contains_string(&list, &annotation.id) {
                        proof {
                            assert(split_seq(v@, ';').contains(av.id));
                            assert(bucket_with(mid, av.id) == v@);
                            assert(self.model().buckets =~= pre.buckets.insert(tj, v@)) by {
                                assert(pre.buckets.contains_key(tj) && pre.buckets[tj] == v@);
                            }
                        }
                    } else {
                        let mut nv = v.clone();
                        nv.append(";");
                        nv.append(annotation.id.as_str());
                        let res = self.tag_to_annotations.insert(&ets[j], &nv);
                        if res.is_err() {
                            return Err(Apologize::StorageError);
                        }
                        proof {
                            reveal_strlit(";");
                            assert(";"@ =~= seq![';']);
                            assert(!split_seq(v@, ';').contains(av.id));
                            assert(nv@ == v@ + seq![';'] + av.id);
                            assert(bucket_with(mid, av.id) == nv@);
                            assert(self.model().buckets == pre.buckets.insert(tj, nv@));
                        }
                    }
                },
            }
            proof {
                let withv = bucket_with(mid, av.id);
                assert(self.model().buckets =~= pre.buckets.insert(tj, withv));
                assert forall|t: Seq<char>|
                    true implies #[trigger] opt_val(self.model().buckets, t)
                    == bucket_after_upsert(
                    m0,
                    Seq::<Seq<char>>::empty(),
                    new_ts.take(j + 1),
                    av.id,
                    t,
                ) by {
                    assert(new_ts.take(j + 1) =~= new_ts.take(j as int).push(tj));
                    if t == tj {
                        assert(new_ts.take(j + 1).contains(t)) by {
                            assert(new_ts.take(j + 1)[j as int] == tj);
                        }
                        assert(bucket_after_delete(
                            m0,
                            Seq::<Seq<char>>::empty(),
                            av.id,
                            t,
                        ) == mid);
                        assert(opt_val(self.model().buckets, t) == Some(withv));
                    } else {
                        assert(opt_val(self.model().buckets, t) == opt_val(pre.buckets, t));
                        assert(new_ts.take(j + 1).contains(t) == new_ts.take(
                            j as int,
                        ).contains(t)) by {
                            if new_ts.take(j + 1).contains(t) {
                                let w = choose|w: int|
                                    0 <= w < j + 1 && #[trigger] new_ts.take(j + 1)[w] == t;
                                assert(w < j);
                                assert(new_ts.take(j as int)[w] == t);
                            }
                            if new_ts.take(j as int).contains(t) {
                                let w = choose|w: int|
                                    0 <= w < j && new_ts.take(j as int)[w] == t;
                                assert(new_ts.take(j + 1)[w] == t);
                            }
                        }
                    }
                }
            }
            j = j + 1;
        }
        let ghost bpre = self.model().buckets;
        proof {
            assert(new_ts.take(new_ts.len() as int) =~= new_ts);
            assert(ets@.len() == new_ts.len());
            assert forall|t: Seq<char>| true implies #[trigger] opt_val(bpre, t)
                == bucket_after_upsert(m0, Seq::<Seq<char>>::empty(), new_ts, av.id, t) by {
                assert(opt_val(self.model().buckets, t) == bucket_after_upsert(
                    m0,
                    Seq::<Seq<char>>::empty(),
                    new_ts.take(new_ts.len() as int),
                    av.id,
                    t,
                ));
            }
        }
        let encoded = encode_annotation(annotation);
        let res = self.records.insert(&annotation.id, &encoded);
        if res.is_err() {
            return Err(Apologize::StorageError);
        }
        proof {
            let mu = crate::index_model::upsert_tr(m0, av);
            assert(final(self).model().recs == m0.recs.insert(av.id, enc_ann(av)));
            assert(final(self).model().buckets == bpre);
            assert forall|t: Seq<char>| #[trigger] final(self).model().buckets.contains_key(
                t,
            ) implies mu.buckets.contains_key(t) && final(self).model().buckets[t]
                == mu.buckets[t] by {
                assert(opt_val(bpre, t) == bucket_after_upsert(
                    m0,
                    Seq::<Seq<char>>::empty(),
                    new_ts,
                    av.id,
                    t,
                ));
            }
            assert forall|t: Seq<char>| #[trigger] mu.buckets.contains_key(t) implies final(self).model().buckets.contains_key(t) by {
                assert(opt_val(bpre, t) == bucket_after_upsert(
                    m0,
                    Seq::<Seq<char>>::empty(),
                    new_ts,
                    av.id,
                    t,
                ));
            }
            assert(final(self).model().buckets =~= mu.buckets);
            assert(final(self).model() =~= mu);
            lemma_upsert_wf(m0, av);
        }
        Ok(())
    }

    /// Insert or update an annotation: if the id is already present its old
    /// tag memberships are removed first, then the fresh record is inserted
    /// and both mappings rebuilt from the new tag set. An annotation with a
    /// reserved character in its id or tags, or carrying a reserved tag
    /// literal, is rejected with an encoding error and nothing changes.
    ///
    /// A storage-engine failure is fatal: nothing is promised of the state
    /// then, and a write that fails midway can leave this annotation's
    /// mappings partially applied. The storage boundary leaves a failed
    /// write unconstrained, so nothing stronger is provable.
    pub fn upsert(&mut self, annotation: &Annotation) -> (r: Result<(), Apologize>)
        requires
            old(self).inv(),
        ensures
            r is Ok ==> valid_ann(annotation@) && final(self).model()
                == crate::index_model::upsert_tr(old(self).model(), annotation@) && final(self).inv(),
            r matches Err(Apologize::EncodingError) <==> !valid_ann(annotation@),
            r matches Err(Apologize::EncodingError) ==> final(self).model() == old(self).model()
                && final(self).inv(),
            r matches Err(e) ==> (e matches Apologize::EncodingError || e
                matches Apologize::StorageError),
    {
        if !check_valid(annotation) {
            return Err(Apologize::EncodingError);
        }
        note_bounds(annotation);
        let ghost m0 = old(self).model();
        let present = match self.annotation_to_tags.contains(&annotation.id) {
            Ok(b) => b,
            Err(_) => {
                return Err(Apologize::StorageError);
            },
        };
        if present {
            match self.delete_annotation(&annotation.id) {
                Ok(_) => (),
                Err(_) => {
                    return Err(Apologize::StorageError);
                },
            }
            proof {
                crate::index_model::lemma_upsert_compose(m0, annotation@);
            }
        }
        match self.add_annotation(annotation) {
            Ok(_) => Ok(()),
            Err(_) => Err(Apologize::StorageError),
        }
    }
}

/// The tag-list views of a vector of string vectors.
pub open spec fn list_views(v: Seq<Vec<String>>) -> Seq<Seq<Seq<char>>> {
    v.map_values(|x: Vec<String>| views_of(x@))
}

impl Gooseberry {
    /// Add or update annotations from one page of remote records,
    /// classifying each as added, updated or ignored, and advance the sync
    /// cursor to the last record's update time once the whole page has been
    /// applied. A page with an unacceptable non-tombstone record is
    /// rejected whole, before anything is applied.
    ///
    /// A storage-engine failure is fatal and surfaced immediately: the
    /// cursor is then left where it was, so the next run redoes this page,
    /// but the records applied before the failure stay applied and the
    /// failing record's own mappings may be partially written.
    pub fn sync_annotations(&mut self, annotations: &Vec<Annotation>) -> (r: Result<
        (usize, usize, usize),
        Apologize,
    >)
        requires
            old(self).inv(),
        ensures
            r matches Ok(c) ==> {
                let out = sync_fold(old(self).model(), ann_views(annotations@));
                &&& page_valid(ann_views(annotations@))
                &&& final(self).model() == (if annotations@.len() == 0 {
                    out.m
                } else {
                    IndexModel { cursor: annotations@.last().updated, ..out.m }
                })
                &&& c.0 as nat == out.added
                &&& c.1 as nat == out.updated
                &&& c.2 as nat == out.ignored
                &&& final(self).inv()
            },
            r matches Err(Apologize::EncodingError) <==> !page_valid(ann_views(annotations@)),
            r matches Err(Apologize::EncodingError) ==> final(self).model() == old(self).model()
                && final(self).inv(),
            r matches Err(e) ==> (e matches Apologize::EncodingError || e
                matches Apologize::StorageError),
            annotations@.len() == 0 ==> r is Ok,
    {
        let ghost avs = ann_views(annotations@);
        let ignore = String::from_str(IGNORE_TAG);
        let mut k: usize = 0;
        while k < annotations.len()
            invariant
                *self == *old(self),
                old(self).inv(),
                ignore@ == IGNORE_TAG@,
                avs == ann_views(annotations@),
                0 <= k <= annotations@.len(),
                forall|j: int| 0 <= j < k ==> has_ignore(#[trigger] avs[j]) || valid_ann(avs[j]),
            decreases annotations@.len() - k,
        {
            proof {
                assert(avs[k as int] == annotations@[k as int]@);
            }
            if !contains_string(&annotations[k].tags, &ignore) {
                if !check_valid(&annotations[k]) {
                    proof {
                        assert(!has_ignore(avs[k as int]) && !valid_ann(avs[k as int]));
                    }
                    return Err(Apologize::EncodingError);
                }
            }
            k = k + 1;
        }
        let mut added: usize = 0;
        let mut updated: usize = 0;
        let mut ignored: usize = 0;
        let mut i: usize = 0;
        let ghost m0 = old(self).model();
        proof {
            assert(avs.skip(0) =~= avs);
            assert(sync_fold(m0, avs) =~= (SyncOutcome {
                m: sync_fold(self.model(), avs.skip(0)).m,
                added: sync_fold(self.model(), avs.skip(0)).added + 0,
                updated: sync_fold(self.model(), avs.skip(0)).updated + 0,
                ignored: sync_fold(self.model(), avs.skip(0)).ignored + 0,
            }));
        }
        while i < annotations.len()
            invariant
                ignore@ == IGNORE_TAG@,
                avs == ann_views(annotations@),
                m0 == old(self).model(),
                page_valid(avs),
                0 <= i <= annotations@.len(),
                added + updated + ignored <= i,
                self.inv(),
                sync_fold(m0, avs) == (SyncOutcome {
                    m: sync_fold(self.model(), avs.skip(i as int)).m,
                    added: sync_fold(self.model(), avs.skip(i as int)).added + added as nat,
                    updated: sync_fold(self.model(), avs.skip(i as int)).updated + updated as nat,
                    ignored: sync_fold(self.model(), avs.skip(i as int)).ignored + ignored as nat,
                }),
            decreases annotations@.len() - i,
        {
            let ghost pre = self.model();
            let ghost av = avs[i as int];
            proof {
                assert(av == annotations@[i as int]@);
                assert(avs.skip(i as int)[0] == av);
                assert(avs.skip(i as int).skip(1) =~= avs.skip(i + 1));
            }
            let a = &annotations[i];
            if contains_string(&a.tags, &ignore) {
                let present = match self.annotation_to_tags.contains(&a.id) {
                    Ok(b) => b,
                    Err(_) => {
                        return Err(Apologize::StorageError);
                    },
                };
                if present {
                    match self.delete_annotation(&a.id) {
                        Ok(_) => (),
                        Err(_) => {
                            return Err(Apologize::StorageError);
                        },
                    }
                }
                ignored = ignored + 1;
            } else {
                let present = match self.annotation_to_tags.contains(&a.id) {
                    Ok(b) => b,
                    Err(_) => {
                        return Err(Apologize::StorageError);
                    },
                };
                match self.upsert(a) {
                    Ok(_) => (),
                    Err(_) => {
                        return Err(Apologize::StorageError);
                    },
                }
                if present {
                    updated = updated + 1;
                } else {
                    added = added + 1;
                }
            }
            i = i + 1;
        }
        proof {
            assert(avs.skip(avs.len() as int) =~= Seq::<AnnotationView>::empty());
        }
        if annotations.len() > 0 {
            let last_updated = annotations[annotations.len() - 1].updated;
            proof {
                assert(annotations@.last()@ == avs.last());
            }
            match self.set_sync_time(last_updated) {
                Ok(_) => (),
                Err(_) => {
                    return Err(Apologize::StorageError);
                },
            }
        }
        Ok((added, updated, ignored))
    }

    /// Delete multiple annotations, one logical unit with the same
    /// semantics as repeated `delete_annotation`; the first missing id
    /// stops the batch there.
    pub fn delete_annotations(&mut self, ids: &Vec<String>) -> (r: Result<
        Vec<Vec<String>>,
        Apologize,
    >)
        requires
            old(self).inv(),
        ensures
            r matches Ok(tl) ==> all_deletable(old(self).model(), views_of(ids@)) && final(self).model() == delete_partial(old(self).model(), views_of(ids@)) && list_views(tl@)
                == delete_lists(old(self).model(), views_of(ids@)) && final(self).inv(),
            r matches Err(e) ==> (e matches Apologize::StorageError || (e
                matches Apologize::AnnotationNotFound { .. } && !all_deletable(
                old(self).model(),
                views_of(ids@),
            ) && final(self).model() == delete_partial(old(self).model(), views_of(ids@))
                && final(self).inv())),
            ids@.len() == 0 ==> r is Ok,
    {
        let ghost m0 = old(self).model();
        let ghost vs = views_of(ids@);
        let mut out: Vec<Vec<String>> = Vec::new();
        let mut i: usize = 0;
        proof {
            assert(vs.skip(0) =~= vs);
            assert(list_views(out@) =~= Seq::<Seq<Seq<char>>>::empty());
            assert(Seq::<Seq<Seq<char>>>::empty() + delete_lists(m0, vs) =~= delete_lists(
                m0,
                vs,
            ));
        }
        while i < ids.len()
            invariant
                m0 == old(self).model(),
                vs == views_of(ids@),
                0 <= i <= ids@.len(),
                self.inv(),
                delete_partial(m0, vs) == delete_partial(self.model(), vs.skip(i as int)),
                all_deletable(m0, vs) == all_deletable(self.model(), vs.skip(i as int)),
                all_deletable(self.model(), vs.skip(i as int)) ==> delete_lists(m0, vs)
                    == list_views(out@) + delete_lists(self.model(), vs.skip(i as int)),
            decreases ids@.len() - i,
        {
            let ghost pre = self.model();
            proof {
                assert(vs.skip(i as int)[0] == ids@[i as int]@);
                assert(vs.skip(i as int).skip(1) =~= vs.skip(i + 1));
            }
            match self.delete_annotation(&ids[i]) {
                Ok(tags) => {
                    let ghost old_out = out@;
                    out.push(tags);
                    proof {
                        assert(list_views(out@) =~= list_views(old_out).push(stored_tags(
                            pre,
                            vs[i as int],
                        )));
                        if all_deletable(self.model(), vs.skip(i + 1)) {
                            assert(list_views(old_out) + (seq![stored_tags(pre, vs[i as int])]
                                + delete_lists(self.model(), vs.skip(i + 1))) =~= list_views(
                                out@,
                            ) + delete_lists(self.model(), vs.skip(i + 1)));
                        }
                    }
                },
                Err(e) => {
                    if matches!(e, Apologize::AnnotationNotFound { .. }) {
                        proof {
                            assert(!pre.atags.contains_key(vs.skip(i as int)[0]));
                            assert(!all_deletable(pre, vs.skip(i as int)));
                            assert(delete_partial(pre, vs.skip(i as int)) == pre);
                        }
                        return Err(e);
                    }
                    return Err(Apologize::StorageError);
                },
            }
            i = i + 1;
        }
        proof {
            assert(vs.skip(vs.len() as int) =~= Seq::<Seq<char>>::empty());
            assert(list_views(out@) + Seq::<Seq<Seq<char>>>::empty() =~= list_views(out@));
        }
        Ok(out)
    }
}

} // verus!
