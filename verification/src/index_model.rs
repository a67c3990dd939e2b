//! The mathematical model of the local index: the record store and the two
//! derived tag maps, the well-formedness invariant that keeps them
//! bidirectionally consistent, and the transformers that say exactly what
//! `upsert` and `delete` do to the model.

use vstd::prelude::*;

use crate::codec::bounded_ann;
use crate::codec::enc_ann;
use crate::annotation::AnnotationView;
use crate::utils::is_blank;
use crate::utils::join_seq;
use crate::utils::lemma_first_sep_absent;
use crate::utils::lemma_split_join;
use crate::utils::sep_free;
use crate::utils::split_seq;
use crate::EMPTY_TAG;
use crate::IGNORE_TAG;

verus! {

/// The sentinel tag standing for "no tags".
pub open spec fn empty_tag() -> Seq<char> {
    EMPTY_TAG@
}

/// The sentinel tag meaning "remove this record locally".
pub open spec fn ignore_tag() -> Seq<char> {
    IGNORE_TAG@
}

/// The model of the index: the three raw maps and the sync cursor.
#[verifier::ext_equal]
pub ghost struct IndexModel {
    /// id to encoded record
    pub recs: Map<Seq<char>, Seq<char>>,
    /// id to semicolon-joined effective tag list
    pub atags: Map<Seq<char>, Seq<char>>,
    /// tag to semicolon-joined id list
    pub buckets: Map<Seq<char>, Seq<char>>,
    /// the sync watermark
    pub cursor: u64,
}

/// The model of a store with nothing in it.
pub open spec fn empty_model() -> IndexModel {
    IndexModel { recs: Map::empty(), atags: Map::empty(), buckets: Map::empty(), cursor: 0 }
}

/// A lookup that distinguishes an absent key from a stored value.
pub open spec fn opt_val(m: Map<Seq<char>, Seq<char>>, k: Seq<char>) -> Option<Seq<char>> {
    if m.contains_key(k) {
        Some(m[k])
    } else {
        None
    }
}

/// The stored tag list of `id` (meaningful when `id` is present).
pub open spec fn stored_tags(m: IndexModel, id: Seq<char>) -> Seq<Seq<char>> {
    split_seq(m.atags[id], ';')
}

/// The stored tag list of `id`, or empty when absent.
pub open spec fn old_tags_of(m: IndexModel, id: Seq<char>) -> Seq<Seq<char>> {
    if m.atags.contains_key(id) {
        stored_tags(m, id)
    } else {
        Seq::empty()
    }
}

/// The ids filed under tag `t`, as a set; empty when the tag is unknown.
pub open spec fn bucket_ids(m: IndexModel, t: Seq<char>) -> Set<Seq<char>> {
    if m.buckets.contains_key(t) {
        split_seq(m.buckets[t], ';').to_set()
    } else {
        Set::empty()
    }
}

/// What `tags_of` answers for a present id: the stored list, with the
/// sentinel read back as the empty list.
pub open spec fn tags_view(m: IndexModel, id: Seq<char>) -> Seq<Seq<char>> {
    if stored_tags(m, id) == seq![empty_tag()] {
        Seq::empty()
    } else {
        stored_tags(m, id)
    }
}

/// A tag value an annotation may carry: no list separator, and neither
/// reserved sentinel.
pub open spec fn valid_tag_value(t: Seq<char>) -> bool {
    sep_free(t, ';') && t != empty_tag() && t != ignore_tag()
}

/// An annotation the index accepts: a usable id and acceptable tag values.
pub open spec fn valid_ann(av: AnnotationView) -> bool {
    &&& av.id.len() > 0
    &&& sep_free(av.id, ';')
    &&& forall|k: int| 0 <= k < av.tags.len() ==> valid_tag_value(#[trigger] av.tags[k])
}

/// Whether a record carries the ignore sentinel.
pub open spec fn has_ignore(av: AnnotationView) -> bool {
    av.tags.contains(ignore_tag())
}

/// The non-blank tags of a list, in order.
pub open spec fn kept_tags(tags: Seq<Seq<char>>) -> Seq<Seq<char>>
    decreases tags.len(),
{
    if tags.len() == 0 {
        Seq::empty()
    } else {
        let rest = kept_tags(tags.drop_last());
        if is_blank(tags.last()) {
            rest
        } else {
            rest.push(tags.last())
        }
    }
}

/// First occurrences only.
pub open spec fn dedup(ts: Seq<Seq<char>>) -> Seq<Seq<char>>
    decreases ts.len(),
{
    if ts.len() == 0 {
        Seq::empty()
    } else {
        let rest = dedup(ts.drop_last());
        if rest.contains(ts.last()) {
            rest
        } else {
            rest.push(ts.last())
        }
    }
}

/// The effective tag list of an annotation: non-blank tags, first
/// occurrences only, or the empty-tag sentinel when none remain.
pub open spec fn etags(tags: Seq<Seq<char>>) -> Seq<Seq<char>> {
    let ks = dedup(kept_tags(tags));
    if ks.len() == 0 {
        seq![empty_tag()]
    } else {
        ks
    }
}

/// `ts` with every occurrence of `id` removed.
pub open spec fn without_entry(ts: Seq<Seq<char>>, id: Seq<char>) -> Seq<Seq<char>>
    decreases ts.len(),
{
    if ts.len() == 0 {
        Seq::empty()
    } else {
        let rest = without_entry(ts.drop_last(), id);
        if ts.last() == id {
            rest
        } else {
            rest.push(ts.last())
        }
    }
}

/// The bucket value after removing `id`: nothing when nothing remains.
pub open spec fn bucket_without(v: Seq<char>, id: Seq<char>) -> Option<Seq<char>> {
    let rest = without_entry(split_seq(v, ';'), id);
    if rest.len() == 0 {
        None
    } else {
        Some(join_seq(rest, ';'))
    }
}

/// The bucket value after adding `id` at the end, if it is absent.
pub open spec fn bucket_with(v: Option<Seq<char>>, id: Seq<char>) -> Seq<char> {
    match v {
        None => id,
        Some(v0) => if split_seq(v0, ';').contains(id) {
            v0
        } else {
            v0 + seq![';'] + id
        },
    }
}

/// One bucket after `delete(id)`, where `ts` was the stored tag list.
pub open spec fn bucket_after_delete(
    m: IndexModel,
    ts: Seq<Seq<char>>,
    id: Seq<char>,
    t: Seq<char>,
) -> Option<Seq<char>> {
    if ts.contains(t) && m.buckets.contains_key(t) {
        bucket_without(m.buckets[t], id)
    } else {
        opt_val(m.buckets, t)
    }
}

/// One bucket after `upsert`: the old memberships of `id` leave, then the
/// new ones come in.
pub open spec fn bucket_after_upsert(
    m: IndexModel,
    old_ts: Seq<Seq<char>>,
    new_ts: Seq<Seq<char>>,
    id: Seq<char>,
    t: Seq<char>,
) -> Option<Seq<char>> {
    let mid = bucket_after_delete(m, old_ts, id, t);
    if new_ts.contains(t) {
        Some(bucket_with(mid, id))
    } else {
        mid
    }
}

/// The whole index after `upsert(av)`: delete-then-insert on the tag maps,
/// a plain overwrite of the record.
pub open spec fn upsert_tr(m: IndexModel, av: AnnotationView) -> IndexModel {
    let old_ts = old_tags_of(m, av.id);
    let new_ts = etags(av.tags);
    IndexModel {
        recs: m.recs.insert(av.id, enc_ann(av)),
        atags: m.atags.insert(av.id, join_seq(new_ts, ';')),
        buckets: Map::new(
            |t: Seq<char>| bucket_after_upsert(m, old_ts, new_ts, av.id, t) is Some,
            |t: Seq<char>| bucket_after_upsert(m, old_ts, new_ts, av.id, t)->Some_0,
        ),
        cursor: m.cursor,
    }
}

/// The whole index after `delete(id)` (meaningful when `id` is present).
pub open spec fn delete_tr(m: IndexModel, id: Seq<char>) -> IndexModel {
    let ts = stored_tags(m, id);
    IndexModel {
        recs: m.recs.remove(id),
        atags: m.atags.remove(id),
        buckets: Map::new(
            |t: Seq<char>| bucket_after_delete(m, ts, id, t) is Some,
            |t: Seq<char>| bucket_after_delete(m, ts, id, t)->Some_0,
        ),
        cursor: m.cursor,
    }
}

/// A well-formed stored list: at least one entry, all non-empty, none with
/// the separator, no duplicates.
pub open spec fn wf_list(ts: Seq<Seq<char>>) -> bool {
    &&& ts.len() >= 1
    &&& forall|k: int| 0 <= k < ts.len() ==> (#[trigger] ts[k]).len() > 0 && sep_free(ts[k], ';')
    &&& forall|i: int, j: int| 0 <= i < j < ts.len() ==> ts[i] != ts[j]
}

/// The record of `id` is the encoding of an annotation that carries that id
/// and whose effective tags are the stored list.
pub open spec fn rec_matches(m: IndexModel, id: Seq<char>, av: AnnotationView) -> bool {
    &&& m.recs.contains_key(id)
    &&& m.recs[id] == enc_ann(av)
    &&& av.id == id
    &&& etags(av.tags) == stored_tags(m, id)
    &&& bounded_ann(av)
    &&& valid_ann(av)
}

/// The stored list of a present id is the sentinel alone, or sentinel-free
/// valid tag values.
pub open spec fn wf_stored_tags(ts: Seq<Seq<char>>) -> bool {
    ts == seq![empty_tag()] || (forall|k: int|
        0 <= k < ts.len() ==> valid_tag_value(#[trigger] ts[k]))
}

/// Well-formedness of the whole index: the derived maps are mutually
/// consistent and every stored value is canonical.
pub open spec fn wf(m: IndexModel) -> bool {
    &&& m.recs.dom() =~= m.atags.dom()
    &&& forall|id: Seq<char>|
        #[trigger] m.atags.contains_key(id) ==> id.len() > 0 && sep_free(id, ';')
    &&& forall|id: Seq<char>|
        #[trigger] m.atags.contains_key(id) ==> wf_list(stored_tags(m, id)) && wf_stored_tags(
            stored_tags(m, id),
        )
    &&& forall|id: Seq<char>|
        #[trigger] m.atags.contains_key(id) ==> exists|av: AnnotationView|
            rec_matches(m, id, av)
    &&& forall|id: Seq<char>, k: int|
        m.atags.contains_key(id) && 0 <= k < stored_tags(m, id).len() ==> bucket_ids(
            m,
            #[trigger] stored_tags(m, id)[k],
        ).contains(id)
    &&& forall|t: Seq<char>|
        #[trigger] m.buckets.contains_key(t) ==> t.len() > 0 && sep_free(t, ';') && wf_list(
            split_seq(m.buckets[t], ';'),
        )
    &&& forall|t: Seq<char>, k: int|
        m.buckets.contains_key(t) && 0 <= k < split_seq(m.buckets[t], ';').len()
            ==> m.atags.contains_key(#[trigger] split_seq(m.buckets[t], ';')[k]) && stored_tags(
            m,
            split_seq(m.buckets[t], ';')[k],
        ).contains(t)
}

/// The empty index is well-formed.
pub proof fn lemma_empty_wf()
    ensures
        wf(empty_model()),
{
}

/// Membership and shape of `kept_tags`.
pub proof fn lemma_kept_tags(tags: Seq<Seq<char>>)
    ensures
        forall|x: Seq<char>|
            #[trigger] kept_tags(tags).contains(x) <==> tags.contains(x) && !is_blank(x),
    decreases tags.len(),
{
    if tags.len() > 0 {
        lemma_kept_tags(tags.drop_last());
        let rest = kept_tags(tags.drop_last());
        assert forall|x: Seq<char>| #[trigger]
            kept_tags(tags).contains(x) implies tags.contains(x) && !is_blank(x) by {
            if rest.contains(x) {
                assert(tags.drop_last().contains(x));
                let w = choose|w: int|
                    0 <= w < tags.drop_last().len() && tags.drop_last()[w] == x;
                assert(tags[w] == x);
            } else {
                assert(x == tags.last());
                assert(tags[tags.len() - 1] == x);
            }
        }
        assert forall|x: Seq<char>|
            tags.contains(x) && !is_blank(x) implies #[trigger] kept_tags(tags).contains(x) by {
            let w = choose|w: int| 0 <= w < tags.len() && tags[w] == x;
            if w < tags.len() - 1 {
                assert(tags.drop_last()[w] == x);
                assert(rest.contains(x));
                if !is_blank(tags.last()) {
                    assert(kept_tags(tags)[choose|v: int|
                        0 <= v < rest.len() && rest[v] == x] == x);
                }
            } else {
                assert(x == tags.last());
                assert(kept_tags(tags).last() == x);
            }
        }
    }
}

/// `dedup` keeps membership and has no duplicates.
pub proof fn lemma_dedup(ts: Seq<Seq<char>>)
    ensures
        forall|x: Seq<char>| #[trigger] dedup(ts).contains(x) <==> ts.contains(x),
        forall|i: int, j: int| 0 <= i < j < dedup(ts).len() ==> dedup(ts)[i] != dedup(ts)[j],
    decreases ts.len(),
{
    if ts.len() > 0 {
        lemma_dedup(ts.drop_last());
        let rest = dedup(ts.drop_last());
        assert forall|x: Seq<char>| #[trigger] dedup(ts).contains(x) implies ts.contains(x) by {
            if rest.contains(x) {
                assert(ts.drop_last().contains(x));
                let w = choose|w: int|
                    0 <= w < ts.drop_last().len() && ts.drop_last()[w] == x;
                assert(ts[w] == x);
            } else {
                assert(x == ts.last());
                assert(ts[ts.len() - 1] == x);
            }
        }
        assert forall|x: Seq<char>| ts.contains(x) implies #[trigger] dedup(ts).contains(x) by {
            let w = choose|w: int| 0 <= w < ts.len() && ts[w] == x;
            if w < ts.len() - 1 {
                assert(ts.drop_last()[w] == x);
                assert(rest.contains(x));
                if !rest.contains(ts.last()) {
                    let v = choose|v: int| 0 <= v < rest.len() && rest[v] == x;
                    assert(dedup(ts)[v] == x);
                }
            } else {
                assert(x == ts.last());
                if rest.contains(x) {
                } else {
                    assert(dedup(ts).last() == x);
                }
            }
        }
        assert forall|i: int, j: int|
            0 <= i < j < dedup(ts).len() implies dedup(ts)[i] != dedup(ts)[j] by {
            if !rest.contains(ts.last()) && j == dedup(ts).len() - 1 {
                assert(dedup(ts)[i] == rest[i]);
                assert(rest.contains(rest[i]));
            }
        }
    }
}

/// `without_entry` removes exactly `id` and preserves order, absence of
/// duplicates and element properties.
pub proof fn lemma_without_entry(ts: Seq<Seq<char>>, id: Seq<char>)
    ensures
        forall|x: Seq<char>|
            #[trigger] without_entry(ts, id).contains(x) <==> ts.contains(x) && x != id,
        forall|k: int|
            0 <= k < without_entry(ts, id).len() ==> ts.contains(
                #[trigger] without_entry(ts, id)[k],
            ),
        !ts.contains(id) ==> without_entry(ts, id) == ts,
        (forall|i: int, j: int| 0 <= i < j < ts.len() ==> ts[i] != ts[j]) ==> forall|
            i: int,
            j: int,
        |
            0 <= i < j < without_entry(ts, id).len() ==> without_entry(ts, id)[i]
                != without_entry(ts, id)[j],
    decreases ts.len(),
{
    if ts.len() > 0 {
        lemma_without_entry(ts.drop_last(), id);
        let rest = without_entry(ts.drop_last(), id);
        assert(forall|i: int|
            0 <= i < ts.drop_last().len() ==> ts.drop_last()[i] == ts[i]);
        assert forall|x: Seq<char>| #[trigger]
            without_entry(ts, id).contains(x) implies ts.contains(x) && x != id by {
            if rest.contains(x) {
                assert(ts.drop_last().contains(x));
                let w = choose|w: int|
                    0 <= w < ts.drop_last().len() && ts.drop_last()[w] == x;
                assert(ts[w] == x);
            } else {
                assert(x == ts.last());
                assert(ts[ts.len() - 1] == x);
            }
        }
        assert forall|x: Seq<char>|
            ts.contains(x) && x != id implies #[trigger] without_entry(ts, id).contains(x) by {
            let w = choose|w: int| 0 <= w < ts.len() && ts[w] == x;
            if w < ts.len() - 1 {
                assert(ts.drop_last()[w] == x);
                assert(rest.contains(x));
                if ts.last() != id {
                    let v = choose|v: int| 0 <= v < rest.len() && rest[v] == x;
                    assert(without_entry(ts, id)[v] == x);
                }
            } else {
                assert(x == ts.last());
                assert(without_entry(ts, id).last() == x);
            }
        }
        assert forall|k: int|
            0 <= k < without_entry(ts, id).len() implies ts.contains(
            #[trigger] without_entry(ts, id)[k],
        ) by {
            assert(without_entry(ts, id).contains(without_entry(ts, id)[k]));
        }
        if !ts.contains(id) {
            assert(!ts.drop_last().contains(id)) by {
                if ts.drop_last().contains(id) {
                    let w = choose|w: int|
                        0 <= w < ts.drop_last().len() && ts.drop_last()[w] == id;
                    assert(ts[w] == id);
                }
            }
            assert(ts.last() != id) by {
                assert(ts[ts.len() - 1] == ts.last());
            }
            assert(without_entry(ts, id) =~= ts);
        }
        if forall|i: int, j: int| 0 <= i < j < ts.len() ==> ts[i] != ts[j] {
            assert(forall|i: int, j: int|
                0 <= i < j < ts.drop_last().len() ==> ts.drop_last()[i] != ts.drop_last()[j]);
            assert forall|i: int, j: int|
                0 <= i < j < without_entry(ts, id).len() implies without_entry(ts, id)[i]
                != without_entry(ts, id)[j] by {
                if ts.last() != id && j == without_entry(ts, id).len() - 1 {
                    assert(without_entry(ts, id)[i] == rest[i]);
                    assert(rest.contains(rest[i]));
                    assert(ts.drop_last().contains(rest[i]));
                    let w = choose|w: int|
                        0 <= w < ts.drop_last().len() && ts.drop_last()[w] == rest[i];
                    assert(ts[w] == rest[i]);
                    assert(ts[ts.len() - 1] == ts.last());
                }
            }
        }
    }
}

/// The effective tag list is always a well-formed stored list, and its
/// members are the non-blank tags (or the sentinel when there are none).
pub proof fn lemma_etags(tags: Seq<Seq<char>>)
    requires
        forall|k: int| 0 <= k < tags.len() ==> valid_tag_value(#[trigger] tags[k]),
    ensures
        wf_list(etags(tags)),
        wf_stored_tags(etags(tags)),
        forall|x: Seq<char>|
            #[trigger] etags(tags).contains(x) <==> (tags.contains(x) && !is_blank(x)) || (x
                == empty_tag() && kept_tags(tags).len() == 0),
{
    lemma_sentinels();
    lemma_kept_tags(tags);
    lemma_dedup(kept_tags(tags));
    let ks = dedup(kept_tags(tags));
    if ks.len() == 0 {
        assert(etags(tags) =~= seq![empty_tag()]);
        assert(etags(tags)[0] == empty_tag());
        assert forall|x: Seq<char>| #[trigger]
            etags(tags).contains(x) implies (tags.contains(x) && !is_blank(x)) || (x
            == empty_tag() && kept_tags(tags).len() == 0) by {
            assert(x == empty_tag());
            if kept_tags(tags).len() > 0 {
                assert(ks.contains(kept_tags(tags)[0]) == kept_tags(tags).contains(
                    kept_tags(tags)[0],
                ));
                assert(kept_tags(tags).contains(kept_tags(tags)[0]));
                assert(ks.len() > 0);
            }
        }
        assert forall|x: Seq<char>|
            (tags.contains(x) && !is_blank(x)) || (x == empty_tag() && kept_tags(tags).len()
                == 0) implies #[trigger] etags(tags).contains(x) by {
            if tags.contains(x) && !is_blank(x) {
                assert(kept_tags(tags).contains(x));
                assert(ks.contains(x));
            } else {
                assert(etags(tags)[0] == x);
            }
        }
    } else {
        assert forall|k: int| 0 <= k < ks.len() implies (#[trigger] ks[k]).len() > 0
            && sep_free(ks[k], ';') by {
            assert(ks.contains(ks[k]));
            assert(tags.contains(ks[k]));
            assert(!is_blank(ks[k]));
            assert(ks[k].len() > 0) by {
                if ks[k].len() == 0 {
                    assert(is_blank(ks[k]));
                }
            }
        }
        assert forall|k: int| 0 <= k < ks.len() implies valid_tag_value(#[trigger] ks[k]) by {
            assert(ks.contains(ks[k]));
            assert(tags.contains(ks[k]));
        }
        assert forall|x: Seq<char>|
            (tags.contains(x) && !is_blank(x)) || (x == empty_tag() && kept_tags(tags).len()
                == 0) implies #[trigger] etags(tags).contains(x) by {
            if tags.contains(x) && !is_blank(x) {
                assert(kept_tags(tags).contains(x));
            } else {
                assert(kept_tags(tags).len() == 0);
                assert(ks.len() == 0);
            }
        }
        assert forall|x: Seq<char>| #[trigger]
            etags(tags).contains(x) implies (tags.contains(x) && !is_blank(x)) || (x
            == empty_tag() && kept_tags(tags).len() == 0) by {
            assert(ks.contains(x));
            assert(kept_tags(tags).contains(x));
        }
    }
}

/// The two sentinels are non-empty, separator-free, distinct words.
pub proof fn lemma_sentinels()
    ensures
        empty_tag().len() > 0,
        ignore_tag().len() > 0,
        sep_free(empty_tag(), ';'),
        sep_free(ignore_tag(), ';'),
        empty_tag() != ignore_tag(),
        !is_blank(empty_tag()),
        !is_blank(ignore_tag()),
{
    reveal_strlit("Untagged");
    reveal_strlit("gooseberry_ignore");
    assert(empty_tag().len() == 8);
    assert(ignore_tag().len() == 17);
    assert(empty_tag()[0] == 'U');
    assert(ignore_tag()[0] == 'g');
    assert(forall|i: int| 0 <= i < 8 ==> empty_tag()[i] != ';');
    assert(forall|i: int| 0 <= i < 17 ==> ignore_tag()[i] != ';');
}

/// Splitting a one-entry value gives the entry back.
pub proof fn lemma_split_single(x: Seq<char>)
    requires
        sep_free(x, ';'),
    ensures
        split_seq(x, ';') == seq![x],
{
    lemma_first_sep_absent(x, ';');
}

/// What removing an id does to a well-formed bucket value.
pub proof fn lemma_bucket_without(v: Seq<char>, id: Seq<char>)
    requires
        wf_list(split_seq(v, ';')),
    ensures
        bucket_without(v, id) matches Some(v2) ==> split_seq(v2, ';') == without_entry(
            split_seq(v, ';'),
            id,
        ) && wf_list(split_seq(v2, ';')),
        bucket_without(v, id) is None <==> without_entry(split_seq(v, ';'), id).len() == 0,
{
    let ts = split_seq(v, ';');
    let rest = without_entry(ts, id);
    lemma_without_entry(ts, id);
    if rest.len() > 0 {
        assert forall|k: int| 0 <= k < rest.len() implies (#[trigger] rest[k]).len() > 0
            && sep_free(rest[k], ';') by {
            assert(ts.contains(rest[k]));
            let w = choose|w: int| 0 <= w < ts.len() && ts[w] == rest[k];
        }
        lemma_split_join(rest, ';');
    }
}

/// What adding an id does to a well-formed (or absent) bucket value.
pub proof fn lemma_bucket_with(v: Option<Seq<char>>, id: Seq<char>)
    requires
        id.len() > 0,
        sep_free(id, ';'),
        v matches Some(v0) ==> wf_list(split_seq(v0, ';')),
    ensures
        split_seq(bucket_with(v, id), ';') == (match v {
            None => seq![id],
            Some(v0) => if split_seq(v0, ';').contains(id) {
                split_seq(v0, ';')
            } else {
                split_seq(v0, ';').push(id)
            },
        }),
        wf_list(split_seq(bucket_with(v, id), ';')),
        split_seq(bucket_with(v, id), ';').contains(id),
{
    match v {
        None => {
            lemma_split_single(id);
            assert(split_seq(bucket_with(v, id), ';')[0] == id);
        },
        Some(v0) => {
            let ts = split_seq(v0, ';');
            if ts.contains(id) {
            } else {
                lemma_split_single(id);
                crate::utils::lemma_split_concat(v0, id, ';');
                assert(split_seq(v0 + seq![';'] + id, ';') == ts + seq![id]);
                assert(ts + seq![id] =~= ts.push(id));
                assert(split_seq(bucket_with(v, id), ';') == ts.push(id));
                assert(ts.push(id)[ts.len() as int] == id);
                assert forall|i: int, j: int|
                    0 <= i < j < ts.push(id).len() implies ts.push(id)[i] != ts.push(id)[j] by {
                    if j == ts.len() {
                        assert(ts.contains(ts[i]));
                    }
                }
            }
        },
    }
}

/// Instantiates the forward inclusion of `wf`.
pub proof fn lemma_forward(m: IndexModel, id: Seq<char>, t: Seq<char>)
    requires
        wf(m),
        m.atags.contains_key(id),
        stored_tags(m, id).contains(t),
    ensures
        m.buckets.contains_key(t),
        split_seq(m.buckets[t], ';').contains(id),
        bucket_ids(m, t).contains(id),
{
    let k = choose|k: int| 0 <= k < stored_tags(m, id).len() && stored_tags(m, id)[k] == t;
    assert(bucket_ids(m, stored_tags(m, id)[k]).contains(id));
    assert(m.buckets.contains_key(t)) by {
        if !m.buckets.contains_key(t) {
            assert(bucket_ids(m, t) == Set::<Seq<char>>::empty());
        }
    }
    assert(split_seq(m.buckets[t], ';').to_set().contains(id));
}

/// Instantiates the backward inclusion of `wf`.
pub proof fn lemma_backward(m: IndexModel, t: Seq<char>, id: Seq<char>)
    requires
        wf(m),
        m.buckets.contains_key(t),
        split_seq(m.buckets[t], ';').contains(id),
    ensures
        m.atags.contains_key(id),
        stored_tags(m, id).contains(t),
{
    let k = choose|k: int|
        0 <= k < split_seq(m.buckets[t], ';').len() && split_seq(m.buckets[t], ';')[k] == id;
    assert(m.atags.contains_key(split_seq(m.buckets[t], ';')[k]));
}

/// An id that is not recorded sits in no bucket.
pub proof fn lemma_absent_in_no_bucket(m: IndexModel, id: Seq<char>, t: Seq<char>)
    requires
        wf(m),
        !m.atags.contains_key(id),
        m.buckets.contains_key(t),
    ensures
        !split_seq(m.buckets[t], ';').contains(id),
{
    if split_seq(m.buckets[t], ';').contains(id) {
        lemma_backward(m, t, id);
    }
}

/// Well-formedness survives `delete`, and the result is exactly the
/// transformer's say.
pub proof fn lemma_delete_wf(m: IndexModel, id: Seq<char>)
    requires
        wf(m),
        m.atags.contains_key(id),
    ensures
        wf(delete_tr(m, id)),
{
    let mu = delete_tr(m, id);
    let ts = stored_tags(m, id);
    assert forall|t: Seq<char>| #[trigger] mu.buckets.contains_key(t) implies
        bucket_after_delete(m, ts, id, t) is Some && mu.buckets[t] == bucket_after_delete(
        m,
        ts,
        id,
        t,
    )->Some_0 by {}
    assert(mu.recs.dom() =~= mu.atags.dom());
    assert forall|id2: Seq<char>| #[trigger] mu.atags.contains_key(id2) implies id2.len() > 0
        && sep_free(id2, ';') && wf_list(stored_tags(mu, id2)) && wf_stored_tags(
        stored_tags(mu, id2),
    ) && (exists|av: AnnotationView| rec_matches(mu, id2, av)) by {
        assert(m.atags.contains_key(id2) && id2 != id);
        assert(stored_tags(mu, id2) == stored_tags(m, id2));
        let av = choose|av: AnnotationView| rec_matches(m, id2, av);
        assert(rec_matches(mu, id2, av));
    }
    assert forall|id2: Seq<char>, k: int|
        mu.atags.contains_key(id2) && 0 <= k < stored_tags(mu, id2).len() implies bucket_ids(
        mu,
        #[trigger] stored_tags(mu, id2)[k],
    ).contains(id2) by {
        assert(m.atags.contains_key(id2) && id2 != id);
        assert(stored_tags(mu, id2) == stored_tags(m, id2));
        let t = stored_tags(m, id2)[k];
        lemma_forward(m, id2, t);
        assert(wf_list(split_seq(m.buckets[t], ';')));
        lemma_bucket_without(m.buckets[t], id);
        lemma_without_entry(split_seq(m.buckets[t], ';'), id);
        if ts.contains(t) {
            assert(without_entry(split_seq(m.buckets[t], ';'), id).contains(id2));
            assert(bucket_without(m.buckets[t], id) is Some);
            assert(mu.buckets.contains_key(t));
            assert(split_seq(mu.buckets[t], ';').contains(id2));
        } else {
            assert(mu.buckets.contains_key(t));
            assert(mu.buckets[t] == m.buckets[t]);
        }
    }
    assert forall|t: Seq<char>| #[trigger] mu.buckets.contains_key(t) implies t.len() > 0
        && sep_free(t, ';') && wf_list(split_seq(mu.buckets[t], ';')) by {
        assert(m.buckets.contains_key(t));
        if ts.contains(t) {
            lemma_bucket_without(m.buckets[t], id);
        }
    }
    assert forall|t: Seq<char>, k: int|
        mu.buckets.contains_key(t) && 0 <= k < split_seq(mu.buckets[t], ';').len() implies
        mu.atags.contains_key(#[trigger] split_seq(mu.buckets[t], ';')[k]) && stored_tags(
        mu,
        split_seq(mu.buckets[t], ';')[k],
    ).contains(t) by {
        assert(m.buckets.contains_key(t));
        let id2 = split_seq(mu.buckets[t], ';')[k];
        assert(split_seq(mu.buckets[t], ';').contains(id2));
        if ts.contains(t) {
            lemma_bucket_without(m.buckets[t], id);
            lemma_without_entry(split_seq(m.buckets[t], ';'), id);
            assert(split_seq(m.buckets[t], ';').contains(id2) && id2 != id);
            lemma_backward(m, t, id2);
            assert(stored_tags(mu, id2) == stored_tags(m, id2));
        } else {
            assert(mu.buckets[t] == m.buckets[t]);
            lemma_backward(m, t, id2);
            assert(id2 != id) by {
                if id2 == id {
                    assert(stored_tags(m, id).contains(t));
                }
            }
            assert(stored_tags(mu, id2) == stored_tags(m, id2));
        }
    }
}

/// Membership in an optional bucket value.
pub open spec fn bucket_mem(b: Option<Seq<char>>, x: Seq<char>) -> bool {
    b matches Some(v) && split_seq(v, ';').contains(x)
}

/// The shape of one bucket after the upsert of `id`: well-formed, holding
/// `id` exactly when the new tag list has `t`, and holding every other id
/// exactly as before.
pub proof fn lemma_bucket_upsert_shape(
    m: IndexModel,
    old_ts: Seq<Seq<char>>,
    new_ts: Seq<Seq<char>>,
    id: Seq<char>,
    t: Seq<char>,
)
    requires
        wf(m),
        old_ts == old_tags_of(m, id),
        wf_list(new_ts),
        id.len() > 0,
        sep_free(id, ';'),
    ensures
        bucket_after_upsert(m, old_ts, new_ts, id, t) matches Some(v2) ==> wf_list(
            split_seq(v2, ';'),
        ),
        bucket_after_delete(m, old_ts, id, t) matches Some(v) ==> wf_list(split_seq(v, ';')),
        !bucket_mem(bucket_after_delete(m, old_ts, id, t), id),
        bucket_mem(bucket_after_upsert(m, old_ts, new_ts, id, t), id) <==> new_ts.contains(t),
        forall|x: Seq<char>|
            x != id ==> (#[trigger] bucket_mem(bucket_after_upsert(m, old_ts, new_ts, id, t), x)
                <==> bucket_mem(opt_val(m.buckets, t), x)),
        bucket_after_upsert(m, old_ts, new_ts, id, t) is None ==> !new_ts.contains(t),
{
    let mid = bucket_after_delete(m, old_ts, id, t);
    let b = bucket_after_upsert(m, old_ts, new_ts, id, t);
    if old_ts.contains(t) {
        assert(m.atags.contains_key(id));
        lemma_forward(m, id, t);
        lemma_bucket_without(m.buckets[t], id);
        lemma_without_entry(split_seq(m.buckets[t], ';'), id);
    }
    // the mid bucket never holds id, is well-formed, and holds other ids as before
    assert(mid matches Some(v) ==> wf_list(split_seq(v, ';')));
    assert(!bucket_mem(mid, id)) by {
        if bucket_mem(mid, id) {
            if old_ts.contains(t) && m.buckets.contains_key(t) {
                assert(without_entry(split_seq(m.buckets[t], ';'), id).contains(id));
            } else {
                assert(mid == opt_val(m.buckets, t));
                assert(m.buckets.contains_key(t));
                lemma_backward(m, t, id);
                assert(old_ts.contains(t));
            }
        }
    }
    assert forall|x: Seq<char>|
        x != id implies (#[trigger] bucket_mem(mid, x) <==> bucket_mem(
        opt_val(m.buckets, t),
        x,
    )) by {
        if old_ts.contains(t) && m.buckets.contains_key(t) {
            if bucket_mem(opt_val(m.buckets, t), x) {
                assert(without_entry(split_seq(m.buckets[t], ';'), id).contains(x));
                assert(bucket_without(m.buckets[t], id) is Some);
            }
        }
    }
    if new_ts.contains(t) {
        lemma_bucket_with(mid, id);
        assert(b == Some(bucket_with(mid, id)));
        let sv = split_seq(bucket_with(mid, id), ';');
        assert(bucket_mem(b, id));
        assert forall|x: Seq<char>|
            x != id implies (#[trigger] bucket_mem(b, x) <==> bucket_mem(mid, x)) by {
            match mid {
                None => {
                    assert(sv == seq![id]);
                    if sv.contains(x) {
                        let w = choose|w: int| 0 <= w < sv.len() && sv[w] == x;
                        assert(sv[w] == id);
                    }
                },
                Some(v0) => {
                    let s0 = split_seq(v0, ';');
                    assert(!s0.contains(id));
                    assert(sv == s0.push(id));
                    if sv.contains(x) {
                        let w = choose|w: int| 0 <= w < sv.len() && sv[w] == x;
                        if w < s0.len() {
                            assert(s0[w] == x);
                        } else {
                            assert(sv[w] == id);
                        }
                    }
                    if s0.contains(x) {
                        let w = choose|w: int| 0 <= w < s0.len() && s0[w] == x;
                        assert(sv[w] == x);
                    }
                },
            }
        }
    } else {
        assert(b == mid);
    }
}

/// Well-formedness survives `upsert`, and membership afterwards is exactly
/// the new effective tag set for this id, unchanged for every other id.
pub proof fn lemma_upsert_wf(m: IndexModel, av: AnnotationView)
    requires
        wf(m),
        valid_ann(av),
        bounded_ann(av),
    ensures
        wf(upsert_tr(m, av)),
        forall|t: Seq<char>|
            #[trigger] bucket_ids(upsert_tr(m, av), t).contains(av.id) <==> etags(
                av.tags,
            ).contains(t),
        forall|t: Seq<char>, id2: Seq<char>|
            id2 != av.id ==> (#[trigger] bucket_ids(upsert_tr(m, av), t).contains(id2)
                <==> bucket_ids(m, t).contains(id2)),
{
    let mu = upsert_tr(m, av);
    let id = av.id;
    let old_ts = old_tags_of(m, id);
    let new_ts = etags(av.tags);
    lemma_etags(av.tags);
    lemma_sentinels();
    assert(wf_list(new_ts));
    lemma_split_join(new_ts, ';');
    assert(stored_tags(mu, id) == new_ts);
    assert forall|t: Seq<char>| true implies {
        &&& (#[trigger] mu.buckets.contains_key(t) <==> bucket_after_upsert(
            m,
            old_ts,
            new_ts,
            id,
            t,
        ) is Some)
        &&& mu.buckets.contains_key(t) ==> mu.buckets[t] == bucket_after_upsert(
            m,
            old_ts,
            new_ts,
            id,
            t,
        )->Some_0
    } by {}
    assert(mu.recs.dom() =~= mu.atags.dom());
    assert forall|id2: Seq<char>| #[trigger] mu.atags.contains_key(id2) implies id2.len() > 0
        && sep_free(id2, ';') && wf_list(stored_tags(mu, id2)) && wf_stored_tags(
        stored_tags(mu, id2),
    ) && (exists|av2: AnnotationView| rec_matches(mu, id2, av2)) by {
        if id2 == id {
            assert(rec_matches(mu, id, av));
        } else {
            assert(stored_tags(mu, id2) == stored_tags(m, id2));
            let av2 = choose|av2: AnnotationView| rec_matches(m, id2, av2);
            assert(rec_matches(mu, id2, av2));
        }
    }
    assert forall|id2: Seq<char>, k: int|
        mu.atags.contains_key(id2) && 0 <= k < stored_tags(mu, id2).len() implies bucket_ids(
        mu,
        #[trigger] stored_tags(mu, id2)[k],
    ).contains(id2) by {
        let t = stored_tags(mu, id2)[k];
        lemma_bucket_upsert_shape(m, old_ts, new_ts, id, t);
        let b = bucket_after_upsert(m, old_ts, new_ts, id, t);
        if id2 == id {
            assert(new_ts.contains(t));
            assert(bucket_mem(b, id));
            assert(mu.buckets.contains_key(t));
            assert(split_seq(mu.buckets[t], ';').contains(id));
        } else {
            assert(stored_tags(mu, id2) == stored_tags(m, id2));
            lemma_forward(m, id2, t);
            assert(bucket_mem(opt_val(m.buckets, t), id2));
            assert(bucket_mem(b, id2));
            assert(mu.buckets.contains_key(t));
            assert(split_seq(mu.buckets[t], ';').contains(id2));
        }
    }
    assert forall|t: Seq<char>| #[trigger] mu.buckets.contains_key(t) implies t.len() > 0
        && sep_free(t, ';') && wf_list(split_seq(mu.buckets[t], ';')) by {
        lemma_bucket_upsert_shape(m, old_ts, new_ts, id, t);
        let b = bucket_after_upsert(m, old_ts, new_ts, id, t);
        assert(b is Some);
        assert(mu.buckets[t] == b->Some_0);
        if !m.buckets.contains_key(t) {
            assert(new_ts.contains(t)) by {
                if !new_ts.contains(t) {
                    assert(b == bucket_after_delete(m, old_ts, id, t));
                    assert(bucket_after_delete(m, old_ts, id, t) == opt_val(m.buckets, t));
                }
            }
        }
    }
    assert forall|t: Seq<char>, k: int|
        mu.buckets.contains_key(t) && 0 <= k < split_seq(mu.buckets[t], ';').len() implies
        mu.atags.contains_key(#[trigger] split_seq(mu.buckets[t], ';')[k]) && stored_tags(
        mu,
        split_seq(mu.buckets[t], ';')[k],
    ).contains(t) by {
        let id2 = split_seq(mu.buckets[t], ';')[k];
        assert(split_seq(mu.buckets[t], ';').contains(id2));
        lemma_bucket_upsert_shape(m, old_ts, new_ts, id, t);
        let b = bucket_after_upsert(m, old_ts, new_ts, id, t);
        assert(bucket_mem(b, id2));
        if id2 == id {
            assert(new_ts.contains(t));
            assert(stored_tags(mu, id) == new_ts);
        } else {
            assert(bucket_mem(opt_val(m.buckets, t), id2));
            assert(m.buckets.contains_key(t));
            lemma_backward(m, t, id2);
            assert(stored_tags(mu, id2) == stored_tags(m, id2));
        }
    }
    assert forall|t: Seq<char>| true implies (#[trigger] bucket_ids(mu, t).contains(id)
        <==> new_ts.contains(t)) by {
        lemma_bucket_upsert_shape(m, old_ts, new_ts, id, t);
        let b = bucket_after_upsert(m, old_ts, new_ts, id, t);
        assert(bucket_ids(mu, t).contains(id) <==> bucket_mem(b, id));
    }
    assert forall|t: Seq<char>, id2: Seq<char>|
        id2 != id implies (#[trigger] bucket_ids(mu, t).contains(id2) <==> bucket_ids(
        m,
        t,
    ).contains(id2)) by {
        lemma_bucket_upsert_shape(m, old_ts, new_ts, id, t);
        let b = bucket_after_upsert(m, old_ts, new_ts, id, t);
        assert(bucket_ids(mu, t).contains(id2) <==> bucket_mem(b, id2));
        assert(bucket_ids(m, t).contains(id2) <==> bucket_mem(opt_val(m.buckets, t), id2));
    }
}

/// Law (bidirectional consistency): a recorded id carries tag `t` exactly
/// when `t`'s bucket lists the id. The sentinel bucket takes part like any
/// other tag, so "untagged" lookups are ordinary lookups.
pub proof fn lemma_bidirectional_consistency(m: IndexModel, id: Seq<char>, t: Seq<char>)
    requires
        wf(m),
        m.atags.contains_key(id),
    ensures
        stored_tags(m, id).contains(t) <==> bucket_ids(m, t).contains(id),
{
    if stored_tags(m, id).contains(t) {
        lemma_forward(m, id, t);
    }
    if bucket_ids(m, t).contains(id) {
        assert(m.buckets.contains_key(t));
        assert(split_seq(m.buckets[t], ';').contains(id));
        lemma_backward(m, t, id);
    }
}

/// Law (idempotence): upserting the same annotation twice leaves exactly
/// the state of upserting it once.
#[verifier::rlimit(60)]
pub proof fn lemma_upsert_idempotent(m: IndexModel, av: AnnotationView)
    requires
        wf(m),
        valid_ann(av),
        bounded_ann(av),
    ensures
        upsert_tr(upsert_tr(m, av), av) == upsert_tr(m, av),
{
    let id = av.id;
    let old_ts = old_tags_of(m, id);
    let new_ts = etags(av.tags);
    let m1 = upsert_tr(m, av);
    let m2 = upsert_tr(m1, av);
    lemma_upsert_wf(m, av);
    lemma_etags(av.tags);
    lemma_sentinels();
    lemma_split_join(new_ts, ';');
    assert(m1.atags.contains_key(id));
    assert(stored_tags(m1, id) == new_ts);
    assert(old_tags_of(m1, id) == new_ts);
    assert(m2.recs =~= m1.recs);
    assert(m2.atags =~= m1.atags);
    assert forall|t: Seq<char>| true implies #[trigger] bucket_after_upsert(
        m1,
        new_ts,
        new_ts,
        id,
        t,
    ) == opt_val(m1.buckets, t) by {
        lemma_bucket_upsert_shape(m, old_ts, new_ts, id, t);
        let mid1 = bucket_after_delete(m, old_ts, id, t);
        if new_ts.contains(t) {
            lemma_forward(m1, id, t);
            assert(m1.buckets.contains_key(t));
            assert(m1.buckets[t] == bucket_with(mid1, id));
            let mid2 = bucket_after_delete(m1, new_ts, id, t);
            assert(mid2 == bucket_without(m1.buckets[t], id));
            match mid1 {
                None => {
                    assert(m1.buckets[t] == id);
                    lemma_split_single(id);
                    let one = split_seq(id, ';');
                    assert(one == seq![id]);
                    assert(one.len() == 1);
                    assert(one.last() == id);
                    assert(one.drop_last() =~= Seq::<Seq<char>>::empty());
                    assert(without_entry(one.drop_last(), id) =~= Seq::<Seq<char>>::empty());
                    assert(without_entry(one, id) =~= Seq::<Seq<char>>::empty());
                    assert(mid2 is None);
                    assert(bucket_with(mid2, id) == id);
                },
                Some(v0) => {
                    let s0 = split_seq(v0, ';');
                    assert(wf_list(s0));
                    assert(!bucket_mem(mid1, id));
                    assert(!s0.contains(id));
                    lemma_bucket_with(mid1, id);
                    assert(split_seq(m1.buckets[t], ';') == s0.push(id));
                    lemma_without_entry(s0, id);
                    assert(s0.push(id).drop_last() =~= s0);
                    assert(s0.push(id).last() == id);
                    assert(without_entry(s0.push(id), id) == without_entry(s0, id));
                    assert(without_entry(s0, id) == s0);
                    assert(s0.len() >= 1);
                    lemma_split_join(s0, ';');
                    crate::utils::lemma_join_split(v0, ';');
                    assert(mid2 == Some(v0));
                    assert(bucket_with(mid2, id) == bucket_with(mid1, id));
                },
            }
            assert(bucket_after_upsert(m1, new_ts, new_ts, id, t) == Some(m1.buckets[t]));
        } else {
            assert(bucket_after_upsert(m1, new_ts, new_ts, id, t) == opt_val(m1.buckets, t));
        }
    }
    assert forall|t: Seq<char>| #[trigger] m2.buckets.contains_key(t) implies
        m1.buckets.contains_key(t) && m2.buckets[t] == m1.buckets[t] by {
        assert(bucket_after_upsert(m1, new_ts, new_ts, id, t) == opt_val(m1.buckets, t));
    }
    assert forall|t: Seq<char>| #[trigger] m1.buckets.contains_key(t) implies
        m2.buckets.contains_key(t) by {
        assert(bucket_after_upsert(m1, new_ts, new_ts, id, t) == opt_val(m1.buckets, t));
    }
    assert(m2.buckets =~= m1.buckets);
    assert(m2 =~= m1);
}

/// Law (round trip): upserting a fresh annotation and deleting it restores
/// the index exactly, with no dangling tag entries.
#[verifier::rlimit(60)]
pub proof fn lemma_upsert_delete_round_trip(m: IndexModel, av: AnnotationView)
    requires
        wf(m),
        valid_ann(av),
        bounded_ann(av),
        !m.atags.contains_key(av.id),
    ensures
        delete_tr(upsert_tr(m, av), av.id) == m,
{
    let id = av.id;
    let new_ts = etags(av.tags);
    let m1 = upsert_tr(m, av);
    let md = delete_tr(m1, id);
    lemma_upsert_wf(m, av);
    lemma_etags(av.tags);
    lemma_sentinels();
    lemma_split_join(new_ts, ';');
    assert(old_tags_of(m, id) == Seq::<Seq<char>>::empty());
    assert(stored_tags(m1, id) == new_ts);
    assert(!m.recs.contains_key(id));
    assert(md.recs =~= m.recs);
    assert(md.atags =~= m.atags);
    assert forall|t: Seq<char>| true implies #[trigger] bucket_after_delete(
        m1,
        new_ts,
        id,
        t,
    ) == opt_val(m.buckets, t) by {
        let empty_old = Seq::<Seq<char>>::empty();
        lemma_bucket_upsert_shape(m, empty_old, new_ts, id, t);
        let mid1 = bucket_after_delete(m, empty_old, id, t);
        assert(mid1 == opt_val(m.buckets, t));
        if new_ts.contains(t) {
            lemma_forward(m1, id, t);
            assert(m1.buckets.contains_key(t));
            assert(m1.buckets[t] == bucket_with(mid1, id));
            match mid1 {
                None => {
                    assert(m1.buckets[t] == id);
                    lemma_split_single(id);
                    let one = split_seq(id, ';');
                    assert(one == seq![id]);
                    assert(one.len() == 1);
                    assert(one.last() == id);
                    assert(one.drop_last() =~= Seq::<Seq<char>>::empty());
                    assert(without_entry(one.drop_last(), id) =~= Seq::<Seq<char>>::empty());
                    assert(without_entry(one, id) =~= Seq::<Seq<char>>::empty());
                    assert(bucket_without(m1.buckets[t], id) is None);
                },
                Some(v0) => {
                    let s0 = split_seq(v0, ';');
                    assert(wf_list(s0));
                    assert(!bucket_mem(mid1, id));
                    assert(!s0.contains(id));
                    lemma_bucket_with(mid1, id);
                    assert(split_seq(m1.buckets[t], ';') == s0.push(id));
                    lemma_without_entry(s0, id);
                    assert(s0.push(id).drop_last() =~= s0);
                    assert(s0.push(id).last() == id);
                    assert(without_entry(s0.push(id), id) == without_entry(s0, id));
                    assert(without_entry(s0, id) == s0);
                    assert(s0.len() >= 1);
                    lemma_split_join(s0, ';');
                    crate::utils::lemma_join_split(v0, ';');
                    assert(bucket_without(m1.buckets[t], id) == Some(v0));
                },
            }
        } else {
            assert(bucket_after_delete(m1, new_ts, id, t) == opt_val(m1.buckets, t));
            assert(opt_val(m1.buckets, t) == bucket_after_upsert(m, empty_old, new_ts, id, t));
        }
    }
    assert forall|t: Seq<char>| #[trigger] md.buckets.contains_key(t) implies
        m.buckets.contains_key(t) && md.buckets[t] == m.buckets[t] by {
        assert(bucket_after_delete(m1, new_ts, id, t) == opt_val(m.buckets, t));
    }
    assert forall|t: Seq<char>| #[trigger] m.buckets.contains_key(t) implies
        md.buckets.contains_key(t) by {
        assert(bucket_after_delete(m1, new_ts, id, t) == opt_val(m.buckets, t));
    }
    assert(md.buckets =~= m.buckets);
    assert(md =~= m);
}

/// Law (sentinel correctness): after upserting an annotation whose tags are
/// all blank or missing, the id is retrievable under the empty-tag sentinel
/// and under no other tag.
pub proof fn lemma_sentinel_correctness(m: IndexModel, av: AnnotationView, t: Seq<char>)
    requires
        wf(m),
        valid_ann(av),
        bounded_ann(av),
        kept_tags(av.tags).len() == 0,
    ensures
        bucket_ids(upsert_tr(m, av), t).contains(av.id) <==> t == empty_tag(),
{
    lemma_upsert_wf(m, av);
    lemma_etags(av.tags);
    lemma_dedup(kept_tags(av.tags));
    assert(dedup(kept_tags(av.tags)).len() == 0) by {
        let ks = dedup(kept_tags(av.tags));
        if ks.len() > 0 {
            assert(ks.contains(ks[0]));
            assert(kept_tags(av.tags).contains(ks[0]));
        }
    }
    assert(etags(av.tags) == seq![empty_tag()]);
    assert(bucket_ids(upsert_tr(m, av), t).contains(av.id) <==> etags(av.tags).contains(t));
    if etags(av.tags).contains(t) {
        let w = choose|w: int| 0 <= w < etags(av.tags).len() && etags(av.tags)[w] == t;
        assert(t == empty_tag());
    }
    if t == empty_tag() {
        assert(etags(av.tags)[0] == t);
    }
}

/// Well-formedness does not depend on the cursor.
pub proof fn lemma_wf_cursor(m: IndexModel, c: u64)
    requires
        wf(m),
    ensures
        wf(IndexModel { cursor: c, ..m }),
{
    let m2 = IndexModel { cursor: c, ..m };
    assert(m2.recs == m.recs);
    assert(m2.atags == m.atags);
    assert(m2.buckets == m.buckets);
    assert forall|id: Seq<char>| #[trigger] m2.atags.contains_key(id) implies id.len() > 0
        && sep_free(id, ';') && wf_list(stored_tags(m2, id)) && wf_stored_tags(
        stored_tags(m2, id),
    ) && (exists|av: AnnotationView| rec_matches(m2, id, av)) by {
        assert(stored_tags(m2, id) == stored_tags(m, id));
        let av = choose|av: AnnotationView| rec_matches(m, id, av);
        assert(rec_matches(m2, id, av));
    }
    assert forall|id: Seq<char>, k: int|
        m2.atags.contains_key(id) && 0 <= k < stored_tags(m2, id).len() implies bucket_ids(
        m2,
        #[trigger] stored_tags(m2, id)[k],
    ).contains(id) by {
        assert(stored_tags(m2, id) == stored_tags(m, id));
        assert(bucket_ids(m2, stored_tags(m, id)[k]) == bucket_ids(m, stored_tags(m, id)[k]));
    }
    assert forall|t: Seq<char>, k: int|
        m2.buckets.contains_key(t) && 0 <= k < split_seq(m2.buckets[t], ';').len() implies
        m2.atags.contains_key(#[trigger] split_seq(m2.buckets[t], ';')[k]) && stored_tags(
        m2,
        split_seq(m2.buckets[t], ';')[k],
    ).contains(t) by {
        assert(stored_tags(m2, split_seq(m.buckets[t], ';')[k]) == stored_tags(
            m,
            split_seq(m.buckets[t], ';')[k],
        ));
    }
}

/// Upserting a present id acts as deleting it first: the transformer
/// already carries the delete-then-insert discipline.
pub proof fn lemma_upsert_compose(m: IndexModel, av: AnnotationView)
    requires
        wf(m),
        m.atags.contains_key(av.id),
        valid_ann(av),
        bounded_ann(av),
    ensures
        upsert_tr(delete_tr(m, av.id), av) == upsert_tr(m, av),
{
    let id = av.id;
    let md = delete_tr(m, id);
    let ts = stored_tags(m, id);
    let new_ts = etags(av.tags);
    lemma_delete_wf(m, id);
    assert(!md.atags.contains_key(id));
    assert(old_tags_of(md, id) == Seq::<Seq<char>>::empty());
    assert(old_tags_of(m, id) == ts);
    let ma = upsert_tr(md, av);
    let mb = upsert_tr(m, av);
    assert(ma.recs =~= mb.recs);
    assert(ma.atags =~= mb.atags);
    assert forall|t: Seq<char>| true implies #[trigger] bucket_after_upsert(
        md,
        Seq::<Seq<char>>::empty(),
        new_ts,
        id,
        t,
    ) == bucket_after_upsert(m, ts, new_ts, id, t) by {
        assert(bucket_after_delete(md, Seq::<Seq<char>>::empty(), id, t) == opt_val(
            md.buckets,
            t,
        ));
        assert(opt_val(md.buckets, t) == bucket_after_delete(m, ts, id, t));
    }
    assert forall|t: Seq<char>| #[trigger] ma.buckets.contains_key(t) implies
        mb.buckets.contains_key(t) && ma.buckets[t] == mb.buckets[t] by {
        assert(bucket_after_upsert(md, Seq::<Seq<char>>::empty(), new_ts, id, t)
            == bucket_after_upsert(m, ts, new_ts, id, t));
    }
    assert forall|t: Seq<char>| #[trigger] mb.buckets.contains_key(t) implies
        ma.buckets.contains_key(t) by {
        assert(bucket_after_upsert(md, Seq::<Seq<char>>::empty(), new_ts, id, t)
            == bucket_after_upsert(m, ts, new_ts, id, t));
    }
    assert(ma.buckets =~= mb.buckets);
    assert(ma =~= mb);
}

/// The outcome of applying one page of remote records.
#[verifier::ext_equal]
pub ghost struct SyncOutcome {
    /// the index afterwards
    pub m: IndexModel,
    /// records whose id was new
    pub added: nat,
    /// records whose id was already mirrored
    pub updated: nat,
    /// records carrying the ignore sentinel
    pub ignored: nat,
}

/// Classifies and applies the records of one page, front to back: a record
/// carrying the ignore sentinel removes its id if present and counts as
/// ignored; otherwise a known id is upserted and counts as updated, and a
/// fresh one is upserted and counts as added.
pub open spec fn sync_fold(m: IndexModel, page: Seq<AnnotationView>) -> SyncOutcome
    decreases page.len(),
{
    if page.len() == 0 {
        SyncOutcome { m, added: 0, updated: 0, ignored: 0 }
    } else {
        let av = page[0];
        if has_ignore(av) {
            let m1 = if m.atags.contains_key(av.id) {
                delete_tr(m, av.id)
            } else {
                m
            };
            let rest = sync_fold(m1, page.skip(1));
            SyncOutcome {
                m: rest.m,
                added: rest.added,
                updated: rest.updated,
                ignored: rest.ignored + 1,
            }
        } else if m.atags.contains_key(av.id) {
            let rest = sync_fold(upsert_tr(m, av), page.skip(1));
            SyncOutcome {
                m: rest.m,
                added: rest.added,
                updated: rest.updated + 1,
                ignored: rest.ignored,
            }
        } else {
            let rest = sync_fold(upsert_tr(m, av), page.skip(1));
            SyncOutcome {
                m: rest.m,
                added: rest.added + 1,
                updated: rest.updated,
                ignored: rest.ignored,
            }
        }
    }
}

/// Whether every non-tombstone record of a page is acceptable to the index.
pub open spec fn page_valid(page: Seq<AnnotationView>) -> bool {
    forall|k: int| 0 <= k < page.len() ==> (has_ignore(#[trigger] page[k]) || valid_ann(page[k]))
}

/// Deletes ids in order, stopping at the first missing one.
pub open spec fn delete_partial(m: IndexModel, ids: Seq<Seq<char>>) -> IndexModel
    decreases ids.len(),
{
    if ids.len() == 0 {
        m
    } else if m.atags.contains_key(ids[0]) {
        delete_partial(delete_tr(m, ids[0]), ids.skip(1))
    } else {
        m
    }
}

/// Whether every id is present when its turn comes.
pub open spec fn all_deletable(m: IndexModel, ids: Seq<Seq<char>>) -> bool
    decreases ids.len(),
{
    if ids.len() == 0 {
        true
    } else {
        m.atags.contains_key(ids[0]) && all_deletable(delete_tr(m, ids[0]), ids.skip(1))
    }
}

/// The stored tag lists a full batch delete hands back, in order.
pub open spec fn delete_lists(m: IndexModel, ids: Seq<Seq<char>>) -> Seq<Seq<Seq<char>>>
    decreases ids.len(),
{
    if ids.len() == 0 {
        Seq::empty()
    } else if m.atags.contains_key(ids[0]) {
        seq![stored_tags(m, ids[0])] + delete_lists(delete_tr(m, ids[0]), ids.skip(1))
    } else {
        Seq::empty()
    }
}

/// The annotation with one more tag at the end.
pub open spec fn with_tag(av: AnnotationView, t: Seq<char>) -> AnnotationView {
    AnnotationView { tags: av.tags.push(t), ..av }
}

/// The annotation with every copy of one tag removed.
pub open spec fn without_tag(av: AnnotationView, t: Seq<char>) -> AnnotationView {
    AnnotationView { tags: without_entry(av.tags, t), ..av }
}

/// Adds a tag to each listed annotation that lacks it, upserting in order.
pub open spec fn add_tag_fold(m: IndexModel, avs: Seq<AnnotationView>, t: Seq<char>) -> IndexModel
    decreases avs.len(),
{
    if avs.len() == 0 {
        m
    } else {
        let m1 = if avs[0].tags.contains(t) {
            m
        } else {
            upsert_tr(m, with_tag(avs[0], t))
        };
        add_tag_fold(m1, avs.skip(1), t)
    }
}

/// Removes a tag from each listed annotation that carries it, upserting in
/// order.
pub open spec fn delete_tag_fold(m: IndexModel, avs: Seq<AnnotationView>, t: Seq<char>) -> IndexModel
    decreases avs.len(),
{
    if avs.len() == 0 {
        m
    } else {
        let m1 = if avs[0].tags.contains(t) {
            upsert_tr(m, without_tag(avs[0], t))
        } else {
            m
        };
        delete_tag_fold(m1, avs.skip(1), t)
    }
}

/// Law (sync idempotence): re-syncing one identical, non-tombstone record
/// leaves the state exactly as after the first sync and counts it as one
/// update and nothing else. (A tombstone record is counted as ignored on
/// every run instead, so it is left out here.)
pub proof fn lemma_sync_rerun_idempotent(m: IndexModel, av: AnnotationView)
    requires
        wf(m),
        valid_ann(av),
        bounded_ann(av),
        !has_ignore(av),
    ensures
        sync_fold(sync_fold(m, seq![av]).m, seq![av]).m == sync_fold(m, seq![av]).m,
        sync_fold(sync_fold(m, seq![av]).m, seq![av]).added == 0,
        sync_fold(sync_fold(m, seq![av]).m, seq![av]).updated == 1,
        sync_fold(sync_fold(m, seq![av]).m, seq![av]).ignored == 0,
{
    let page = seq![av];
    assert(page[0] == av);
    assert(page.skip(1) =~= Seq::<AnnotationView>::empty());
    let m1 = upsert_tr(m, av);
    let rest1 = sync_fold(m1, page.skip(1));
    assert(rest1 == SyncOutcome { m: m1, added: 0, updated: 0, ignored: 0 });
    assert(sync_fold(m, page).m == m1);
    assert(m1.atags.contains_key(av.id));
    lemma_upsert_idempotent(m, av);
    let m2 = upsert_tr(m1, av);
    assert(m2 == m1);
    let rest2 = sync_fold(m2, page.skip(1));
    assert(rest2 == SyncOutcome { m: m2, added: 0, updated: 0, ignored: 0 });
    assert(sync_fold(m1, page) == SyncOutcome {
        m: rest2.m,
        added: rest2.added,
        updated: rest2.updated + 1,
        ignored: rest2.ignored,
    });
}

/// Law (sync round trip): syncing one fresh, non-tombstone record and then
/// deleting its id restores the index exactly; the sync counts it as added.
/// (A tombstone record would make the sync a no-op and the delete an error,
/// so it is left out here.)
pub proof fn lemma_sync_delete_round_trip(m: IndexModel, av: AnnotationView)
    requires
        wf(m),
        valid_ann(av),
        bounded_ann(av),
        !has_ignore(av),
        !m.atags.contains_key(av.id),
    ensures
        delete_tr(sync_fold(m, seq![av]).m, av.id) == m,
        sync_fold(m, seq![av]).added == 1,
        sync_fold(m, seq![av]).updated == 0,
        sync_fold(m, seq![av]).ignored == 0,
{
    let page = seq![av];
    assert(page[0] == av);
    assert(page.skip(1) =~= Seq::<AnnotationView>::empty());
    let m1 = upsert_tr(m, av);
    let rest1 = sync_fold(m1, page.skip(1));
    assert(rest1 == SyncOutcome { m: m1, added: 0, updated: 0, ignored: 0 });
    assert(sync_fold(m, page) == SyncOutcome {
        m: rest1.m,
        added: rest1.added + 1,
        updated: rest1.updated,
        ignored: rest1.ignored,
    });
    lemma_upsert_delete_round_trip(m, av);
}

} // verus!
