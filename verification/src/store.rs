//! The media record store: per-owner records keyed by content fingerprint,
//! with exact contracts over a mathematical view.
//!
//! The view of a `Db` is a `DbView`: a sequence of record views, a map from
//! user id to last-activity time, and the deployment configuration
//! (dimension, metric, page size). Every mutation states the new view as a
//! function of the old one.

use vstd::prelude::*;

use crate::Error;
use crate::bytes::{bytes_eq, dup_bytes, dup_comps};
use crate::kvmap::{keys_unique, lemma_pairs_map_update, pairs_map};
use crate::embedding::{
    Embedding, Metric, bounded_comps, rank_distance, spec_rank_distance, lemma_rank_distance_bound,
    DIM_LIMIT,
};
use crate::rank::{
    RankKey, identity_perm, lemma_sorted_is_spec_rank, sort_indices, spec_rank,
};

verus! {

/// Largest page size the store accepts (a machine bound, not a policy).
pub const PAGE_SIZE_LIMIT: usize = 0x10000;

/// The page size the original deployment used.
pub const DEFAULT_PAGE_SIZE: usize = 50;

/// The closed set of media kinds; extended by adding a variant, never by
/// removing one.
#[derive(Clone, Copy, Debug, PartialEq, Eq, Structural)]
pub enum MediaType {
    Photo,
    Sticker,
    Video,
}

/// The projection of a record that retrieval hands out: enough to
/// re-deliver the media, never the embedding.
pub struct ImageWithIds {
    pub id: u64,
    pub media_type: MediaType,
    pub file_id: Vec<u8>,
}

/// Mathematical value of an `ImageWithIds`.
#[verifier::ext_equal]
pub struct ImageView {
    pub id: u64,
    pub media_type: MediaType,
    pub file_id: Seq<u8>,
}

impl View for ImageWithIds {
    type V = ImageView;

    open spec fn view(&self) -> ImageView {
        ImageView { id: self.id, media_type: self.media_type, file_id: self.file_id@ }
    }
}

/// The views of a sequence of result rows.
pub open spec fn views_of(s: Seq<ImageWithIds>) -> Seq<ImageView> {
    s.map_values(|x: ImageWithIds| x@)
}

impl ImageWithIds {
    /// A value-equal copy of this row.
    pub fn duplicate(&self) -> (r: ImageWithIds)
        ensures
            r@ == self@,
    {
        let r = ImageWithIds {
            id: self.id,
            media_type: self.media_type,
            file_id: dup_bytes(&self.file_id),
        };
        proof {
            assert(r@ =~= self@);
        }
        r
    }
}

/// Mathematical value of one stored media record.
#[verifier::ext_equal]
pub struct RecView {
    pub id: u64,
    pub owner: i64,
    pub file_id: Seq<u8>,
    pub fingerprint: Seq<u8>,
    pub embedding: Seq<i64>,
    pub media_type: MediaType,
    pub uses_count: u64,
    pub created_at: u64,
}

struct Record {
    id: u64,
    owner: i64,
    file_id: Vec<u8>,
    fingerprint: Vec<u8>,
    embedding: Vec<i64>,
    media_type: MediaType,
    uses_count: u64,
    created_at: u64,
}

impl View for Record {
    type V = RecView;

    closed spec fn view(&self) -> RecView {
        RecView {
            id: self.id,
            owner: self.owner,
            file_id: self.file_id@,
            fingerprint: self.fingerprint@,
            embedding: self.embedding@,
            media_type: self.media_type,
            uses_count: self.uses_count,
            created_at: self.created_at,
        }
    }
}

/// Mathematical value of the whole store.
#[verifier::ext_equal]
pub struct DbView {
    pub dim: nat,
    pub metric: Metric,
    pub page_size: nat,
    pub users: Map<i64, u64>,
    pub records: Seq<RecView>,
    pub next_id: u64,
}

impl DbView {
    /// Well-formedness: configuration in range, (owner, fingerprint) unique,
    /// ids unique and below `next_id`, every embedding of the configured
    /// dimension and in fixed-point range.
    pub open spec fn wf(self) -> bool {
        &&& 1 <= self.dim <= DIM_LIMIT
        &&& 1 <= self.page_size <= PAGE_SIZE_LIMIT
        &&& forall|i: int, j: int|
            0 <= i < j < self.records.len() ==> !((#[trigger] self.records[i]).owner == (
            #[trigger] self.records[j]).owner && self.records[i].fingerprint
                == self.records[j].fingerprint)
        &&& forall|i: int, j: int|
            0 <= i < j < self.records.len() ==> (#[trigger] self.records[i]).id != (
            #[trigger] self.records[j]).id
        &&& forall|i: int|
            0 <= i < self.records.len() ==> (#[trigger] self.records[i]).id < self.next_id
        &&& forall|i: int|
            0 <= i < self.records.len() ==> (#[trigger] self.records[i]).embedding.len()
                == self.dim && bounded_comps(self.records[i].embedding)
    }
}

/// Same deployment configuration on both sides.
pub open spec fn same_config(a: DbView, b: DbView) -> bool {
    a.dim == b.dim && a.metric == b.metric && a.page_size == b.page_size
}

/// Some record of `user` carries fingerprint `fp`.
pub open spec fn has_record(recs: Seq<RecView>, user: i64, fp: Seq<u8>) -> bool {
    exists|i: int| 0 <= i < recs.len() && (#[trigger] recs[i]).owner == user && recs[i].fingerprint
        == fp
}

/// A record survives the deletion of `(user, fp)`.
pub open spec fn survives(r: RecView, user: i64, fp: Seq<u8>) -> bool {
    !(r.owner == user && r.fingerprint == fp)
}

/// The records after deleting `(user, fp)`.
pub open spec fn spec_delete(recs: Seq<RecView>, user: i64, fp: Seq<u8>) -> Seq<RecView> {
    recs.filter(|r: RecView| survives(r, user, fp))
}

/// After a delete of `(user, fp)`, no record of that pair remains.
pub proof fn lemma_delete_removes(recs: Seq<RecView>, user: i64, fp: Seq<u8>)
    ensures
        !has_record(spec_delete(recs, user, fp), user, fp),
    decreases recs.len(),
{
    reveal(Seq::filter);
    let out = spec_delete(recs, user, fp);
    if recs.len() > 0 {
        let prefix = recs.drop_last();
        let last = recs.last();
        lemma_delete_removes(prefix, user, fp);
        let pout = spec_delete(prefix, user, fp);
        if survives(last, user, fp) {
            assert(out == pout.push(last));
            if has_record(out, user, fp) {
                let w = choose|i: int|
                    0 <= i < out.len() && (#[trigger] out[i]).owner == user && out[i].fingerprint
                        == fp;
                if w < pout.len() {
                    assert(pout[w].owner == user && pout[w].fingerprint == fp);
                }
            }
        } else {
            assert(out == pout);
        }
    }
}

/// Deleting a pair that is not stored changes nothing.
pub proof fn lemma_delete_absent(recs: Seq<RecView>, user: i64, fp: Seq<u8>)
    requires
        !has_record(recs, user, fp),
    ensures
        spec_delete(recs, user, fp) == recs,
    decreases recs.len(),
{
    reveal(Seq::filter);
    if recs.len() > 0 {
        let prefix = recs.drop_last();
        let last = recs.last();
        assert forall|i: int| 0 <= i < prefix.len() implies !((#[trigger] prefix[i]).owner == user
            && prefix[i].fingerprint == fp) by {
            assert(recs[i] == prefix[i]);
        }
        assert(!has_record(prefix, user, fp));
        lemma_delete_absent(prefix, user, fp);
        assert(recs[recs.len() - 1] == last);
        assert(survives(last, user, fp));
        assert(spec_delete(recs, user, fp) =~= recs);
    }
}

/// Law: no two records ever coexist with the same (owner, fingerprint);
/// well-formedness states it, and every operation preserves well-formedness.
pub proof fn lemma_unique_owner_fingerprint(v: DbView, i: int, j: int)
    requires
        v.wf(),
        0 <= i < v.records.len(),
        0 <= j < v.records.len(),
        i != j,
    ensures
        !(v.records[i].owner == v.records[j].owner && v.records[i].fingerprint
            == v.records[j].fingerprint),
{
}

/// `x + 1`, stopping at the top of the counter range.
pub open spec fn sat_inc(x: u64) -> u64 {
    if x == u64::MAX {
        x
    } else {
        (x + 1) as u64
    }
}

/// One record after a selection event for `(image, user)`.
pub open spec fn bump_rec(r: RecView, image: u64, user: i64) -> RecView {
    if r.id == image && r.owner == user {
        RecView { uses_count: sat_inc(r.uses_count), ..r }
    } else {
        r
    }
}

/// The records after a selection event.
pub open spec fn spec_bumped(recs: Seq<RecView>, image: u64, user: i64) -> Seq<RecView> {
    recs.map_values(|r: RecView| bump_rec(r, image, user))
}

/// One record after a re-index overwrote the embedding of record `id`.
pub open spec fn reembed_rec(r: RecView, id: u64, emb: Seq<i64>) -> RecView {
    if r.id == id {
        RecView { embedding: emb, ..r }
    } else {
        r
    }
}

/// The records after a re-index of record `id`.
pub open spec fn spec_reembedded(recs: Seq<RecView>, id: u64, emb: Seq<i64>) -> Seq<RecView> {
    recs.map_values(|r: RecView| reembed_rec(r, id, emb))
}

/// The record view a successful create appends.
pub open spec fn new_rec(
    id: u64,
    user: i64,
    emb: Seq<i64>,
    file_id: Seq<u8>,
    fp: Seq<u8>,
    media_type: MediaType,
    now: u64,
) -> RecView {
    RecView {
        id,
        owner: user,
        file_id,
        fingerprint: fp,
        embedding: emb,
        media_type,
        uses_count: 0,
        created_at: now,
    }
}

/// Law: a selection event never decreases any `uses_count`; it adds one
/// (saturating) to the selected record of that owner and leaves every other
/// record untouched.
pub proof fn lemma_selection_monotonic(recs: Seq<RecView>, image: u64, user: i64, i: int)
    requires
        0 <= i < recs.len(),
    ensures
        spec_bumped(recs, image, user).len() == recs.len(),
        spec_bumped(recs, image, user)[i].uses_count >= recs[i].uses_count,
        recs[i].id == image && recs[i].owner == user ==> spec_bumped(recs, image, user)[i]
            == (RecView { uses_count: sat_inc(recs[i].uses_count), ..recs[i] }),
        !(recs[i].id == image && recs[i].owner == user) ==> spec_bumped(recs, image, user)[i]
            == recs[i],
{
}

/// Law: no operation other than a selection event changes a `uses_count`.
/// A re-index keeps every count, a create keeps the existing records and
/// starts the new one at zero, and a delete keeps every survivor exactly as
/// it was stored.
pub proof fn lemma_only_selection_mutates_uses(
    recs: Seq<RecView>,
    rid: u64,
    emb: Seq<i64>,
    r: RecView,
    user: i64,
    fp: Seq<u8>,
    i: int,
)
    requires
        0 <= i < recs.len(),
    ensures
        spec_reembedded(recs, rid, emb)[i].uses_count == recs[i].uses_count,
        recs.push(r)[i] == recs[i],
        forall|k: int|
            0 <= k < spec_delete(recs, user, fp).len() ==> recs.contains(
                #[trigger] spec_delete(recs, user, fp)[k],
            ),
{
    lemma_delete_is_subset(recs, user, fp);
}

/// Every record that survives a delete is one of the original records.
pub proof fn lemma_delete_is_subset(recs: Seq<RecView>, user: i64, fp: Seq<u8>)
    ensures
        forall|k: int|
            0 <= k < spec_delete(recs, user, fp).len() ==> recs.contains(
                #[trigger] spec_delete(recs, user, fp)[k],
            ),
    decreases recs.len(),
{
    reveal(Seq::filter);
    let out = spec_delete(recs, user, fp);
    if recs.len() > 0 {
        let prefix = recs.drop_last();
        lemma_delete_is_subset(prefix, user, fp);
        let pout = spec_delete(prefix, user, fp);
        assert forall|k: int| 0 <= k < out.len() implies recs.contains(#[trigger] out[k]) by {
            if k < pout.len() {
                assert(prefix.contains(pout[k]));
                let j = choose|j: int| 0 <= j < prefix.len() && prefix[j] == pout[k];
                assert(recs[j] == out[k]);
            } else {
                assert(recs[recs.len() - 1] == out[k]);
            }
        }
    }
}

/// The `uses_count` of the first record with this id, if any is stored.
pub open spec fn uses_of(recs: Seq<RecView>, id: u64) -> Option<u64>
    decreases recs.len(),
{
    if recs.len() == 0 {
        None
    } else if recs[0].id == id {
        Some(recs[0].uses_count)
    } else {
        uses_of(recs.drop_first(), id)
    }
}

/// The projection `RecView -> ImageView` retrieval returns.
pub open spec fn proj(r: RecView) -> ImageView {
    ImageView { id: r.id, media_type: r.media_type, file_id: r.file_id }
}

/// The projections of a record sequence, in the same order.
pub open spec fn projs(s: Seq<RecView>) -> Seq<ImageView> {
    s.map_values(|r: RecView| proj(r))
}

/// The records of one owner, in storage order.
pub open spec fn owner_recs(recs: Seq<RecView>, user: i64) -> Seq<RecView> {
    recs.filter(|r: RecView| r.owner == user)
}

/// Order-reversing involution on `u64`: turns a descending ranking into an
/// ascending sort key.
pub open spec fn inv64(x: u64) -> u64 {
    (u64::MAX - x) as u64
}

/// The sort key of one record. With a query embedding: ascending rank
/// distance, ties by ascending id. Without: descending `uses_count`, ties
/// by descending creation time, then descending id (newest first).
pub open spec fn rec_key(metric: Metric, q: Option<Seq<i64>>, r: RecView) -> RankKey {
    match q {
        Some(qs) => RankKey { a: spec_rank_distance(metric, qs, r.embedding) as u64, b: r.id, c: 0 },
        None => RankKey { a: inv64(r.uses_count), b: inv64(r.created_at), c: inv64(r.id) },
    }
}

/// The sort keys of a record sequence.
pub open spec fn keys_of(recs: Seq<RecView>, metric: Metric, q: Option<Seq<i64>>) -> Seq<RankKey> {
    recs.map_values(|r: RecView| rec_key(metric, q, r))
}

/// The full ranked result list for one owner: all of the owner's records,
/// ordered by their sort key (semantic with `q`, popularity without).
pub open spec fn spec_ranked(v: DbView, user: i64, q: Option<Seq<i64>>) -> Seq<ImageView> {
    let orecs = owner_recs(v.records, user);
    let perm = spec_rank(keys_of(orecs, v.metric, q), orecs.len() as int);
    perm.map_values(|i: usize| proj(orecs[i as int]))
}

/// The numeric value of an optional page cursor; absent means the start.
pub open spec fn off_val(offset: Option<u64>) -> int {
    match offset {
        None => 0,
        Some(o) => o as int,
    }
}

/// `cnt` entries of `s` starting at `off`, clamped to the end.
pub open spec fn page_slice(s: Seq<ImageView>, off: int, cnt: int) -> Seq<ImageView> {
    let start = if off <= s.len() {
        off
    } else {
        s.len() as int
    };
    let end = if off + cnt <= s.len() {
        off + cnt
    } else {
        s.len() as int
    };
    s.subrange(start, end)
}

/// The media record store.
pub struct Db {
    dim: usize,
    metric: Metric,
    page_size: usize,
    users: Vec<(i64, u64)>,
    records: Vec<Record>,
    next_id: u64,
}

impl View for Db {
    type V = DbView;

    closed spec fn view(&self) -> DbView {
        DbView {
            dim: self.dim as nat,
            metric: self.metric,
            page_size: self.page_size as nat,
            users: pairs_map(self.users@),
            records: self.records@.map_values(|r: Record| r@),
            next_id: self.next_id,
        }
    }
}

impl Db {
    /// Representation invariant: the view is well formed and the user rows
    /// carry distinct ids.
    pub closed spec fn inv(&self) -> bool {
        self@.wf() && keys_unique(self.users@)
    }

    /// The representation invariant includes well-formedness of the view.
    pub proof fn lemma_inv_wf(&self)
        requires
            self.inv(),
        ensures
            self@.wf(),
    {
    }

    /// A fresh, empty store with the given deployment configuration.
    pub fn new(dim: usize, metric: Metric, page_size: usize) -> (db: Db)
        requires
            1 <= dim <= DIM_LIMIT,
            1 <= page_size <= PAGE_SIZE_LIMIT,
        ensures
            db.inv(),
            db@.wf(),
            db@.dim == dim,
            db@.metric == metric,
            db@.page_size == page_size,
            db@.users == Map::<i64, u64>::empty(),
            db@.records == Seq::<RecView>::empty(),
            db@.next_id == 1,
    {
        let db = Db {
            dim,
            metric,
            page_size,
            users: Vec::new(),
            records: Vec::new(),
            next_id: 1,
        };
        proof {
            assert(db@.records =~= Seq::<RecView>::empty());
        }
        db
    }

    pub fn dim(&self) -> (r: usize)
        ensures
            r == self@.dim,
    {
        self.dim
    }

    pub fn metric(&self) -> (r: Metric)
        ensures
            r == self@.metric,
    {
        self.metric
    }

    pub fn page_size(&self) -> (r: usize)
        ensures
            r == self@.page_size,
    {
        self.page_size
    }

    pub fn next_id(&self) -> (r: u64)
        ensures
            r == self@.next_id,
    {
        self.next_id
    }

    /// Creates the user on first contact, else bumps its last activity;
    /// idempotent, never an error.
    pub fn update_user(&mut self, id: i64, now: u64)
        requires
            old(self).inv(),
        ensures
            final(self).inv(),
            final(self)@.wf(),
            same_config(final(self)@, old(self)@),
            final(self)@.users == old(self)@.users.insert(id, now),
            final(self)@.records == old(self)@.records,
            final(self)@.next_id == old(self)@.next_id,
    {
        let n = self.users.len();
        let mut i: usize = 0;
        while i < n
            invariant
                *self == *old(self),
                n == self.users@.len(),
                0 <= i <= n,
                forall|k: int| 0 <= k < i ==> (#[trigger] self.users@[k]).0 != id,
            decreases n - i,
        {
            if self.users[i].0 == id {
                proof {
                    lemma_pairs_map_update(self.users@, i as int, now);
                }
                self.users.set(i, (id, now));
                return;
            }
            i = i + 1;
        }
        proof {
            assert(self.users@.push((id, now)).drop_last() =~= self.users@);
        }
        self.users.push((id, now));
    }

    /// Adds one to `uses_count` of the record `image` if it belongs to
    /// `user`; a benign no-op otherwise.
    pub fn increment_image_uses(&mut self, image: u64, user: i64)
        requires
            old(self).inv(),
        ensures
            final(self).inv(),
            final(self)@.wf(),
            same_config(final(self)@, old(self)@),
            final(self)@.users == old(self)@.users,
            final(self)@.next_id == old(self)@.next_id,
            final(self)@.records == spec_bumped(old(self)@.records, image, user),
    {
        let ghost orig = self@.records;
        let n = self.records.len();
        let mut i: usize = 0;
        while i < n
            invariant
                self.dim == old(self).dim,
                self.metric == old(self).metric,
                self.page_size == old(self).page_size,
                self.users == old(self).users,
                self.next_id == old(self).next_id,
                n == self.records@.len(),
                0 <= i <= n,
                orig.len() == n,
                forall|k: int| i <= k < n ==> self.records@[k]@ == orig[k],
                forall|k: int| 0 <= k < i ==> self.records@[k]@ == bump_rec(orig[k], image, user),
            decreases n - i,
        {
            if self.records[i].id == image && self.records[i].owner == user {
                let rec = &self.records[i];
                let uses = if rec.uses_count == u64::MAX {
                    rec.uses_count
                } else {
                    rec.uses_count + 1
                };
                let updated = Record {
                    id: rec.id,
                    owner: rec.owner,
                    file_id: dup_bytes(&rec.file_id),
                    fingerprint: dup_bytes(&rec.fingerprint),
                    embedding: dup_comps(&rec.embedding),
                    media_type: rec.media_type,
                    uses_count: uses,
                    created_at: rec.created_at,
                };
                proof {
                    assert(updated@ =~= bump_rec(orig[i as int], image, user));
                }
                self.records.set(i, updated);
            }
            i = i + 1;
        }
        proof {
            assert(self@.records =~= spec_bumped(orig, image, user));
        }
    }

    /// Replaces the embedding of record `id` in place; no other field is
    /// touched; a benign no-op if the record is absent.
    pub fn update_image(&mut self, id: u64, embedding: &Embedding)
        requires
            old(self).inv(),
            embedding.wf(),
            embedding@.len() == old(self)@.dim,
        ensures
            final(self).inv(),
            final(self)@.wf(),
            same_config(final(self)@, old(self)@),
            final(self)@.users == old(self)@.users,
            final(self)@.next_id == old(self)@.next_id,
            final(self)@.records == spec_reembedded(old(self)@.records, id, embedding@),
    {
        let ghost orig = self@.records;
        let n = self.records.len();
        let mut i: usize = 0;
        while i < n
            invariant
                self.dim == old(self).dim,
                self.metric == old(self).metric,
                self.page_size == old(self).page_size,
                self.users == old(self).users,
                self.next_id == old(self).next_id,
                n == self.records@.len(),
                0 <= i <= n,
                orig.len() == n,
                forall|k: int| i <= k < n ==> self.records@[k]@ == orig[k],
                forall|k: int| 0 <= k < i ==> self.records@[k]@ == reembed_rec(orig[k], id, embedding@),
            decreases n - i,
        {
            if self.records[i].id == id {
                let rec = &self.records[i];
                let updated = Record {
                    id: rec.id,
                    owner: rec.owner,
                    file_id: dup_bytes(&rec.file_id),
                    fingerprint: dup_bytes(&rec.fingerprint),
                    embedding: embedding.clone_comps(),
                    media_type: rec.media_type,
                    uses_count: rec.uses_count,
                    created_at: rec.created_at,
                };
                proof {
                    assert(updated@ =~= reembed_rec(orig[i as int], id, embedding@));
                }
                self.records.set(i, updated);
            }
            i = i + 1;
        }
        proof {
            assert(self@.records =~= spec_reembedded(orig, id, embedding@));
        }
    }

    /// Removes the record of `user` carrying fingerprint `unique_id`, and
    /// says whether one was there; no error if absent.
    pub fn delete_image(&mut self, user: i64, unique_id: &Vec<u8>) -> (removed: bool)
        requires
            old(self).inv(),
        ensures
            final(self).inv(),
            final(self)@.wf(),
            same_config(final(self)@, old(self)@),
            final(self)@.users == old(self)@.users,
            final(self)@.next_id == old(self)@.next_id,
            final(self)@.records == spec_delete(old(self)@.records, user, unique_id@),
            removed == has_record(old(self)@.records, user, unique_id@),
    {
        let ghost orig = self@.records;
        let n = self.records.len();
        let mut kept: Vec<Record> = Vec::new();
        let mut removed = false;
        let mut i: usize = 0;
        while i < n
            invariant
                n == self.records@.len(),
                0 <= i <= n,
                orig == self.records@.map_values(|r: Record| r@),
                orig.len() == n,
                kept@.map_values(|r: Record| r@) =~= spec_delete(
                    orig.take(i as int),
                    user,
                    unique_id@,
                ),
                removed == has_record(orig.take(i as int), user, unique_id@),
            decreases n - i,
        {
            let ghost prefix = orig.take(i as int);
            proof {
                reveal(Seq::filter);
                assert(orig.take(i as int + 1).drop_last() =~= prefix);
                assert(orig.take(i as int + 1).last() == orig[i as int]);
                if has_record(prefix, user, unique_id@) {
                    let w = choose|k: int|
                        0 <= k < prefix.len() && (#[trigger] prefix[k]).owner == user
                            && prefix[k].fingerprint == unique_id@;
                    assert(orig.take(i as int + 1)[w].owner == user);
                }
            }
            let rec = &self.records[i];
            if rec.owner == user && bytes_eq(&rec.fingerprint, unique_id) {
                removed = true;
                proof {
                    assert(orig.take(i as int + 1)[i as int].owner == user);
                }
            } else {
                let moved = Record {
                    id: rec.id,
                    owner: rec.owner,
                    file_id: dup_bytes(&rec.file_id),
                    fingerprint: dup_bytes(&rec.fingerprint),
                    embedding: dup_comps(&rec.embedding),
                    media_type: rec.media_type,
                    uses_count: rec.uses_count,
                    created_at: rec.created_at,
                };
                proof {
                    assert(moved@ =~= orig[i as int]);
                    if has_record(orig.take(i as int + 1), user, unique_id@) {
                        let w = choose|k: int|
                            0 <= k < i + 1 && (#[trigger] orig.take(i as int + 1)[k]).owner == user
                                && orig.take(i as int + 1)[k].fingerprint == unique_id@;
                        assert(w < i);
                        assert(prefix[w].owner == user);
                    }
                }
                kept.push(moved);
            }
            i = i + 1;
        }
        proof {
            assert(orig.take(n as int) =~= orig);
        }
        self.records = kept;
        proof {
            assert(self@.records =~= spec_delete(orig, user, unique_id@));
            lemma_delete_keeps_props(
                orig,
                user,
                unique_id@,
                old(self)@.dim,
                old(self)@.next_id,
            );
        }
        removed
    }

    /// Creates a record for `(user, unique_id)`; `Conflict` exactly when one
    /// already exists, in which case nothing changes.
    pub fn create_image(
        &mut self,
        user: i64,
        embedding: Embedding,
        file_id: Vec<u8>,
        unique_id: Vec<u8>,
        media_type: MediaType,
        now: u64,
    ) -> (r: Result<u64, Error>)
        requires
            old(self).inv(),
            embedding.wf(),
            embedding@.len() == old(self)@.dim,
            old(self)@.next_id < u64::MAX,
        ensures
            final(self).inv(),
            final(self)@.wf(),
            same_config(final(self)@, old(self)@),
            final(self)@.users == old(self)@.users,
            r is Ok <==> !has_record(old(self)@.records, user, unique_id@),
            match r {
                Ok(id) => {
                    &&& id == old(self)@.next_id
                    &&& final(self)@.next_id == old(self)@.next_id + 1
                    &&& final(self)@.records == old(self)@.records.push(
                        new_rec(id, user, embedding@, file_id@, unique_id@, media_type, now),
                    )
                },
                Err(e) => e == Error::Conflict && final(self)@ == old(self)@,
            },
    {
        let ghost orig = self@.records;
        let n = self.records.len();
        let mut i: usize = 0;
        while i < n
            invariant
                n == self.records@.len(),
                0 <= i <= n,
                orig == self.records@.map_values(|r: Record| r@),
                forall|k: int|
                    0 <= k < i ==> !((#[trigger] orig[k]).owner == user && orig[k].fingerprint
                        == unique_id@),
            decreases n - i,
        {
            let rec = &self.records[i];
            if rec.owner == user && bytes_eq(&rec.fingerprint, &unique_id) {
                proof {
                    assert(orig[i as int].owner == user && orig[i as int].fingerprint
                        == unique_id@);
                }
                return Err(Error::Conflict);
            }
            i = i + 1;
        }
        let id = self.next_id;
        let ghost emb_view = embedding@;
        let ghost file_view = file_id@;
        let ghost fp_view = unique_id@;
        let rec = Record {
            id,
            owner: user,
            file_id,
            fingerprint: unique_id,
            embedding: embedding.into_comps(),
            media_type,
            uses_count: 0,
            created_at: now,
        };
        self.next_id = id + 1;
        self.records.push(rec);
        proof {
            assert(self@.records =~= orig.push(
                new_rec(id, user, emb_view, file_view, fp_view, media_type, now),
            ));
        }
        Ok(id)
    }

    /// Every stored record, in storage order, projected for delivery; used
    /// only by the administrative re-index sweep.
    pub fn get_all_images(&self) -> (r: Vec<ImageWithIds>)
        requires
            self.inv(),
        ensures
            views_of(r@) == self@.records.map_values(|rv: RecView| proj(rv)),
    {
        let n = self.records.len();
        let mut out: Vec<ImageWithIds> = Vec::new();
        let mut i: usize = 0;
        while i < n
            invariant
                n == self.records@.len(),
                0 <= i <= n,
                views_of(out@) =~= self@.records.map_values(|rv: RecView| proj(rv)).take(i as int),
            decreases n - i,
        {
            let rec = &self.records[i];
            out.push(ImageWithIds {
                id: rec.id,
                media_type: rec.media_type,
                file_id: dup_bytes(&rec.file_id),
            });
            proof {
                assert(views_of(out@) =~= self@.records.map_values(|rv: RecView| proj(rv)).take(
                    i as int + 1,
                ));
            }
            i = i + 1;
        }
        proof {
            let m = self@.records.map_values(|rv: RecView| proj(rv));
            assert(m.take(n as int) =~= m);
        }
        out
    }

    /// The stored selection count of record `image`, for inspection.
    pub fn get_uses(&self, image: u64) -> (r: Option<u64>)
        requires
            self.inv(),
        ensures
            r == uses_of(self@.records, image),
    {
        let ghost vs = self@.records;
        let n = self.records.len();
        proof {
            assert(vs.skip(0) =~= vs);
        }
        let mut i: usize = 0;
        while i < n
            invariant
                0 <= i <= n,
                n == vs.len(),
                uses_of(vs.skip(i as int), image) == uses_of(vs, image),
            decreases n - i,
        {
            proof {
                assert(vs.skip(i as int)[0] == vs[i as int]);
                assert(vs.skip(i as int).drop_first() =~= vs.skip(i as int + 1));
            }
            if self.records[i].id == image {
                return Some(self.records[i].uses_count);
            }
            i = i + 1;
        }
        proof {
            assert(vs.skip(n as int).len() == 0);
        }
        None
    }

    /// The stored last-activity time of a user, for inspection.
    pub fn get_user_activity(&self, id: i64) -> (r: Option<u64>)
        requires
            self.inv(),
        ensures
            r == (if self@.users.contains_key(id) {
                Some(self@.users[id])
            } else {
                None::<u64>
            }),
    {
        let n = self.users.len();
        let mut i: usize = 0;
        while i < n
            invariant
                0 <= i <= n,
                n == self.users@.len(),
                forall|k: int| 0 <= k < i ==> (#[trigger] self.users@[k]).0 != id,
            decreases n - i,
        {
            if self.users[i].0 == id {
                proof {
                    crate::kvmap::lemma_pairs_map_at(self.users@, i as int);
                }
                return Some(self.users[i].1);
            }
            i = i + 1;
        }
        proof {
            crate::kvmap::lemma_pairs_map_key(self.users@, id);
        }
        None
    }

    /// One over-fetched page of the owner's ranked results: semantic order
    /// when a query embedding is given, popularity order otherwise.
    fn page_ranked(&self, user: i64, sim: Option<&Embedding>, offset: Option<u64>) -> (r: Vec<
        ImageWithIds,
    >)
        requires
            self.inv(),
            match sim {
                Some(e) => e.wf() && e@.len() == self@.dim,
                None => true,
            },
        ensures
            views_of(r@) == page_slice(
                spec_ranked(
                    self@,
                    user,
                    match sim {
                        Some(e) => Some(e@),
                        None => None,
                    },
                ),
                off_val(offset),
                self@.page_size + 1 as int,
            ),
            spec_ranked(
                self@,
                user,
                match sim {
                    Some(e) => Some(e@),
                    None => None,
                },
            ).len() <= usize::MAX,
    {
        let ghost q: Option<Seq<i64>> = match sim {
            Some(e) => Some(e@),
            None => None,
        };
        let ghost vs = self@.records;
        let ghost orecs = owner_recs(vs, user);
        let n_all = self.records.len();
        let mut rows: Vec<ImageWithIds> = Vec::new();
        let mut keys: Vec<RankKey> = Vec::new();
        let mut i: usize = 0;
        while i < n_all
            invariant
                0 <= i <= n_all,
                n_all == vs.len(),
                rows@.len() == keys@.len(),
                views_of(rows@) =~= projs(owner_recs(vs.take(i as int), user)),
                keys@ =~= keys_of(owner_recs(vs.take(i as int), user), self@.metric, q),
            decreases n_all - i,
        {
            let ghost prefix = owner_recs(vs.take(i as int), user);
            proof {
                reveal(Seq::filter);
                assert(vs.take(i as int + 1).drop_last() =~= vs.take(i as int));
                assert(vs.take(i as int + 1).last() == vs[i as int]);
            }
            let rec = &self.records[i];
            let ghost rows_before = rows@;
            if rec.owner == user {
                rows.push(ImageWithIds {
                    id: rec.id,
                    media_type: rec.media_type,
                    file_id: dup_bytes(&rec.file_id),
                });
                let key = match sim {
                    Some(e) => {
                        let d = rank_distance(self.metric, e, &rec.embedding);
                        proof {
                            lemma_rank_distance_bound(self@.metric, e@, vs[i as int].embedding);
                        }
                        RankKey { a: d, b: rec.id, c: 0 }
                    },
                    None => RankKey {
                        a: u64::MAX - rec.uses_count,
                        b: u64::MAX - rec.created_at,
                        c: u64::MAX - rec.id,
                    },
                };
                proof {
                    assert(key == rec_key(self@.metric, q, vs[i as int]));
                }
                keys.push(key);
                proof {
                    let step = owner_recs(vs.take(i as int + 1), user);
                    assert(step =~= prefix.push(vs[i as int]));
                    assert(rows@ == rows_before.push(rows@[rows@.len() - 1]));
                    assert(rows@[rows@.len() - 1]@ =~= proj(vs[i as int]));
                    assert(views_of(rows_before) == projs(prefix));
                    assert forall|k: int| 0 <= k < rows@.len() implies views_of(rows@)[k]
                        == projs(step)[k] by {
                        if k < rows@.len() - 1 {
                            assert(views_of(rows_before)[k] == projs(prefix)[k]);
                        }
                    }
                    assert(views_of(rows@) =~= projs(step));
                    assert(keys@ =~= keys_of(step, self@.metric, q));
                }
            } else {
                proof {
                    assert(owner_recs(vs.take(i as int + 1), user) =~= prefix);
                }
            }
            i = i + 1;
        }
        proof {
            assert(vs.take(n_all as int) =~= vs);
        }
        let n = rows.len();
        let mut order: Vec<usize> = Vec::new();
        let mut k: usize = 0;
        while k < n
            invariant
                0 <= k <= n,
                order@ =~= identity_perm(k as int),
            decreases n - k,
        {
            order.push(k);
            proof {
                assert(order@ =~= identity_perm(k as int + 1));
            }
            k = k + 1;
        }
        sort_indices(&keys, &mut order);
        proof {
            assert(order@.to_multiset() == identity_perm(n as int).to_multiset());
            lemma_sorted_is_spec_rank(keys@, order@, n as int);
        }
        let ghost ranked = spec_ranked(self@, user, q);
        proof {
            assert(orecs.len() == n);
            assert(ranked =~= order@.map_values(|idx: usize| proj(orecs[idx as int])));
        }
        let ps_plus: usize = self.page_size + 1;
        let off_u: u64 = match offset {
            Some(o) => o,
            None => 0,
        };
        let start: usize = if off_u >= (n as u64) {
            n
        } else {
            off_u as usize
        };
        let avail: usize = n - start;
        let cnt: usize = if ps_plus < avail {
            ps_plus
        } else {
            avail
        };
        let mut out: Vec<ImageWithIds> = Vec::new();
        let mut t: usize = 0;
        while t < cnt
            invariant
                0 <= t <= cnt,
                start + cnt <= n,
                views_of(out@) =~= ranked.subrange(start as int, start as int + t as int),
            decreases cnt - t,
        {
            let idx = order[start + t];
            let row = rows[idx].duplicate();
            out.push(row);
            proof {
                assert(ranked[start as int + t as int] == proj(
                    orecs[order@[start as int + t as int] as int],
                ));
                assert(views_of(rows@)[idx as int] == proj(orecs[idx as int]));
                assert(views_of(out@) =~= ranked.subrange(
                    start as int,
                    start as int + t as int + 1,
                ));
            }
            t = t + 1;
        }
        proof {
            assert(ranked.len() == n);
            assert(views_of(out@) =~= page_slice(ranked, off_val(offset), self@.page_size + 1 as int));
        }
        out
    }

    /// The owner's records by ascending distance of their embedding from
    /// `embedding`, over-fetched by one row past the page size, starting at
    /// the opaque offset cursor.
    pub fn search_images(&self, user: i64, embedding: &Embedding, offset: Option<u64>) -> (r: Vec<
        ImageWithIds,
    >)
        requires
            self.inv(),
            embedding.wf(),
            embedding@.len() == self@.dim,
        ensures
            views_of(r@) == page_slice(
                spec_ranked(self@, user, Some(embedding@)),
                off_val(offset),
                self@.page_size + 1 as int,
            ),
            spec_ranked(self@, user, Some(embedding@)).len() <= usize::MAX,
    {
        self.page_ranked(user, Some(embedding), offset)
    }

    /// The owner's records by descending `uses_count`, ties by descending
    /// creation time then descending id; same over-fetch-by-one pagination.
    pub fn get_most_used_images(&self, user: i64, offset: Option<u64>) -> (r: Vec<ImageWithIds>)
        requires
            self.inv(),
        ensures
            views_of(r@) == page_slice(
                spec_ranked(self@, user, None),
                off_val(offset),
                self@.page_size + 1 as int,
            ),
            spec_ranked(self@, user, None).len() <= usize::MAX,
    {
        self.page_ranked(user, None, offset)
    }
}

/// Deleting keeps every record-level well-formedness property: the
/// survivors are a subsequence of the original records.
proof fn lemma_delete_keeps_props(recs: Seq<RecView>, user: i64, fp: Seq<u8>, dim: nat, next_id: u64)
    requires
        forall|i: int, j: int|
            0 <= i < j < recs.len() ==> !((#[trigger] recs[i]).owner == (#[trigger] recs[j]).owner
                && recs[i].fingerprint == recs[j].fingerprint),
        forall|i: int, j: int|
            0 <= i < j < recs.len() ==> (#[trigger] recs[i]).id != (#[trigger] recs[j]).id,
        forall|i: int| 0 <= i < recs.len() ==> (#[trigger] recs[i]).id < next_id,
        forall|i: int|
            0 <= i < recs.len() ==> (#[trigger] recs[i]).embedding.len() == dim && bounded_comps(
                recs[i].embedding,
            ),
    ensures
        forall|k: int|
            0 <= k < spec_delete(recs, user, fp).len() ==> recs.contains(
                #[trigger] spec_delete(recs, user, fp)[k],
            ),
        forall|k: int, l: int|
            0 <= k < l < spec_delete(recs, user, fp).len() ==> !((#[trigger] spec_delete(
                recs,
                user,
                fp,
            )[k]).owner == (#[trigger] spec_delete(recs, user, fp)[l]).owner && spec_delete(
                recs,
                user,
                fp,
            )[k].fingerprint == spec_delete(recs, user, fp)[l].fingerprint),
        forall|k: int, l: int|
            0 <= k < l < spec_delete(recs, user, fp).len() ==> (#[trigger] spec_delete(
                recs,
                user,
                fp,
            )[k]).id != (#[trigger] spec_delete(recs, user, fp)[l]).id,
        forall|k: int|
            0 <= k < spec_delete(recs, user, fp).len() ==> (#[trigger] spec_delete(
                recs,
                user,
                fp,
            )[k]).id < next_id,
        forall|k: int|
            0 <= k < spec_delete(recs, user, fp).len() ==> (#[trigger] spec_delete(
                recs,
                user,
                fp,
            )[k]).embedding.len() == dim && bounded_comps(spec_delete(recs, user, fp)[k].embedding),
    decreases recs.len(),
{
    reveal(Seq::filter);
    let out = spec_delete(recs, user, fp);
    if recs.len() > 0 {
        let prefix = recs.drop_last();
        let last = recs.last();
        lemma_delete_keeps_props(prefix, user, fp, dim, next_id);
        let pout = spec_delete(prefix, user, fp);
        assert(out == if survives(last, user, fp) {
            pout.push(last)
        } else {
            pout
        });
        assert forall|k: int| 0 <= k < out.len() implies recs.contains(#[trigger] out[k]) by {
            if k < pout.len() {
                assert(prefix.contains(pout[k]));
                let j = choose|j: int| 0 <= j < prefix.len() && prefix[j] == pout[k];
                assert(recs[j] == pout[k]);
            } else {
                assert(recs[recs.len() - 1] == out[k]);
            }
        }
        assert forall|k: int, l: int| 0 <= k < l < out.len() implies !((#[trigger] out[k]).owner
            == (#[trigger] out[l]).owner && out[k].fingerprint == out[l].fingerprint) && out[k].id
            != out[l].id by {
            if l < pout.len() {
            } else if l == pout.len() && out.len() == pout.len() + 1 {
                // out[l] is the original last record; out[k] sits in the prefix
                assert(prefix.contains(pout[k]));
                let j = choose|j: int| 0 <= j < prefix.len() && prefix[j] == pout[k];
                assert(recs[j] == out[k]);
                assert(recs[recs.len() - 1] == out[l]);
            }
        }
        assert forall|k: int| 0 <= k < out.len() implies (#[trigger] out[k]).id < next_id
            && out[k].embedding.len() == dim && bounded_comps(out[k].embedding) by {
            assert(recs.contains(out[k]));
            let j = choose|j: int| 0 <= j < recs.len() && recs[j] == out[k];
            assert(recs[j].id < next_id);
        }
    }
}

} // verus!
