//! The ingestion / dedup controller: the toggle over `(owner, fingerprint)`.
//!
//! One submission event runs Check, then either Delete (the pair was
//! stored) or Compute-and-Persist (it was not). `submit_media` is the
//! Check/Delete step; when it answers `NeedEmbedding` the caller computes
//! the embedding through the gateway and persists with `Db::create_image`.
//! A failure between the two steps leaves no record behind, which is safe
//! and re-triable.

use vstd::prelude::*;

use crate::store::{
    has_record, lemma_delete_absent, lemma_delete_removes, new_rec, same_config, spec_delete, Db,
    MediaType, RecView,
};

verus! {

/// What the Check step of the toggle decided.
#[derive(Clone, Copy, Debug, PartialEq, Eq, Structural)]
pub enum ToggleOutcome {
    /// A record for the pair existed and was removed; the toggle is done.
    Removed,
    /// Nothing was stored: compute an embedding, then persist.
    NeedEmbedding,
}

/// Check-then-Delete: removes the owner's record for this fingerprint if
/// one exists, else reports that an embedding must be computed; in that
/// case the store is untouched.
pub fn submit_media(db: &mut Db, user: i64, fingerprint: &Vec<u8>) -> (r: ToggleOutcome)
    requires
        old(db).inv(),
    ensures
        final(db).inv(),
        final(db)@.wf(),
        same_config(final(db)@, old(db)@),
        final(db)@.users == old(db)@.users,
        final(db)@.next_id == old(db)@.next_id,
        final(db)@.records == spec_delete(old(db)@.records, user, fingerprint@),
        r == (if has_record(old(db)@.records, user, fingerprint@) {
            ToggleOutcome::Removed
        } else {
            ToggleOutcome::NeedEmbedding
        }),
        !has_record(old(db)@.records, user, fingerprint@) ==> final(db)@ == old(db)@,
{
    let removed = db.delete_image(user, fingerprint);
    proof {
        if !has_record(old(db)@.records, user, fingerprint@) {
            lemma_delete_absent(old(db)@.records, user, fingerprint@);
            assert(db@ =~= old(db)@);
        }
    }
    if removed {
        ToggleOutcome::Removed
    } else {
        ToggleOutcome::NeedEmbedding
    }
}

/// The record sequence after one complete toggle event for `(user, fp)`:
/// delete when stored, else append the newly persisted record.
pub open spec fn spec_toggle(
    recs: Seq<RecView>,
    user: i64,
    fp: Seq<u8>,
    id: u64,
    emb: Seq<i64>,
    file_id: Seq<u8>,
    media_type: MediaType,
    now: u64,
) -> Seq<RecView> {
    if has_record(recs, user, fp) {
        spec_delete(recs, user, fp)
    } else {
        recs.push(new_rec(id, user, emb, file_id, fp, media_type, now))
    }
}

/// Law: one toggle flips whether `(user, fp)` is stored.
pub proof fn lemma_toggle_flips(
    recs: Seq<RecView>,
    user: i64,
    fp: Seq<u8>,
    id: u64,
    emb: Seq<i64>,
    file_id: Seq<u8>,
    media_type: MediaType,
    now: u64,
)
    ensures
        has_record(spec_toggle(recs, user, fp, id, emb, file_id, media_type, now), user, fp)
            == !has_record(recs, user, fp),
{
    let out = spec_toggle(recs, user, fp, id, emb, file_id, media_type, now);
    if has_record(recs, user, fp) {
        lemma_delete_removes(recs, user, fp);
    } else {
        assert(out[out.len() - 1].owner == user && out[out.len() - 1].fingerprint == fp);
    }
}

/// Law: the toggle is an involution on the stored/absent state of a pair.
/// Submitting the same media twice returns the owner's store to where it
/// stood; a third submission recreates the record.
pub proof fn lemma_toggle_involution(
    recs: Seq<RecView>,
    user: i64,
    fp: Seq<u8>,
    id1: u64,
    emb1: Seq<i64>,
    file1: Seq<u8>,
    mt1: MediaType,
    t1: u64,
    id2: u64,
    emb2: Seq<i64>,
    file2: Seq<u8>,
    mt2: MediaType,
    t2: u64,
)
    ensures
        has_record(
            spec_toggle(
                spec_toggle(recs, user, fp, id1, emb1, file1, mt1, t1),
                user,
                fp,
                id2,
                emb2,
                file2,
                mt2,
                t2,
            ),
            user,
            fp,
        ) == has_record(recs, user, fp),
{
    lemma_toggle_flips(recs, user, fp, id1, emb1, file1, mt1, t1);
    lemma_toggle_flips(
        spec_toggle(recs, user, fp, id1, emb1, file1, mt1, t1),
        user,
        fp,
        id2,
        emb2,
        file2,
        mt2,
        t2,
    );
}

} // verus!
