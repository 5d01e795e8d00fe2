//! The retrieval planner: mode choice, pagination, and selection reports.
//!
//! Given an owner, an optional query embedding and an opaque offset cursor,
//! the planner fetches one over-sized page from the store, drops the extra
//! row, and emits the next cursor exactly when that extra row existed. An
//! empty slice is a distinct "no matches" signal.

use vstd::prelude::*;

use crate::embedding::Embedding;
use crate::store::{
    off_val, page_slice, same_config, spec_bumped, spec_ranked, views_of, Db, ImageView,
    ImageWithIds,
};

verus! {

/// Non-empty and all ASCII decimal digits.
pub open spec fn is_digits(s: Seq<u8>) -> bool {
    s.len() > 0 && forall|i: int| 0 <= i < s.len() ==> 48 <= #[trigger] s[i] <= 57
}

/// The number the digit string denotes.
pub open spec fn digits_val(s: Seq<u8>) -> int
    decreases s.len(),
{
    if s.len() == 0 {
        0
    } else {
        digits_val(s.drop_last()) * 10 + (s.last() - 48)
    }
}

proof fn lemma_digits_nonneg(s: Seq<u8>)
    requires
        forall|i: int| 0 <= i < s.len() ==> 48 <= #[trigger] s[i] <= 57,
    ensures
        digits_val(s) >= 0,
    decreases s.len(),
{
    if s.len() > 0 {
        assert forall|i: int| 0 <= i < s.drop_last().len() implies 48 <= #[trigger] s.drop_last()[i]
            <= 57 by {
            assert(s[i] == s.drop_last()[i]);
        }
        lemma_digits_nonneg(s.drop_last());
    }
}

proof fn lemma_digits_step(s: Seq<u8>, i: int)
    requires
        0 <= i < s.len(),
    ensures
        digits_val(s.take(i + 1)) == digits_val(s.take(i)) * 10 + (s[i] - 48),
{
    assert(s.take(i + 1).drop_last() =~= s.take(i));
    assert(s.take(i + 1).last() == s[i]);
}

proof fn lemma_digits_monotone(s: Seq<u8>, i: int)
    requires
        forall|k: int| 0 <= k < s.len() ==> 48 <= #[trigger] s[k] <= 57,
        0 <= i <= s.len(),
    ensures
        digits_val(s.take(i)) <= digits_val(s),
    decreases s.len() - i,
{
    if i < s.len() {
        assert forall|k: int| 0 <= k < s.take(i).len() implies 48 <= #[trigger] s.take(i)[k]
            <= 57 by {
            assert(s.take(i)[k] == s[k]);
        }
        lemma_digits_nonneg(s.take(i));
        lemma_digits_step(s, i);
        lemma_digits_monotone(s, i + 1);
    } else {
        assert(s.take(i) =~= s);
    }
}

/// Parses an opaque decimal cursor or result id, exactly as the transport
/// hands it over: the number iff the text is all digits and fits.
pub fn parse_u64(s: &Vec<u8>) -> (r: Option<u64>)
    ensures
        r == (if is_digits(s@) && digits_val(s@) <= u64::MAX {
            Some(digits_val(s@) as u64)
        } else {
            None::<u64>
        }),
{
    if s.len() == 0 {
        return None;
    }
    let mut acc: u64 = 0;
    let mut i: usize = 0;
    while i < s.len()
        invariant
            0 <= i <= s@.len(),
            s@.len() > 0,
            forall|k: int| 0 <= k < i ==> 48 <= #[trigger] s@[k] <= 57,
            acc as int == digits_val(s@.take(i as int)),
        decreases s@.len() - i,
    {
        let c = s[i];
        if c < 48 || c > 57 {
            return None;
        }
        let d: u64 = (c - 48) as u64;
        proof {
            lemma_digits_step(s@, i as int);
        }
        if acc > (u64::MAX - d) / 10 {
            proof {
                assert(acc as int * 10 + d > u64::MAX) by (nonlinear_arith)
                    requires
                        acc as int > (u64::MAX - d as int) / 10,
                        0 <= d <= 9,
                        acc as int >= 0,
                ;
                if is_digits(s@) {
                    lemma_digits_monotone(s@, i as int + 1);
                }
            }
            return None;
        }
        proof {
            assert(acc as int * 10 + d <= u64::MAX) by (nonlinear_arith)
                requires
                    acc as int <= (u64::MAX - d as int) / 10,
                    0 <= d <= 9,
                    acc as int >= 0,
            ;
        }
        acc = acc * 10 + d;
        i = i + 1;
    }
    proof {
        assert(s@.take(s@.len() as int) =~= s@);
    }
    Some(acc)
}

/// What one page request produces.
pub enum QueryOutcome {
    /// The slice at the cursor is empty: render the empty state.
    NoMatches,
    /// One page, and the cursor to echo back if more results remain.
    Page { items: Vec<ImageWithIds>, next_offset: Option<u64> },
}

/// The query embedding's view, when there is one.
pub open spec fn spec_query(q: Option<&Embedding>) -> Option<Seq<i64>> {
    match q {
        Some(e) => Some(e@),
        None => None,
    }
}

/// Answers one page request: semantic ranking for a query embedding,
/// popularity ranking for an empty query; drops the over-fetched row and
/// emits the next cursor exactly when more results remain.
pub fn answer_query(db: &Db, user: i64, query: Option<&Embedding>, offset: Option<u64>) -> (r:
    QueryOutcome)
    requires
        db.inv(),
        (match query {
            Some(e) => e.wf() && e@.len() == db@.dim,
            None => true,
        }),
    ensures
        ({
            let full = spec_ranked(db@, user, spec_query(query));
            let off = off_val(offset);
            match r {
                QueryOutcome::NoMatches => page_slice(full, off, db@.page_size + 1 as int).len()
                    == 0,
                QueryOutcome::Page { items, next_offset } => {
                    &&& page_slice(full, off, db@.page_size + 1 as int).len() > 0
                    &&& views_of(items@) == page_slice(full, off, db@.page_size as int)
                    &&& next_offset == (if off + db@.page_size < full.len() {
                        Some((off + db@.page_size) as u64)
                    } else {
                        None::<u64>
                    })
                },
            }
        }),
{
    let rows = match query {
        Some(e) => db.search_images(user, e, offset),
        None => db.get_most_used_images(user, offset),
    };
    let ps = db.page_size();
    let ghost full = spec_ranked(db@, user, spec_query(query));
    let ghost off = off_val(offset);
    let ghost fetched = page_slice(full, off, db@.page_size + 1 as int);
    proof {
        assert(rows@.len() == fetched.len());
    }
    if rows.len() == 0 {
        return QueryOutcome::NoMatches;
    }
    let n_items = if rows.len() > ps {
        ps
    } else {
        rows.len()
    };
    let mut items: Vec<ImageWithIds> = Vec::new();
    let mut t: usize = 0;
    while t < n_items
        invariant
            0 <= t <= n_items,
            n_items <= rows@.len(),
            views_of(items@) =~= fetched.take(t as int),
        decreases n_items - t,
    {
        let row = rows[t].duplicate();
        items.push(row);
        proof {
            assert(views_of(items@) =~= fetched.take(t as int + 1));
        }
        t = t + 1;
    }
    proof {
        assert(views_of(items@) =~= page_slice(full, off, db@.page_size as int));
    }
    let next_offset: Option<u64> = if rows.len() > ps {
        let off_u: u64 = match offset {
            Some(o) => o,
            None => 0,
        };
        proof {
            assert(fetched.len() == db@.page_size + 1);
            assert(off + db@.page_size < full.len());
            assert(off_u as int == off);
        }
        Some(off_u + (ps as u64))
    } else {
        None
    };
    QueryOutcome::Page { items, next_offset }
}

/// Reports a selected result back: parses the delivered result id and, if
/// it parses, records one use of that record for this owner; anything else
/// is a benign no-op.
pub fn record_selection(db: &mut Db, result_id: &Vec<u8>, user: i64)
    requires
        old(db).inv(),
    ensures
        final(db).inv(),
        final(db)@.wf(),
        same_config(final(db)@, old(db)@),
        final(db)@.users == old(db)@.users,
        final(db)@.next_id == old(db)@.next_id,
        final(db)@.records == (if is_digits(result_id@) && digits_val(result_id@) <= u64::MAX {
            spec_bumped(old(db)@.records, digits_val(result_id@) as u64, user)
        } else {
            old(db)@.records
        }),
{
    match parse_u64(result_id) {
        Some(id) => db.increment_image_uses(id, user),
        None => proof {
            db.lemma_inv_wf();
        },
    }
}

/// The concatenation of the first `k` pages of size `ps`.
pub open spec fn pages_concat(full: Seq<ImageView>, ps: int, k: int) -> Seq<ImageView>
    decreases k,
{
    if k <= 0 {
        Seq::empty()
    } else {
        pages_concat(full, ps, k - 1) + page_slice(full, ps * (k - 1), ps)
    }
}

/// Walking pages from the start covers, after `k` pages, exactly the first
/// `k * ps` entries (clamped to the end): no duplicates, no omissions.
pub proof fn lemma_pages_cover(full: Seq<ImageView>, ps: int, k: int)
    requires
        ps >= 1,
        k >= 0,
    ensures
        pages_concat(full, ps, k) == full.take(
            if ps * k <= full.len() {
                ps * k
            } else {
                full.len() as int
            },
        ),
    decreases k,
{
    if k > 0 {
        lemma_pages_cover(full, ps, k - 1);
        assert(ps * k == ps * (k - 1) + ps) by (nonlinear_arith);
        assert(ps * (k - 1) >= 0) by (nonlinear_arith)
            requires
                ps >= 1,
                k >= 1,
        ;
        assert(pages_concat(full, ps, k) =~= full.take(
            if ps * k <= full.len() {
                ps * k
            } else {
                full.len() as int
            },
        ));
    } else {
        assert(ps * k == 0) by (nonlinear_arith)
            requires
                k == 0,
        ;
        assert(pages_concat(full, ps, 0) =~= full.take(0));
    }
}

/// Law: offset pagination partitions the result list. After enough pages
/// the walk has produced every entry exactly once, in order, and any page
/// whose offset is past the end is empty (the walk emits no further
/// cursor).
pub proof fn lemma_pagination_partition(full: Seq<ImageView>, ps: int)
    requires
        ps >= 1,
    ensures
        pages_concat(full, ps, (full.len() + ps - 1) / ps) == full,
        forall|off: int|
            off >= full.len() ==> page_slice(full, off, ps) == Seq::<ImageView>::empty(),
{
    let m = (full.len() + ps - 1) / ps;
    assert(m >= 0 && ps * m >= full.len()) by (nonlinear_arith)
        requires
            ps >= 1,
            m == (full.len() + ps - 1) / ps,
    ;
    lemma_pages_cover(full, ps, m);
    assert(full.take(full.len() as int) =~= full);
    assert forall|off: int| off >= full.len() implies page_slice(full, off, ps) == Seq::<
        ImageView,
    >::empty() by {
        assert(page_slice(full, off, ps) =~= Seq::<ImageView>::empty());
    }
}

} // verus!
