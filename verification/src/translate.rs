//! The translation adapter's memo and response checking.
//!
//! Translation normalizes query text to the embedding model's language; it
//! is advisory and cacheable. The memo is keyed by the exact source text,
//! so it can never hand back a translation for different text; eviction is
//! unconstrained (this one never evicts). The provider call itself is an
//! HTTP edge outside the library; `check_translation_response` states what
//! a usable response is: one translated text per input, in input order.

use vstd::prelude::*;

use crate::bytes::{bytes_eq, dup_bytes};
use crate::kvmap::{
    keys_unique, lemma_pairs_map_at, lemma_pairs_map_key, lemma_pairs_map_update, pairs_map,
};
use crate::Error;

verus! {

/// The entries' views, in order.
pub open spec fn entry_views(s: Seq<(Vec<u8>, Vec<u8>)>) -> Seq<(Seq<u8>, Seq<u8>)> {
    s.map_values(|p: (Vec<u8>, Vec<u8>)| (p.0@, p.1@))
}

/// A process-wide memo of past translations, keyed by exact source text.
pub struct Translator {
    entries: Vec<(Vec<u8>, Vec<u8>)>,
}

impl View for Translator {
    type V = Map<Seq<u8>, Seq<u8>>;

    closed spec fn view(&self) -> Map<Seq<u8>, Seq<u8>> {
        pairs_map(entry_views(self.entries@))
    }
}

impl Translator {
    /// One entry per source text.
    pub closed spec fn inv(&self) -> bool {
        keys_unique(entry_views(self.entries@))
    }

    /// An empty memo.
    pub fn new() -> (t: Translator)
        ensures
            t.inv(),
            t@ == Map::<Seq<u8>, Seq<u8>>::empty(),
    {
        let t = Translator { entries: Vec::new() };
        proof {
            assert(entry_views(t.entries@) =~= Seq::<(Seq<u8>, Seq<u8>)>::empty());
        }
        t
    }

    /// The memoized translation of exactly this text, if one is stored.
    pub fn lookup(&self, text: &Vec<u8>) -> (r: Option<Vec<u8>>)
        requires
            self.inv(),
        ensures
            match r {
                Some(t) => self@.contains_key(text@) && t@ == self@[text@],
                None => !self@.contains_key(text@),
            },
    {
        let ghost views = entry_views(self.entries@);
        let n = self.entries.len();
        let mut i: usize = 0;
        while i < n
            invariant
                0 <= i <= n,
                n == self.entries@.len(),
                forall|k: int| 0 <= k < i ==> (#[trigger] views[k]).0 != text@,
            decreases n - i,
        {
            if bytes_eq(&self.entries[i].0, text) {
                proof {
                    lemma_pairs_map_at(views, i as int);
                }
                return Some(dup_bytes(&self.entries[i].1));
            }
            i = i + 1;
        }
        proof {
            lemma_pairs_map_key(views, text@);
        }
        None
    }

    /// Memoizes the translation of this exact text; a later call with the
    /// same text gets this translation and nothing else ever changes.
    pub fn store_translation(&mut self, text: Vec<u8>, translation: Vec<u8>)
        requires
            old(self).inv(),
        ensures
            final(self).inv(),
            final(self)@ == old(self)@.insert(text@, translation@),
    {
        let ghost views = entry_views(self.entries@);
        let n = self.entries.len();
        let mut i: usize = 0;
        while i < n
            invariant
                *self == *old(self),
                0 <= i <= n,
                n == self.entries@.len(),
                views == entry_views(self.entries@),
                forall|k: int| 0 <= k < i ==> (#[trigger] views[k]).0 != text@,
            decreases n - i,
        {
            if bytes_eq(&self.entries[i].0, &text) {
                proof {
                    lemma_pairs_map_update(views, i as int, translation@);
                }
                self.entries.set(i, (text, translation));
                proof {
                    assert(entry_views(self.entries@) =~= views.update(
                        i as int,
                        (views[i as int].0, translation@),
                    ));
                }
                return;
            }
            i = i + 1;
        }
        self.entries.push((text, translation));
        proof {
            let nv = entry_views(self.entries@);
            assert(nv.drop_last() =~= views);
            assert(nv.last() == (text@, translation@));
            lemma_pairs_map_key(views, text@);
            assert forall|a: int, b: int| 0 <= a < b < nv.len() implies (#[trigger] nv[a]).0 != (
            #[trigger] nv[b]).0 by {
                assert(nv[a] == views[a]);
                if b < nv.len() - 1 {
                    assert(nv[b] == views[b]);
                } else {
                    assert(views[a].0 != text@);
                }
            }
        }
    }
}

/// The outcome the translation checker owes: non-success status is a
/// provider failure; a body that would not decode, or the wrong number of
/// texts, is a protocol failure; otherwise the translated texts, one per
/// input, in input order.
pub open spec fn spec_check_translation(
    n_inputs: nat,
    status: u16,
    body: Option<Seq<Seq<u8>>>,
) -> Result<Seq<Seq<u8>>, Error> {
    if !(200 <= status < 300) {
        Err(Error::Provider)
    } else {
        match body {
            None => Err(Error::Protocol),
            Some(ts) => if ts.len() != n_inputs {
                Err(Error::Protocol)
            } else {
                Ok(ts)
            },
        }
    }
}

/// The views of an optional decoded body of texts.
pub open spec fn spec_texts(body: Option<Vec<Vec<u8>>>) -> Option<Seq<Seq<u8>>> {
    match body {
        None => None,
        Some(v) => Some(v.deep_view()),
    }
}

/// Checks one translation response against the request it answers.
pub fn check_translation_response(
    n_inputs: usize,
    status: u16,
    body: Option<Vec<Vec<u8>>>,
) -> (r: Result<Vec<Vec<u8>>, Error>)
    ensures
        (match (r, spec_check_translation(n_inputs as nat, status, spec_texts(body))) {
            (Ok(ts), Ok(vs)) => ts.deep_view() == vs,
            (Err(e1), Err(e2)) => e1 == e2,
            _ => false,
        }),
{
    if status < 200 || status >= 300 {
        return Err(Error::Provider);
    }
    match body {
        None => Err(Error::Protocol),
        Some(v) => {
            if v.len() != n_inputs {
                Err(Error::Protocol)
            } else {
                Ok(v)
            }
        },
    }
}

} // verus!
