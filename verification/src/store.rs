//! The store and its command handlers: load, save, add, delete, list and the
//! index resolution behind open. Display indices are 1-based and count from
//! the most recently added record, so display index `i` is stored position
//! `length - i`.

use vstd::prelude::*;

use crate::json::lemma_store_round_trip;
use crate::json::parse_store;
use crate::json::ser_store;
use crate::json::sp_doc;
use crate::link::Link;
use crate::link::LinkV;
use crate::link::store_view;
use vstd::string::StrSliceExecFns;

verus! {

/// The errors the command handlers report instead of mutating the store.
#[derive(Debug)]
pub enum StashError {
    /// The title scrape failed: `add` aborts without touching the store.
    EnrichmentFailure,
    /// The display index is outside `1 ..= length`: `delete` and `open` abort.
    InvalidIndex,
}

/// What the store holds after reading the file: the parsed records, or the
/// empty store where the file is missing or its text is not a store.
pub open spec fn spec_load(content: Option<Seq<char>>) -> Seq<LinkV> {
    match content {
        Option::None => Seq::empty(),
        Option::Some(s) => match sp_doc(s) {
            Option::None => Seq::empty(),
            Option::Some(m) => m,
        },
    }
}

fn chars_vec(s: &str) -> (r: Vec<char>)
    ensures
        r@ == s@,
{
    let n = s.unicode_len();
    let mut v: Vec<char> = Vec::new();
    let mut i: usize = 0;
    while i < n
        invariant
            n == s@.len(),
            i <= n,
            v@ == s@.subrange(0, i as int),
        decreases n - i,
    {
        let c = s.get_char(i);
        v.push(c);
        proof {
            assert(s@.subrange(0, i + 1) =~= s@.subrange(0, i as int) + seq![s@[i as int]]);
            assert(v@ =~= s@.subrange(0, i + 1));
        }
        i += 1;
    }
    proof {
        assert(s@.subrange(0, n as int) =~= s@);
    }
    v
}

/// The store read back from the file's text: `None` stands for a missing
/// file. A missing file, or text that is not a store, yields the empty store,
/// never an error.
pub fn load_store(content: Option<&str>) -> (r: Vec<Link>)
    ensures
        store_view(r@) == spec_load(
            match content {
                Option::Some(s) => Option::Some(s@),
                Option::None => Option::None,
            },
        ),
{
    match content {
        Option::None => {
            let v: Vec<Link> = Vec::new();
            proof {
                assert(store_view(v@) =~= Seq::<LinkV>::empty());
            }
            v
        },
        Option::Some(s) => {
            let cs = chars_vec(s);
            match parse_store(&cs) {
                Option::Some(v) => v,
                Option::None => {
                    let v: Vec<Link> = Vec::new();
                    proof {
                        assert(store_view(v@) =~= Seq::<LinkV>::empty());
                    }
                    v
                },
            }
        },
    }
}

/// Add a record for `url` to the store. The enrichment result is handed in:
/// `Some(title)` where the scrape succeeded, `None` where it failed. On
/// failure the store is left untouched and the failure is reported; on
/// success the new record goes to the end (it becomes display index 1).
pub fn stash_link(store: &mut Vec<Link>, url: String, enrichment: Option<String>) -> (r: Result<
    (),
    StashError,
>)
    ensures
        enrichment matches Some(title) ==> {
            &&& r is Ok
            &&& store_view(final(store)@) == store_view(old(store)@).push(
                LinkV { url: url@, title: title@ },
            )
        },
        enrichment is None ==> r == Err::<(), StashError>(StashError::EnrichmentFailure)
            && final(store)@ == old(store)@,
{
    match enrichment {
        Option::Some(title) => {
            let l = Link::new(url, title);
            store.push(l);
            proof {
                assert(store_view(store@) =~= store_view(old(store)@).push(l@));
            }
            Ok(())
        },
        Option::None => Err(StashError::EnrichmentFailure),
    }
}

/// Delete the record at 1-based display index `index` (1 is the newest). An
/// index outside `1 ..= length` is rejected without mutating the store; a
/// valid one removes stored position `length - index` and returns the removed
/// record.
pub fn delete_link(store: &mut Vec<Link>, index: usize) -> (r: Result<Link, StashError>)
    ensures
        1 <= index <= old(store)@.len() ==> {
            &&& r is Ok
            &&& final(store)@ == old(store)@.remove(
                display_position(old(store)@.len() as int, index as int),
            )
            &&& r->Ok_0 == old(store)@[display_position(old(store)@.len() as int, index as int)]
        },
        !(1 <= index <= old(store)@.len()) ==> {
            &&& r == Err::<Link, StashError>(StashError::InvalidIndex)
            &&& final(store)@ == old(store)@
        },
{
    if 1 <= index && index <= store.len() {
        let pos = store.len() - index;
        let l = store.remove(pos);
        Ok(l)
    } else {
        Err(StashError::InvalidIndex)
    }
}

/// Resolve the record `open` is to act on: the one at 1-based display index
/// `index`. An index outside `1 ..= length` is rejected, and the store is
/// never mutated.
pub fn open_link<'a>(store: &'a Vec<Link>, index: usize) -> (r: Result<&'a Link, StashError>)
    ensures
        1 <= index <= store@.len() ==> r is Ok && *r->Ok_0 == store@[display_position(
            store@.len() as int,
            index as int,
        )],
        !(1 <= index <= store@.len()) ==> r == Err::<&'a Link, StashError>(
            StashError::InvalidIndex,
        ),
{
    if 1 <= index && index <= store.len() {
        let pos = store.len() - index;
        Ok(&store[pos])
    } else {
        Err(StashError::InvalidIndex)
    }
}

/// The listing order: the stored sequence reversed, so that the record at
/// 0-based place `i` of the listing carries display index `i + 1`.
pub fn list_all(store: &Vec<Link>) -> (r: Vec<Link>)
    ensures
        r@.len() == store@.len(),
        forall|i: int| 0 <= i < r@.len() ==> r@[i] == store@[store@.len() - 1 - i],
{
    let mut out: Vec<Link> = Vec::new();
    let mut i: usize = store.len();
    while i > 0
        invariant
            i <= store@.len(),
            out@.len() == store@.len() - i,
            forall|k: int| 0 <= k < out@.len() ==> out@[k] == store@[store@.len() - 1 - k],
        decreases i,
    {
        i -= 1;
        out.push(store[i].clone());
    }
    out
}

/// The stored position a 1-based display index stands for.
pub open spec fn display_position(len: int, index: int) -> int {
    len - index
}

/// The listing is the reverse of the stored sequence: the entry shown at
/// 1-based display index `i` is the record at stored position `length - i`.
pub proof fn lemma_list_is_reverse<T>(stored: Seq<T>, listed: Seq<T>, i: int)
    requires
        listed.len() == stored.len(),
        forall|k: int| 0 <= k < listed.len() ==> listed[k] == stored[stored.len() - 1 - k],
        1 <= i <= stored.len(),
    ensures
        listed[i - 1] == stored[display_position(stored.len() as int, i)],
{
}

/// Deleting at display index 1 removes the most recently added record, and
/// deleting at display index `length` removes the oldest.
pub proof fn lemma_delete_ends<T>(stored: Seq<T>)
    requires
        stored.len() >= 1,
    ensures
        stored.remove(display_position(stored.len() as int, 1)) == stored.drop_last(),
        stored.remove(display_position(stored.len() as int, stored.len() as int))
            == stored.drop_first(),
{
    assert(stored.remove(stored.len() - 1) =~= stored.drop_last());
    assert(stored.remove(0) =~= stored.drop_first());
}

/// A missing file, an empty file, or any text that is not a store all load
/// as the empty store, never as an error.
pub proof fn lemma_load_fallback(content: Option<Seq<char>>)
    requires
        content matches Some(s) ==> sp_doc(s) is None,
    ensures
        spec_load(content) == Seq::<LinkV>::empty(),
{
}

/// Round trip of an add: after appending a record and saving, a load
/// returns exactly the new store, whose last element is the added record.
pub proof fn lemma_add_save_load(stored: Seq<LinkV>, added: LinkV)
    ensures
        spec_load(Some(ser_store(stored.push(added)))) == stored.push(added),
        spec_load(Some(ser_store(stored.push(added)))).last() == added,
{
    lemma_store_round_trip(stored.push(added));
}

/// Saving is stable: loading saved text and saving again writes the same
/// text, character for character, however the file started out.
pub proof fn lemma_save_load_stable(content: Seq<char>)
    ensures
        ser_store(spec_load(Some(ser_store(spec_load(Some(content))))))
            == ser_store(spec_load(Some(content))),
{
    lemma_store_round_trip(spec_load(Some(content)));
}

/// Empty text is not a store, so an empty file loads as the empty store.
pub proof fn lemma_load_empty_text()
    ensures
        spec_load(Some(Seq::<char>::empty())) == Seq::<LinkV>::empty(),
        spec_load(None::<Seq<char>>) == Seq::<LinkV>::empty(),
{
    assert(sp_doc(Seq::<char>::empty()) is None);
}

} // verus!

