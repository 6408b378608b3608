//! Bytes kept for readers that borrow them.
//!
//! A range that crosses segments is merged into one allocation, once. The
//! allocation stays until the next exclusive read, and a range that is asked
//! for again is handed out from where it lies.
//!
//! The first allocation that is kept has an inline place, as has the first
//! entry of the index of ranges. Only a second one needs descriptor storage.

use crate::arena::frozen;
use brz_ds::EphemeralBytes;
use elsa::sync::FrozenVec;
use std::sync::OnceLock;
use vstd::prelude::*;
use vstd::rwlock::{RwLock, RwLockPredicate};

verus! {

/// `elsa::sync::FrozenVec`: a list that grows through a shared reference and
/// loses nothing while it is shared.
#[verifier::external_type_specification]
#[verifier::external_body]
#[verifier::reject_recursive_types(T)]
pub struct ExFrozenVec<T>(FrozenVec<T>);

/// `std::sync::OnceLock`: a place that is filled at most once, through a shared
/// reference.
#[verifier::external_type_specification]
#[verifier::external_body]
#[verifier::reject_recursive_types(T)]
pub struct ExOnceLock<T>(OnceLock<T>);

/// What each place of a list holds once it is filled. Places are filled one
/// after the other and never change while the list is shared, so that one map
/// serves for all times.
pub uninterp spec fn listed(owners: FrozenVec<Box<EphemeralBytes>>) -> Map<int, Seq<u8>>;

/// What a single place holds once it is filled, which happens once.
pub uninterp spec fn placed_once(place: OnceLock<EphemeralBytes>) -> Option<Seq<u8>>;

/// `FrozenVec::new` makes an empty list. Nothing can be said of its places:
/// none is filled yet.
#[verifier::external_body]
fn no_owners() -> (owners: FrozenVec<Box<EphemeralBytes>>) {
    FrozenVec::new()
}

/// `FrozenVec::push_get_index` adds an owner at the end and returns its place.
#[verifier::external_body]
fn add_owner(owners: &FrozenVec<Box<EphemeralBytes>>, bytes: EphemeralBytes) -> (slot: usize)
    ensures
        listed(*owners).contains_key(slot as int),
        listed(*owners)[slot as int] == frozen(bytes),
{
    owners.push_get_index(Box::new(bytes))
}

/// `FrozenVec::get` borrows the owner at a place that was filled.
#[verifier::external_body]
fn owner_at(owners: &FrozenVec<Box<EphemeralBytes>>, slot: usize) -> (owner: Option<
    &EphemeralBytes,
>)
    requires
        listed(*owners).contains_key(slot as int),
    ensures
        owner is Some,
        frozen(*owner->Some_0) == listed(*owners)[slot as int],
{
    owners.get(slot)
}

/// `OnceLock::new` makes an empty place. Nothing can be said of what it holds:
/// it is not filled yet.
#[verifier::external_body]
fn empty_place() -> (place: OnceLock<EphemeralBytes>) {
    OnceLock::new()
}

/// `OnceLock::set` fills an empty place, and gives the bytes back where the
/// place was filled before.
#[verifier::external_body]
fn fill(place: &OnceLock<EphemeralBytes>, bytes: EphemeralBytes) -> (outcome: Result<
    (),
    EphemeralBytes,
>)
    ensures
        match outcome {
            Ok(_) => placed_once(*place) == Some(frozen(bytes)),
            Err(back) => frozen(back) == frozen(bytes),
        },
{
    place.set(bytes)
}

/// `OnceLock::get` borrows what a place holds that was filled.
#[verifier::external_body]
fn filled_with(place: &OnceLock<EphemeralBytes>) -> (owner: Option<&EphemeralBytes>)
    requires
        placed_once(*place) is Some,
    ensures
        owner is Some,
        placed_once(*place) == Some(frozen(*owner->Some_0)),
{
    place.get()
}

/// Where kept bytes lie.
#[derive(Clone, Copy)]
pub enum Place {
    /// In the inline place.
    Inline,
    /// In the list.
    Listed(usize),
}

/// Where a merged range lies.
#[derive(Clone, Copy)]
pub struct Merged {
    start: usize,
    len: usize,
    place: Place,
}

/// The merged ranges, the first of them inline.
pub struct Index {
    first: Option<Merged>,
    rest: Vec<Merged>,
}

/// What the entries of the index are held to: the stream from position `base`
/// on, and what the places hold.
pub struct Labels {
    inline: Option<Seq<u8>>,
    listed: Map<int, Seq<u8>>,
    base: int,
    contents: Seq<u8>,
}

impl Labels {
    /// What a place holds, if it is filled.
    spec fn at(self, place: Place) -> Option<Seq<u8>> {
        match place {
            Place::Inline => self.inline,
            Place::Listed(slot) => if self.listed.contains_key(slot as int) {
                Some(self.listed[slot as int])
            } else {
                None
            },
        }
    }

    /// Whether an entry names bytes of the stream, and where they lie.
    spec fn covers(self, entry: Merged) -> bool {
        &&& self.base <= entry.start
        &&& entry.start + entry.len <= self.base + self.contents.len()
        &&& self.at(entry.place) == Some(
            self.contents.subrange(
                entry.start - self.base,
                entry.start + entry.len - self.base,
            ),
        )
    }

    /// An entry still names the same bytes when the stream has grown.
    proof fn lemma_grown(self, longer: Labels, entry: Merged)
        requires
            self.covers(entry),
            longer.inline == self.inline,
            longer.listed == self.listed,
            longer.base == self.base,
            self.contents.len() <= longer.contents.len(),
            longer.contents.take(self.contents.len() as int) == self.contents,
        ensures
            longer.covers(entry),
    {
        let from = entry.start - self.base;
        assert(longer.contents.subrange(from, from + entry.len) =~= self.contents.subrange(
            from,
            from + entry.len,
        ));
    }
}

impl RwLockPredicate<Index> for Labels {
    closed spec fn inv(self, index: Index) -> bool {
        &&& index.first matches Some(entry) ==> self.covers(entry)
        &&& forall|i: int| 0 <= i < index.rest@.len() ==> self.covers(#[trigger] index.rest@[i])
    }
}

impl Index {
    /// Where the first entry for a range says that it lies.
    fn find(&self, start: usize, len: usize) -> (place: Option<Place>)
        ensures
            place matches Some(place) ==> self.first == Some(Merged { start, len, place })
                || self.rest@.contains(Merged { start, len, place }),
            place is None ==> (self.first matches Some(entry) ==> entry.start != start || entry.len
                != len) && forall|i: int|
                0 <= i < self.rest@.len() ==> (#[trigger] self.rest@[i]).start != start
                    || self.rest@[i].len != len,
    {
        if let Some(entry) = self.first {
            if entry.start == start && entry.len == len {
                return Some(entry.place);
            }
        }
        let mut i: usize = 0;
        while i < self.rest.len()
            invariant
                i <= self.rest@.len(),
                self.first matches Some(entry) ==> entry.start != start || entry.len != len,
                forall|k: int|
                    0 <= k < i ==> (#[trigger] self.rest@[k]).start != start || self.rest@[k].len
                        != len,
            decreases self.rest@.len() - i,
        {
            let entry: Merged = self.rest[i];
            if entry.start == start && entry.len == len {
                assert(self.rest@[i as int] == (Merged { start, len, place: entry.place }));
                return Some(entry.place);
            }
            i = i + 1;
        }
        None
    }

    /// Add an entry.
    fn insert(&mut self, entry: Merged)
        ensures
            if old(self).first is None {
                &&& final(self).first == Some(entry)
                &&& final(self).rest == old(self).rest
            } else {
                &&& final(self).first == old(self).first
                &&& final(self).rest@ == old(self).rest@.push(entry)
            },
    {
        if self.first.is_none() {
            self.first = Some(entry);
        } else {
            self.rest.push(entry);
        }
    }
}

/// The bytes that a reader keeps for those who borrow from it.
pub struct Retained {
    inline: OnceLock<EphemeralBytes>,
    owners: FrozenVec<Box<EphemeralBytes>>,
    index: RwLock<Index, Labels>,
}

impl Retained {
    /// The position of the first byte of the stream that ranges are of.
    pub closed spec fn base(&self) -> int {
        self.index.pred().base
    }

    /// The stream that ranges are of, from `base` on.
    pub closed spec fn contents(&self) -> Seq<u8> {
        self.index.pred().contents
    }

    /// The index speaks of the places here.
    pub closed spec fn wf(&self) -> bool {
        &&& self.index.pred().inline == placed_once(self.inline)
        &&& self.index.pred().listed == listed(self.owners)
    }

    /// Nothing is kept yet.
    pub(crate) fn new(Ghost(base): Ghost<int>, Ghost(contents): Ghost<Seq<u8>>) -> (retained: Self)
        ensures
            retained.wf(),
            retained.base() == base,
            retained.contents() == contents,
    {
        let inline = empty_place();
        let owners = no_owners();
        let ghost labels = Labels {
            inline: placed_once(inline),
            listed: listed(owners),
            base,
            contents,
        };
        let index = Index { first: None, rest: Vec::new() };
        Self { inline, owners, index: RwLock::new(index, Ghost(labels)) }
    }

    /// Go on with a stream that has grown at its end. What is kept stays.
    pub(crate) fn grown(self, Ghost(contents): Ghost<Seq<u8>>) -> (retained: Self)
        requires
            self.wf(),
            self.contents().len() <= contents.len(),
            contents.take(self.contents().len() as int) == self.contents(),
        ensures
            retained.wf(),
            retained.base() == self.base(),
            retained.contents() == contents,
    {
        let Retained { inline, owners, index } = self;
        let ghost labels = index.pred();
        let ghost longer = Labels { contents, ..labels };
        let entries = index.into_inner();
        proof {
            if entries.first is Some {
                labels.lemma_grown(longer, entries.first->Some_0);
            }
            assert forall|i: int| 0 <= i < entries.rest@.len() implies longer.covers(
                #[trigger] entries.rest@[i],
            ) by {
                labels.lemma_grown(longer, entries.rest@[i]);
            }
        }
        Self { inline, owners, index: RwLock::new(entries, Ghost(longer)) }
    }

    /// Keep bytes: in the inline place if that is free, else in the list.
    fn put(&self, bytes: EphemeralBytes) -> (place: Place)
        requires
            self.wf(),
        ensures
            self.index.pred().at(place) == Some(frozen(bytes)),
    {
        match fill(&self.inline, bytes) {
            Ok(_) => Place::Inline,
            Err(bytes) => Place::Listed(add_owner(&self.owners, bytes)),
        }
    }

    /// Borrow bytes that are kept.
    fn get(&self, place: Place) -> (bytes: &[u8])
        requires
            self.wf(),
            self.index.pred().at(place) is Some,
        ensures
            self.index.pred().at(place) == Some(bytes@),
    {
        match place {
            Place::Inline => filled_with(&self.inline).unwrap().as_slice(),
            Place::Listed(slot) => owner_at(&self.owners, slot).unwrap().as_slice(),
        }
    }

    /// Keep `bytes` and borrow them.
    pub(crate) fn store(&self, bytes: EphemeralBytes) -> (stored: &[u8])
        requires
            self.wf(),
        ensures
            stored@ == frozen(bytes),
    {
        let place = self.put(bytes);
        self.get(place)
    }

    /// Borrow a merged range: from where it was kept before, else by calling
    /// `merge` and keeping what it returns.
    pub(crate) fn range_or_merge<F: FnOnce() -> EphemeralBytes>(
        &self,
        start: usize,
        len: usize,
        merge: F,
    ) -> (bytes: &[u8])
        requires
            self.wf(),
            self.base() <= start,
            start + len <= self.base() + self.contents().len(),
            call_requires(merge, ()),
            forall|merged: EphemeralBytes| #[trigger]
                call_ensures(merge, (), merged) ==> frozen(merged) == self.contents().subrange(
                    start - self.base(),
                    start + len - self.base(),
                ),
        ensures
            bytes@ == self.contents().subrange(start - self.base(), start + len - self.base()),
    {
        let (mut index, handle) = self.index.acquire_write();
        let place = match index.find(start, len) {
            Some(place) => {
                assert(self.index.pred().covers(Merged { start, len, place }));
                place
            },
            None => {
                let place = self.put(merge());
                index.insert(Merged { start, len, place });
                place
            },
        };
        handle.release_write(index);
        self.get(place)
    }
}

} // verus!
