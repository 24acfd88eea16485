//! The change set and its builder.
//!
//! A [`ComponentChanges`] records, per component-type descriptor, either a
//! new value (`Some`) or an explicit removal (`None`); a descriptor that was
//! never touched has no entry at all.  The payload type `V` is opaque to this
//! module: a consumer that erases types supplies its own boxed payload as
//! `V`, while the logic here is proved for every `V`.
//!
//! The mathematical model of a change set is a [`Map`] from the descriptor's
//! raw identity to `Option<V>`; [`map_of`] reads that map off the entry
//! sequence, and every mutation is specified as an update of it.

use vstd::prelude::*;

use crate::registry::Descriptor;

verus! {

/// One recorded change: the component's descriptor, and either its new value
/// or `None` for an explicit removal.
#[derive(Debug)]
pub struct Entry<V> {
    /// The component type this change concerns.
    pub desc: Descriptor,
    /// `Some(v)`: the component is set to `v`; `None`: it is removed.
    pub value: Option<V>,
}

/// The backing store of a change set: exclusively owned, or a borrowed view
/// over entries that some other owner keeps alive.
#[derive(Debug)]
pub enum EntryMap<'w, V> {
    /// The change set owns its entries.
    Owned(Vec<Entry<V>>),
    /// The change set is a zero-copy view over entries owned elsewhere.
    Borrowed(&'w Vec<Entry<V>>),
}

impl<'w, V> EntryMap<'w, V> {
    /// The entries, whichever variant holds them.
    pub open spec fn entries(&self) -> Seq<Entry<V>> {
        match self {
            EntryMap::Owned(v) => v@,
            EntryMap::Borrowed(v) => v@,
        }
    }

    fn entries_ref(&self) -> (r: &Vec<Entry<V>>)
        ensures
            r@ == self.entries(),
    {
        match self {
            EntryMap::Owned(v) => v,
            EntryMap::Borrowed(v) => v,
        }
    }
}

/// No two entries concern the same component type.
pub open spec fn keys_unique<V>(s: Seq<Entry<V>>) -> bool {
    forall|i: int, j: int|
        0 <= i < s.len() && 0 <= j < s.len() && i != j ==> (#[trigger] s[i]).desc.raw != (
        #[trigger] s[j]).desc.raw
}

/// The entry sequence read as a map from raw descriptor identity to change:
/// `Some(v)` set, `None` removed; a key outside the domain was never touched.
pub open spec fn map_of<V>(s: Seq<Entry<V>>) -> Map<u32, Option<V>>
    decreases s.len(),
{
    if s.len() == 0 {
        Map::empty()
    } else {
        map_of(s.drop_last()).insert(s.last().desc.raw, s.last().value)
    }
}

/// A raw identity is in the map exactly when some entry carries it.
pub proof fn lemma_map_of_contains<V>(s: Seq<Entry<V>>, raw: u32)
    ensures
        map_of(s).contains_key(raw) <==> exists|i: int|
            0 <= i < s.len() && (#[trigger] s[i]).desc.raw == raw,
    decreases s.len(),
{
    if s.len() > 0 {
        lemma_map_of_contains(s.drop_last(), raw);
        if map_of(s).contains_key(raw) {
            if s.last().desc.raw == raw {
                assert(s[s.len() - 1].desc.raw == raw);
            } else {
                let i = choose|i: int|
                    0 <= i < s.drop_last().len() && (#[trigger] s.drop_last()[i]).desc.raw == raw;
                assert(s[i].desc.raw == raw);
            }
        }
        if exists|i: int| 0 <= i < s.len() && (#[trigger] s[i]).desc.raw == raw {
            let i = choose|i: int| 0 <= i < s.len() && (#[trigger] s[i]).desc.raw == raw;
            if i < s.len() - 1 {
                assert(s.drop_last()[i].desc.raw == raw);
            }
        }
    }
}

/// With unique keys, the map sends each entry's raw identity to that entry's
/// change.
pub proof fn lemma_map_of_index<V>(s: Seq<Entry<V>>, i: int)
    requires
        keys_unique(s),
        0 <= i < s.len(),
    ensures
        map_of(s).contains_key(s[i].desc.raw),
        map_of(s)[s[i].desc.raw] == s[i].value,
    decreases s.len(),
{
    if i < s.len() - 1 {
        assert(s.drop_last()[i] == s[i]);
        assert(keys_unique(s.drop_last())) by {
            assert(forall|p: int, q: int|
                0 <= p < s.drop_last().len() && 0 <= q < s.drop_last().len() && p != q ==> (
                #[trigger] s.drop_last()[p]).desc.raw != (#[trigger] s.drop_last()[q]).desc.raw)
                by {
                assert(forall|p: int| 0 <= p < s.len() - 1 ==> s.drop_last()[p] == s[p]);
            }
        }
        lemma_map_of_index(s.drop_last(), i);
        assert(s[i].desc.raw != s.last().desc.raw);
    }
}

/// Replacing the entry at `i` by one for the same component updates the map
/// at that one key.
pub proof fn lemma_map_of_update<V>(s: Seq<Entry<V>>, i: int, e: Entry<V>)
    requires
        keys_unique(s),
        0 <= i < s.len(),
        s[i].desc.raw == e.desc.raw,
    ensures
        map_of(s.update(i, e)) =~= map_of(s).insert(e.desc.raw, e.value),
    decreases s.len(),
{
    if i == s.len() - 1 {
        assert(s.update(i, e).drop_last() =~= s.drop_last());
        assert(s.update(i, e).last() == e);
    } else {
        assert(s.update(i, e).drop_last() =~= s.drop_last().update(i, e));
        assert(s.drop_last()[i] == s[i]);
        assert(keys_unique(s.drop_last())) by {
            assert(forall|p: int| 0 <= p < s.len() - 1 ==> s.drop_last()[p] == s[p]);
        }
        lemma_map_of_update(s.drop_last(), i, e);
        assert(s.update(i, e).last() == s.last());
        assert(s.last().desc.raw != e.desc.raw);
    }
}

/// Appending an entry updates the map at its key.
pub proof fn lemma_map_of_push<V>(s: Seq<Entry<V>>, e: Entry<V>)
    ensures
        map_of(s.push(e)) =~= map_of(s).insert(e.desc.raw, e.value),
{
    assert(s.push(e).drop_last() =~= s);
    assert(s.push(e).last() == e);
}

/// Stores `e` in `entries`, replacing the entry with the same raw identity
/// if one exists, as a keyed map would.
pub(crate) fn upsert_entry<V>(entries: &mut Vec<Entry<V>>, e: Entry<V>)
    requires
        keys_unique(old(entries)@),
    ensures
        keys_unique(final(entries)@),
        map_of(final(entries)@) =~= map_of(old(entries)@).insert(e.desc.raw, e.value),
        forall|k: int|
            0 <= k < final(entries)@.len() ==> (#[trigger] final(entries)@[k]) == e || old(
                entries,
            )@.contains(final(entries)@[k]),
{
    let n = entries.len();
    let mut i: usize = 0;
    while i < n
        invariant
            0 <= i <= n,
            n == entries@.len(),
            entries@ == old(entries)@,
            keys_unique(entries@),
            forall|j: int| 0 <= j < i ==> (#[trigger] entries@[j]).desc.raw != e.desc.raw,
        decreases n - i,
    {
        if entries[i].desc.raw == e.desc.raw {
            proof {
                lemma_map_of_update(entries@, i as int, e);
            }
            let ghost before = entries@;
            entries[i] = e;
            proof {
                let after = entries@;
                assert(after =~= before.update(i as int, e));
                assert forall|k: int| 0 <= k < after.len() implies (#[trigger] after[k]).desc.raw
                    == before[k].desc.raw by {}
                assert(keys_unique(after));
                assert forall|k: int|
                    0 <= k < after.len() implies after[k] == e || before.contains(after[k]) by {
                    if k != i {
                        assert(before[k] == after[k]);
                    }
                }
            }
            return ;
        }
        i += 1;
    }
    proof {
        lemma_map_of_push(entries@, e);
    }
    entries.push(e);
    proof {
        assert forall|k: int|
            0 <= k < entries@.len() implies (#[trigger] entries@[k]) == e || old(
            entries,
        )@.contains(entries@[k]) by {
            if k < entries@.len() - 1 {
                assert(old(entries)@[k] == entries@[k]);
            }
        }
    }
}

/// Changes of components: an immutable snapshot mapping each changed
/// component type to its new value or to an explicit removal.
#[derive(Debug)]
pub struct ComponentChanges<'w, V> {
    changed: EntryMap<'w, V>,
    ser_count: usize,
}

/// Builder for [`ComponentChanges`]: accumulates `insert` and `remove`
/// calls, later calls for one descriptor overwriting earlier ones, and is
/// consumed exactly once by [`Builder::build`].
#[derive(Debug)]
pub struct Builder<V> {
    changes: Vec<Entry<V>>,
    ser_count: usize,
}

impl<'w, V> ComponentChanges<'w, V> {
    /// The recorded entries, in their storage order.
    pub closed spec fn entries(&self) -> Seq<Entry<V>> {
        self.changed.entries()
    }

    /// The change set as a map from raw descriptor identity to change.
    pub open spec fn model(&self) -> Map<u32, Option<V>> {
        map_of(self.entries())
    }

    /// Each component type has at most one entry.
    pub open spec fn wf(&self) -> bool {
        keys_unique(self.entries())
    }

    /// The cached tally of serializable entries, a sizing hint for the
    /// keyed-map form.
    pub closed spec fn ser_hint(&self) -> usize {
        self.ser_count
    }

    /// Returns a builder for [`ComponentChanges`].
    pub fn builder() -> (r: Builder<V>)
        ensures
            r.wf(),
            r.entries() =~= Seq::<Entry<V>>::empty(),
            r.ser_hint() == 0,
    {
        Builder { changes: Vec::new(), ser_count: 0 }
    }

    /// A zero-copy change set viewing entries owned elsewhere.  `ser_count`
    /// is the serializable-entry tally the owner has accumulated; it serves
    /// only as a sizing hint.
    pub fn view_of(entries: &'w Vec<Entry<V>>, ser_count: usize) -> (r: Self)
        requires
            keys_unique(entries@),
        ensures
            r.wf(),
            r.entries() == entries@,
            r.ser_hint() == ser_count,
    {
        ComponentChanges { changed: EntryMap::Borrowed(entries), ser_count }
    }

    /// Gets the change recorded for the component type `desc`: `None` when
    /// no change was recorded, `Some(None)` when the component was removed,
    /// `Some(Some(v))` when it was set to `v`.
    pub fn get(&self, desc: &Descriptor) -> (r: Option<Option<&V>>)
        requires
            self.wf(),
        ensures
            match r {
                None => !self.model().contains_key(desc.raw),
                Some(None) => self.model().contains_key(desc.raw) && self.model()[desc.raw]
                    is None,
                Some(Some(v)) => self.model().contains_key(desc.raw) && self.model()[desc.raw]
                    == Some(*v),
            },
    {
        let entries = self.changed.entries_ref();
        let n = entries.len();
        let mut i: usize = 0;
        while i < n
            invariant
                0 <= i <= n,
                n == entries@.len(),
                entries@ == self.entries(),
                self.wf(),
                forall|j: int| 0 <= j < i ==> (#[trigger] entries@[j]).desc.raw != desc.raw,
            decreases n - i,
        {
            if entries[i].desc.raw == desc.raw {
                proof {
                    lemma_map_of_index(self.entries(), i as int);
                }
                return match &entries[i].value {
                    Some(v) => Some(Some(v)),
                    None => Some(None),
                };
            }
            i += 1;
        }
        proof {
            lemma_map_of_contains(self.entries(), desc.raw);
        }
        None
    }

    /// Returns the number of changed components, removals included.
    pub fn len(&self) -> (r: usize)
        ensures
            r == self.entries().len(),
    {
        self.changed.entries_ref().len()
    }

    /// Returns `true` if there are no changed components.
    pub fn is_empty(&self) -> (r: bool)
        ensures
            r == (self.entries().len() == 0),
    {
        self.changed.entries_ref().is_empty()
    }

    pub(crate) fn entries_ref(&self) -> (r: &Vec<Entry<V>>)
        ensures
            r@ == self.entries(),
    {
        self.changed.entries_ref()
    }

    /// An owned change set built directly from accumulated entries, with
    /// `ser_count` as the serializable sizing hint.
    pub(crate) fn from_parts(entries: Vec<Entry<V>>, ser_count: usize) -> (r: Self)
        requires
            keys_unique(entries@),
        ensures
            r.wf(),
            r.entries() == entries@,
            r.ser_hint() == ser_count,
    {
        ComponentChanges { changed: EntryMap::Owned(entries), ser_count }
    }

    /// The sizing hint for the keyed-map form: the tally of serializable
    /// insertions accumulated while building.  A hint, not a ledger.
    pub fn serializable_hint(&self) -> (r: usize)
        ensures
            r == self.ser_hint(),
    {
        self.ser_count
    }
}

impl<V> Builder<V> {
    /// The accumulated entries, in their storage order.
    pub closed spec fn entries(&self) -> Seq<Entry<V>> {
        self.changes@
    }

    /// The accumulated changes as a map from raw descriptor identity to
    /// change.
    pub open spec fn model(&self) -> Map<u32, Option<V>> {
        map_of(self.entries())
    }

    /// Each component type has at most one entry.
    pub open spec fn wf(&self) -> bool {
        keys_unique(self.entries())
    }

    /// The serializable-entry tally accumulated so far.
    pub closed spec fn ser_hint(&self) -> usize {
        self.ser_count
    }

    /// Records that the component `desc` is set to `value`, overwriting any
    /// earlier change for it, and counts `desc` toward the serializable
    /// tally if it is serializable.
    ///
    /// The consumer that erases payload types must check, before erasing,
    /// that the payload's runtime type is the one `desc` declares; that
    /// check cannot be expressed about an erased `V` here.
    pub fn insert(&mut self, desc: Descriptor, value: V)
        requires
            old(self).wf(),
        ensures
            final(self).wf(),
            final(self).model() =~= old(self).model().insert(desc.raw, Some(value)),
            final(self).ser_hint() == if desc.serializable && old(self).ser_hint() < usize::MAX {
                (old(self).ser_hint() + 1) as usize
            } else {
                old(self).ser_hint()
            },
    {
        let serializable = desc.serializable;
        self.insert_entry(Entry { desc, value: Some(value) });
        if serializable && self.ser_count < usize::MAX {
            self.ser_count = self.ser_count + 1;
        }
    }

    /// Records that the component `desc` is removed, overwriting any earlier
    /// change for it.  The serializable tally is not adjusted.
    pub fn remove(&mut self, desc: Descriptor)
        requires
            old(self).wf(),
        ensures
            final(self).wf(),
            final(self).model() =~= old(self).model().insert(desc.raw, None),
            final(self).ser_hint() == old(self).ser_hint(),
    {
        self.insert_entry(Entry { desc, value: None });
    }

    /// Stores `e`, replacing the entry with the same raw identity if one
    /// exists.
    fn insert_entry(&mut self, e: Entry<V>)
        requires
            old(self).wf(),
        ensures
            final(self).wf(),
            final(self).model() =~= old(self).model().insert(e.desc.raw, e.value),
            final(self).ser_hint() == old(self).ser_hint(),
    {
        upsert_entry(&mut self.changes, e);
    }

    /// Builds the changes into a [`ComponentChanges`], transferring
    /// ownership of the accumulated entries.
    pub fn build<'w>(self) -> (r: ComponentChanges<'w, V>)
        ensures
            r.entries() == self.entries(),
            r.ser_hint() == self.ser_hint(),
    {
        ComponentChanges { changed: EntryMap::Owned(self.changes), ser_count: self.ser_count }
    }
}

/// Later calls for one descriptor overwrite earlier ones: inserting `v1`,
/// then removing, then inserting `v2` leaves the change set exactly as if
/// only the final insertion had been recorded.
pub proof fn lemma_insert_remove_insert_precedence<V>(
    m: Map<u32, Option<V>>,
    raw: u32,
    v1: V,
    v2: V,
)
    ensures
        m.insert(raw, Some(v1)).insert(raw, None).insert(raw, Some(v2)) =~= m.insert(
            raw,
            Some(v2),
        ),
{
}


} // verus!
