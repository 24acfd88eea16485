//! The binary wire form of a change set.
//!
//! The stream is: the count of present entries, the count of removed
//! entries, then every present entry (a constant marker `1`, the
//! descriptor's raw identity, the payload in the entry's own binary
//! encoding), then every removed entry (the raw identity alone).  All
//! integers are variable-length ([`crate::varint`]).
//!
//! Decoding reads the two counts, then each present entry's identity and
//! payload, then each removed identity.  It does **not** read back the
//! per-entry marker the encoder writes: that asymmetry is a fixed contract
//! of the wire format and is preserved here, not repaired.  It follows that
//! encode-then-decode realigns only for change sets with no present
//! entries; [`lemma_wire_round_trip_removals`] proves the round trip for
//! exactly those.

use vstd::prelude::*;

use crate::changes::{ComponentChanges, Entry, keys_unique, lemma_map_of_contains, lemma_map_of_index, map_of, upsert_entry};
use crate::registry::{Descriptor, Registry};
use crate::varint::{lemma_varint_round_trip, varint_at, varint_bytes, read_varint, write_varint, VarintError};

verus! {

/// A payload codec failure, reported by the entry's own binary codec.
#[derive(Debug, PartialEq, Eq)]
pub struct CodecError {
    /// What the payload codec reported.
    pub message: String,
}

/// Error variants of binary decoding.
#[derive(Debug, PartialEq, Eq)]
pub enum WireError {
    /// The bytes end inside a number or a payload.
    Truncated,
    /// A variable-length integer does not fit a `u32`.
    Overflow,
    /// A decoded raw identity is not in the registry.
    UnknownDescriptor {
        /// The unresolvable raw identity.
        raw: u32,
    },
    /// An entry's own binary codec rejected its payload bytes.
    Payload {
        /// What the payload codec reported.
        error: CodecError,
    },
}

/// The binary codec a component type attaches to its descriptor: how one
/// payload value of that type is written to and read from the wire.
/// Implementations outside this crate are trusted to meet these contracts.
pub trait PayloadCodec<V> {
    /// Appends the binary encoding of `value`, a payload of `desc`'s
    /// component type, to `buf`.
    fn encode_payload(&self, desc: &Descriptor, value: &V, buf: &mut Vec<u8>) -> (r: Result<
        (),
        CodecError,
    >)
        ensures
            old(buf)@.is_prefix_of(final(buf)@),
    ;

    /// Reads one payload of `desc`'s component type from `bytes` at `pos`,
    /// returning the value and the position just past it.
    fn decode_payload(&self, desc: &Descriptor, bytes: &Vec<u8>, pos: usize) -> (r: Result<
        (V, usize),
        CodecError,
    >)
        requires
            pos <= bytes@.len(),
        ensures
            r matches Ok(p) ==> pos <= p.1 <= bytes@.len(),
    ;
}

/// The entries whose value is set.
pub open spec fn present_of<V>(s: Seq<Entry<V>>) -> Seq<Entry<V>>
    decreases s.len(),
{
    if s.len() == 0 {
        Seq::empty()
    } else if s[0].value is Some {
        seq![s[0]] + present_of(s.drop_first())
    } else {
        present_of(s.drop_first())
    }
}

/// The entries marked removed.
pub open spec fn removed_of<V>(s: Seq<Entry<V>>) -> Seq<Entry<V>>
    decreases s.len(),
{
    if s.len() == 0 {
        Seq::empty()
    } else if s[0].value is None {
        seq![s[0]] + removed_of(s.drop_first())
    } else {
        removed_of(s.drop_first())
    }
}

/// The raw identities of the entries, in order.
pub open spec fn raws_of<V>(s: Seq<Entry<V>>) -> Seq<u32>
    decreases s.len(),
{
    if s.len() == 0 {
        Seq::empty()
    } else {
        seq![s[0].desc.raw] + raws_of(s.drop_first())
    }
}

/// How many entries have a serializable descriptor.
pub open spec fn count_serializable<V>(s: Seq<Entry<V>>) -> nat
    decreases s.len(),
{
    if s.len() == 0 {
        0
    } else {
        count_serializable(s.drop_last()) + if s.last().desc.serializable {
            1nat
        } else {
            0nat
        }
    }
}

/// The bytes of one present entry: the constant marker `1`, the raw
/// identity, then the payload bytes.
pub open spec fn present_entry_bytes(raw: u32, payload: Seq<u8>) -> Seq<u8> {
    varint_bytes(1) + varint_bytes(raw as nat) + payload
}

/// The bytes of the present section: each present entry in order, with its
/// payload bytes taken from `payloads` at the same index.
pub open spec fn present_bytes<V>(entries: Seq<Entry<V>>, payloads: Seq<Seq<u8>>) -> Seq<u8>
    decreases entries.len(),
{
    if entries.len() == 0 {
        Seq::empty()
    } else {
        present_entry_bytes(entries[0].desc.raw, payloads[0]) + present_bytes(
            entries.drop_first(),
            payloads.drop_first(),
        )
    }
}

/// The bytes of the removed section: each removed entry's raw identity in
/// order.
pub open spec fn removed_bytes<V>(entries: Seq<Entry<V>>) -> Seq<u8>
    decreases entries.len(),
{
    if entries.len() == 0 {
        Seq::empty()
    } else {
        varint_bytes(entries[0].desc.raw as nat) + removed_bytes(entries.drop_first())
    }
}

/// The whole wire form of a change set whose present payloads encode to
/// `payloads`.
pub open spec fn wire_bytes<V>(entries: Seq<Entry<V>>, payloads: Seq<Seq<u8>>) -> Seq<u8> {
    varint_bytes(present_of(entries).len()) + varint_bytes(removed_of(entries).len())
        + present_bytes(present_of(entries), payloads) + removed_bytes(removed_of(entries))
}

/// `new_buf` extends `old_buf` by the wire form of `entries`, for some
/// per-entry payload encodings.
pub open spec fn encodes_wire<V>(entries: Seq<Entry<V>>, old_buf: Seq<u8>, new_buf: Seq<u8>) -> bool {
    exists|payloads: Seq<Seq<u8>>|
        payloads.len() == present_of(entries).len() && new_buf == old_buf + #[trigger] wire_bytes(
            entries,
            payloads,
        )
}

proof fn lemma_present_of_push<V>(s: Seq<Entry<V>>, e: Entry<V>)
    ensures
        present_of(s.push(e)) == if e.value is Some {
            present_of(s).push(e)
        } else {
            present_of(s)
        },
    decreases s.len(),
{
    broadcast use vstd::seq_lib::group_seq_properties;

    assert(s.push(e)[s.len() as int] == e);
    if s.len() == 0 {
        assert(s.push(e).drop_first() =~= Seq::<Entry<V>>::empty());
        if e.value is Some {
            assert(present_of(s.push(e)) =~= present_of(s).push(e));
        }
    } else {
        assert(s.push(e).drop_first() =~= s.drop_first().push(e));
        lemma_present_of_push(s.drop_first(), e);
        if e.value is Some {
            assert(present_of(s.push(e)) =~= present_of(s).push(e));
        }
    }
}

proof fn lemma_removed_of_push<V>(s: Seq<Entry<V>>, e: Entry<V>)
    ensures
        removed_of(s.push(e)) == if e.value is None {
            removed_of(s).push(e)
        } else {
            removed_of(s)
        },
    decreases s.len(),
{
    broadcast use vstd::seq_lib::group_seq_properties;

    assert(s.push(e)[s.len() as int] == e);
    if s.len() == 0 {
        assert(s.push(e).drop_first() =~= Seq::<Entry<V>>::empty());
        if e.value is None {
            assert(removed_of(s.push(e)) =~= removed_of(s).push(e));
        }
    } else {
        assert(s.push(e).drop_first() =~= s.drop_first().push(e));
        lemma_removed_of_push(s.drop_first(), e);
        if e.value is None {
            assert(removed_of(s.push(e)) =~= removed_of(s).push(e));
        }
    }
}

proof fn lemma_present_of_nonempty<V>(s: Seq<Entry<V>>, i: int)
    requires
        0 <= i < s.len(),
        s[i].value is Some,
    ensures
        present_of(s).len() > 0,
    decreases s.len(),
{
    if s[0].value is None {
        lemma_present_of_nonempty(s.drop_first(), i - 1);
    }
}

proof fn lemma_concat_prefix(a: Seq<u8>, b: Seq<u8>)
    ensures
        a.is_prefix_of(a + b),
{
    assert(a =~= (a + b).subrange(0, a.len() as int));
}

proof fn lemma_prefix_trans(a: Seq<u8>, b: Seq<u8>, c: Seq<u8>)
    requires
        a.is_prefix_of(b),
        b.is_prefix_of(c),
    ensures
        a.is_prefix_of(c),
{
    assert(a =~= c.subrange(0, a.len() as int));
}

/// The present and removed sections partition the entries.
pub proof fn lemma_partition_count<V>(s: Seq<Entry<V>>)
    ensures
        present_of(s).len() + removed_of(s).len() == s.len(),
    decreases s.len(),
{
    if s.len() > 0 {
        lemma_partition_count(s.drop_first());
    }
}

proof fn lemma_present_bytes_push<V>(entries: Seq<Entry<V>>, payloads: Seq<Seq<u8>>, e: Entry<V>, pb: Seq<u8>)
    requires
        payloads.len() == entries.len(),
    ensures
        present_bytes(entries.push(e), payloads.push(pb)) == present_bytes(entries, payloads)
            + present_entry_bytes(e.desc.raw, pb),
    decreases entries.len(),
{
    broadcast use vstd::seq_lib::group_seq_properties;

    assert(entries.push(e)[entries.len() as int] == e);
    assert(payloads.push(pb)[payloads.len() as int] == pb);
    if entries.len() == 0 {
        assert(entries.push(e).drop_first() =~= Seq::<Entry<V>>::empty());
        assert(payloads.push(pb).drop_first() =~= Seq::<Seq<u8>>::empty());
        assert(present_bytes(entries.push(e), payloads.push(pb)) =~= present_bytes(
            entries,
            payloads,
        ) + present_entry_bytes(e.desc.raw, pb));
    } else {
        assert(entries.push(e).drop_first() =~= entries.drop_first().push(e));
        assert(payloads.push(pb).drop_first() =~= payloads.drop_first().push(pb));
        lemma_present_bytes_push(entries.drop_first(), payloads.drop_first(), e, pb);
        assert(present_bytes(entries.push(e), payloads.push(pb)) =~= present_bytes(
            entries,
            payloads,
        ) + present_entry_bytes(e.desc.raw, pb));
    }
}

proof fn lemma_removed_bytes_push<V>(entries: Seq<Entry<V>>, e: Entry<V>)
    ensures
        removed_bytes(entries.push(e)) == removed_bytes(entries) + varint_bytes(e.desc.raw as nat),
    decreases entries.len(),
{
    broadcast use vstd::seq_lib::group_seq_properties;

    assert(entries.push(e)[entries.len() as int] == e);
    if entries.len() == 0 {
        assert(entries.push(e).drop_first() =~= Seq::<Entry<V>>::empty());
        assert(removed_bytes(entries.push(e)) =~= removed_bytes(entries) + varint_bytes(
            e.desc.raw as nat,
        ));
    } else {
        assert(entries.push(e).drop_first() =~= entries.drop_first().push(e));
        lemma_removed_bytes_push(entries.drop_first(), e);
        assert(removed_bytes(entries.push(e)) =~= removed_bytes(entries) + varint_bytes(
            e.desc.raw as nat,
        ));
    }
}


/// The raw identities the decoder reads for `count` removed entries at
/// `pos`, with the position just past them; `None` when a number is cut
/// short or does not fit a `u32`.
pub open spec fn removal_raws_at(s: Seq<u8>, pos: int, count: nat) -> Option<(Seq<u32>, int)>
    decreases count,
{
    if count == 0 {
        Some((Seq::empty(), pos))
    } else {
        match varint_at(s, pos) {
            None => None,
            Some(p) => if p.0 > u32::MAX {
                None
            } else {
                match removal_raws_at(s, p.1, (count - 1) as nat) {
                    None => None,
                    Some(q) => Some((seq![p.0 as u32] + q.0, q.1)),
                }
            },
        }
    }
}

/// The change-set map that marks exactly the identities in `raws` removed.
pub open spec fn removal_map<V>(raws: Seq<u32>) -> Map<u32, Option<V>> {
    Map::new(|x: u32| raws.contains(x), |x: u32| None)
}

fn wire_of_varint(e: VarintError) -> (r: WireError)
    ensures
        r is Truncated || r is Overflow,
{
    match e {
        VarintError::Truncated => WireError::Truncated,
        VarintError::Overflow => WireError::Overflow,
    }
}

/// Every entry's descriptor is the one `reg` holds under its raw identity.
pub open spec fn descs_registered<V>(s: Seq<Entry<V>>, reg: Seq<Descriptor>) -> bool {
    forall|k: int|
        0 <= k < s.len() ==> (#[trigger] s[k]).desc.raw < reg.len() && s[k].desc == reg[s[k].desc.raw as int]
}

impl<'w, V> ComponentChanges<'w, V> {
    /// Writes this change set's binary wire form after the bytes already in
    /// `buf`: both counts, every present entry with its marker, identity and
    /// payload, then every removed identity.  Fails only when an entry's own
    /// payload codec fails; a change set with no present entries always
    /// encodes.
    pub fn encode<C: PayloadCodec<V>>(&self, codec: &C, buf: &mut Vec<u8>) -> (r: Result<
        (),
        CodecError,
    >)
        requires
            self.wf(),
            self.entries().len() <= u32::MAX,
        ensures
            old(buf)@.is_prefix_of(final(buf)@),
            present_of(self.entries()).len() == 0 ==> r is Ok,
            r is Ok ==> encodes_wire(self.entries(), old(buf)@, final(buf)@),
    {
        let entries = self.entries_ref();
        let n = entries.len();
        let mut present: usize = 0;
        let mut i: usize = 0;
        proof {
            assert(entries@.take(0) =~= Seq::<Entry<V>>::empty());
        }
        while i < n
            invariant
                0 <= i <= n,
                n == entries@.len(),
                present == present_of(entries@.take(i as int)).len(),
                present <= i,
            decreases n - i,
        {
            proof {
                assert(entries@.take(i + 1) =~= entries@.take(i as int).push(entries@[i as int]));
                lemma_present_of_push(entries@.take(i as int), entries@[i as int]);
            }
            if entries[i].value.is_some() {
                present = present + 1;
            }
            i += 1;
        }
        proof {
            assert(entries@.take(n as int) =~= entries@);
            lemma_partition_count(entries@);
        }
        let removed = n - present;
        write_varint(buf, present as u32);
        write_varint(buf, removed as u32);
        let ghost header = old(buf)@ + varint_bytes(present_of(entries@).len())
            + varint_bytes(removed_of(entries@).len());
        proof {
            assert(buf@ =~= header);
        }
        let ghost mut payloads: Seq<Seq<u8>> = Seq::empty();
        i = 0;
        proof {
            assert(entries@.take(0) =~= Seq::<Entry<V>>::empty());
            assert(buf@ =~= header + present_bytes(present_of(entries@.take(0)), payloads));
            assert(buf@ =~= old(buf)@ + (varint_bytes(present_of(entries@).len())
                + varint_bytes(removed_of(entries@).len())));
            lemma_concat_prefix(
                old(buf)@,
                varint_bytes(present_of(entries@).len()) + varint_bytes(
                    removed_of(entries@).len(),
                ),
            );
        }
        while i < n
            invariant
                0 <= i <= n,
                n == entries@.len(),
                entries@ == self.entries(),
                payloads.len() == present_of(entries@.take(i as int)).len(),
                buf@ == header + present_bytes(present_of(entries@.take(i as int)), payloads),
                old(buf)@.is_prefix_of(buf@),
            decreases n - i,
        {
            proof {
                assert(entries@.take(i + 1) =~= entries@.take(i as int).push(entries@[i as int]));
                lemma_present_of_push(entries@.take(i as int), entries@[i as int]);
            }
            match &entries[i].value {
                Some(v) => {
                    let ghost start = buf@;
                    write_varint(buf, 1);
                    write_varint(buf, entries[i].desc.raw);
                    let ghost before = buf@;
                    proof {
                        assert(before =~= start + (varint_bytes(1) + varint_bytes(
                            entries@[i as int].desc.raw as nat,
                        )));
                        lemma_concat_prefix(
                            start,
                            varint_bytes(1) + varint_bytes(entries@[i as int].desc.raw as nat),
                        );
                        lemma_prefix_trans(old(buf)@, start, before);
                    }
                    match codec.encode_payload(&entries[i].desc, v, buf) {
                        Ok(()) => {},
                        Err(e) => {
                            proof {
                                lemma_present_of_nonempty(entries@, i as int);
                                lemma_prefix_trans(old(buf)@, before, buf@);
                            }
                            return Err(e);
                        },
                    }
                    proof {
                        let pb = buf@.subrange(before.len() as int, buf@.len() as int);
                        assert(buf@ =~= before + pb);
                        lemma_present_bytes_push(
                            present_of(entries@.take(i as int)),
                            payloads,
                            entries@[i as int],
                            pb,
                        );
                        payloads = payloads.push(pb);
                        assert(buf@ =~= header + present_bytes(
                            present_of(entries@.take(i + 1)),
                            payloads,
                        ));
                        lemma_prefix_trans(old(buf)@, before, buf@);
                    }
                },
                None => {},
            }
            i += 1;
        }
        proof {
            assert(entries@.take(n as int) =~= entries@);
        }
        let ghost mid = header + present_bytes(present_of(entries@), payloads);
        i = 0;
        proof {
            assert(entries@.take(0) =~= Seq::<Entry<V>>::empty());
            assert(buf@ =~= mid + removed_bytes(removed_of(entries@.take(0))));
        }
        while i < n
            invariant
                0 <= i <= n,
                n == entries@.len(),
                entries@ == self.entries(),
                buf@ == mid + removed_bytes(removed_of(entries@.take(i as int))),
            decreases n - i,
        {
            proof {
                assert(entries@.take(i + 1) =~= entries@.take(i as int).push(entries@[i as int]));
                lemma_removed_of_push(entries@.take(i as int), entries@[i as int]);
            }
            match &entries[i].value {
                Some(_) => {},
                None => {
                    write_varint(buf, entries[i].desc.raw);
                    proof {
                        lemma_removed_bytes_push(
                            removed_of(entries@.take(i as int)),
                            entries@[i as int],
                        );
                        assert(buf@ =~= mid + removed_bytes(removed_of(entries@.take(i + 1))));
                    }
                },
            }
            i += 1;
        }
        proof {
            assert(entries@.take(n as int) =~= entries@);
            assert(buf@ =~= old(buf)@ + wire_bytes(entries@, payloads));
            assert(old(buf)@ =~= buf@.subrange(0, old(buf)@.len() as int));
        }
        Ok(())
    }

    /// Reads a change set from its binary wire form: both counts, each
    /// present entry's identity and payload, then each removed identity.
    /// The markers written before present entries are not read back; see
    /// the module documentation.  The serializable tally of the result is
    /// computed by scanning the decoded entries.  For a stream whose
    /// present count is zero the outcome is pinned down exactly: it
    /// succeeds if and only if the removed identities are well formed and
    /// all registered, and then marks exactly those identities removed.
    pub fn decode<C: PayloadCodec<V>>(bytes: &Vec<u8>, reg: &Registry, codec: &C) -> (r: Result<
        Self,
        WireError,
    >)
        requires
            reg.wf(),
        ensures
            r matches Ok(c) ==> c.wf() && c.ser_hint() == count_serializable(c.entries())
                && descs_registered(c.entries(), reg.descriptors()),
            r is Ok ==> (varint_at(bytes@, 0) matches Some(h) && h.0 <= u32::MAX),
            varint_at(bytes@, 0) matches Some(h0) ==> h0.0 == 0 ==> match varint_at(
                bytes@,
                h0.1,
            ) {
                None => r is Err,
                Some(h1) => if h1.0 > u32::MAX {
                    r is Err
                } else {
                    match removal_raws_at(bytes@, h1.1, h1.0) {
                        None => r is Err,
                        Some(q) => if forall|k: int|
                            0 <= k < q.0.len() ==> (#[trigger] q.0[k])
                                < reg.descriptors().len() {
                            r matches Ok(c) && c.model() =~= removal_map::<V>(q.0)
                        } else {
                            r is Err
                        },
                    }
                },
            },
    {
        broadcast use vstd::seq_lib::group_seq_properties;

        let (present, pos0) = match read_varint(bytes, 0) {
            Ok(p) => p,
            Err(e) => {
                return Err(wire_of_varint(e));
            },
        };
        let (removed, pos1) = match read_varint(bytes, pos0) {
            Ok(p) => p,
            Err(e) => {
                return Err(wire_of_varint(e));
            },
        };
        let mut entries: Vec<Entry<V>> = Vec::new();
        let mut pos: usize = pos1;
        let mut i: u32 = 0;
        while i < present
            invariant
                0 <= i <= present,
                pos <= bytes@.len(),
                keys_unique(entries@),
                descs_registered(entries@, reg.descriptors()),
                reg.wf(),
                present == 0 ==> pos == pos1 && entries@.len() == 0,
                varint_at(bytes@, 0) is Some ==> varint_at(bytes@, 0)->Some_0.0
                    == present as nat && varint_at(bytes@, 0)->Some_0.1 == pos0 as int,
            decreases present - i,
        {
            let (raw, p) = match read_varint(bytes, pos) {
                Ok(x) => x,
                Err(e) => {
                    return Err(wire_of_varint(e));
                },
            };
            let desc = match reg.resolve_raw(raw) {
                Some(d) => d.clone(),
                None => {
                    return Err(WireError::UnknownDescriptor { raw });
                },
            };
            let (val, p2) = match codec.decode_payload(&desc, bytes, p) {
                Ok(x) => x,
                Err(error) => {
                    return Err(WireError::Payload { error });
                },
            };
            upsert_entry(&mut entries, Entry { desc, value: Some(val) });
            pos = p2;
            i += 1;
        }
        let ghost mut processed: Seq<u32> = Seq::empty();
        let mut j: u32 = 0;
        proof {
            if present == 0 {
                assert(map_of(entries@) =~= removal_map::<V>(processed));
                let rem = removal_raws_at(bytes@, pos as int, removed as nat);
                if rem is Some {
                    assert(Seq::<u32>::empty() + rem->Some_0.0 =~= rem->Some_0.0);
                }
            }
        }
        while j < removed
            invariant
                0 <= j <= removed,
                pos <= bytes@.len(),
                keys_unique(entries@),
                descs_registered(entries@, reg.descriptors()),
                reg.wf(),
                varint_at(bytes@, 0) is Some ==> varint_at(bytes@, 0)->Some_0.0
                    == present as nat && varint_at(bytes@, 0)->Some_0.1 == pos0 as int,
                varint_at(bytes@, pos0 as int) is Some ==> varint_at(
                    bytes@,
                    pos0 as int,
                )->Some_0.0 == removed as nat && varint_at(bytes@, pos0 as int)->Some_0.1
                    == pos1 as int,
                present == 0 ==> {
                    &&& processed.len() == j
                    &&& map_of(entries@) =~= removal_map::<V>(processed)
                    &&& forall|k: int|
                        0 <= k < processed.len() ==> (#[trigger] processed[k])
                            < reg.descriptors().len()
                    &&& removal_raws_at(bytes@, pos1 as int, removed as nat) == (match
                        removal_raws_at(bytes@, pos as int, (removed - j) as nat) {
                        None => None::<(Seq<u32>, int)>,
                        Some(q) => Some((processed + q.0, q.1)),
                    })
                },
            decreases removed - j,
        {
            let ghost full = removal_raws_at(bytes@, pos1 as int, removed as nat);
            let (raw, p) = match read_varint(bytes, pos) {
                Ok(x) => x,
                Err(e) => {
                    proof {
                        if present == 0 {
                            assert(full is None);
                        }
                    }
                    return Err(wire_of_varint(e));
                },
            };
            proof {
                if present == 0 {
                    assert(removal_raws_at(bytes@, pos as int, (removed - j) as nat) == (match
                        removal_raws_at(bytes@, p as int, (removed - j - 1) as nat) {
                        None => None::<(Seq<u32>, int)>,
                        Some(q) => Some((seq![raw] + q.0, q.1)),
                    }));
                }
            }
            let desc = match reg.resolve_raw(raw) {
                Some(d) => d.clone(),
                None => {
                    proof {
                        if present == 0 && full is Some {
                            let q = full->Some_0;
                            let rest = removal_raws_at(bytes@, p as int, (removed - j - 1) as nat);
                            assert(rest is Some);
                            assert(q.0 =~= processed + (seq![raw] + rest->Some_0.0));
                            assert(q.0[processed.len() as int] == raw);
                        }
                    }
                    return Err(WireError::UnknownDescriptor { raw });
                },
            };
            upsert_entry(&mut entries, Entry { desc, value: None });
            proof {
                if present == 0 {
                    assert forall|x: u32| processed.push(raw).contains(x) <==> removal_map::<
                        V,
                    >(processed).insert(raw, None).contains_key(x) by {
                        broadcast use vstd::seq_lib::lemma_seq_contains_after_push;

                    }
                    assert(map_of(entries@) =~= removal_map::<V>(processed.push(raw)));
                    let rest = removal_raws_at(bytes@, p as int, (removed - j - 1) as nat);
                    if rest is Some {
                        let q = rest->Some_0;
                        assert(processed + (seq![raw] + q.0) =~= processed.push(raw) + q.0);
                    }
                    processed = processed.push(raw);
                }
            }
            pos = p;
            j += 1;
        }
        proof {
            if present == 0 {
                assert(removal_raws_at(bytes@, pos as int, 0) == Some((
                    Seq::<u32>::empty(),
                    pos as int,
                )));
                assert(processed + Seq::<u32>::empty() =~= processed);
            }
        }
        let n = entries.len();
        let mut ser: usize = 0;
        let mut k: usize = 0;
        proof {
            assert(entries@.take(0) =~= Seq::<Entry<V>>::empty());
        }
        while k < n
            invariant
                0 <= k <= n,
                n == entries@.len(),
                ser <= k,
                ser == count_serializable(entries@.take(k as int)),
            decreases n - k,
        {
            proof {
                assert(entries@.take(k + 1).drop_last() =~= entries@.take(k as int));
                assert(entries@.take(k + 1).last() == entries@[k as int]);
            }
            if entries[k].desc.serializable {
                ser = ser + 1;
            }
            k += 1;
        }
        proof {
            assert(entries@.take(n as int) =~= entries@);
        }
        Ok(ComponentChanges::from_parts(entries, ser))
    }
}


proof fn lemma_all_removed_partition<V>(s: Seq<Entry<V>>)
    requires
        forall|i: int| 0 <= i < s.len() ==> (#[trigger] s[i]).value is None,
    ensures
        present_of(s) =~= Seq::<Entry<V>>::empty(),
        removed_of(s) =~= s,
    decreases s.len(),
{
    if s.len() > 0 {
        lemma_all_removed_partition(s.drop_first());
        assert(removed_of(s) =~= seq![s[0]] + s.drop_first());
        assert(seq![s[0]] + s.drop_first() =~= s);
    }
}

/// `raws_of` lists each entry's raw identity at the entry's own index.
pub proof fn lemma_raws_of_index<V>(s: Seq<Entry<V>>)
    ensures
        raws_of(s).len() == s.len(),
        forall|k: int| 0 <= k < s.len() ==> raws_of(s)[k] == (#[trigger] s[k]).desc.raw,
    decreases s.len(),
{
    if s.len() > 0 {
        lemma_raws_of_index(s.drop_first());
        assert forall|k: int| 0 <= k < s.len() implies raws_of(s)[k] == (#[trigger] s[k]).desc.raw
            by {
            if k > 0 {
                assert(raws_of(s)[k] == raws_of(s.drop_first())[k - 1]);
                assert(s.drop_first()[k - 1] == s[k]);
            }
        }
    }
}

proof fn lemma_removal_raws_of_removed_bytes<V>(s: Seq<u8>, pos: int, entries: Seq<Entry<V>>)
    requires
        0 <= pos,
        pos + removed_bytes(entries).len() <= s.len(),
        s.subrange(pos, pos + removed_bytes(entries).len() as int) == removed_bytes(entries),
    ensures
        removal_raws_at(s, pos, entries.len() as nat) == Some((
            raws_of(entries),
            pos + removed_bytes(entries).len() as int,
        )),
    decreases entries.len(),
{
    if entries.len() == 0 {
        assert(raws_of(entries) =~= Seq::<u32>::empty());
    } else {
        let e0 = varint_bytes(entries[0].desc.raw as nat);
        let rest = removed_bytes(entries.drop_first());
        assert(removed_bytes(entries) == e0 + rest);
        assert(s.subrange(pos, pos + e0.len() as int) =~= e0);
        lemma_varint_round_trip(s, pos, entries[0].desc.raw as nat);
        assert(s.subrange(pos + e0.len() as int, pos + e0.len() + rest.len() as int)
            =~= rest) by {
            assert forall|k: int| 0 <= k < rest.len() implies s[pos + e0.len() + k] == rest[k] by {
                assert(removed_bytes(entries)[e0.len() + k] == s.subrange(
                    pos,
                    pos + removed_bytes(entries).len() as int,
                )[e0.len() + k]);
                assert((e0 + rest)[e0.len() + k] == rest[k]);
            }
        }
        lemma_removal_raws_of_removed_bytes(s, pos + e0.len() as int, entries.drop_first());
        assert(raws_of(entries) == seq![entries[0].desc.raw] + raws_of(entries.drop_first()));
        assert(seq![(entries[0].desc.raw as nat) as u32] + raws_of(entries.drop_first())
            =~= raws_of(entries));
    }
}

/// From a witness that `new_buf` extends `old_buf` by a wire form with no
/// present entries, the bytes are pinned down exactly: no payload bytes
/// occur in them.
pub proof fn lemma_encodes_wire_no_present<V>(
    entries: Seq<Entry<V>>,
    old_buf: Seq<u8>,
    new_buf: Seq<u8>,
)
    requires
        encodes_wire(entries, old_buf, new_buf),
        present_of(entries).len() == 0,
    ensures
        new_buf == old_buf + wire_bytes(entries, Seq::<Seq<u8>>::empty()),
{
    let payloads = choose|p: Seq<Seq<u8>>|
        p.len() == present_of(entries).len() && new_buf == old_buf + #[trigger] wire_bytes(
            entries,
            p,
        );
    assert(present_bytes(present_of(entries), payloads) =~= present_bytes(
        present_of(entries),
        Seq::<Seq<u8>>::empty(),
    ));
    assert(wire_bytes(entries, payloads) =~= wire_bytes(entries, Seq::<Seq<u8>>::empty()));
}

/// Round trip of the binary wire form for a change set with no present
/// entries: the encoded stream carries a zero present count, the removed
/// count, then exactly the entries' raw identities, and reading it back
/// under the same registry recovers exactly the change map that was
/// encoded.  (A
/// change set with a present entry does not round-trip: the decoder does
/// not consume the marker the encoder writes before each present entry, so
/// the stream misaligns there by the format's own rules.)
pub proof fn lemma_wire_round_trip_removals<V>(entries: Seq<Entry<V>>, reg: Seq<Descriptor>)
    requires
        keys_unique(entries),
        forall|i: int| 0 <= i < entries.len() ==> (#[trigger] entries[i]).value is None,
        descs_registered(entries, reg),
        entries.len() <= u32::MAX,
    ensures
        ({
            let bytes = wire_bytes(entries, Seq::<Seq<u8>>::empty());
            let h0 = varint_at(bytes, 0);
            &&& h0 is Some && h0->Some_0.0 == 0
            &&& ({
                let h1 = varint_at(bytes, h0->Some_0.1);
                &&& h1 is Some && h1->Some_0.0 == entries.len()
                &&& removal_raws_at(bytes, h1->Some_0.1, h1->Some_0.0) == Some((
                    raws_of(entries),
                    bytes.len() as int,
                ))
            })
            &&& forall|k: int|
                0 <= k < raws_of(entries).len() ==> (#[trigger] raws_of(entries)[k]) < reg.len()
            &&& removal_map::<V>(raws_of(entries)) =~= map_of(entries)
        }),
{
    lemma_all_removed_partition(entries);
    let bytes = wire_bytes(entries, Seq::<Seq<u8>>::empty());
    let v0 = varint_bytes(present_of(entries).len());
    let v1 = varint_bytes(removed_of(entries).len());
    let rb = removed_bytes(removed_of(entries));
    assert(removed_of(entries) == entries);
    assert(present_bytes(present_of(entries), Seq::<Seq<u8>>::empty()) =~= Seq::<u8>::empty());
    assert(bytes =~= v0 + v1 + rb);
    assert(bytes.subrange(0, v0.len() as int) =~= v0);
    lemma_varint_round_trip(bytes, 0, 0);
    assert(bytes.subrange(v0.len() as int, v0.len() + v1.len() as int) =~= v1);
    lemma_varint_round_trip(bytes, v0.len() as int, entries.len() as nat);
    assert(bytes.subrange(
        v0.len() + v1.len() as int,
        v0.len() + v1.len() + rb.len() as int,
    ) =~= rb);
    lemma_removal_raws_of_removed_bytes(bytes, v0.len() + v1.len() as int, entries);
    lemma_raws_of_index(entries);
    assert forall|k: int|
        0 <= k < raws_of(entries).len() implies (#[trigger] raws_of(entries)[k])
        < reg.len() by {
        assert(raws_of(entries)[k] == entries[k].desc.raw);
    }
    let rm = removal_map::<V>(raws_of(entries));
    let mm = map_of::<V>(entries);
    assert forall|x: u32| #[trigger] rm.dom().contains(x) implies mm.dom().contains(x) && mm[x]
        == rm[x] by {
        assert(raws_of(entries).contains(x));
        let k = choose|k: int| 0 <= k < raws_of(entries).len() && raws_of(entries)[k] == x;
        assert(entries[k].desc.raw == x);
        lemma_map_of_index(entries, k);
        assert(entries[k].value is None);
        assert(mm[x] is None);
        assert(rm[x] is None);
    }
    assert forall|x: u32| #[trigger] mm.dom().contains(x) implies rm.dom().contains(x) by {
        lemma_map_of_contains(entries, x);
        let k = choose|i: int| 0 <= i < entries.len() && (#[trigger] entries[i]).desc.raw == x;
        assert(raws_of(entries)[k] == x);
    }
    assert(rm.dom() =~= mm.dom());
    assert(rm =~= mm);
}

/// A payload codec for change sets whose payloads are plain 32-bit
/// integers: every component type writes its value as the variable-length
/// encoding of the value's two's-complement bits.
pub struct Int32Codec;

impl PayloadCodec<i32> for Int32Codec {
    /// Appends the variable-length encoding of `value`; never fails.
    fn encode_payload(&self, desc: &Descriptor, value: &i32, buf: &mut Vec<u8>) -> (r: Result<
        (),
        CodecError,
    >)
        ensures
            old(buf)@.is_prefix_of(final(buf)@),
            r is Ok,
            final(buf)@ == old(buf)@ + varint_bytes((*value as u32) as nat),
    {
        write_varint(buf, *value as u32);
        proof {
            lemma_concat_prefix(old(buf)@, varint_bytes((*value as u32) as nat));
        }
        Ok(())
    }

    /// Reads one variable-length integer back as the payload value.
    fn decode_payload(&self, desc: &Descriptor, bytes: &Vec<u8>, pos: usize) -> (r: Result<
        (i32, usize),
        CodecError,
    >)
        ensures
            r matches Ok(p) ==> pos <= p.1 <= bytes@.len(),
            match varint_at(bytes@, pos as int) {
                None => r is Err,
                Some(p) => if p.0 <= u32::MAX {
                    r matches Ok(q) && q.0 == (p.0 as u32) as i32 && q.1 as int == p.1
                } else {
                    r is Err
                },
            },
    {
        match read_varint(bytes, pos) {
            Ok((v, end)) => Ok((v as i32, end)),
            Err(_) => Err(
                CodecError { message: "the payload is not one variable-length integer".to_owned() },
            ),
        }
    }
}


} // verus!
