//! The human-readable keyed-map form of a change set.
//!
//! Only entries whose descriptor is serializable participate; all others
//! are omitted from this form entirely, by design.  Each participating
//! entry becomes one key/value pair: the key is the descriptor's identity
//! string, prefixed with the reserved marker `!` when the entry is a
//! removal; the value is the entry's payload, or a dummy (an unsigned zero
//! in the outer format) for a removal, since the target format has no unit
//! value.  Reading the form back strips the marker, validates the remainder
//! as an identifier, resolves it through the registry, and rejects keys
//! that are malformed, unknown, or name a non-serializable type.

use vstd::prelude::*;

use crate::changes::{ComponentChanges, Entry, keys_unique, map_of, upsert_entry};
use crate::identifier::{
    first_index, is_namespace_char, is_path_char, lemma_first_index_bounds, parse_spec,
    Identifier,
};
use crate::registry::{lemma_resolve_unique, resolve_spec, Descriptor, Registry};
use crate::wire::descs_registered;

verus! {

/// The reserved marker prefixed to a removed entry's key.
pub const REMOVED_PREFIX: char = '!';

/// The key of one entry: the identity string, with the removal marker in
/// front when the entry is a removal.
pub open spec fn key_chars(id: Seq<char>, removed: bool) -> Seq<char> {
    if removed {
        seq!['!'] + id
    } else {
        id
    }
}

/// Whether a key carries the removal marker.
pub open spec fn key_is_removal(s: Seq<char>) -> bool {
    s.len() > 0 && s[0] == '!'
}

/// The key with the removal marker, if any, stripped.
pub open spec fn stripped_key(s: Seq<char>) -> Seq<char> {
    if key_is_removal(s) {
        s.drop_first()
    } else {
        s
    }
}

/// The entries whose descriptor is serializable, in order.
pub open spec fn ser_entries_of<V>(s: Seq<Entry<V>>) -> Seq<Entry<V>>
    decreases s.len(),
{
    if s.len() == 0 {
        Seq::empty()
    } else if s[0].desc.serializable {
        seq![s[0]] + ser_entries_of(s.drop_first())
    } else {
        ser_entries_of(s.drop_first())
    }
}

/// The key/value pairs the keyed-map form carries for `s`.
pub open spec fn string_pairs_of<V>(s: Seq<Entry<V>>) -> Seq<(Seq<char>, Option<V>)> {
    s.map_values(|e: Entry<V>| (key_chars(e.desc.id@, e.value is None), e.value))
}

/// The change map read off a sequence of key/value pairs, processed in
/// order with later pairs overwriting earlier ones; `None` when some key is
/// malformed, unknown or not serializable, or a present entry lacks its
/// value.
pub open spec fn string_decode<V>(
    pairs: Seq<(Seq<char>, Option<V>)>,
    reg: Seq<Descriptor>,
) -> Option<Map<u32, Option<V>>>
    decreases pairs.len(),
{
    if pairs.len() == 0 {
        Some(Map::empty())
    } else {
        match string_decode(pairs.drop_last(), reg) {
            None => None,
            Some(m) => {
                let key = pairs.last().0;
                let stripped = stripped_key(key);
                if parse_spec(stripped) is Some {
                    match resolve_spec(reg, stripped) {
                        Some(d) => if d.serializable {
                            if key_is_removal(key) {
                                Some(m.insert(d.raw, None))
                            } else {
                                match pairs.last().1 {
                                    Some(v) => Some(m.insert(d.raw, Some(v))),
                                    None => None,
                                }
                            }
                        } else {
                            None
                        },
                        None => None,
                    }
                } else {
                    None
                }
            },
        }
    }
}

/// Error variants of reading the keyed-map form.
#[derive(Debug, PartialEq, Eq)]
pub enum StringFormError {
    /// The key, marker stripped, is not a well-formed identifier.
    InvalidIdentifier {
        /// The offending string.
        text: String,
    },
    /// The identifier is not in the registry.
    UnknownIdentifier {
        /// The unresolvable identifier.
        text: String,
    },
    /// The resolved component type is not serializable, so it can never
    /// appear in this form.
    NotSerializable {
        /// The offending identifier.
        text: String,
    },
    /// A present entry's key came without a payload value.
    MissingValue {
        /// The key whose value is missing.
        text: String,
    },
}

/// Builds the key of one entry: the identity string of `desc`, prefixed
/// with the removal marker when `removed`.
pub fn key_string(desc: &Descriptor, removed: bool) -> (r: String)
    ensures
        r@ == key_chars(desc.id@, removed),
{
    if removed {
        let mut s = "!".to_owned();
        s.append(desc.id.as_str());
        proof {
            reveal_strlit("!");
            assert(s@ =~= key_chars(desc.id@, true));
        }
        s
    } else {
        desc.id.clone()
    }
}

/// One entry's key, computed lazily and memoized, so that an outer
/// serializer visiting the key more than once formats it only once.
pub struct KeyToken {
    /// The component type the key names.
    pub desc: Descriptor,
    /// Whether the key marks a removal.
    pub removed: bool,
    /// The memoized key text, once formatted.
    pub cached: Option<String>,
}

impl KeyToken {
    /// Whatever is memoized is the key's true text.
    pub open spec fn wf(&self) -> bool {
        self.cached matches Some(c) ==> c@ == key_chars(self.desc.id@, self.removed)
    }

    /// A key token with nothing formatted yet.
    pub fn new(desc: Descriptor, removed: bool) -> (r: Self)
        ensures
            r.wf(),
            r.desc == desc,
            r.removed == removed,
            r.cached is None,
    {
        KeyToken { desc, removed, cached: None }
    }

    /// The key text, formatted on first use and remembered after.
    pub fn text(&mut self) -> (r: String)
        requires
            old(self).wf(),
        ensures
            final(self).wf(),
            r@ == key_chars(old(self).desc.id@, old(self).removed),
            final(self).desc == old(self).desc,
            final(self).removed == old(self).removed,
            final(self).cached matches Some(c) && c@ == key_chars(
                old(self).desc.id@,
                old(self).removed,
            ),
    {
        match &self.cached {
            Some(s) => s.clone(),
            None => {
                let s = key_string(&self.desc, self.removed);
                self.cached = Some(s.clone());
                s
            },
        }
    }
}

/// One pair of the keyed-map form: the key text, the component type it
/// names, and the payload to write, `None` standing for the removal dummy.
pub struct StringEntry<'e, V> {
    /// The key: identity string, `!`-prefixed for a removal.
    pub key: String,
    /// The component type, for dispatching the payload's own codec.
    pub desc: Descriptor,
    /// The payload, or `None` for a removal, which the outer format writes
    /// as an unsigned zero.
    pub value: Option<&'e V>,
}

proof fn lemma_ser_of_push<V>(s: Seq<Entry<V>>, e: Entry<V>)
    ensures
        ser_entries_of(s.push(e)) == if e.desc.serializable {
            ser_entries_of(s).push(e)
        } else {
            ser_entries_of(s)
        },
    decreases s.len(),
{
    broadcast use vstd::seq_lib::group_seq_properties;

    assert(s.push(e)[s.len() as int] == e);
    if s.len() == 0 {
        assert(s.push(e).drop_first() =~= Seq::<Entry<V>>::empty());
        if e.desc.serializable {
            assert(ser_entries_of(s.push(e)) =~= ser_entries_of(s).push(e));
        }
    } else {
        assert(s.push(e).drop_first() =~= s.drop_first().push(e));
        lemma_ser_of_push(s.drop_first(), e);
        if e.desc.serializable {
            assert(ser_entries_of(s.push(e)) =~= ser_entries_of(s).push(e));
        }
    }
}

impl<'w, V> ComponentChanges<'w, V> {
    /// The keyed-map form of this change set: one pair per serializable
    /// entry, in entry order, each with its marker-prefixed or plain key
    /// and its payload or removal dummy.  Non-serializable entries are
    /// silently omitted, by design.  The cached serializable tally serves
    /// only as the allocation hint.
    pub fn string_form_entries(&self) -> (r: Vec<StringEntry<'_, V>>)
        ensures
            ({
                let ser = ser_entries_of(self.entries());
                &&& r@.len() == ser.len()
                &&& forall|i: int|
                    0 <= i < r@.len() ==> {
                        let e = ser[i];
                        &&& (#[trigger] r@[i]).key@ == key_chars(e.desc.id@, e.value is None)
                        &&& r@[i].desc == e.desc
                        &&& (e.value is None <==> r@[i].value is None)
                        &&& (e.value matches Some(v) ==> r@[i].value matches Some(rv) && *rv == v)
                    }
            }),
    {
        let entries = self.entries_ref();
        let n = entries.len();
        let mut r: Vec<StringEntry<'_, V>> = Vec::with_capacity(self.serializable_hint());
        let mut i: usize = 0;
        proof {
            assert(entries@.take(0) =~= Seq::<Entry<V>>::empty());
        }
        while i < n
            invariant
                0 <= i <= n,
                n == entries@.len(),
                entries@ == self.entries(),
                ({
                    let ser = ser_entries_of(entries@.take(i as int));
                    &&& r@.len() == ser.len()
                    &&& forall|k: int|
                        0 <= k < r@.len() ==> {
                            let e = ser[k];
                            &&& (#[trigger] r@[k]).key@ == key_chars(e.desc.id@, e.value is None)
                            &&& r@[k].desc == e.desc
                            &&& (e.value is None <==> r@[k].value is None)
                            &&& (e.value matches Some(v) ==> r@[k].value matches Some(rv) && *rv
                                == v)
                        }
                }),
            decreases n - i,
        {
            proof {
                assert(entries@.take(i + 1) =~= entries@.take(i as int).push(entries@[i as int]));
                lemma_ser_of_push(entries@.take(i as int), entries@[i as int]);
            }
            let e = &entries[i];
            if e.desc.serializable {
                let removed = e.value.is_none();
                let key = key_string(&e.desc, removed);
                let value = match &e.value {
                    Some(v) => Some(v),
                    None => None,
                };
                r.push(StringEntry { key, desc: e.desc.clone(), value });
            }
            i += 1;
        }
        proof {
            assert(entries@.take(n as int) =~= entries@);
        }
        r
    }
}

/// Parses one key of the keyed-map form: strips the optional removal
/// marker, validates the remainder as an identifier, resolves it through
/// `reg`, and rejects non-serializable component types.  Returns the
/// resolved descriptor and whether the key marks a removal.
pub fn parse_key(key: &str, reg: &Registry) -> (r: Result<(Descriptor, bool), StringFormError>)
    ensures
        ({
            let stripped = stripped_key(key@);
            match r {
                Ok(p) => parse_spec(stripped) is Some && resolve_spec(reg.descriptors(), stripped)
                    == Some(p.0) && p.0.serializable && p.1 == key_is_removal(key@),
                Err(StringFormError::InvalidIdentifier { text }) => parse_spec(stripped) is None
                    && text@ == stripped,
                Err(StringFormError::UnknownIdentifier { text }) => parse_spec(stripped) is Some
                    && resolve_spec(reg.descriptors(), stripped) is None && text@ == stripped,
                Err(StringFormError::NotSerializable { text }) => parse_spec(stripped) is Some
                    && (resolve_spec(reg.descriptors(), stripped) matches Some(d)
                    && !d.serializable) && text@ == stripped,
                Err(StringFormError::MissingValue { .. }) => false,
            }
        }),
{
    let len = key.unicode_len();
    let removed = len > 0 && key.get_char(0) == REMOVED_PREFIX;
    let stripped = if removed {
        key.substring_char(1, len)
    } else {
        key.substring_char(0, len)
    };
    proof {
        assert(stripped@ =~= stripped_key(key@));
    }
    match Identifier::try_parse(stripped) {
        Ok(_) => {},
        Err(_) => {
            return Err(StringFormError::InvalidIdentifier { text: stripped.to_owned() });
        },
    }
    match reg.resolve(stripped) {
        Some(d) => {
            if d.serializable {
                Ok((d.clone(), removed))
            } else {
                Err(StringFormError::NotSerializable { text: stripped.to_owned() })
            }
        },
        None => Err(StringFormError::UnknownIdentifier { text: stripped.to_owned() }),
    }
}

/// Rebuilds a change set from the key/value pairs of its keyed-map form,
/// in order, later pairs for one component overwriting earlier ones.  A
/// pair whose value is `None` stands for a key that came with the removal
/// dummy; for a key without the removal marker that is an error, since a
/// present entry owes a payload.  The serializable tally of the result is
/// the number of entries decoded.  Succeeds exactly when [`string_decode`]
/// accepts the pairs, and then realizes exactly that change map.
pub fn from_string_form<'w, V>(pairs: Vec<(String, Option<V>)>, reg: &Registry) -> (r: Result<
    ComponentChanges<'w, V>,
    StringFormError,
>)
    requires
        reg.wf(),
    ensures
        ({
            let pv = pairs@.map_values(|p: (String, Option<V>)| (p.0@, p.1));
            &&& (r matches Ok(c) ==> string_decode(pv, reg.descriptors()) matches Some(m)
                && c.model() =~= m && c.wf() && c.ser_hint() == c.entries().len())
            &&& (r is Err ==> string_decode(pv, reg.descriptors()) is None)
        }),
{
    let ghost orig = pairs@;
    let ghost pv = pairs@.map_values(|p: (String, Option<V>)| (p.0@, p.1));
    let n = pairs.len();
    let mut entries: Vec<Entry<V>> = Vec::new();
    let mut i: usize = 0;
    let mut rest: Vec<(String, Option<V>)> = pairs;
    proof {
        assert(pv.take(0) =~= Seq::<(Seq<char>, Option<V>)>::empty());
        assert(map_of(entries@) =~= Map::<u32, Option<V>>::empty());
        assert(rest@ =~= orig.skip(0));
    }
    while i < n
        invariant
            0 <= i <= n,
            n == orig.len(),
            rest@ == orig.skip(i as int),
            orig == pairs@,
            pv == orig.map_values(|p: (String, Option<V>)| (p.0@, p.1)),
            reg.wf(),
            keys_unique(entries@),
            string_decode(pv.take(i as int), reg.descriptors()) is Some,
            map_of(entries@) =~= string_decode(pv.take(i as int), reg.descriptors())->Some_0,
        decreases n - i,
    {
        proof {
            assert(rest@[0] == orig[i as int]);
            assert(pv[i as int] == (orig[i as int].0@, orig[i as int].1));
            assert(pv.take(i + 1).drop_last() =~= pv.take(i as int));
            assert(pv.take(i + 1).last() == pv[i as int]);
        }
        let (key, value) = rest.remove(0);
        proof {
            assert(rest@ =~= orig.skip(i + 1));
        }
        let (desc, removed) = match parse_key(key.as_str(), reg) {
            Ok(p) => p,
            Err(e) => {
                proof {
                    lemma_string_decode_prefix_none(pv, reg.descriptors(), i + 1);
                }
                return Err(e);
            },
        };
        if removed {
            upsert_entry(&mut entries, Entry { desc, value: None });
        } else {
            match value {
                Some(v) => {
                    upsert_entry(&mut entries, Entry { desc, value: Some(v) });
                },
                None => {
                    proof {
                        lemma_string_decode_prefix_none(pv, reg.descriptors(), i + 1);
                    }
                    return Err(StringFormError::MissingValue { text: key });
                },
            }
        }
        i += 1;
    }
    proof {
        assert(pv.take(n as int) =~= pv);
    }
    let count = entries.len();
    Ok(ComponentChanges::from_parts(entries, count))
}

/// Once decoding has failed on a prefix of the pairs, it fails on the
/// whole.
proof fn lemma_string_decode_prefix_none<V>(
    pairs: Seq<(Seq<char>, Option<V>)>,
    reg: Seq<Descriptor>,
    j: int,
)
    requires
        0 <= j <= pairs.len(),
        string_decode(pairs.take(j), reg) is None,
    ensures
        string_decode(pairs, reg) is None,
    decreases pairs.len() - j,
{
    if j < pairs.len() {
        assert(pairs.take(j + 1).drop_last() =~= pairs.take(j));
        lemma_string_decode_prefix_none(pairs, reg, j + 1);
    } else {
        assert(pairs.take(j) =~= pairs);
    }
}


proof fn lemma_parse_ok_no_bang(id: Seq<char>)
    requires
        parse_spec(id) is Some,
        id.len() > 0,
    ensures
        id[0] != '!',
{
    lemma_first_index_bounds(id, ':');
    let i = first_index(id, ':');
    if i < id.len() {
        if i == 0 {
            assert(id[0] == ':');
        } else {
            assert(id.subrange(0, i)[0] == id[0]);
            assert(is_namespace_char(id[0]));
        }
    } else {
        assert(is_path_char(id[0]));
    }
}

proof fn lemma_ser_of_props<V>(s: Seq<Entry<V>>)
    requires
        keys_unique(s),
    ensures
        forall|k: int|
            0 <= k < ser_entries_of(s).len() ==> exists|j: int|
                0 <= j < s.len() && (#[trigger] ser_entries_of(s)[k]) == s[j],
        keys_unique(ser_entries_of(s)),
        forall|k: int|
            0 <= k < ser_entries_of(s).len() ==> (#[trigger] ser_entries_of(
                s,
            )[k]).desc.serializable,
    decreases s.len(),
{
    if s.len() > 0 {
        assert(keys_unique(s.drop_first())) by {
            assert(forall|p: int| 0 <= p < s.len() - 1 ==> s.drop_first()[p] == s[p + 1]);
        }
        lemma_ser_of_props(s.drop_first());
        let t = ser_entries_of(s);
        let td = ser_entries_of(s.drop_first());
        assert forall|k: int|
            0 <= k < t.len() implies exists|j: int|
            0 <= j < s.len() && (#[trigger] t[k]) == s[j] by {
            if s[0].desc.serializable && k == 0 {
                assert(t[0] == s[0]);
            } else {
                let kd = if s[0].desc.serializable {
                    k - 1
                } else {
                    k
                };
                assert(t[k] == td[kd]);
                let j = choose|j: int|
                    0 <= j < s.drop_first().len() && (#[trigger] td[kd]) == s.drop_first()[j];
                assert(s.drop_first()[j] == s[j + 1]);
                assert(t[k] == s[j + 1]);
            }
        }
        assert forall|k: int|
            0 <= k < t.len() implies (#[trigger] t[k]).desc.serializable by {
            if !(s[0].desc.serializable && k == 0) {
                let kd = if s[0].desc.serializable {
                    k - 1
                } else {
                    k
                };
                assert(t[k] == td[kd]);
            }
        }
        assert forall|p: int, q: int|
            0 <= p < t.len() && 0 <= q < t.len() && p != q implies (#[trigger] t[p]).desc.raw
            != (#[trigger] t[q]).desc.raw by {
            let jp = choose|j: int| 0 <= j < s.len() && t[p] == s[j];
            let jq = choose|j: int| 0 <= j < s.len() && t[q] == s[j];
            if jp == jq {
                assert(t[p] == t[q]);
                if s[0].desc.serializable {
                    if p != 0 && q != 0 {
                        assert(t[p] == td[p - 1] && t[q] == td[q - 1]);
                        assert(td[p - 1].desc.raw != td[q - 1].desc.raw);
                        assert(false);
                    } else {
                        let other = if p == 0 {
                            q
                        } else {
                            p
                        };
                        assert(t[other] == td[other - 1]);
                        let j = choose|j: int|
                            0 <= j < s.drop_first().len() && (#[trigger] td[other - 1])
                                == s.drop_first()[j];
                        assert(t[other] == s[j + 1]);
                        assert(s[0].desc.raw != s[j + 1].desc.raw);
                        assert(false);
                    }
                } else {
                    assert(t[p] == td[p] && t[q] == td[q]);
                    assert(td[p].desc.raw != td[q].desc.raw);
                    assert(false);
                }
            } else {
                assert(s[jp].desc.raw != s[jq].desc.raw);
            }
        }
    }
}

proof fn lemma_decode_pairs<V>(s: Seq<Entry<V>>, reg: Seq<Descriptor>)
    requires
        keys_unique(s),
        forall|k: int| 0 <= k < s.len() ==> (#[trigger] s[k]).desc.serializable,
        forall|k: int|
            0 <= k < s.len() ==> resolve_spec(reg, (#[trigger] s[k]).desc.id@) == Some(
                s[k].desc,
            ),
        forall|k: int| 0 <= k < s.len() ==> parse_spec((#[trigger] s[k]).desc.id@) is Some,
    ensures
        string_decode(string_pairs_of(s), reg) == Some(map_of(s)),
    decreases s.len(),
{
    let pairs = string_pairs_of(s);
    if s.len() == 0 {
        assert(pairs.len() == 0);
        assert(map_of(s) =~= Map::<u32, Option<V>>::empty());
    } else {
        assert(keys_unique(s.drop_last())) by {
            assert(forall|p: int| 0 <= p < s.len() - 1 ==> s.drop_last()[p] == s[p]);
        }
        assert(forall|k: int| 0 <= k < s.len() - 1 ==> s.drop_last()[k] == s[k]);
        lemma_decode_pairs(s.drop_last(), reg);
        assert(pairs.drop_last() =~= string_pairs_of(s.drop_last()));
        let e = s.last();
        let key = key_chars(e.desc.id@, e.value is None);
        assert(pairs.last() == (key, e.value));
        if e.value is None {
            assert(key[0] == '!');
            assert(key_is_removal(key));
            assert(stripped_key(key) =~= e.desc.id@);
        } else {
            if e.desc.id@.len() > 0 {
                lemma_parse_ok_no_bang(e.desc.id@);
            }
            assert(!key_is_removal(key));
            assert(stripped_key(key) == e.desc.id@);
        }
        assert(string_decode(pairs, reg) == Some(
            map_of(s.drop_last()).insert(e.desc.raw, e.value),
        ));
    }
}

/// A change set whose entries carry descriptors registered in `reg` meets
/// the round-trip law's premise on resolution: in a registry with unique
/// identity strings, each such descriptor's identity resolves back to the
/// descriptor itself.
pub proof fn lemma_registered_entries_resolve<V>(entries: Seq<Entry<V>>, reg: Seq<Descriptor>)
    requires
        forall|p: int, q: int|
            0 <= p < reg.len() && 0 <= q < reg.len() && p != q ==> (#[trigger] reg[p]).id@ != (
            #[trigger] reg[q]).id@,
        descs_registered(entries, reg),
    ensures
        forall|k: int|
            0 <= k < entries.len() ==> resolve_spec(reg, (#[trigger] entries[k]).desc.id@)
                == Some(entries[k].desc),
{
    assert forall|k: int|
        0 <= k < entries.len() implies resolve_spec(reg, (#[trigger] entries[k]).desc.id@)
        == Some(entries[k].desc) by {
        lemma_resolve_unique(reg, entries[k].desc.raw as int);
    }
}

/// Round trip of the keyed-map form: writing a change set's serializable
/// entries as key/value pairs and reading those pairs back under the same
/// registry reproduces exactly the serializable subset of the change map;
/// non-serializable entries are lost by design.  For a change set whose
/// descriptors are all serializable, that subset is the whole map.
pub proof fn lemma_string_round_trip<V>(entries: Seq<Entry<V>>, reg: Seq<Descriptor>)
    requires
        keys_unique(entries),
        forall|k: int|
            0 <= k < entries.len() ==> resolve_spec(reg, (#[trigger] entries[k]).desc.id@)
                == Some(entries[k].desc),
        forall|k: int|
            0 <= k < entries.len() ==> parse_spec((#[trigger] entries[k]).desc.id@) is Some,
    ensures
        string_decode(string_pairs_of(ser_entries_of(entries)), reg) == Some(
            map_of(ser_entries_of(entries)),
        ),
{
    lemma_ser_of_props(entries);
    let t = ser_entries_of(entries);
    assert forall|k: int|
        0 <= k < t.len() implies resolve_spec(reg, (#[trigger] t[k]).desc.id@) == Some(
        t[k].desc,
    ) && parse_spec(t[k].desc.id@) is Some by {
        let j = choose|j: int| 0 <= j < entries.len() && t[k] == entries[j];
        assert(resolve_spec(reg, entries[j].desc.id@) == Some(entries[j].desc));
        assert(parse_spec(entries[j].desc.id@) is Some);
    }
    lemma_decode_pairs(t, reg);
}


} // verus!
