//! Component-type descriptors and the registry that resolves them.
//!
//! A [`Descriptor`] is the handle for one component type: a raw numeric
//! identity used on the wire, a canonical identity string used in the
//! keyed-map form, and a flag saying whether the type participates in that
//! form at all.  A [`Registry`] holds every registered descriptor and
//! resolves identity strings and raw identities back to descriptors; the
//! change-set codecs take it as an injected collaborator.

use vstd::prelude::*;

verus! {

/// The handle for one component type.
#[derive(Debug)]
pub struct Descriptor {
    /// Numeric identity: the index of this descriptor in its registry,
    /// written on the wire as the descriptor's binary identity.
    pub raw: u32,
    /// Canonical identity string, the key of the keyed-map form.
    pub id: String,
    /// Whether entries of this type participate in the keyed-map form.
    pub serializable: bool,
}

impl Clone for Descriptor {
    fn clone(&self) -> (r: Self)
        ensures
            r == *self,
    {
        Descriptor { raw: self.raw, id: self.id.clone(), serializable: self.serializable }
    }
}

impl PartialEq for Descriptor {
    fn eq(&self, other: &Self) -> (r: bool)
    {
        self.raw == other.raw && self.id.eq(&other.id) && self.serializable == other.serializable
    }
}

impl vstd::std_specs::cmp::PartialEqSpecImpl for Descriptor {
    open spec fn obeys_eq_spec() -> bool {
        true
    }

    open spec fn eq_spec(&self, other: &Self) -> bool {
        self.raw == other.raw && self.id@ == other.id@ && self.serializable == other.serializable
    }
}

impl Eq for Descriptor {

}

/// The first descriptor of `s` whose identity string is `id`.
pub open spec fn resolve_spec(s: Seq<Descriptor>, id: Seq<char>) -> Option<Descriptor>
    decreases s.len(),
{
    if s.len() == 0 {
        None
    } else if s[0].id@ == id {
        Some(s[0])
    } else {
        resolve_spec(s.drop_first(), id)
    }
}

/// All registered component types, resolvable by identity string and by raw
/// numeric identity.
pub struct Registry {
    items: Vec<Descriptor>,
}

impl Registry {
    /// The registered descriptors, in registration order.
    pub closed spec fn descriptors(&self) -> Seq<Descriptor> {
        self.items@
    }

    /// Raw identities are the registration indices, and identity strings are
    /// unique.
    pub open spec fn wf(&self) -> bool {
        &&& self.descriptors().len() <= u32::MAX
        &&& forall|i: int|
            0 <= i < self.descriptors().len() ==> (#[trigger] self.descriptors()[i]).raw == i
        &&& forall|i: int, j: int|
            0 <= i < self.descriptors().len() && 0 <= j < self.descriptors().len() && i != j
                ==> (#[trigger] self.descriptors()[i]).id@ != (#[trigger] self.descriptors()[j]).id@
    }

    /// An empty registry.
    pub fn new() -> (r: Self)
        ensures
            r.wf(),
            r.descriptors() =~= Seq::<Descriptor>::empty(),
    {
        Registry { items: Vec::new() }
    }

    /// Registers a new component type under a fresh identity string and
    /// returns its descriptor.
    pub fn register(&mut self, id: String, serializable: bool) -> (d: Descriptor)
        requires
            old(self).wf(),
            old(self).descriptors().len() < u32::MAX,
            forall|i: int|
                0 <= i < old(self).descriptors().len()
                    ==> (#[trigger] old(self).descriptors()[i]).id@ != id@,
        ensures
            final(self).wf(),
            final(self).descriptors() =~= old(self).descriptors().push(d),
            d.raw == old(self).descriptors().len(),
            d.id@ == id@,
            d.serializable == serializable,
    {
        let raw = self.items.len() as u32;
        let d = Descriptor { raw, id, serializable };
        self.items.push(d.clone());
        d
    }

    /// Resolves an identity string to its descriptor; `None` if unknown.
    pub fn resolve(&self, id: &str) -> (r: Option<&Descriptor>)
        ensures
            match r {
                Some(d) => resolve_spec(self.descriptors(), id@) == Some(*d),
                None => resolve_spec(self.descriptors(), id@) is None,
            },
    {
        let n = self.items.len();
        let mut i: usize = 0;
        proof {
            assert(self.descriptors().skip(0) =~= self.descriptors());
        }
        while i < n
            invariant
                0 <= i <= n,
                n == self.descriptors().len(),
                resolve_spec(self.descriptors(), id@) == resolve_spec(
                    self.descriptors().skip(i as int),
                    id@,
                ),
            decreases n - i,
        {
            proof {
                assert(self.descriptors().skip(i as int).drop_first() =~= self.descriptors().skip(
                    i as int + 1,
                ));
            }
            if str_eq(self.items[i].id.as_str(), id) {
                return Some(&self.items[i]);
            }
            i += 1;
        }
        None
    }

    /// Resolves a raw numeric identity to its descriptor; `None` if out of
    /// range.
    pub fn resolve_raw(&self, raw: u32) -> (r: Option<&Descriptor>)
        ensures
            match r {
                Some(d) => raw < self.descriptors().len() && *d == self.descriptors()[raw as int],
                None => raw >= self.descriptors().len(),
            },
    {
        if (raw as usize) < self.items.len() {
            Some(&self.items[raw as usize])
        } else {
            None
        }
    }
}

/// When the identity strings of `s` are unique, the first match for
/// `s[i].id` is `s[i]` itself.
pub proof fn lemma_resolve_unique(s: Seq<Descriptor>, i: int)
    requires
        0 <= i < s.len(),
        forall|p: int, q: int|
            0 <= p < s.len() && 0 <= q < s.len() && p != q ==> (#[trigger] s[p]).id@ != (
            #[trigger] s[q]).id@,
    ensures
        resolve_spec(s, s[i].id@) == Some(s[i]),
    decreases s.len(),
{
    if i > 0 {
        assert(s[0].id@ != s[i].id@);
        lemma_resolve_unique(s.drop_first(), i - 1);
        assert(s.drop_first()[i - 1] == s[i]);
    }
}

/// Relies on `str`'s `PartialEq`: two string slices are equal exactly when
/// their character sequences are.
#[verifier::external_body]
fn str_eq(a: &str, b: &str) -> (r: bool)
    ensures
        r == (a@ == b@),
{
    a == b
}

} // verus!
