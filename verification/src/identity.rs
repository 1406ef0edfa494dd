//! Who is calling: an opaque byte string, with one value set aside for
//! callers that have not said who they are.
use vstd::prelude::*;

verus! {

/// The identity of a caller. Two identities are the same when their bytes are.
#[derive(Debug, PartialEq, Eq, PartialOrd, Ord, Hash)]
pub struct Identity {
    pub bytes: Vec<u8>,
}

impl View for Identity {
    type V = Seq<u8>;

    open spec fn view(&self) -> Seq<u8> {
        self.bytes@
    }
}

/// The bytes of the anonymous identity.
pub open spec fn anonymous_bytes() -> Seq<u8> {
    seq![4u8]
}

/// What a list of identities holds.
pub open spec fn identities_view(ids: Seq<Identity>) -> Seq<Seq<u8>> {
    ids.map_values(|id: Identity| id@)
}

/// Whether two byte strings are the same.
pub fn same_bytes(a: &Vec<u8>, b: &Vec<u8>) -> (r: bool)
    ensures
        r == (a@ == b@),
{
    if a.len() != b.len() {
        return false;
    }
    let mut i: usize = 0;
    while i < a.len()
        invariant
            0 <= i <= a.len(),
            a.len() == b.len(),
            a@.take(i as int) == b@.take(i as int),
        decreases a.len() - i,
    {
        if a[i] != b[i] {
            return false;
        }
        assert(a@.take(i as int + 1) =~= a@.take(i as int).push(a@[i as int]));
        assert(b@.take(i as int + 1) =~= b@.take(i as int).push(b@[i as int]));
        i += 1;
    }
    assert(a@.take(a@.len() as int) =~= a@);
    assert(b@.take(b@.len() as int) =~= b@);
    true
}

impl Identity {
    /// The identity with these bytes.
    pub fn from_bytes(bytes: Vec<u8>) -> (r: Identity)
        ensures
            r@ == bytes@,
    {
        Identity { bytes }
    }

    /// The identity of a caller who has not said who they are.
    pub fn anonymous() -> (r: Identity)
        ensures
            r@ == anonymous_bytes(),
    {
        let mut bytes: Vec<u8> = Vec::new();
        bytes.push(4u8);
        assert(bytes@ =~= anonymous_bytes());
        Identity { bytes }
    }

    /// Whether this is the anonymous identity.
    pub fn is_anonymous(&self) -> (r: bool)
        ensures
            r == (self@ == anonymous_bytes()),
    {
        let r = self.bytes.len() == 1 && self.bytes[0] == 4u8;
        assert(r ==> self@ =~= anonymous_bytes());
        assert(anonymous_bytes().len() == 1 && anonymous_bytes()[0] == 4u8);
        r
    }

    /// Whether two identities are the same.
    pub fn same_as(&self, other: &Identity) -> (r: bool)
        ensures
            r == (self@ == other@),
    {
        same_bytes(&self.bytes, &other.bytes)
    }

    /// The bytes of this identity, copied.
    pub fn to_bytes(&self) -> (r: Vec<u8>)
        ensures
            r@ == self@,
    {
        self.bytes.clone()
    }
}

impl Clone for Identity {
    fn clone(&self) -> (r: Identity)
        ensures
            r@ == self@,
    {
        Identity { bytes: self.bytes.clone() }
    }
}

/// Whether `id` occurs in `ids`.
pub fn listed(ids: &Vec<Identity>, id: &Identity) -> (r: bool)
    ensures
        r == identities_view(ids@).contains(id@),
{
    let mut i: usize = 0;
    while i < ids.len()
        invariant
            0 <= i <= ids.len(),
            forall|k: int| 0 <= k < i ==> identities_view(ids@)[k] != id@,
        decreases ids.len() - i,
    {
        if ids[i].same_as(id) {
            assert(identities_view(ids@)[i as int] == id@);
            return true;
        }
        i += 1;
    }
    false
}

/// A copy of a list of identities.
pub fn copy_identities(ids: &Vec<Identity>) -> (r: Vec<Identity>)
    ensures
        identities_view(r@) == identities_view(ids@),
{
    let mut out: Vec<Identity> = Vec::new();
    let mut i: usize = 0;
    while i < ids.len()
        invariant
            0 <= i <= ids.len(),
            out@.len() == i,
            identities_view(out@) == identities_view(ids@).take(i as int),
        decreases ids.len() - i,
    {
        let id = ids[i].clone();
        let ghost before = out@;
        out.push(id);
        assert forall|k: int| 0 <= k < out@.len() implies identities_view(out@)[k]
            == identities_view(ids@).take(i as int + 1)[k] by {
            if k < i {
                assert(identities_view(before)[k] == identities_view(ids@).take(i as int)[k]);
            }
        }
        assert(identities_view(out@) =~= identities_view(ids@).take(i as int + 1));
        i += 1;
    }
    assert(identities_view(ids@).take(ids@.len() as int) =~= identities_view(ids@));
    out
}

} // verus!
