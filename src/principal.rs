use vstd::prelude::*;

verus! {

/// An opaque participant identity, held as its raw bytes.
pub struct Principal {
    pub bytes: Vec<u8>,
}

impl View for Principal {
    type V = Seq<u8>;

    open spec fn view(&self) -> Seq<u8> {
        self.bytes@
    }
}

/// The byte form of the anonymous identity.
pub open spec fn anonymous_bytes() -> Seq<u8> {
    seq![4u8]
}

impl Principal {
    /// The anonymous identity, used where no owner has been set.
    pub fn anonymous() -> (r: Principal)
        ensures
            r@ == anonymous_bytes(),
    {
        let mut bytes: Vec<u8> = Vec::new();
        bytes.push(4u8);
        assert(bytes@ =~= anonymous_bytes());
        Principal { bytes }
    }

    pub fn from_bytes(bytes: Vec<u8>) -> (r: Principal)
        ensures
            r@ == bytes@,
    {
        Principal { bytes }
    }

    /// A copy holding the same bytes.
    pub fn duplicate(&self) -> (r: Principal)
        ensures
            r@ == self@,
    {
        let mut bytes: Vec<u8> = Vec::new();
        let mut i: usize = 0;
        while i < self.bytes.len()
            invariant
                i <= self.bytes.len(),
                bytes@ =~= self.bytes@.subrange(0, i as int),
            decreases self.bytes.len() - i,
        {
            bytes.push(self.bytes[i]);
            i = i + 1;
        }
        assert(bytes@ =~= self.bytes@);
        Principal { bytes }
    }

    /// Whether two identities hold the same bytes.
    pub fn same_as(&self, other: &Principal) -> (r: bool)
        ensures
            r == (self@ == other@),
    {
        if self.bytes.len() != other.bytes.len() {
            return false;
        }
        let mut i: usize = 0;
        while i < self.bytes.len()
            invariant
                i <= self.bytes.len(),
                self.bytes.len() == other.bytes.len(),
                forall|j: int| 0 <= j < i ==> self.bytes@[j] == other.bytes@[j],
            decreases self.bytes.len() - i,
        {
            if self.bytes[i] != other.bytes[i] {
                return false;
            }
            i = i + 1;
        }
        assert(self@ =~= other@);
        true
    }
}

impl Clone for Principal {
    fn clone(&self) -> (r: Principal)
        ensures
            r@ == self@,
    {
        self.duplicate()
    }
}

/// An identity together with an optional sub-identifier.
pub struct Account {
    pub owner: Principal,
    pub subaccount: Option<Vec<u8>>,
}

impl Default for Account {
    fn default() -> (r: Account)
        ensures
            r.owner@ == anonymous_bytes(),
            r.subaccount is None,
    {
        Account { owner: Principal::anonymous(), subaccount: None }
    }
}

} // verus!
