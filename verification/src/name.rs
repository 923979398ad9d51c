use vstd::prelude::*;

verus! {

use vstd::string::StrSliceExecFns;

/// Compact handle into a `NameStore`: the index at which the spelling was
/// interned. Two handles issued by the same store are equal exactly when
/// their spellings are equal.
#[derive(Debug, Clone, Copy, PartialEq, Eq, Structural)]
pub struct InternedName(usize);

impl InternedName {
    /// The index of this handle's spelling in the owning store.
    pub closed spec fn id(self) -> int {
        self.0 as int
    }

    /// Handles are equal exactly when their indices are equal.
    pub proof fn lemma_eq_iff_id_eq(a: InternedName, b: InternedName)
        ensures
            (a == b) <==> (a.id() == b.id()),
    {
    }
}

/// Append-only store of name spellings. A spelling is interned at most once;
/// the handle it got on first sight stays valid for the life of the store.
pub struct NameStore {
    store: Vec<String>,
    next_id: usize,
}

impl View for NameStore {
    type V = Seq<Seq<char>>;

    /// The interned spellings, in the order they were first registered.
    closed spec fn view(&self) -> Seq<Seq<char>> {
        self.store.deep_view()
    }
}

/// Compares two string slices character by character.
fn str_eq(a: &str, b: &str) -> (r: bool)
    ensures
        r == (a@ == b@),
{
    let alen = a.unicode_len();
    let blen = b.unicode_len();
    if alen != blen {
        return false;
    }
    let mut k: usize = 0;
    while k < alen
        invariant
            a@.len() == alen,
            b@.len() == blen,
            alen == blen,
            k <= alen,
            forall|j: int| 0 <= j < k ==> a@[j] == b@[j],
        decreases alen - k,
    {
        if a.get_char(k) != b.get_char(k) {
            return false;
        }
        k += 1;
    }
    proof {
        assert(a@ =~= b@);
    }
    true
}

impl NameStore {
    /// The store hands out indices in step with its contents and never holds
    /// the same spelling twice.
    pub closed spec fn wf(&self) -> bool {
        &&& self.next_id == self.store@.len()
        &&& forall|i: int, j: int|
            0 <= i < j < self@.len() ==> self@[i] != self@[j]
    }

    /// An empty store.
    pub fn new() -> (r: Self)
        ensures
            r.wf(),
            r@ =~= Seq::<Seq<char>>::empty(),
    {
        NameStore { store: Vec::new(), next_id: 0 }
    }

    /// Looks a spelling up; returns the handle it was interned under, if any.
    pub fn get_by_interned(&self, name: &str) -> (r: Option<InternedName>)
        ensures
            match r {
                Some(n) => {
                    &&& 0 <= n.id() < self@.len()
                    &&& self@[n.id()] == name@
                    &&& forall|j: int| 0 <= j < n.id() ==> self@[j] != name@
                },
                None => forall|j: int| 0 <= j < self@.len() ==> self@[j] != name@,
            },
    {
        let mut i: usize = 0;
        let end = self.store.len();
        while i < end
            invariant
                end == self@.len(),
                i <= end,
                self@.len() == self.store@.len(),
                forall|j: int| 0 <= j < self@.len() ==> self@[j] == self.store@[j]@,
                forall|j: int| 0 <= j < i ==> self@[j] != name@,
            decreases end - i,
        {
            if str_eq(self.store[i].as_str(), name) {
                return Some(InternedName(i));
            }
            i += 1;
        }
        None
    }

    /// Total lookup from a handle back to its spelling; answers for every
    /// handle this store issued.
    pub fn get(&self, n: InternedName) -> (r: Option<&String>)
        ensures
            match r {
                Some(s) => 0 <= n.id() < self@.len() && s@ == self@[n.id()],
                None => !(0 <= n.id() < self@.len()),
            },
    {
        let id = n.0;
        if id < self.store.len() {
            proof {
                assert(self.store@[id as int]@ == self@[id as int]);
            }
            Some(&self.store[id])
        } else {
            None
        }
    }

    /// The handle at a given index, if one was issued.
    pub fn by_index(&self, idx: usize) -> (r: Option<InternedName>)
        ensures
            match r {
                Some(n) => idx < self@.len() && n.id() == idx as int,
                None => idx >= self@.len(),
            },
    {
        if idx < self.store.len() {
            Some(InternedName(idx))
        } else {
            None
        }
    }

    /// Interns a spelling: returns the existing handle when the spelling is
    /// already present, else appends it and returns the fresh handle.
    pub fn register(&mut self, name: &str) -> (n: InternedName)
        requires
            old(self).wf(),
        ensures
            final(self).wf(),
            0 <= n.id() < final(self)@.len(),
            final(self)@[n.id()] == name@,
            forall|j: int| 0 <= j < n.id() ==> final(self)@[j] != name@,
            if exists|j: int| 0 <= j < old(self)@.len() && old(self)@[j] == name@ {
                final(self)@ == old(self)@
            } else {
                final(self)@ == old(self)@.push(name@) && n.id() == old(self)@.len()
            },
    {
        match self.get_by_interned(name) {
            Some(n) => n,
            None => {
                let id = self.next_id;
                self.store.push(name.to_owned());
                self.next_id = self.store.len();
                proof {
                    assert(self@ =~= old(self)@.push(name@));
                }
                InternedName(id)
            }
        }
    }
}

/// Distinct handles issued by a well-formed store carry distinct spellings,
/// and equal handles carry equal spellings: handle-to-spelling is a bijection
/// over the issued handles.
pub proof fn lemma_handles_spell_injectively(store: &NameStore, a: InternedName, b: InternedName)
    requires
        store.wf(),
        0 <= a.id() < store@.len(),
        0 <= b.id() < store@.len(),
    ensures
        (a == b) <==> (store@[a.id()] == store@[b.id()]),
{
}

} // verus!
