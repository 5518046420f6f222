//! The capture-source abstraction: a frozen pattern-match result, queryable
//! by group index or by group name, and a concrete implementation over plain
//! byte vectors.

use vstd::prelude::*;

verus! {

/// A single, frozen pattern-match result. `None` uniformly signals that a
/// capture did not participate in the match, whatever the reason.
pub trait Capture {
    /// The bytes of the group at `idx`, if it participated.
    spec fn spec_get(&self, idx: int) -> Option<Seq<u8>>;

    /// The bytes of the group named `name`, if it participated.
    spec fn spec_name(&self, name: Seq<u8>) -> Option<Seq<u8>>;

    fn get(&self, idx: usize) -> (r: Option<Vec<u8>>)
        ensures
            match r {
                Some(v) => self.spec_get(idx as int) == Some(v@),
                None => self.spec_get(idx as int) is None,
            },
    ;

    fn name(&self, name: &[u8]) -> (r: Option<Vec<u8>>)
        ensures
            match r {
                Some(v) => self.spec_name(name@) == Some(v@),
                None => self.spec_name(name@) is None,
            },
    ;
}

/// The index of the first group whose name is `name`, or `None`.
pub open spec fn name_index(names: Seq<Option<Seq<u8>>>, name: Seq<u8>) -> Option<int>
    decreases names.len(),
{
    if names.len() == 0 {
        None
    } else if names[0] == Some(name) {
        Some(0)
    } else {
        match name_index(names.drop_first(), name) {
            Some(i) => Some(i + 1),
            None => None,
        }
    }
}

pub open spec fn names_view(names: Seq<Option<Vec<u8>>>) -> Seq<Option<Seq<u8>>> {
    names.map_values(|n: Option<Vec<u8>>| match n {
        Some(v) => Some(v@),
        None => None,
    })
}

pub open spec fn groups_view(groups: Seq<Option<Vec<u8>>>) -> Seq<Option<Seq<u8>>> {
    groups.map_values(|g: Option<Vec<u8>>| match g {
        Some(v) => Some(v@),
        None => None,
    })
}

/// A capture source held as plain values: `groups[i]` is the bytes of group
/// `i` if it participated, and `names[i]` is the name of group `i` if it has
/// one. A name that occurs more than once designates its first group.
pub struct CaptureList {
    pub groups: Vec<Option<Vec<u8>>>,
    pub names: Vec<Option<Vec<u8>>>,
}

impl CaptureList {
    pub fn new(groups: Vec<Option<Vec<u8>>>, names: Vec<Option<Vec<u8>>>) -> (r: CaptureList)
        ensures
            r.groups == groups,
            r.names == names,
    {
        CaptureList { groups, names }
    }
}

fn bytes_eq(a: &[u8], b: &[u8]) -> (r: bool)
    ensures
        r <==> a@ == b@,
{
    if a.len() != b.len() {
        assert(a@.len() != b@.len());
        return false;
    }
    for i in 0..a.len()
        invariant
            a@.len() == b@.len(),
            i <= a@.len(),
            forall|j: int| 0 <= j < i ==> a@[j] == b@[j],
    {
        if a[i] != b[i] {
            assert(a@[i as int] != b@[i as int]);
            return false;
        }
    }
    proof {
        assert(a@ =~= b@);
    }
    true
}

fn copy_bytes(v: &[u8]) -> (r: Vec<u8>)
    ensures
        r@ == v@,
{
    let mut out: Vec<u8> = Vec::new();
    for i in 0..v.len()
        invariant
            i <= v@.len(),
            out@ == v@.subrange(0, i as int),
    {
        out.push(v[i]);
    }
    proof {
        assert(v@.subrange(0, v@.len() as int) =~= v@);
    }
    out
}

impl Capture for CaptureList {
    open spec fn spec_get(&self, idx: int) -> Option<Seq<u8>> {
        if 0 <= idx < self.groups@.len() {
            groups_view(self.groups@)[idx]
        } else {
            None
        }
    }

    open spec fn spec_name(&self, name: Seq<u8>) -> Option<Seq<u8>> {
        match name_index(names_view(self.names@), name) {
            Some(i) => self.spec_get(i),
            None => None,
        }
    }

    fn get(&self, idx: usize) -> (r: Option<Vec<u8>>) {
        if idx < self.groups.len() {
            match &self.groups[idx] {
                Some(v) => Some(copy_bytes(v.as_slice())),
                None => None,
            }
        } else {
            None
        }
    }

    fn name(&self, name: &[u8]) -> (r: Option<Vec<u8>>) {
        let n = self.names.len();
        proof {
            lemma_name_index_range(names_view(self.names@), name@);
        }
        for i in 0..n
            invariant
                n == self.names@.len(),
                i <= n,
                name_index(names_view(self.names@), name@) matches Some(k) ==> i <= k,
        {
            let hit = match &self.names[i] {
                Some(nm) => bytes_eq(nm.as_slice(), name),
                None => false,
            };
            if hit {
                proof {
                    lemma_name_index_hit(names_view(self.names@), name@, i as int);
                    assert(name_index(names_view(self.names@), name@) == Some(i as int));
                }
                return self.get(i);
            }
            proof {
                lemma_name_index_step(names_view(self.names@), name@, i as int);
            }
        }
        proof {
            lemma_name_index_range(names_view(self.names@), name@);
            assert(name_index(names_view(self.names@), name@) is None);
        }
        None
    }
}

/// A successful lookup returns the index of a matching entry.
proof fn lemma_name_index_range(names: Seq<Option<Seq<u8>>>, name: Seq<u8>)
    ensures
        name_index(names, name) matches Some(k) ==> 0 <= k < names.len() && names[k] == Some(
            name,
        ),
    decreases names.len(),
{
    if names.len() > 0 && names[0] != Some(name) {
        lemma_name_index_range(names.drop_first(), name);
    }
}

/// A matching entry at `i` means the lookup lands at or before `i`.
proof fn lemma_name_index_hit(names: Seq<Option<Seq<u8>>>, name: Seq<u8>, i: int)
    requires
        0 <= i < names.len(),
        names[i] == Some(name),
    ensures
        name_index(names, name) is Some,
        name_index(names, name) matches Some(k) ==> k <= i,
    decreases i,
{
    if names[0] != Some(name) {
        lemma_name_index_hit(names.drop_first(), name, i - 1);
    }
}

/// A non-matching entry cannot be the lookup's result.
proof fn lemma_name_index_step(names: Seq<Option<Seq<u8>>>, name: Seq<u8>, i: int)
    requires
        0 <= i < names.len(),
        names[i] != Some(name),
    ensures
        name_index(names, name) != Some(i),
    decreases i,
{
    if names.len() > 0 && names[0] != Some(name) {
        lemma_name_index_range(names.drop_first(), name);
        if i > 0 {
            lemma_name_index_step(names.drop_first(), name, i - 1);
        }
    }
}

} // verus!
