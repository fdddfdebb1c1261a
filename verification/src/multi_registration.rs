//! Capability-family names and the process-wide canonical-name table.
//!
//! A capability family is identified by a stable string. Each family is
//! declared once, during startup, into an explicit table; resolving a name
//! against the table yields its canonical spelling and catches typos before
//! any lookup by family name happens.

use vstd::prelude::*;

verus! {

/// Implemented by a type that belongs to a capability family; the family's
/// stable name is what its members multi-register under.
pub trait MultiregistrationTrait {
    /// The family's stable name.
    fn multiregistration_key() -> String;
}

/// A capability-family key, as collected into the canonical-name table at
/// startup.
pub struct MultiregistrationKey {
    pub key: String,
}

impl MultiregistrationKey {
    /// The key of the family `T` belongs to.
    pub fn new<T: MultiregistrationTrait>() -> (r: MultiregistrationKey) {
        MultiregistrationKey { key: T::multiregistration_key() }
    }
}

/// The process-wide table of canonical family names, populated once at
/// startup by the capability-family declarations.
pub struct CanonicalNameTable {
    pub names: Vec<String>,
}

impl CanonicalNameTable {
    /// Whether some declared name spells `n`.
    pub open spec fn spec_contains(self, n: Seq<char>) -> bool {
        exists|j: int| 0 <= j < self.names@.len() && (#[trigger] self.names@[j])@ == n
    }

    /// An empty table.
    pub fn new() -> (t: CanonicalNameTable)
        ensures
            t.names@.len() == 0,
            forall|n: Seq<char>| !#[trigger] t.spec_contains(n),
    {
        CanonicalNameTable { names: Vec::new() }
    }

    /// Declare a family name; meant to run during startup, before any
    /// resolution by family name.
    pub fn declare(&mut self, name: String)
        ensures
            final(self).names@ == old(self).names@.push(name),
            forall|n: Seq<char>| #[trigger] final(self).spec_contains(n)
                <==> (old(self).spec_contains(n) || n == name@),
    {
        proof {
            let s2 = self.names@.push(name);
            assert forall|n: Seq<char>| (exists|j: int| 0 <= j < s2.len() && (#[trigger] s2[j])@ == n)
                <==> (self.spec_contains(n) || n == name@) by {
                if exists|j: int| 0 <= j < s2.len() && (#[trigger] s2[j])@ == n {
                    let j = choose|j: int| 0 <= j < s2.len() && (#[trigger] s2[j])@ == n;
                    if j < self.names@.len() {
                        assert(s2[j] == self.names@[j]);
                    } else {
                        assert(s2[j] == name);
                    }
                }
                if self.spec_contains(n) {
                    let j = choose|j: int| 0 <= j < self.names@.len() && (#[trigger] self.names@[j])@ == n;
                    assert(s2[j] == self.names@[j]);
                }
                if n == name@ {
                    assert(s2[self.names@.len() as int] == name);
                }
            }
        }
        self.names.push(name);
    }
}

/// The canonical spelling of `name`, when the table declares it; `None`
/// marks an unknown family name, which callers treat as a fatal
/// configuration error.
pub fn try_get_canonical_name(table: &CanonicalNameTable, name: &String) -> (r: Option<String>)
    ensures
        match r {
            Some(s) => s@ == name@ && table.spec_contains(name@),
            None => !table.spec_contains(name@),
        },
{
    let n = table.names.len();
    let mut j: usize = 0;
    while j < n
        invariant
            n == table.names@.len(),
            j <= n,
            forall|k: int| 0 <= k < j ==> (#[trigger] table.names@[k])@ != name@,
        decreases n - j,
    {
        if table.names[j] == *name {
            return Some(table.names[j].clone());
        }
        j += 1;
    }
    None
}

/// The canonical spelling of a declared family name. A name outside the
/// table is a typo or a missing startup declaration and fatal, so such an
/// input is excluded here; `try_get_canonical_name` reports it as `None`
/// instead.
pub fn get_canonical_name(table: &CanonicalNameTable, name: &String) -> (r: String)
    requires
        table.spec_contains(name@),
    ensures
        r@ == name@,
{
    try_get_canonical_name(table, name).unwrap()
}

} // verus!
