use vstd::prelude::*;
use crate::entity::TypeId;

verus! {

/// What a system declares about the data it touches: the component types it
/// reads and writes, and the resource types it reads and writes.
///
/// The four lists are read as sets; order and repetition carry no meaning.
pub struct AccessDescriptor {
    pub reads: Vec<TypeId>,
    pub writes: Vec<TypeId>,
    pub resource_reads: Vec<TypeId>,
    pub resource_writes: Vec<TypeId>,
}

/// The first element of `a` that also occurs in `b`, if there is one.
pub open spec fn first_common(a: Seq<TypeId>, b: Seq<TypeId>) -> Option<TypeId>
    decreases a.len(),
{
    if a.len() == 0 {
        None
    } else if b.contains(a[0]) {
        Some(a[0])
    } else {
        first_common(a.skip(1), b)
    }
}

/// `first_common` finds a shared element exactly when the two sequences
/// share one.
pub proof fn lemma_first_common(a: Seq<TypeId>, b: Seq<TypeId>)
    ensures
        match first_common(a, b) {
            Some(t) => a.contains(t) && b.contains(t),
            None => forall|t: TypeId| !(a.contains(t) && b.contains(t)),
        },
    decreases a.len(),
{
    if a.len() == 0 {
    } else if b.contains(a[0]) {
        assert(a.contains(a[0]));
    } else {
        lemma_first_common(a.skip(1), b);
        match first_common(a.skip(1), b) {
            Some(t) => {
                let i = choose|i: int| 0 <= i < a.skip(1).len() && a.skip(1)[i] == t;
                assert(a[i + 1] == t);
            },
            None => {
                assert forall|t: TypeId| !(a.contains(t) && b.contains(t)) by {
                    if a.contains(t) && b.contains(t) {
                        let i = choose|i: int| 0 <= i < a.len() && a[i] == t;
                        assert(i > 0);
                        assert(a.skip(1)[i - 1] == t);
                        assert(a.skip(1).contains(t));
                    }
                }
            },
        }
    }
}

fn list_contains(list: &Vec<TypeId>, t: TypeId) -> (r: bool)
    ensures
        r == list@.contains(t),
{
    let mut i: usize = 0;
    while i < list.len()
        invariant
            i <= list@.len(),
            forall|j: int| 0 <= j < i ==> list@[j] != t,
        decreases list@.len() - i,
    {
        if list[i] == t {
            return true;
        }
        i += 1;
    }
    false
}

fn find_common(a: &Vec<TypeId>, b: &Vec<TypeId>) -> (r: Option<TypeId>)
    ensures
        r == first_common(a@, b@),
{
    let mut i: usize = 0;
    assert(a@.skip(0) =~= a@);
    while i < a.len()
        invariant
            i <= a@.len(),
            first_common(a@, b@) == first_common(a@.skip(i as int), b@),
        decreases a@.len() - i,
    {
        if list_contains(b, a[i]) {
            return Some(a[i]);
        }
        assert(a@.skip(i as int).skip(1) =~= a@.skip(i + 1));
        i += 1;
    }
    None
}

fn copy_list(list: &Vec<TypeId>) -> (r: Vec<TypeId>)
    ensures
        r@ == list@,
{
    let mut r: Vec<TypeId> = Vec::new();
    let mut i: usize = 0;
    while i < list.len()
        invariant
            i <= list@.len(),
            r@ == list@.take(i as int),
        decreases list@.len() - i,
    {
        r.push(list[i]);
        assert(list@.take(i + 1) =~= list@.take(i as int).push(list@[i as int]));
        i += 1;
    }
    assert(list@.take(list@.len() as int) =~= list@);
    r
}

impl AccessDescriptor {
    /// The descriptor lists `t` among the component types it reads.
    pub open spec fn reads_component(self, t: TypeId) -> bool {
        self.reads@.contains(t)
    }

    /// The descriptor lists `t` among the component types it writes.
    pub open spec fn writes_component(self, t: TypeId) -> bool {
        self.writes@.contains(t)
    }

    /// The descriptor lists `t` among the resource types it reads.
    pub open spec fn reads_resource(self, t: TypeId) -> bool {
        self.resource_reads@.contains(t)
    }

    /// The descriptor lists `t` among the resource types it writes.
    pub open spec fn writes_resource(self, t: TypeId) -> bool {
        self.resource_writes@.contains(t)
    }

    /// Some type is declared both read and written.
    pub open spec fn is_ambiguous(self) -> bool {
        exists|t: TypeId|
            (self.reads_component(t) && self.writes_component(t)) || (self.reads_resource(t)
                && self.writes_resource(t))
    }

    /// The type that `ambiguity` reports: the first component type in `reads`
    /// that is also written, or failing that the first resource type in
    /// `resource_reads` that is also written.
    pub open spec fn ambiguous_type(self) -> Option<TypeId> {
        match first_common(self.reads@, self.writes@) {
            Some(t) => Some(t),
            None => first_common(self.resource_reads@, self.resource_writes@),
        }
    }

    /// Two descriptors conflict on the component type `t`: one writes it and
    /// the other reads or writes it.
    pub open spec fn component_conflict(self, other: Self, t: TypeId) -> bool {
        ||| self.writes_component(t) && (other.reads_component(t) || other.writes_component(t))
        ||| self.reads_component(t) && other.writes_component(t)
    }

    /// Two descriptors conflict on the resource type `t`.
    pub open spec fn resource_conflict(self, other: Self, t: TypeId) -> bool {
        ||| self.writes_resource(t) && (other.reads_resource(t) || other.writes_resource(t))
        ||| self.reads_resource(t) && other.writes_resource(t)
    }

    /// Two descriptors conflict: on some component or resource type there is
    /// a write-write or a read-write overlap.
    pub open spec fn conflicts(self, other: Self) -> bool {
        exists|t: TypeId| self.component_conflict(other, t) || self.resource_conflict(other, t)
    }

    /// Gathers the four lists into a descriptor.  An ambiguous descriptor is
    /// accepted here and turned away when a system is registered with it.
    pub fn new(
        reads: Vec<TypeId>,
        writes: Vec<TypeId>,
        resource_reads: Vec<TypeId>,
        resource_writes: Vec<TypeId>,
    ) -> (d: Self)
        ensures
            d.reads == reads,
            d.writes == writes,
            d.resource_reads == resource_reads,
            d.resource_writes == resource_writes,
    {
        AccessDescriptor { reads, writes, resource_reads, resource_writes }
    }

    /// A copy with the same four lists.
    pub fn duplicate(&self) -> (d: Self)
        ensures
            d.reads@ == self.reads@,
            d.writes@ == self.writes@,
            d.resource_reads@ == self.resource_reads@,
            d.resource_writes@ == self.resource_writes@,
    {
        AccessDescriptor {
            reads: copy_list(&self.reads),
            writes: copy_list(&self.writes),
            resource_reads: copy_list(&self.resource_reads),
            resource_writes: copy_list(&self.resource_writes),
        }
    }

    /// Whether the component type `t` may be read: it is declared read or
    /// written.
    pub fn may_read(&self, t: TypeId) -> (r: bool)
        ensures
            r == (self.reads_component(t) || self.writes_component(t)),
    {
        list_contains(&self.reads, t) || list_contains(&self.writes, t)
    }

    /// Whether the component type `t` may be written.
    pub fn may_write(&self, t: TypeId) -> (r: bool)
        ensures
            r == self.writes_component(t),
    {
        list_contains(&self.writes, t)
    }

    /// Whether the resource type `t` may be read: it is declared read or
    /// written.
    pub fn may_read_resource(&self, t: TypeId) -> (r: bool)
        ensures
            r == (self.reads_resource(t) || self.writes_resource(t)),
    {
        list_contains(&self.resource_reads, t) || list_contains(&self.resource_writes, t)
    }

    /// Whether the resource type `t` may be written.
    pub fn may_write_resource(&self, t: TypeId) -> (r: bool)
        ensures
            r == self.writes_resource(t),
    {
        list_contains(&self.resource_writes, t)
    }

    /// Reports a type that is declared both read and written, if any.
    pub fn ambiguity(&self) -> (r: Option<TypeId>)
        ensures
            r == self.ambiguous_type(),
            r.is_some() == self.is_ambiguous(),
    {
        let r = match find_common(&self.reads, &self.writes) {
            Some(t) => Some(t),
            None => find_common(&self.resource_reads, &self.resource_writes),
        };
        proof {
            lemma_first_common(self.reads@, self.writes@);
            lemma_first_common(self.resource_reads@, self.resource_writes@);
            if let Some(t) = r {
                assert((self.reads_component(t) && self.writes_component(t)) || (
                self.reads_resource(t) && self.writes_resource(t)));
            }
        }
        r
    }

    /// Whether running a system with this descriptor beside one with `other`
    /// could interfere: see `conflicts`.
    pub fn conflicts_with(&self, other: &AccessDescriptor) -> (r: bool)
        ensures
            r == self.conflicts(*other),
    {
        proof {
            lemma_first_common(self.writes@, other.reads@);
            lemma_first_common(self.writes@, other.writes@);
            lemma_first_common(self.reads@, other.writes@);
            lemma_first_common(self.resource_writes@, other.resource_reads@);
            lemma_first_common(self.resource_writes@, other.resource_writes@);
            lemma_first_common(self.resource_reads@, other.resource_writes@);
        }
        if let Some(t) = find_common(&self.writes, &other.reads) {
            assert(self.component_conflict(*other, t));
            return true;
        }
        if let Some(t) = find_common(&self.writes, &other.writes) {
            assert(self.component_conflict(*other, t));
            return true;
        }
        if let Some(t) = find_common(&self.reads, &other.writes) {
            assert(self.component_conflict(*other, t));
            return true;
        }
        if let Some(t) = find_common(&self.resource_writes, &other.resource_reads) {
            assert(self.resource_conflict(*other, t));
            return true;
        }
        if let Some(t) = find_common(&self.resource_writes, &other.resource_writes) {
            assert(self.resource_conflict(*other, t));
            return true;
        }
        if let Some(t) = find_common(&self.resource_reads, &other.resource_writes) {
            assert(self.resource_conflict(*other, t));
            return true;
        }
        false
    }
}

/// Conflict is symmetric.
pub proof fn lemma_conflict_symmetric(a: AccessDescriptor, b: AccessDescriptor)
    ensures
        a.conflicts(b) == b.conflicts(a),
{
    if a.conflicts(b) {
        let t = choose|t: TypeId| a.component_conflict(b, t) || a.resource_conflict(b, t);
        assert(b.component_conflict(a, t) || b.resource_conflict(a, t));
    }
    if b.conflicts(a) {
        let t = choose|t: TypeId| b.component_conflict(a, t) || b.resource_conflict(a, t);
        assert(a.component_conflict(b, t) || a.resource_conflict(b, t));
    }
}

} // verus!
