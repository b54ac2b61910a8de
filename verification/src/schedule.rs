use vstd::prelude::*;
use crate::access::AccessDescriptor;
use crate::entity::TypeId;
use crate::error::EcsError;
use crate::graph::{
    as_ints, cycle_nodes, has_cycle, is_depth, is_square, is_walk, layer, layering, linked,
    nested_ints,
    Digraph,
};

verus! {

/// One registered system: its name, what it touches, and the names of the
/// systems it must run after.
pub struct SystemEntry {
    pub name: String,
    pub access: AccessDescriptor,
    pub after: Vec<String>,
}

/// Some registered system carries this name.
pub open spec fn knows(s: Seq<SystemEntry>, name: Seq<char>) -> bool {
    exists|i: int| 0 <= i < s.len() && (#[trigger] s[i]).name@ == name
}

/// System `b` is declared to run after system `a`.
pub open spec fn runs_after(s: Seq<SystemEntry>, b: int, a: int) -> bool {
    &&& 0 <= a < s.len()
    &&& 0 <= b < s.len()
    &&& exists|k: int| 0 <= k < s[b].after@.len() && (#[trigger] s[b].after@[k])@ == s[a].name@
}

/// System `a` must finish before system `b` starts: either `b` is declared to
/// run after `a`, or the two conflict, neither is declared to run after the
/// other, and `a` was declared first.
pub open spec fn must_precede(s: Seq<SystemEntry>, a: int, b: int) -> bool {
    &&& 0 <= a < s.len()
    &&& 0 <= b < s.len()
    &&& (runs_after(s, b, a) || (a < b && s[a].access.conflicts(s[b].access) && !runs_after(
        s,
        a,
        b,
    )))
}

/// The precedence relation as an adjacency table.
pub open spec fn edges(s: Seq<SystemEntry>) -> Seq<Seq<bool>> {
    Seq::new(s.len(), |a: int| Seq::new(s.len(), |b: int| must_precede(s, a, b)))
}

/// The `k`-th predecessor name of system `i` names no registered system.
pub open spec fn unknown_at(s: Seq<SystemEntry>, i: int, k: int) -> bool {
    &&& 0 <= i < s.len()
    &&& 0 <= k < s[i].after@.len()
    &&& !knows(s, s[i].after@[k]@)
}

/// Every predecessor name names a registered system.
pub open spec fn all_known(s: Seq<SystemEntry>) -> bool {
    forall|i: int, k: int| !unknown_at(s, i, k)
}

/// `(i, k)` is the first unknown predecessor name: no earlier system has
/// one, and system `i` has none before position `k`.
pub open spec fn is_first_unknown(s: Seq<SystemEntry>, i: int, k: int) -> bool {
    &&& unknown_at(s, i, k)
    &&& forall|i2: int, k2: int| (i2 < i || (i2 == i && k2 < k)) ==> !unknown_at(s, i2, k2)
}

/// No two systems share a name and no system's access is ambiguous.
pub open spec fn well_declared(s: Seq<SystemEntry>) -> bool {
    &&& forall|i: int, j: int| 0 <= i < j < s.len() ==> s[i].name@ != s[j].name@
    &&& forall|i: int| 0 <= i < s.len() ==> !(#[trigger] s[i]).access.is_ambiguous()
}

/// No two systems of one batch conflict.
pub open spec fn conflict_free(s: Seq<SystemEntry>, plan: Seq<Seq<int>>) -> bool {
    forall|k: int, i: int, j: int|
        0 <= k < plan.len() && 0 <= i < j < plan[k].len() && 0 <= plan[k][i] < s.len() && 0
            <= plan[k][j] < s.len() ==> !s[plan[k][i]].access.conflicts(s[plan[k][j]].access)
}

/// Whenever `b` must run after `a`, the batch of `a` comes before the batch
/// of `b`.
pub open spec fn order_respected(s: Seq<SystemEntry>, plan: Seq<Seq<int>>) -> bool {
    forall|a: int, b: int, ka: int, kb: int|
        must_precede(s, a, b) && 0 <= ka < plan.len() && 0 <= kb < plan.len() && plan[ka].contains(
            a,
        ) && plan[kb].contains(b) ==> ka < kb
}

/// Some system declares the component type `t` read or written.
pub open spec fn declares_component(s: Seq<SystemEntry>, t: TypeId) -> bool {
    exists|i: int|
        0 <= i < s.len() && ((#[trigger] s[i]).access.reads_component(t)
            || s[i].access.writes_component(t))
}

/// Some system declares the resource type `t` read or written.
pub open spec fn declares_resource(s: Seq<SystemEntry>, t: TypeId) -> bool {
    exists|i: int|
        0 <= i < s.len() && ((#[trigger] s[i]).access.reads_resource(t)
            || s[i].access.writes_resource(t))
}

/// The component types that the systems declare read or written.
pub open spec fn declared_components(s: Seq<SystemEntry>) -> Set<TypeId> {
    Set::new(|t: TypeId| declares_component(s, t))
}

/// The resource types that the systems declare read or written.
pub open spec fn declared_resources(s: Seq<SystemEntry>) -> Set<TypeId> {
    Set::new(|t: TypeId| declares_resource(s, t))
}

/// The names of the listed systems.
pub open spec fn names_of(s: Seq<SystemEntry>, nodes: Seq<int>) -> Seq<Seq<char>> {
    nodes.map_values(|v: int| s[v].name@)
}

/// The character sequences of a list of strings.
pub open spec fn string_views(l: Seq<String>) -> Seq<Seq<char>> {
    l.map_values(|n: String| n@)
}

/// The order in which a plan runs the systems: batch by batch, ascending
/// within a batch.
pub struct ExecutionPlan {
    batches: Vec<Vec<usize>>,
    systems: usize,
}

impl ExecutionPlan {
    #[verifier::type_invariant]
    spec fn inv(self) -> bool {
        &&& forall|k: int, i: int|
            0 <= k < self.batches@.len() && 0 <= i < self.batches@[k]@.len()
                ==> #[trigger] self.batches@[k]@[i] < self.systems
        &&& nested_ints(self.batches@).flatten().len() == self.systems
        &&& nested_ints(self.batches@).flatten().no_duplicates()
    }

    /// The batches, each a list of system indices.
    pub closed spec fn view(self) -> Seq<Seq<int>> {
        nested_ints(self.batches@)
    }

    /// The number of systems that the plan was compiled for.
    pub closed spec fn system_total(self) -> nat {
        self.systems as nat
    }

    /// Every index in the plan names one of the systems.
    pub open spec fn in_range(self) -> bool {
        forall|k: int, i: int|
            0 <= k < self@.len() && 0 <= i < self@[k].len() ==> 0 <= #[trigger] self@[k][i]
                < self.system_total()
    }

    /// A plan for no systems.
    pub fn empty() -> (p: Self)
        ensures
            p@ == Seq::<Seq<int>>::empty(),
            p.system_total() == 0,
    {
        let p = ExecutionPlan { batches: Vec::new(), systems: 0 };
        assert(p@ =~= Seq::<Seq<int>>::empty());
        assert(nested_ints(p.batches@).flatten() =~= Seq::<int>::empty());
        p
    }

    /// The number of batches.
    pub fn batch_count(&self) -> (n: usize)
        ensures
            n == self@.len(),
            self@.flatten().len() == self.system_total(),
            self@.flatten().no_duplicates(),
    {
        proof {
            use_type_invariant(self);
        }
        self.batches.len()
    }

    /// The number of systems that the plan was compiled for.
    pub fn system_count(&self) -> (n: usize)
        ensures
            n == self.system_total(),
    {
        self.systems
    }

    /// The systems of batch `k`, or nothing when the plan has no such batch.
    pub fn batch(&self, k: usize) -> (r: Option<&Vec<usize>>)
        ensures
            self.in_range(),
            match r {
                Some(b) => k < self@.len() && as_ints(b@) == self@[k as int],
                None => k >= self@.len(),
            },
    {
        proof {
            use_type_invariant(self);
            assert forall|k: int, i: int|
                0 <= k < self@.len() && 0 <= i < self@[k].len() implies 0 <= #[trigger] self@[k][i]
                < self.system_total() by {
                assert(self@[k][i] == self.batches@[k]@[i]);
            }
        }
        if k < self.batches.len() {
            Some(&self.batches[k])
        } else {
            None
        }
    }
}

} // verus!

verus! {

/// The predecessor names of every system resolved to system indices.
spec fn resolved(s: Seq<SystemEntry>, preds: Seq<Vec<usize>>) -> bool {
    &&& preds.len() == s.len()
    &&& forall|i: int| 0 <= i < s.len() ==> (#[trigger] preds[i])@.len() == s[i].after@.len()
    &&& forall|i: int, k: int|
        0 <= i < s.len() && 0 <= k < s[i].after@.len() ==> (#[trigger] preds[i]@[k]) < s.len()
            && s[preds[i]@[k] as int].name@ == s[i].after@[k]@
}

proof fn lemma_resolved_runs_after(s: Seq<SystemEntry>, preds: Seq<Vec<usize>>, b: usize, a: usize)
    requires
        well_declared(s),
        resolved(s, preds),
        a < s.len(),
        b < s.len(),
    ensures
        runs_after(s, b as int, a as int) == preds[b as int]@.contains(a),
{
    let row = preds[b as int]@;
    if runs_after(s, b as int, a as int) {
        let k = choose|k: int|
            0 <= k < s[b as int].after@.len() && (#[trigger] s[b as int].after@[k])@
                == s[a as int].name@;
        let c = row[k];
        assert(s[c as int].name@ == s[a as int].name@);
        assert(c == a);
    }
    if row.contains(a) {
        let k = choose|k: int| 0 <= k < row.len() && row[k] == a;
        assert(s[row[k] as int].name@ == s[b as int].after@[k]@);
    }
}

fn index_listed(list: &Vec<usize>, a: usize) -> (r: bool)
    ensures
        r == list@.contains(a),
{
    let mut i: usize = 0;
    while i < list.len()
        invariant
            i <= list@.len(),
            forall|j: int| 0 <= j < i ==> list@[j] != a,
        decreases list@.len() - i,
    {
        if list[i] == a {
            return true;
        }
        i += 1;
    }
    false
}

proof fn lemma_declares_push(s: Seq<SystemEntry>, e: SystemEntry, t: TypeId)
    ensures
        declares_component(s.push(e), t) <==> declares_component(s, t) || e.access.reads_component(
            t,
        ) || e.access.writes_component(t),
        declares_resource(s.push(e), t) <==> declares_resource(s, t) || e.access.reads_resource(t)
            || e.access.writes_resource(t),
{
    let l = s.push(e);
    if declares_component(s, t) {
        let j = choose|j: int|
            0 <= j < s.len() && ((#[trigger] s[j]).access.reads_component(t)
                || s[j].access.writes_component(t));
        assert(l[j] == s[j]);
    }
    if e.access.reads_component(t) || e.access.writes_component(t) {
        assert(l[s.len() as int] == e);
    }
    if declares_component(l, t) {
        let j = choose|j: int|
            0 <= j < l.len() && ((#[trigger] l[j]).access.reads_component(t)
                || l[j].access.writes_component(t));
        if j < s.len() {
            assert(s[j] == l[j]);
        }
    }
    if declares_resource(s, t) {
        let j = choose|j: int|
            0 <= j < s.len() && ((#[trigger] s[j]).access.reads_resource(t)
                || s[j].access.writes_resource(t));
        assert(l[j] == s[j]);
    }
    if e.access.reads_resource(t) || e.access.writes_resource(t) {
        assert(l[s.len() as int] == e);
    }
    if declares_resource(l, t) {
        let j = choose|j: int|
            0 <= j < l.len() && ((#[trigger] l[j]).access.reads_resource(t)
                || l[j].access.writes_resource(t));
        if j < s.len() {
            assert(s[j] == l[j]);
        }
    }
}

fn append_types(list: &mut Vec<TypeId>, more: &Vec<TypeId>)
    ensures
        final(list)@.to_set() == old(list)@.to_set().union(more@.to_set()),
{
    let mut i: usize = 0;
    assert(more@.take(0).to_set() =~= Set::<TypeId>::empty());
    assert(list@.to_set() =~= old(list)@.to_set().union(more@.take(0).to_set()));
    while i < more.len()
        invariant
            i <= more@.len(),
            list@.to_set() == old(list)@.to_set().union(more@.take(i as int).to_set()),
        decreases more@.len() - i,
    {
        let ghost before = list@;
        list.push(more[i]);
        proof {
            let x = more@[i as int];
            assert(more@.take(i + 1) =~= more@.take(i as int).push(x));
            before.lemma_push_to_set_commute(x);
            more@.take(i as int).lemma_push_to_set_commute(x);
            assert(list@.to_set() =~= old(list)@.to_set().union(more@.take(i + 1).to_set()));
        }
        i += 1;
    }
    assert(more@.take(more@.len() as int) =~= more@);
}

/// The systems to schedule, in declaration order.
pub struct DependencyGraph {
    entries: Vec<SystemEntry>,
}

impl DependencyGraph {
    #[verifier::type_invariant]
    spec fn inv(self) -> bool {
        well_declared(self.entries@)
    }

    /// The registered systems, in declaration order.
    pub closed spec fn view(self) -> Seq<SystemEntry> {
        self.entries@
    }

    /// A graph without systems.
    pub fn new() -> (g: Self)
        ensures
            g@.len() == 0,
    {
        DependencyGraph { entries: Vec::new() }
    }

    /// The number of registered systems.
    pub fn len(&self) -> (n: usize)
        ensures
            n == self@.len(),
            well_declared(self@),
    {
        proof {
            use_type_invariant(self);
        }
        self.entries.len()
    }

    /// The entry of system `i`, or nothing when there is no such system.
    pub fn entry(&self, i: usize) -> (r: Option<&SystemEntry>)
        ensures
            match r {
                Some(e) => i < self@.len() && *e == self@[i as int],
                None => i >= self@.len(),
            },
    {
        if i < self.entries.len() {
            Some(&self.entries[i])
        } else {
            None
        }
    }

    /// The component types and the resource types that the systems declare,
    /// each list in order of mention and possibly with repetitions.
    pub fn declared_types(&self) -> (r: (Vec<TypeId>, Vec<TypeId>))
        ensures
            r.0@.to_set() == declared_components(self@),
            r.1@.to_set() == declared_resources(self@),
    {
        let mut components: Vec<TypeId> = Vec::new();
        let mut resources: Vec<TypeId> = Vec::new();
        let mut i: usize = 0;
        assert(components@.to_set() =~= declared_components(self@.take(0)));
        assert(resources@.to_set() =~= declared_resources(self@.take(0)));
        while i < self.entries.len()
            invariant
                i <= self.entries@.len(),
                components@.to_set() == declared_components(self@.take(i as int)),
                resources@.to_set() == declared_resources(self@.take(i as int)),
            decreases self.entries@.len() - i,
        {
            let access = &self.entries[i].access;
            let ghost c0 = components@;
            let ghost r0 = resources@;
            append_types(&mut components, &access.reads);
            append_types(&mut components, &access.writes);
            append_types(&mut resources, &access.resource_reads);
            append_types(&mut resources, &access.resource_writes);
            proof {
                let shorter = self@.take(i as int);
                let longer = self@.take(i + 1);
                assert(longer =~= shorter.push(self@[i as int]));
                assert forall|t: TypeId| #![auto]
                    components@.to_set().contains(t) == declared_components(longer).contains(
                        t,
                    ) by {
                    lemma_declares_push(shorter, self@[i as int], t);
                    assert(c0.to_set().contains(t) == declares_component(shorter, t));
                }
                assert(components@.to_set() =~= declared_components(longer));
                assert forall|t: TypeId| #![auto]
                    resources@.to_set().contains(t) == declared_resources(longer).contains(t) by {
                    lemma_declares_push(shorter, self@[i as int], t);
                    assert(r0.to_set().contains(t) == declares_resource(shorter, t));
                }
                assert(resources@.to_set() =~= declared_resources(longer));
            }
            i += 1;
        }
        assert(self@.take(self@.len() as int) =~= self@);
        (components, resources)
    }

    /// The index of the system called `name`.
    pub fn find(&self, name: &String) -> (r: Option<usize>)
        ensures
            match r {
                Some(i) => i < self@.len() && self@[i as int].name@ == name@,
                None => !knows(self@, name@),
            },
    {
        let mut i: usize = 0;
        while i < self.entries.len()
            invariant
                i <= self.entries@.len(),
                forall|j: int| 0 <= j < i ==> (#[trigger] self.entries@[j]).name@ != name@,
            decreases self.entries@.len() - i,
        {
            if self.entries[i].name == *name {
                return Some(i);
            }
            i += 1;
        }
        None
    }

    /// Registers a system under `name`, to run after the systems named in
    /// `after`; those may be registered later.  Returns the system's index.
    ///
    /// An ambiguous access descriptor is refused, and so is a name that is
    /// taken; the graph is then unchanged.
    pub fn add_system(&mut self, name: String, access: AccessDescriptor, after: Vec<String>) -> (r:
        Result<usize, EcsError>)
        ensures
            well_declared(final(self)@),
            match r {
                Ok(i) => {
                    &&& !access.is_ambiguous()
                    &&& !knows(old(self)@, name@)
                    &&& i == old(self)@.len()
                    &&& final(self)@ == old(self)@.push(SystemEntry { name, access, after })
                },
                Err(EcsError::AmbiguousAccess { system, type_id }) => {
                    &&& access.is_ambiguous()
                    &&& system@ == name@
                    &&& access.ambiguous_type() == Some(type_id)
                    &&& final(self)@ == old(self)@
                },
                Err(EcsError::DuplicateSystem { system }) => {
                    &&& !access.is_ambiguous()
                    &&& knows(old(self)@, name@)
                    &&& system@ == name@
                    &&& final(self)@ == old(self)@
                },
                Err(_) => false,
            },
    {
        proof {
            use_type_invariant(&*self);
        }
        if let Some(type_id) = access.ambiguity() {
            return Err(EcsError::AmbiguousAccess { system: name, type_id });
        }
        if self.find(&name).is_some() {
            return Err(EcsError::DuplicateSystem { system: name });
        }
        let i = self.entries.len();
        let mut entries: Vec<SystemEntry> = Vec::new();
        core::mem::swap(&mut entries, &mut self.entries);
        entries.push(SystemEntry { name, access, after });
        self.entries = entries;
        Ok(i)
    }

    fn resolve(&self) -> (r: Result<Vec<Vec<usize>>, EcsError>)
        ensures
            match r {
                Ok(preds) => all_known(self@) && resolved(self@, preds@),
                Err(EcsError::UnknownSystem { system, dependency }) => exists|i: int, k: int|
                    is_first_unknown(self@, i, k) && system@ == self@[i].name@ && dependency@
                        == self@[i].after@[k]@,
                Err(_) => false,
            },
    {
        let ghost s = self@;
        let n = self.entries.len();
        let mut preds: Vec<Vec<usize>> = Vec::new();
        let mut i: usize = 0;
        while i < n
            invariant
                s == self@,
                n == s.len(),
                i <= n,
                preds@.len() == i,
                forall|i2: int, k2: int| i2 < i ==> !unknown_at(s, i2, k2),
                forall|j: int| 0 <= j < i ==> (#[trigger] preds@[j])@.len() == s[j].after@.len(),
                forall|j: int, k: int|
                    0 <= j < i && 0 <= k < s[j].after@.len() ==> (#[trigger] preds@[j]@[k]) < n
                        && s[preds@[j]@[k] as int].name@ == s[j].after@[k]@,
            decreases n - i,
        {
            let entry = &self.entries[i];
            let mut row: Vec<usize> = Vec::new();
            let mut k: usize = 0;
            while k < entry.after.len()
                invariant
                    s == self@,
                    n == s.len(),
                    i < n,
                    *entry == s[i as int],
                    k <= entry.after@.len(),
                    row@.len() == k,
                    forall|i2: int, k2: int| i2 < i ==> !unknown_at(s, i2, k2),
                    forall|k2: int| k2 < k ==> !unknown_at(s, i as int, k2),
                    forall|j: int|
                        0 <= j < k ==> (#[trigger] row@[j]) < n && s[row@[j] as int].name@
                            == s[i as int].after@[j]@,
                decreases entry.after@.len() - k,
            {
                match self.find(&entry.after[k]) {
                    Some(a) => {
                        assert(knows(s, s[i as int].after@[k as int]@));
                        row.push(a);
                    },
                    None => {
                        assert(is_first_unknown(s, i as int, k as int));
                        return Err(
                            EcsError::UnknownSystem {
                                system: entry.name.clone(),
                                dependency: entry.after[k].clone(),
                            },
                        );
                    },
                }
                k += 1;
            }
            preds.push(row);
            i += 1;
        }
        Ok(preds)
    }

    fn precedes(&self, preds: &Vec<Vec<usize>>, a: usize, b: usize) -> (r: bool)
        requires
            resolved(self@, preds@),
            a < self@.len(),
            b < self@.len(),
        ensures
            r == must_precede(self@, a as int, b as int),
    {
        proof {
            use_type_invariant(self);
            lemma_resolved_runs_after(self@, preds@, b, a);
            lemma_resolved_runs_after(self@, preds@, a, b);
        }
        index_listed(&preds[b], a) || (a < b && self.entries[a].access.conflicts_with(
            &self.entries[b].access,
        ) && !index_listed(&preds[a], b))
    }

    fn adjacency(&self, preds: &Vec<Vec<usize>>) -> (g: Digraph)
        requires
            resolved(self@, preds@),
        ensures
            g@ == edges(self@),
    {
        let ghost s = self@;
        let n = self.entries.len();
        let mut g = Digraph::new(n);
        let mut a: usize = 0;
        while a < n
            invariant
                s == self@,
                n == s.len(),
                resolved(s, preds@),
                a <= n,
                g@.len() == n,
                is_square(g@),
                forall|x: int, y: int|
                    0 <= x < n && 0 <= y < n ==> #[trigger] linked(g@, x, y) == (x < a
                        && must_precede(s, x, y)),
            decreases n - a,
        {
            let mut b: usize = 0;
            while b < n
                invariant
                    s == self@,
                    n == s.len(),
                    resolved(s, preds@),
                    a < n,
                    b <= n,
                    g@.len() == n,
                    is_square(g@),
                    forall|x: int, y: int|
                        0 <= x < n && 0 <= y < n ==> #[trigger] linked(g@, x, y) == ((x < a || (x
                            == a && y < b)) && must_precede(s, x, y)),
                decreases n - b,
            {
                let ghost before = g@;
                if self.precedes(preds, a, b) {
                    g.link(a, b);
                }
                assert forall|x: int, y: int| 0 <= x < n && 0 <= y < n implies #[trigger] linked(
                    g@,
                    x,
                    y,
                ) == ((x < a || (x == a && y < b + 1)) && must_precede(s, x, y)) by {
                    assert(linked(before, x, y) == ((x < a || (x == a && y < b)) && must_precede(
                        s,
                        x,
                        y,
                    )));
                }
                b += 1;
            }
            a += 1;
        }
        assert forall|x: int, y: int| 0 <= x < n && 0 <= y < n implies g@[x][y] == edges(
            s,
        )[x][y] by {
            assert(linked(g@, x, y) == must_precede(s, x, y));
        }
        assert(g@ =~~= edges(s));
        g
    }

    fn names(&self, nodes: &Vec<usize>) -> (r: Vec<String>)
        requires
            forall|i: int| 0 <= i < nodes@.len() ==> (#[trigger] nodes@[i]) < self@.len(),
        ensures
            string_views(r@) == names_of(self@, as_ints(nodes@)),
    {
        let mut r: Vec<String> = Vec::new();
        let mut i: usize = 0;
        while i < nodes.len()
            invariant
                i <= nodes@.len(),
                r@.len() == i,
                forall|j: int| 0 <= j < nodes@.len() ==> (#[trigger] nodes@[j]) < self@.len(),
                forall|j: int| 0 <= j < i ==> (#[trigger] r@[j])@ == self@[nodes@[j] as int].name@,
            decreases nodes@.len() - i,
        {
            r.push(self.entries[nodes[i]].name.clone());
            i += 1;
        }
        assert(string_views(r@) =~= names_of(self@, as_ints(nodes@)));
        r
    }

    /// Compiles the execution plan.
    ///
    /// System `a` precedes system `b` when `b` is declared to run after `a`,
    /// or when the two conflict, neither is declared to run after the other,
    /// and `a` was declared first.  Batch `k` of the plan holds, in
    /// declaration order, the systems whose predecessors all lie in earlier
    /// batches and which are in none of those themselves.
    ///
    /// Fails with `UnknownSystem` for the first predecessor name that no
    /// system carries, and otherwise with `CyclicDependency`, naming the
    /// systems on a cycle, exactly when the precedence relation has a cycle.
    pub fn build(&self) -> (r: Result<ExecutionPlan, EcsError>)
        ensures
            r.is_ok() == (all_known(self@) && !has_cycle(edges(self@))),
            match r {
                Ok(plan) => {
                    &&& all_known(self@)
                    &&& !has_cycle(edges(self@))
                    &&& is_depth(edges(self@), plan@.len())
                    &&& plan@ == layering(edges(self@), plan@.len())
                    &&& plan@.len() <= self@.len()
                    &&& plan.system_total() == self@.len()
                    &&& conflict_free(self@, plan@)
                    &&& order_respected(self@, plan@)
                },
                Err(EcsError::UnknownSystem { system, dependency }) => exists|i: int, k: int|
                    is_first_unknown(self@, i, k) && system@ == self@[i].name@ && dependency@
                        == self@[i].after@[k]@,
                Err(EcsError::CyclicDependency { systems }) => {
                    &&& all_known(self@)
                    &&& has_cycle(edges(self@))
                    &&& string_views(systems@) == names_of(self@, cycle_nodes(edges(self@)))
                },
                Err(_) => false,
            },
    {
        let preds = match self.resolve() {
            Ok(preds) => preds,
            Err(e) => {
                return Err(e);
            },
        };
        let g = self.adjacency(&preds);
        match g.layers() {
            Some(batches) => {
                proof {
                    use_type_invariant(self);
                    lemma_plan_sound(self@, batches@.len() as nat);
                    crate::graph::lemma_layering_distinct(edges(self@), batches@.len() as nat);
                    lemma_layering_in_range(edges(self@), batches@.len() as nat);
                    assert forall|k: int, i: int|
                        0 <= k < batches@.len() && 0 <= i < batches@[k]@.len()
                            implies #[trigger] batches@[k]@[i] < self.entries@.len() by {
                        assert(nested_ints(batches@)[k][i] == batches@[k]@[i]);
                    }
                }
                Ok(ExecutionPlan { batches, systems: self.entries.len() })
            },
            None => {
                let members = g.cycle_members();
                let systems = self.names(&members);
                Err(EcsError::CyclicDependency { systems })
            },
        }
    }
}

/// Two systems that conflict are ordered one way or the other.
pub proof fn lemma_conflict_is_ordered(s: Seq<SystemEntry>, a: int, b: int)
    requires
        0 <= a < s.len(),
        0 <= b < s.len(),
        a != b,
        s[a].access.conflicts(s[b].access),
    ensures
        must_precede(s, a, b) || must_precede(s, b, a),
{
    crate::access::lemma_conflict_symmetric(s[a].access, s[b].access);
}

/// Every index in the first `d` layers names a node.
proof fn lemma_layering_in_range(adj: Seq<Seq<bool>>, d: nat)
    ensures
        forall|k: int, i: int|
            0 <= k < d && 0 <= i < layering(adj, d)[k].len() ==> 0 <= #[trigger] layering(
                adj,
                d,
            )[k][i] < adj.len(),
{
    assert forall|k: int, i: int| 0 <= k < d && 0 <= i < layering(adj, d)[k].len() implies 0
        <= #[trigger] layering(adj, d)[k][i] < adj.len() by {
        let l = layer(adj, k as nat);
        assert(l.contains(l[i]));
        crate::graph::lemma_layer_member(adj, k as nat, l[i]);
        crate::graph::lemma_placed_grows(adj, (k + 1) as nat);
    }
}

/// The layering of the precedence relation is a sound plan: no batch holds
/// two conflicting systems, and precedence follows the batch order.
pub proof fn lemma_plan_sound(s: Seq<SystemEntry>, d: nat)
    ensures
        conflict_free(s, layering(edges(s), d)),
        order_respected(s, layering(edges(s), d)),
{
    let adj = edges(s);
    let plan = layering(adj, d);
    assert forall|a: int, b: int, ka: int, kb: int|
        must_precede(s, a, b) && 0 <= ka < plan.len() && 0 <= kb < plan.len() && plan[ka].contains(
            a,
        ) && plan[kb].contains(b) implies ka < kb by {
        assert(linked(adj, a, b));
        crate::graph::lemma_edge_crosses_layers(adj, a, b, ka as nat, kb as nat);
    }
    assert forall|k: int, i: int, j: int|
        0 <= k < plan.len() && 0 <= i < j < plan[k].len() && 0 <= plan[k][i] < s.len() && 0
            <= plan[k][j] < s.len() implies !s[plan[k][i]].access.conflicts(
        s[plan[k][j]].access,
    ) by {
        let x = plan[k][i];
        let y = plan[k][j];
        crate::graph::lemma_layer_ascending(adj, k as nat);
        assert(x < y);
        assert(plan[k].contains(x) && plan[k].contains(y));
        if s[x].access.conflicts(s[y].access) {
            lemma_conflict_is_ordered(s, x, y);
            if must_precede(s, x, y) {
                assert(linked(adj, x, y));
                crate::graph::lemma_edge_crosses_layers(adj, x, y, k as nat, k as nat);
            } else {
                assert(linked(adj, y, x));
                crate::graph::lemma_edge_crosses_layers(adj, y, x, k as nat, k as nat);
            }
        }
    }
}

/// Two systems whose write sets overlap on `t`, and of which neither is
/// declared to run after the other, land in different batches, the one
/// declared first in the earlier batch.
pub proof fn lemma_overlapping_writers_ordered(
    s: Seq<SystemEntry>,
    d: nat,
    a: int,
    b: int,
    t: TypeId,
)
    requires
        is_depth(edges(s), d),
        0 <= a < b < s.len(),
        (s[a].access.writes_component(t) && s[b].access.writes_component(t)) || (
        s[a].access.writes_resource(t) && s[b].access.writes_resource(t)),
        !runs_after(s, a, b),
        !runs_after(s, b, a),
    ensures
        exists|ka: int, kb: int|
            0 <= ka < kb < d && layering(edges(s), d)[ka].contains(a) && layering(
                edges(s),
                d,
            )[kb].contains(b),
{
    let adj = edges(s);
    assert(s[a].access.component_conflict(s[b].access, t) || s[a].access.resource_conflict(
        s[b].access,
        t,
    ));
    assert(must_precede(s, a, b));
    assert(linked(adj, a, b));
    crate::graph::lemma_layers_partition(adj, d, a);
    crate::graph::lemma_layers_partition(adj, d, b);
    let ka = choose|k: nat| k < d && #[trigger] layer(adj, k).contains(a);
    let kb = choose|k: nat| k < d && #[trigger] layer(adj, k).contains(b);
    crate::graph::lemma_edge_crosses_layers(adj, a, b, ka, kb);
    assert(layering(adj, d)[ka as int].contains(a));
    assert(layering(adj, d)[kb as int].contains(b));
}

/// Two systems that are each declared to run after the other lie on a
/// cycle, so both are among the systems that a cyclic-dependency failure
/// names.
pub proof fn lemma_mutual_order_is_cycle(s: Seq<SystemEntry>, a: int, b: int)
    requires
        runs_after(s, a, b),
        runs_after(s, b, a),
    ensures
        has_cycle(edges(s)),
        cycle_nodes(edges(s)).contains(a),
        cycle_nodes(edges(s)).contains(b),
        names_of(s, cycle_nodes(edges(s))).contains(s[a].name@),
        names_of(s, cycle_nodes(edges(s))).contains(s[b].name@),
{
    let adj = edges(s);
    assert(linked(adj, a, b));
    assert(linked(adj, b, a));
    let p = seq![a, b, a];
    assert(is_walk(adj, p) && p.first() == a && p.last() == a);
    let q = seq![b, a, b];
    assert(is_walk(adj, q) && q.first() == b && q.last() == b);
    crate::graph::lemma_cycle_nodes_member(adj, a);
    crate::graph::lemma_cycle_nodes_member(adj, b);
    let nodes = cycle_nodes(adj);
    let i = choose|i: int| 0 <= i < nodes.len() && nodes[i] == a;
    assert(names_of(s, nodes)[i] == s[a].name@);
    let j = choose|j: int| 0 <= j < nodes.len() && nodes[j] == b;
    assert(names_of(s, nodes)[j] == s[b].name@);
}

} // verus!
