//! Read/write declarations over integer identifiers, and the rule that decides
//! whether two declarations may be live at the same time.

use vstd::prelude::*;

verus! {

/// The mathematical content of an [`Access`].
#[verifier::ext_equal]
pub struct AccessModel {
    pub reads_all: bool,
    pub writes_all: bool,
    pub reads: Set<usize>,
    pub writes: Set<usize>,
}

impl AccessModel {
    /// Writing an identifier implies reading it, and writing everything implies
    /// reading everything.
    pub open spec fn valid(self) -> bool {
        &&& self.writes.subset_of(self.reads)
        &&& (self.writes_all ==> self.reads_all)
    }

    pub open spec fn has_marker(self) -> bool {
        self.reads_all || self.writes_all
    }

    /// Nothing at all is declared.
    pub open spec fn is_empty(self) -> bool {
        &&& !self.reads_all
        &&& !self.writes_all
        &&& self.reads.is_empty()
        &&& self.writes.is_empty()
    }

    pub open spec fn grants_read(self, id: usize) -> bool {
        self.reads_all || self.reads.contains(id)
    }

    pub open spec fn grants_write(self, id: usize) -> bool {
        self.writes_all || self.writes.contains(id)
    }

    /// Identifiers written by one side and read (or written) by the other.
    pub open spec fn conflicts(self, other: AccessModel) -> Set<usize> {
        self.writes.intersect(other.reads).union(other.writes.intersect(self.reads))
    }

    /// A whole-store marker is compatible only with an empty declaration;
    /// otherwise two declarations are compatible when neither writes what the
    /// other reads.
    pub open spec fn compatible(self, other: AccessModel) -> bool {
        if self.has_marker() || other.has_marker() {
            self.is_empty() || other.is_empty()
        } else {
            self.conflicts(other).is_empty()
        }
    }

    /// A whole-store marker meets a non-empty declaration.
    pub open spec fn conflicts_everything(self, other: AccessModel) -> bool {
        &&& self.has_marker() || other.has_marker()
        &&& !self.is_empty()
        &&& !other.is_empty()
    }

    pub open spec fn union(self, other: AccessModel) -> AccessModel {
        AccessModel {
            reads_all: self.reads_all || other.reads_all,
            writes_all: self.writes_all || other.writes_all,
            reads: self.reads.union(other.reads),
            writes: self.writes.union(other.writes),
        }
    }

    pub open spec fn empty() -> AccessModel {
        AccessModel {
            reads_all: false,
            writes_all: false,
            reads: Set::empty(),
            writes: Set::empty(),
        }
    }
}

impl AccessModel {
    /// Everything `self` declares, `other` declares too.
    pub open spec fn within(self, other: AccessModel) -> bool {
        &&& self.reads.subset_of(other.reads)
        &&& self.writes.subset_of(other.writes)
        &&& (self.reads_all ==> other.reads_all)
        &&& (self.writes_all ==> other.writes_all)
    }
}

/// A system that has declared nothing accepts any declaration.
pub proof fn lemma_empty_accepts_all(x: AccessModel)
    ensures
        AccessModel::empty().compatible(x),
        AccessModel::empty().union(x) == x,
{
    assert(AccessModel::empty().conflicts(x) =~= Set::empty());
    assert(AccessModel::empty().union(x) =~= x);
}

/// Compatible declarations never race: no identifier is written under one
/// and read or written under the other.
pub proof fn lemma_compatible_race_free(a: AccessModel, b: AccessModel, id: usize)
    requires
        a.valid(),
        b.valid(),
        a.compatible(b),
    ensures
        !(a.grants_write(id) && b.grants_read(id)),
        !(b.grants_write(id) && a.grants_read(id)),
{
    if !a.has_marker() && !b.has_marker() {
        if a.grants_write(id) && b.grants_read(id) {
            assert(a.conflicts(b).contains(id));
        }
        if b.grants_write(id) && a.grants_read(id) {
            assert(a.conflicts(b).contains(id));
        }
    }
}

/// Two parameters of one system never race: when `b` was accepted against
/// the accumulated declaration `system`, which holds everything `a`
/// declared, no identifier is written under one of them and read or written
/// under the other.
pub proof fn lemma_registered_pair_race_free(system: AccessModel, a: AccessModel, b: AccessModel, id: usize)
    requires
        a.valid(),
        b.valid(),
        system.valid(),
        a.within(system),
        system.compatible(b),
    ensures
        !(a.grants_write(id) && b.grants_read(id)),
        !(b.grants_write(id) && a.grants_read(id)),
{
    lemma_compatible_race_free(system, b, id);
}

/// What is compatible with a declaration is compatible with each part of it.
pub proof fn lemma_within_compatible(part: AccessModel, whole: AccessModel, x: AccessModel)
    requires
        part.within(whole),
        whole.compatible(x),
    ensures
        part.compatible(x),
{
    if whole.has_marker() || x.has_marker() {
        if whole.is_empty() {
            assert(part.reads =~= Set::empty());
            assert(part.writes =~= Set::empty());
        }
        if x.is_empty() {
            assert(part.conflicts(x) =~= Set::empty());
        }
    } else {
        assert(part.conflicts(x).subset_of(whole.conflicts(x)));
        assert(part.conflicts(x) =~= Set::empty());
    }
}

/// The overlap between two declarations.
#[derive(Debug)]
pub enum AccessConflicts {
    /// A whole-store marker meets a non-empty declaration.
    All,
    /// The identifiers written by one side and read by the other.
    Individual(Vec<usize>),
}

impl AccessConflicts {
    pub open spec fn is_conflict(&self) -> bool {
        match self {
            AccessConflicts::All => true,
            AccessConflicts::Individual(ids) => ids.len() > 0,
        }
    }

    /// True when there is no overlap at all.
    pub fn is_empty(&self) -> (r: bool)
        ensures
            r == !self.is_conflict(),
    {
        match self {
            AccessConflicts::All => false,
            AccessConflicts::Individual(ids) => ids.len() == 0,
        }
    }
}

/// What a parameter reads and writes, over identifiers of one kind (component
/// identifiers, or storage-location identifiers).
#[derive(Debug)]
pub struct Access {
    reads_all: bool,
    writes_all: bool,
    reads_and_writes: Vec<usize>,
    writes: Vec<usize>,
}

impl View for Access {
    type V = AccessModel;

    closed spec fn view(&self) -> AccessModel {
        AccessModel {
            reads_all: self.reads_all || self.writes_all,
            writes_all: self.writes_all,
            reads: Set::new(|id: usize| self.reads_and_writes@.contains(id) || self.writes@.contains(id)),
            writes: Set::new(|id: usize| self.writes@.contains(id)),
        }
    }
}

pub(crate) fn vec_contains(v: &Vec<usize>, id: usize) -> (r: bool)
    ensures
        r == v@.contains(id),
{
    let mut i: usize = 0;
    while i < v.len()
        invariant
            i <= v.len(),
            forall|j: int| 0 <= j < i ==> v@[j] != id,
        decreases v.len() - i,
    {
        if v[i] == id {
            return true;
        }
        i = i + 1;
    }
    false
}

pub(crate) fn push_unique(v: &mut Vec<usize>, id: usize)
    ensures
        forall|x: usize| #[trigger] final(v)@.contains(x) <==> (old(v)@.contains(x) || x == id),
{
    if !vec_contains(v, id) {
        v.push(id);
    }
    proof {
        assert forall|x: usize| final(v)@.contains(x) <==> (old(v)@.contains(x) || x == id) by {
            if old(v)@.contains(x) {
                let j = choose|j: int| 0 <= j < old(v)@.len() && old(v)@[j] == x;
                assert(final(v)@[j] == x);
            }
            if x == id && !old(v)@.contains(x) {
                assert(final(v)@[old(v)@.len() as int] == x);
            }
        }
    }
}

fn push_all_unique(v: &mut Vec<usize>, src: &Vec<usize>)
    ensures
        forall|x: usize| #[trigger] final(v)@.contains(x) <==> (old(v)@.contains(x) || src@.contains(x)),
{
    let mut i: usize = 0;
    while i < src.len()
        invariant
            i <= src.len(),
            forall|x: usize| v@.contains(x) <==> (old(v)@.contains(x) || src@.take(i as int).contains(x)),
        decreases src.len() - i,
    {
        push_unique(v, src[i]);
        proof {
            assert forall|x: usize| src@.take(i + 1).contains(x) <==> (src@.take(i as int).contains(x) || x == src@[i as int]) by {
                let t = src@.take(i as int);
                if t.contains(x) {
                    let j = choose|j: int| 0 <= j < t.len() && t[j] == x;
                    assert(src@.take(i + 1)[j] == x);
                }
                if x == src@[i as int] {
                    assert(src@.take(i + 1)[i as int] == x);
                }
            }
        }
        i = i + 1;
    }
    assert(src@.take(i as int) =~= src@);
}

/// Adds to `out` each element of `src` that `filter` grants a read of.
fn push_read_by(out: &mut Vec<usize>, src: &Vec<usize>, filter: &Access)
    ensures
        forall|x: usize| #[trigger] final(out)@.contains(x) <==> (old(out)@.contains(x) || (src@.contains(x) && filter@.grants_read(x))),
{
    let mut i: usize = 0;
    while i < src.len()
        invariant
            i <= src.len(),
            forall|x: usize| #[trigger] out@.contains(x) <==> (old(out)@.contains(x) || (src@.take(i as int).contains(x) && filter@.grants_read(x))),
        decreases src.len() - i,
    {
        let id = src[i];
        let ghost prev = out@;
        if filter.has_read(id) {
            push_unique(out, id);
        }
        proof {
            assert forall|x: usize| #[trigger] out@.contains(x) <==> (old(out)@.contains(x) || (src@.take(i + 1).contains(x) && filter@.grants_read(x))) by {
                let t = src@.take(i as int);
                assert(prev.contains(x) <==> (old(out)@.contains(x) || (t.contains(x) && filter@.grants_read(x))));
                if t.contains(x) {
                    let j = choose|j: int| 0 <= j < t.len() && t[j] == x;
                    assert(src@.take(i + 1)[j] == x);
                }
                if x == src@[i as int] {
                    assert(src@.take(i + 1)[i as int] == x);
                }
                if src@.take(i + 1).contains(x) {
                    let j = choose|j: int| 0 <= j < i + 1 && #[trigger] src@.take(i + 1)[j] == x;
                    if j < i {
                        assert(t[j] == x);
                    }
                }
            }
        }
        i = i + 1;
    }
    assert(src@.take(i as int) =~= src@);
}

impl Access {
    pub proof fn lemma_valid(&self)
        ensures
            self@.valid(),
    {
    }

    /// An access that declares nothing.
    pub fn new() -> (r: Access)
        ensures
            r@ == AccessModel::empty(),
    {
        let r = Access { reads_all: false, writes_all: false, reads_and_writes: Vec::new(), writes: Vec::new() };
        assert(r@ =~= AccessModel::empty());
        r
    }

    /// A second access with the same declaration.
    pub fn duplicate(&self) -> (r: Access)
        ensures
            r@ == self@,
    {
        let mut r = Access::new();
        r.extend(self);
        assert(r@ =~= self@);
        r
    }

    /// Declares a read of `id`.
    pub fn add_read(&mut self, id: usize)
        ensures
            final(self)@ == (AccessModel { reads: old(self)@.reads.insert(id), ..old(self)@ }),
    {
        push_unique(&mut self.reads_and_writes, id);
        assert(final(self)@ =~= (AccessModel { reads: old(self)@.reads.insert(id), ..old(self)@ }));
    }

    /// Declares a write of `id`, which is also a read of it.
    pub fn add_write(&mut self, id: usize)
        ensures
            final(self)@ == (AccessModel {
                reads: old(self)@.reads.insert(id),
                writes: old(self)@.writes.insert(id),
                ..old(self)@
            }),
    {
        push_unique(&mut self.reads_and_writes, id);
        push_unique(&mut self.writes, id);
        assert(final(self)@ =~= (AccessModel {
            reads: old(self)@.reads.insert(id),
            writes: old(self)@.writes.insert(id),
            ..old(self)@
        }));
    }

    /// Declares a read of everything.
    pub fn read_all(&mut self)
        ensures
            final(self)@ == (AccessModel { reads_all: true, ..old(self)@ }),
    {
        self.reads_all = true;
        assert(final(self)@ =~= (AccessModel { reads_all: true, ..old(self)@ }));
    }

    /// Declares a write of everything, which is also a read of everything.
    pub fn write_all(&mut self)
        ensures
            final(self)@ == (AccessModel { reads_all: true, writes_all: true, ..old(self)@ }),
    {
        self.reads_all = true;
        self.writes_all = true;
        assert(final(self)@ =~= (AccessModel { reads_all: true, writes_all: true, ..old(self)@ }));
    }

    pub fn has_read(&self, id: usize) -> (r: bool)
        ensures
            r == self@.grants_read(id),
    {
        self.reads_all || self.writes_all || vec_contains(&self.reads_and_writes, id) || vec_contains(&self.writes, id)
    }

    pub fn has_write(&self, id: usize) -> (r: bool)
        ensures
            r == self@.grants_write(id),
    {
        self.writes_all || vec_contains(&self.writes, id)
    }

    pub fn has_read_all(&self) -> (r: bool)
        ensures
            r == self@.reads_all,
    {
        self.reads_all || self.writes_all
    }

    pub fn has_write_all(&self) -> (r: bool)
        ensures
            r == self@.writes_all,
    {
        self.writes_all
    }

    /// True when nothing is declared.
    pub fn is_empty(&self) -> (r: bool)
        ensures
            r == self@.is_empty(),
    {
        let r = !self.reads_all && !self.writes_all && self.reads_and_writes.len() == 0 && self.writes.len() == 0;
        proof {
            if !r {
                if self.reads_and_writes.len() > 0 {
                    assert(self@.reads.contains(self.reads_and_writes@[0]));
                }
                if self.writes.len() > 0 {
                    assert(self@.writes.contains(self.writes@[0]));
                }
            } else {
                assert(self@.reads =~= Set::empty());
                assert(self@.writes =~= Set::empty());
            }
        }
        r
    }

    /// Adds to `self` everything that `other` declares.
    pub fn extend(&mut self, other: &Access)
        ensures
            final(self)@ == old(self)@.union(other@),
    {
        self.reads_all = self.reads_all || other.reads_all;
        self.writes_all = self.writes_all || other.writes_all;
        push_all_unique(&mut self.reads_and_writes, &other.reads_and_writes);
        push_all_unique(&mut self.writes, &other.writes);
        assert(self@.reads =~= old(self)@.reads.union(other@.reads));
        assert(self@.writes =~= old(self)@.writes.union(other@.writes));
        assert(self@ =~= old(self)@.union(other@));
    }

    /// The overlap between `self` and `other`: everything when a whole-store
    /// marker meets a non-empty declaration, else the identifiers that one side
    /// writes and the other reads.
    pub fn get_conflicts(&self, other: &Access) -> (r: AccessConflicts)
        ensures
            r is All <==> self@.conflicts_everything(other@),
            match r {
                AccessConflicts::All => true,
                AccessConflicts::Individual(ids) => forall|x: usize| #[trigger] ids@.contains(x) <==> self@.conflicts(other@).contains(x),
            },
    {
        if self.has_read_all() || other.has_read_all() {
            if !self.is_empty() && !other.is_empty() {
                return AccessConflicts::All;
            }
            proof {
                assert(self@.conflicts(other@) =~= Set::empty());
            }
            return AccessConflicts::Individual(Vec::new());
        }
        let mut ids: Vec<usize> = Vec::new();
        push_read_by(&mut ids, &self.writes, other);
        push_read_by(&mut ids, &other.writes, self);
        AccessConflicts::Individual(ids)
    }

    /// True when `self` and `other` may be live at the same time.
    pub fn is_compatible(&self, other: &Access) -> (r: bool)
        ensures
            r == self@.compatible(other@),
    {
        let conflicts = self.get_conflicts(other);
        let r = conflicts.is_empty();
        proof {
            if let AccessConflicts::Individual(ids) = conflicts {
                if ids.len() > 0 {
                    assert(ids@.contains(ids@[0]));
                } else {
                    assert forall|x: usize| !self@.conflicts(other@).contains(x) by {
                        if self@.conflicts(other@).contains(x) {
                            assert(ids@.contains(x));
                        }
                    }
                    assert(self@.conflicts(other@) =~= Set::empty());
                }
            }
        }
        r
    }
}

} // verus!
