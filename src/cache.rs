//! The path-to-size cache shared by the render loop and the size walks.
//!
//! A lookup never waits: it answers from memory, and on a miss tells the
//! caller whether a walk of that path must be started, so that at most one
//! walk per path is outstanding.

use vstd::prelude::*;
use crate::codec::{
    encode, parse, lengths_fit, records_view, encode_records, decode_records,
    lemma_records_round_trip,
};

verus! {

/// What a lookup knows of a path's size.
#[derive(Clone, Copy, Debug, PartialEq, Eq, Structural)]
pub enum SizeLookup {
    /// The size in bytes, computed earlier.
    Known(u64),
    /// Not computed yet; distinct from a known size of zero.
    Pending,
}

/// Abstract state of a cache: the stored (path, size) records in storage
/// order, and the paths with a walk outstanding.
pub struct CacheView {
    pub entries: Seq<(Seq<u8>, u64)>,
    pub in_flight: Set<Seq<u8>>,
}

/// The mapping that records stand for; where a path occurs twice the
/// earlier record counts.
pub open spec fn to_map(es: Seq<(Seq<u8>, u64)>) -> Map<Seq<u8>, u64>
    decreases es.len(),
{
    if es.len() == 0 {
        Map::empty()
    } else {
        to_map(es.skip(1)).insert(es[0].0, es[0].1)
    }
}

/// The records after storing `size` for `path`: the first record of `path`
/// is overwritten, or a record is appended when there is none.
pub open spec fn put(es: Seq<(Seq<u8>, u64)>, path: Seq<u8>, size: u64) -> Seq<(Seq<u8>, u64)>
    decreases es.len(),
{
    if es.len() == 0 {
        seq![(path, size)]
    } else if es[0].0 == path {
        seq![(path, size)] + es.skip(1)
    } else {
        seq![es[0]] + put(es.skip(1), path, size)
    }
}

/// The records a persisted blob yields: all of them, or none where the blob
/// is malformed.
pub open spec fn loaded_entries(bytes: Seq<u8>) -> Seq<(Seq<u8>, u64)> {
    match parse(bytes) {
        Some(es) => es,
        None => Seq::empty(),
    }
}

impl CacheView {
    /// Path to size, as the cache answers lookups.
    pub open spec fn sizes(self) -> Map<Seq<u8>, u64> {
        to_map(self.entries)
    }

    /// The answer to a lookup of `path`.
    pub open spec fn lookup(self, path: Seq<u8>) -> SizeLookup {
        if self.sizes().contains_key(path) {
            SizeLookup::Known(self.sizes()[path])
        } else {
            SizeLookup::Pending
        }
    }

    /// Whether a lookup of `path` must start a walk: its size is unknown and
    /// no walk of it is outstanding.
    pub open spec fn needs_walk(self, path: Seq<u8>) -> bool {
        !self.sizes().contains_key(path) && !self.in_flight.contains(path)
    }

    /// The state after a lookup of `path`: a miss marks a walk outstanding.
    pub open spec fn after_lookup(self, path: Seq<u8>) -> CacheView {
        if self.sizes().contains_key(path) {
            self
        } else {
            CacheView { entries: self.entries, in_flight: self.in_flight.insert(path) }
        }
    }

    /// The state after storing `size` for `path`: no walk of it is
    /// outstanding any more.
    pub open spec fn after_insert(self, path: Seq<u8>, size: u64) -> CacheView {
        CacheView { entries: put(self.entries, path, size), in_flight: self.in_flight.remove(path) }
    }
}

/// In-memory cache from path bytes to size in bytes.
pub struct PathSizeCache {
    entries: Vec<(Vec<u8>, u64)>,
    in_flight: Vec<Vec<u8>>,
}

/// The set of paths held by a list of paths.
pub open spec fn path_set(paths: Seq<Vec<u8>>) -> Set<Seq<u8>> {
    Set::new(|k: Seq<u8>| exists|i: int| 0 <= i < paths.len() && (#[trigger] paths[i])@ == k)
}

impl View for PathSizeCache {
    type V = CacheView;

    closed spec fn view(&self) -> CacheView {
        CacheView { entries: records_view(self.entries@), in_flight: path_set(self.in_flight@) }
    }
}

proof fn lemma_to_map_put(es: Seq<(Seq<u8>, u64)>, path: Seq<u8>, size: u64)
    ensures
        to_map(put(es, path, size)) == to_map(es).insert(path, size),
    decreases es.len(),
{
    let p = put(es, path, size);
    if es.len() == 0 {
        assert(p.skip(1) =~= Seq::<(Seq<u8>, u64)>::empty());
        assert(to_map(p.skip(1)) == Map::<Seq<u8>, u64>::empty());
        assert(to_map(p) =~= to_map(es).insert(path, size));
    } else if es[0].0 == path {
        assert(p.skip(1) =~= es.skip(1));
        assert(to_map(p) =~= to_map(es).insert(path, size));
    } else {
        lemma_to_map_put(es.skip(1), path, size);
        assert(p.skip(1) =~= put(es.skip(1), path, size));
        assert(to_map(p) =~= to_map(es).insert(path, size));
    }
}

proof fn lemma_put_at(es: Seq<(Seq<u8>, u64)>, path: Seq<u8>, size: u64, i: int)
    requires
        0 <= i < es.len(),
        es[i].0 == path,
        forall|j: int| 0 <= j < i ==> (#[trigger] es[j]).0 != path,
    ensures
        put(es, path, size) == es.update(i, (path, size)),
    decreases es.len(),
{
    if i == 0 {
        assert(put(es, path, size) =~= es.update(i, (path, size)));
    } else {
        let rest = es.skip(1);
        assert forall|j: int| 0 <= j < i - 1 implies (#[trigger] rest[j]).0 != path by {
            assert(rest[j] == es[j + 1]);
        }
        lemma_put_at(rest, path, size, i - 1);
        assert(put(es, path, size) =~= es.update(i, (path, size)));
    }
}

proof fn lemma_put_absent(es: Seq<(Seq<u8>, u64)>, path: Seq<u8>, size: u64)
    requires
        forall|j: int| 0 <= j < es.len() ==> (#[trigger] es[j]).0 != path,
    ensures
        put(es, path, size) == es.push((path, size)),
    decreases es.len(),
{
    if es.len() > 0 {
        let rest = es.skip(1);
        assert forall|j: int| 0 <= j < rest.len() implies (#[trigger] rest[j]).0 != path by {
            assert(rest[j] == es[j + 1]);
        }
        lemma_put_absent(rest, path, size);
        assert(put(es, path, size) =~= es.push((path, size)));
    }
}

proof fn lemma_to_map_first(es: Seq<(Seq<u8>, u64)>, path: Seq<u8>, i: int)
    requires
        0 <= i < es.len(),
        es[i].0 == path,
        forall|j: int| 0 <= j < i ==> (#[trigger] es[j]).0 != path,
    ensures
        to_map(es).contains_key(path),
        to_map(es)[path] == es[i].1,
    decreases es.len(),
{
    if i > 0 {
        let rest = es.skip(1);
        assert forall|j: int| 0 <= j < i - 1 implies (#[trigger] rest[j]).0 != path by {
            assert(rest[j] == es[j + 1]);
        }
        lemma_to_map_first(rest, path, i - 1);
    }
}

proof fn lemma_to_map_absent(es: Seq<(Seq<u8>, u64)>, path: Seq<u8>)
    requires
        forall|j: int| 0 <= j < es.len() ==> (#[trigger] es[j]).0 != path,
    ensures
        !to_map(es).contains_key(path),
    decreases es.len(),
{
    if es.len() > 0 {
        let rest = es.skip(1);
        assert forall|j: int| 0 <= j < rest.len() implies (#[trigger] rest[j]).0 != path by {
            assert(rest[j] == es[j + 1]);
        }
        lemma_to_map_absent(rest, path);
    }
}

fn same_bytes(a: &[u8], b: &[u8]) -> (r: bool)
    ensures
        r == (a@ == b@),
{
    if a.len() != b.len() {
        return false;
    }
    let mut i: usize = 0;
    while i < a.len()
        invariant
            a@.len() == b@.len(),
            i <= a@.len(),
            forall|j: int| 0 <= j < i ==> a@[j] == b@[j],
        decreases a@.len() - i,
    {
        if a[i] != b[i] {
            return false;
        }
        i = i + 1;
    }
    assert(a@ =~= b@);
    true
}

fn copy_bytes(a: &[u8]) -> (r: Vec<u8>)
    ensures
        r@ == a@,
{
    let mut r: Vec<u8> = Vec::new();
    let mut i: usize = 0;
    while i < a.len()
        invariant
            i <= a@.len(),
            r@ == a@.subrange(0, i as int),
        decreases a@.len() - i,
    {
        r.push(a[i]);
        i = i + 1;
        assert(r@ =~= a@.subrange(0, i as int));
    }
    assert(r@ =~= a@);
    r
}

impl PathSizeCache {
    /// The stored paths fit the persisted form, and each outstanding path is
    /// listed once.
    pub closed spec fn wf(&self) -> bool {
        &&& lengths_fit(self@.entries)
        &&& forall|i: int, j: int|
            0 <= i < j < self.in_flight@.len() ==> self.in_flight@[i]@ != self.in_flight@[j]@
    }

    /// An empty cache.
    pub fn new() -> (c: Self)
        ensures
            c.wf(),
            c@.entries == Seq::<(Seq<u8>, u64)>::empty(),
            c@.in_flight == Set::<Seq<u8>>::empty(),
    {
        let c = PathSizeCache { entries: Vec::new(), in_flight: Vec::new() };
        assert(c@.entries =~= Seq::<(Seq<u8>, u64)>::empty());
        assert(c@.in_flight =~= Set::<Seq<u8>>::empty());
        c
    }

    /// Number of stored records.
    pub fn len(&self) -> (r: usize)
        ensures
            r == self@.entries.len(),
    {
        self.entries.len()
    }

    /// Index of the first record of `path`, if any.
    fn find(&self, path: &[u8]) -> (r: Option<usize>)
        ensures
            match r {
                Some(i) => i < self@.entries.len() && self@.entries[i as int].0 == path@
                    && forall|j: int| 0 <= j < i ==> (#[trigger] self@.entries[j]).0 != path@,
                None => forall|j: int| 0 <= j < self@.entries.len() ==> (#[trigger] self@.entries[j]).0 != path@,
            },
    {
        let mut i: usize = 0;
        while i < self.entries.len()
            invariant
                i <= self.entries@.len(),
                self@.entries.len() == self.entries@.len(),
                forall|j: int| 0 <= j < i ==> (#[trigger] self@.entries[j]).0 != path@,
            decreases self.entries@.len() - i,
        {
            if same_bytes(self.entries[i].0.as_slice(), path) {
                return Some(i);
            }
            i = i + 1;
        }
        None
    }

    /// Index of `path` among the outstanding walks, if any.
    fn find_in_flight(&self, path: &[u8]) -> (r: Option<usize>)
        ensures
            match r {
                Some(i) => i < self.in_flight@.len() && self.in_flight@[i as int]@ == path@,
                None => !self@.in_flight.contains(path@),
            },
    {
        let mut i: usize = 0;
        while i < self.in_flight.len()
            invariant
                i <= self.in_flight@.len(),
                forall|j: int| 0 <= j < i ==> (#[trigger] self.in_flight@[j])@ != path@,
            decreases self.in_flight@.len() - i,
        {
            if same_bytes(self.in_flight[i].as_slice(), path) {
                return Some(i);
            }
            i = i + 1;
        }
        None
    }

    /// Answers from memory without waiting. On a miss the path is marked as
    /// having a walk outstanding, and the second result says whether the
    /// caller must start that walk now (no walk of it was outstanding yet).
    pub fn get_or_schedule(&mut self, path: &[u8]) -> (r: (SizeLookup, bool))
        requires
            old(self).wf(),
        ensures
            final(self).wf(),
            r.0 == old(self)@.lookup(path@),
            r.1 == old(self)@.needs_walk(path@),
            final(self)@ == old(self)@.after_lookup(path@),
    {
        match self.find(path) {
            Some(i) => {
                proof {
                    lemma_to_map_first(self@.entries, path@, i as int);
                }
                (SizeLookup::Known(self.entries[i].1), false)
            },
            None => {
                proof {
                    lemma_to_map_absent(self@.entries, path@);
                }
                match self.find_in_flight(path) {
                    Some(_) => {
                        let ghost s = self@.in_flight;
                        assert(s.insert(path@) =~= s);
                        (SizeLookup::Pending, false)
                    },
                    None => {
                        let ghost before = self.in_flight@;
                        self.in_flight.push(copy_bytes(path));
                        assert(self@.in_flight =~= path_set(before).insert(path@)) by {
                            assert(self.in_flight@[before.len() as int]@ == path@);
                            assert forall|k: Seq<u8>| path_set(before).contains(k) implies #[trigger] self@.in_flight.contains(k) by {
                                let i = choose|i: int| 0 <= i < before.len() && before[i]@ == k;
                                assert(self.in_flight@[i] == before[i]);
                            }
                            assert forall|k: Seq<u8>| #[trigger] self@.in_flight.contains(k) implies path_set(before).insert(path@).contains(k) by {
                                let i = choose|i: int| 0 <= i < self.in_flight@.len() && self.in_flight@[i]@ == k;
                                if i < before.len() {
                                    assert(before[i] == self.in_flight@[i]);
                                }
                            }
                        }
                        (SizeLookup::Pending, true)
                    },
                }
            },
        }
    }

    /// Stores the size of `path`, computed by a walk or known from metadata;
    /// any walk of it counts as finished.
    pub fn insert(&mut self, path: Vec<u8>, size: u64)
        requires
            old(self).wf(),
        ensures
            final(self).wf(),
            final(self)@ == old(self)@.after_insert(path@, size),
    {
        let ghost key = path@;
        assert(key.len() == path.len());
        match self.find_in_flight(path.as_slice()) {
            Some(i) => {
                let ghost before = self.in_flight@;
                self.in_flight.remove(i);
                assert(self@.in_flight =~= path_set(before).remove(key)) by {
                    assert forall|k: Seq<u8>| #[trigger] path_set(before).remove(key).contains(k) implies self@.in_flight.contains(k) by {
                        let j = choose|j: int| 0 <= j < before.len() && before[j]@ == k;
                        if j < i {
                            assert(self.in_flight@[j] == before[j]);
                        } else {
                            assert(j != i);
                            assert(self.in_flight@[j - 1] == before[j]);
                        }
                    }
                    assert forall|k: Seq<u8>| #[trigger] self@.in_flight.contains(k) implies path_set(before).remove(key).contains(k) by {
                        let j = choose|j: int| 0 <= j < self.in_flight@.len() && self.in_flight@[j]@ == k;
                        if j < i {
                            assert(self.in_flight@[j] == before[j]);
                        } else {
                            assert(self.in_flight@[j] == before[j + 1]);
                        }
                    }
                }
            },
            None => {
                assert(self@.in_flight.remove(key) =~= self@.in_flight);
            },
        }
        let ghost es = self@.entries;
        match self.find(path.as_slice()) {
            Some(i) => {
                self.entries.set(i, (path, size));
                proof {
                    lemma_put_at(es, key, size, i as int);
                    assert(self@.entries =~= es.update(i as int, (key, size)));
                }
            },
            None => {
                self.entries.push((path, size));
                proof {
                    lemma_put_absent(es, key, size);
                    assert(self@.entries =~= es.push((key, size)));
                }
            },
        }
        assert(lengths_fit(self@.entries)) by {
            assert forall|j: int| 0 <= j < self@.entries.len() implies (#[trigger] self@.entries[j]).0.len() <= u64::MAX by {
                if self@.entries[j].0 != key {
                    assert(self@.entries[j] == es[j]);
                }
            }
        }
    }

    /// The persisted form of the stored records.
    pub fn save(&self) -> (r: Vec<u8>)
        ensures
            r@ == encode(self@.entries),
    {
        encode_records(&self.entries)
    }

    /// A cache holding the records of a persisted blob, with no walk
    /// outstanding; a malformed blob gives an empty cache.
    pub fn load(bytes: &[u8]) -> (c: Self)
        ensures
            c.wf(),
            c@.entries == loaded_entries(bytes@),
            c@.in_flight == Set::<Seq<u8>>::empty(),
    {
        match decode_records(bytes) {
            Some(entries) => {
                let c = PathSizeCache { entries, in_flight: Vec::new() };
                assert(c@.in_flight =~= Set::<Seq<u8>>::empty());
                assert(lengths_fit(c@.entries)) by {
                    assert forall|j: int| 0 <= j < c@.entries.len() implies (#[trigger] c@.entries[j]).0.len() <= u64::MAX by {
                        assert(c@.entries[j].0 == c.entries@[j].0@);
                        assert(c.entries@[j].0.len() == c.entries@[j].0@.len());
                    }
                }
                c
            },
            None => PathSizeCache::new(),
        }
    }
}

/// A cache operation, for stating what holds across a run of them.
pub enum CacheOp {
    Lookup(Seq<u8>),
    Insert(Seq<u8>, u64),
}

/// The state after one operation.
pub open spec fn apply_op(v: CacheView, op: CacheOp) -> CacheView {
    match op {
        CacheOp::Lookup(p) => v.after_lookup(p),
        CacheOp::Insert(p, n) => v.after_insert(p, n),
    }
}

/// The state after a run of operations, first to last.
pub open spec fn apply_ops(v: CacheView, ops: Seq<CacheOp>) -> CacheView
    decreases ops.len(),
{
    if ops.len() == 0 {
        v
    } else {
        apply_ops(apply_op(v, ops[0]), ops.skip(1))
    }
}

/// Whether `op` stores a size for `path`.
pub open spec fn inserts(op: CacheOp, path: Seq<u8>) -> bool {
    match op {
        CacheOp::Insert(p, _) => p == path,
        CacheOp::Lookup(_) => false,
    }
}

proof fn lemma_size_kept(v: CacheView, path: Seq<u8>, n: u64, ops: Seq<CacheOp>)
    requires
        v.sizes().contains_key(path),
        v.sizes()[path] == n,
        forall|i: int| 0 <= i < ops.len() ==> !inserts(#[trigger] ops[i], path),
    ensures
        apply_ops(v, ops).sizes().contains_key(path),
        apply_ops(v, ops).sizes()[path] == n,
    decreases ops.len(),
{
    if ops.len() > 0 {
        let w = apply_op(v, ops[0]);
        assert(!inserts(ops[0], path));
        match ops[0] {
            CacheOp::Lookup(p) => {},
            CacheOp::Insert(p, m) => {
                lemma_to_map_put(v.entries, p, m);
            },
        }
        let rest = ops.skip(1);
        assert forall|i: int| 0 <= i < rest.len() implies !inserts(#[trigger] rest[i], path) by {
            assert(rest[i] == ops[i + 1]);
        }
        lemma_size_kept(w, path, n, rest);
    }
}

/// After `insert(path, n)`, lookups of `path` answer `Known(n)` whatever
/// lookups and inserts of other paths come in between, up to the next insert
/// of `path`.
pub proof fn lemma_known_until_reinsert(v: CacheView, path: Seq<u8>, n: u64, ops: Seq<CacheOp>)
    requires
        forall|i: int| 0 <= i < ops.len() ==> !inserts(#[trigger] ops[i], path),
    ensures
        apply_ops(v.after_insert(path, n), ops).lookup(path) == SizeLookup::Known(n),
{
    lemma_to_map_put(v.entries, path, n);
    lemma_size_kept(v.after_insert(path, n), path, n, ops);
}

/// A miss starts at most one walk: once a lookup of an unknown path has
/// answered `Pending`, further lookups answer `Pending` without asking for
/// another walk, until the walk's result is stored; from then on they answer
/// with that result.
pub proof fn lemma_single_walk(v: CacheView, path: Seq<u8>, n: u64)
    requires
        !v.sizes().contains_key(path),
    ensures
        v.lookup(path) == SizeLookup::Pending,
        v.after_lookup(path).lookup(path) == SizeLookup::Pending,
        !v.after_lookup(path).needs_walk(path),
        v.after_lookup(path).after_insert(path, n).lookup(path) == SizeLookup::Known(n),
{
    lemma_to_map_put(v.entries, path, n);
}

/// Loading what `save` wrote gives back the same records, hence the same
/// mapping from paths to sizes.
pub proof fn lemma_load_save_round_trip(c: &PathSizeCache)
    requires
        c.wf(),
    ensures
        loaded_entries(encode(c@.entries)) == c@.entries,
        to_map(loaded_entries(encode(c@.entries))) == c@.sizes(),
{
    lemma_records_round_trip(c@.entries);
}

} // verus!
