//! Directory-size walk as a step machine: the caller lists each directory the
//! walker hands out and feeds the listing back, so no I/O happens here.

use vstd::prelude::*;

verus! {

/// One immediate child of a listed directory.
pub struct DirectoryEntry<P> {
    pub path: P,
    pub is_dir: bool,
    /// Byte length; counted only for entries that are not directories.
    pub len: u64,
}

/// Abstract state of a walk: directories still to list (a stack, top last)
/// and the bytes counted so far.
pub struct WalkState<P> {
    pub pending: Seq<P>,
    pub total: u64,
}

/// `x` clamped to the `u64` range.
pub open spec fn saturate(x: int) -> u64 {
    if x > u64::MAX { u64::MAX } else if x < 0 { 0 } else { x as u64 }
}

/// Sum of the lengths of the entries that are not directories.
pub open spec fn listing_bytes<P>(listing: Seq<DirectoryEntry<P>>) -> nat
    decreases listing.len(),
{
    if listing.len() == 0 {
        0
    } else {
        let e = listing.last();
        listing_bytes(listing.drop_last()) + if e.is_dir { 0 } else { e.len as nat }
    }
}

/// Subdirectories of a listing in the order they are pushed on the stack:
/// last entry first, so that they come off the stack in listing order.
pub open spec fn pushed_dirs<P>(listing: Seq<DirectoryEntry<P>>) -> Seq<P>
    decreases listing.len(),
{
    if listing.len() == 0 {
        Seq::empty()
    } else {
        let e = listing.last();
        let own = if e.is_dir { seq![e.path] } else { Seq::empty() };
        own + pushed_dirs(listing.drop_last())
    }
}

/// The state at the start of a walk of `root`.
pub open spec fn walk_start<P>(root: P) -> WalkState<P> {
    WalkState { pending: seq![root], total: 0 }
}

/// Takes the top directory off the stack.
pub open spec fn take_next<P>(s: WalkState<P>) -> WalkState<P> {
    WalkState { pending: s.pending.drop_last(), total: s.total }
}

/// Counts the files of a listing and pushes its subdirectories.
pub open spec fn absorb<P>(s: WalkState<P>, listing: Seq<DirectoryEntry<P>>) -> WalkState<P> {
    WalkState {
        pending: s.pending + pushed_dirs(listing),
        total: saturate(s.total + listing_bytes(listing)),
    }
}

/// A static directory tree: the listing of each directory; a directory
/// absent from the map cannot be listed and counts as empty.
pub open spec fn listing_in<P>(tree: Map<P, Seq<DirectoryEntry<P>>>, dir: P) -> Seq<DirectoryEntry<P>> {
    if tree.contains_key(dir) { tree[dir] } else { Seq::empty() }
}

/// At most `fuel` steps of a walk over a static tree, stopping early once the
/// stack is empty.
pub open spec fn walk_steps<P>(
    tree: Map<P, Seq<DirectoryEntry<P>>>,
    s: WalkState<P>,
    fuel: nat,
) -> WalkState<P>
    decreases fuel,
{
    if fuel == 0 || s.pending.len() == 0 {
        s
    } else {
        walk_steps(tree, absorb(take_next(s), listing_in(tree, s.pending.last())), (fuel - 1) as nat)
    }
}

/// Iterative depth-first walk that sums the byte lengths of all files below
/// a directory.
pub struct SizeWalker<P> {
    stack: Vec<P>,
    total: u64,
}

impl<P> View for SizeWalker<P> {
    type V = WalkState<P>;

    closed spec fn view(&self) -> WalkState<P> {
        WalkState { pending: self.stack@, total: self.total }
    }
}

impl<P> SizeWalker<P> {
    /// A walk of the tree below `root`.
    pub fn new(root: P) -> (w: Self)
        ensures
            w@ == walk_start(root),
    {
        let mut stack = Vec::new();
        stack.push(root);
        let w = SizeWalker { stack, total: 0 };
        assert(w@.pending =~= seq![root]);
        w
    }

    /// The next directory to list, or `None` once the walk is complete.
    pub fn next_dir(&mut self) -> (r: Option<P>)
        ensures
            old(self)@.pending.len() == 0 ==> r.is_none() && final(self)@ == old(self)@,
            old(self)@.pending.len() > 0 ==> r == Some(old(self)@.pending.last())
                && final(self)@ == take_next(old(self)@),
    {
        self.stack.pop()
    }

    /// Feeds back the listing of the directory last handed out; a directory
    /// that could not be listed is fed back as an empty listing.
    pub fn visit(&mut self, listing: Vec<DirectoryEntry<P>>)
        ensures
            final(self)@ == absorb(old(self)@, listing@),
    {
        let mut listing = listing;
        let ghost orig = listing@;
        let ghost start = self@;
        while listing.len() > 0
            invariant
                start.pending + pushed_dirs(orig) == self.stack@ + pushed_dirs(listing@),
                saturate(start.total + listing_bytes(orig))
                    == saturate(self.total + listing_bytes(listing@)),
            decreases listing.len(),
        {
            let ghost before = listing@;
            let ghost stack_before = self.stack@;
            let e = listing.pop().unwrap();
            assert(before.drop_last() == listing@);
            if e.is_dir {
                self.stack.push(e.path);
            } else {
                self.total = self.total.saturating_add(e.len);
            }
            assert(stack_before + pushed_dirs(before) =~= self.stack@ + pushed_dirs(listing@));
        }
        assert(self.stack@ + pushed_dirs(listing@) =~= self.stack@);
    }

    /// Bytes counted so far; the walk's result once `next_dir` returns `None`.
    pub fn total(&self) -> (r: u64)
        ensures
            r == self@.total,
    {
        self.total
    }
}

/// Once a walk has emptied its stack, further steps change nothing.
proof fn lemma_walk_settled<P>(tree: Map<P, Seq<DirectoryEntry<P>>>, s: WalkState<P>, n: nat, m: nat)
    requires
        n <= m,
        walk_steps(tree, s, n).pending.len() == 0,
    ensures
        walk_steps(tree, s, m) == walk_steps(tree, s, n),
    decreases n,
{
    if s.pending.len() == 0 {
    } else if n == 0 {
    } else {
        let next = absorb(take_next(s), listing_in(tree, s.pending.last()));
        lemma_walk_settled(tree, next, (n - 1) as nat, (m - 1) as nat);
    }
}

/// Walking the same static tree twice gives the same result: any two walks
/// of `root` that run to completion end in the same state, whatever number of
/// steps each was allowed.
pub proof fn lemma_walk_idempotent<P>(tree: Map<P, Seq<DirectoryEntry<P>>>, root: P, n1: nat, n2: nat)
    requires
        walk_steps(tree, walk_start(root), n1).pending.len() == 0,
        walk_steps(tree, walk_start(root), n2).pending.len() == 0,
    ensures
        walk_steps(tree, walk_start(root), n1) == walk_steps(tree, walk_start(root), n2),
        walk_steps(tree, walk_start(root), n1).total == walk_steps(tree, walk_start(root), n2).total,
{
    if n1 <= n2 {
        lemma_walk_settled(tree, walk_start(root), n1, n2);
    } else {
        lemma_walk_settled(tree, walk_start(root), n2, n1);
    }
}

proof fn lemma_no_dirs_pushed<P>(listing: Seq<DirectoryEntry<P>>)
    requires
        forall|i: int| 0 <= i < listing.len() ==> !(#[trigger] listing[i]).is_dir,
    ensures
        pushed_dirs(listing) == Seq::<P>::empty(),
    decreases listing.len(),
{
    if listing.len() > 0 {
        let rest = listing.drop_last();
        assert forall|i: int| 0 <= i < rest.len() implies !(#[trigger] rest[i]).is_dir by {
            assert(rest[i] == listing[i]);
        }
        lemma_no_dirs_pushed(rest);
        assert(!listing[listing.len() - 1].is_dir);
        assert(pushed_dirs(listing) =~= Seq::<P>::empty());
    }
}

/// A directory that holds only files is walked in one step, and its total is
/// the sum of their lengths.
pub proof fn lemma_walk_flat_directory<P>(tree: Map<P, Seq<DirectoryEntry<P>>>, root: P, n: nat)
    requires
        n >= 1,
        forall|i: int|
            0 <= i < listing_in(tree, root).len() ==> !(#[trigger] listing_in(tree, root)[i]).is_dir,
    ensures
        walk_steps(tree, walk_start(root), n).pending.len() == 0,
        walk_steps(tree, walk_start(root), n).total == saturate(listing_bytes(listing_in(tree, root)) as int),
{
    let listing = listing_in(tree, root);
    lemma_no_dirs_pushed(listing);
    let s1 = absorb(take_next(walk_start(root)), listing);
    assert(s1.pending =~= Seq::<P>::empty());
    assert(walk_steps(tree, walk_start(root), n) == walk_steps(tree, s1, (n - 1) as nat));
}

/// Walking an empty directory counts nothing.
pub proof fn lemma_walk_empty_directory<P>(tree: Map<P, Seq<DirectoryEntry<P>>>, root: P, n: nat)
    requires
        n >= 1,
        listing_in(tree, root).len() == 0,
    ensures
        walk_steps(tree, walk_start(root), n).pending.len() == 0,
        walk_steps(tree, walk_start(root), n).total == 0,
{
    lemma_walk_flat_directory(tree, root, n);
}

} // verus!
