//! The memoizing request tracker: results keyed by request hash, with the
//! invalidations each depends on and edges to the sub-requests it ran.
use vstd::prelude::*;
use crate::bytes::bytes_eq;
use crate::path::{glob_match, glob_matches};
use crate::types::{Diagnostic, FileEvent, FileEventKind, Invalidation};

verus! {

/// A request's outcome and the invalidations it depends on.
pub struct RequestResult<T> {
    pub result: Result<T, Vec<Diagnostic>>,
    pub invalidations: Vec<Invalidation>,
}

/// What the tracker keeps of one request.
pub struct RequestNode<T> {
    pub key: u64,
    /// The result of the last run, or `None` when it failed.
    pub result: Option<T>,
    pub invalidations: Vec<Invalidation>,
    /// Indices of the sub-requests the last run invoked.
    pub children: Vec<usize>,
    pub dirty: bool,
}

/// An event fires an invalidation: an update or deletion of the very path
/// that an invalidation of the same kind names, or the creation of a path
/// that a creation invalidation's glob matches.
pub open spec fn fires(inv: Invalidation, e: FileEvent) -> bool {
    match inv {
        Invalidation::InvalidateOnFileUpdate(p) => e.kind == FileEventKind::Update && p@ == e.path@,
        Invalidation::InvalidateOnFileCreate(p) => e.kind == FileEventKind::Create && glob_match(p@, e.path@),
        Invalidation::InvalidateOnFileDelete(p) => e.kind == FileEventKind::Delete && p@ == e.path@,
        _ => false,
    }
}

/// Some event fires some invalidation of the node.
pub open spec fn hit<T>(n: RequestNode<T>, events: Seq<FileEvent>) -> bool {
    exists|i: int, j: int|
        0 <= i < n.invalidations@.len() && 0 <= j < events.len() && fires(
            #[trigger] n.invalidations@[i],
            #[trigger] events[j],
        )
}

/// The requests that are dirty or hit by an event.
pub open spec fn seeds<T>(nodes: Seq<RequestNode<T>>, events: Seq<FileEvent>) -> Seq<bool> {
    Seq::new(nodes.len(), |i: int| nodes[i].dirty || hit(nodes[i], events))
}

/// One step of propagation: a request is marked when it was, or when one of
/// its children was.
pub open spec fn advance<T>(nodes: Seq<RequestNode<T>>, marked: Seq<bool>) -> Seq<bool> {
    Seq::new(
        nodes.len(),
        |i: int|
            marked[i] || exists|c: int|
                0 <= c < nodes[i].children@.len() && #[trigger] marked[nodes[i].children@[c] as int],
    )
}

/// The requests from which a path of at most `k` child edges leads to a seed.
pub open spec fn reaches<T>(nodes: Seq<RequestNode<T>>, events: Seq<FileEvent>, k: nat) -> Seq<bool>
    decreases k,
{
    if k == 0 {
        seeds(nodes, events)
    } else {
        advance(nodes, reaches(nodes, events, (k - 1) as nat))
    }
}

/// Node `i` must run again in the next build: a path of at most as many
/// child edges as there are nodes leads from it to a request that is dirty or
/// hit by an event (`lemma_stale_iff_reachable`: no longer path adds any).
pub open spec fn stale<T>(nodes: Seq<RequestNode<T>>, events: Seq<FileEvent>, i: int) -> bool {
    reaches(nodes, events, nodes.len())[i]
}

/// Node `i` reaches a seed through some path of child edges, of any length.
pub open spec fn reachable<T>(nodes: Seq<RequestNode<T>>, events: Seq<FileEvent>, i: int) -> bool {
    exists|k: nat| (#[trigger] reaches(nodes, events, k))[i]
}

/// Number of marked entries.
pub open spec fn count_marked(s: Seq<bool>) -> nat
    decreases s.len(),
{
    if s.len() == 0 {
        0
    } else {
        count_marked(s.drop_last()) + if s.last() {
            1nat
        } else {
            0nat
        }
    }
}

proof fn lemma_count_bounds(s: Seq<bool>, t: Seq<bool>)
    requires
        s.len() == t.len(),
        forall|i: int| 0 <= i < s.len() && s[i] ==> t[i],
    ensures
        count_marked(s) <= count_marked(t),
        count_marked(t) <= t.len(),
        s != t ==> count_marked(s) < count_marked(t),
        count_marked(t) == t.len() ==> forall|i: int| 0 <= i < t.len() ==> t[i],
    decreases s.len(),
{
    if s.len() > 0 {
        let (s0, t0) = (s.drop_last(), t.drop_last());
        assert forall|i: int| 0 <= i < s0.len() && s0[i] implies t0[i] by {
            assert(s[i]);
        }
        lemma_count_bounds(s0, t0);
        if s != t && s0 == t0 {
            assert(s.last() != t.last()) by {
                if s.last() == t.last() {
                    assert forall|i: int| 0 <= i < s.len() implies s[i] == t[i] by {
                        if i < s0.len() {
                            assert(s0[i] == t0[i]);
                        }
                    }
                    assert(s =~= t);
                }
            }
        }
        if count_marked(t) == t.len() {
            assert forall|i: int| 0 <= i < t.len() implies t[i] by {
                if i < t0.len() {
                    assert(t0[i]);
                }
            }
        }
    } else {
        assert(s =~= t);
    }
}

proof fn lemma_reaches_len<T>(nodes: Seq<RequestNode<T>>, events: Seq<FileEvent>, k: nat)
    ensures
        reaches(nodes, events, k).len() == nodes.len(),
    decreases k,
{
    if k > 0 {
        lemma_reaches_len(nodes, events, (k - 1) as nat);
    }
}

proof fn lemma_reaches_grows<T>(nodes: Seq<RequestNode<T>>, events: Seq<FileEvent>, j: nat, k: nat)
    requires
        j <= k,
    ensures
        forall|i: int|
            0 <= i < nodes.len() && reaches(nodes, events, j)[i] ==> reaches(nodes, events, k)[i],
    decreases k - j,
{
    if j < k {
        lemma_reaches_grows(nodes, events, j, (k - 1) as nat);
        lemma_reaches_len(nodes, events, (k - 1) as nat);
        assert(reaches(nodes, events, k) == advance(nodes, reaches(nodes, events, (k - 1) as nat)));
    }
}

proof fn lemma_reaches_settles<T>(nodes: Seq<RequestNode<T>>, events: Seq<FileEvent>, j: nat, k: nat)
    requires
        j <= k,
        reaches(nodes, events, j) == reaches(nodes, events, j + 1),
    ensures
        reaches(nodes, events, k) == reaches(nodes, events, j),
    decreases k - j,
{
    if j < k {
        lemma_reaches_settles(nodes, events, j, (k - 1) as nat);
        assert(reaches(nodes, events, k) == advance(nodes, reaches(nodes, events, (k - 1) as nat)));
        assert(reaches(nodes, events, j + 1) == advance(nodes, reaches(nodes, events, j)));
    }
}

/// Up to step `j`, either propagation has settled or every step marked a
/// new request.
proof fn lemma_reaches_progress<T>(nodes: Seq<RequestNode<T>>, events: Seq<FileEvent>, j: nat)
    ensures
        (exists|m: nat| m <= j && #[trigger] reaches(nodes, events, m) == reaches(nodes, events, m + 1))
            || count_marked(reaches(nodes, events, j)) >= j,
    decreases j,
{
    if j > 0 {
        let p = (j - 1) as nat;
        lemma_reaches_progress(nodes, events, p);
        lemma_reaches_len(nodes, events, p);
        lemma_reaches_len(nodes, events, j);
        lemma_reaches_grows(nodes, events, p, j);
        lemma_count_bounds(reaches(nodes, events, p), reaches(nodes, events, j));
        if reaches(nodes, events, p) == reaches(nodes, events, p + 1) {
            assert(reaches(nodes, events, p) == reaches(nodes, events, p + 1));
        }
    }
}

/// Bounding paths by the number of nodes loses nothing: a node is stale
/// exactly when a path of any length leads from it to a seed.
pub proof fn lemma_stale_iff_reachable<T>(nodes: Seq<RequestNode<T>>, events: Seq<FileEvent>, i: int)
    requires
        0 <= i < nodes.len(),
    ensures
        stale(nodes, events, i) == reachable(nodes, events, i),
{
    let n = nodes.len();
    if reachable(nodes, events, i) {
        let k = choose|k: nat| (#[trigger] reaches(nodes, events, k))[i];
        if k <= n {
            lemma_reaches_grows(nodes, events, k, n);
        } else {
            lemma_reaches_progress(nodes, events, n);
            lemma_reaches_len(nodes, events, n);
            if exists|m: nat| m <= n && #[trigger] reaches(nodes, events, m) == reaches(nodes, events, m + 1) {
                let m = choose|m: nat| m <= n && #[trigger] reaches(nodes, events, m) == reaches(nodes, events, m + 1);
                lemma_reaches_settles(nodes, events, m, k);
                lemma_reaches_settles(nodes, events, m, n);
            } else {
                lemma_count_bounds(reaches(nodes, events, n), reaches(nodes, events, n));
            }
        }
    }
    if stale(nodes, events, i) {
        assert(reaches(nodes, events, n)[i]);
    }
}

/// The nodes after a new build starts with `events`: each one dirty exactly
/// when stale, all else unchanged.
pub open spec fn after_events<T>(nodes: Seq<RequestNode<T>>, events: Seq<FileEvent>, next: Seq<RequestNode<T>>) -> bool {
    &&& next.len() == nodes.len()
    &&& forall|i: int|
        0 <= i < nodes.len() ==> {
            &&& (#[trigger] next[i]).key == nodes[i].key
            &&& next[i].result == nodes[i].result
            &&& next[i].invalidations == nodes[i].invalidations
            &&& next[i].children == nodes[i].children
            &&& next[i].dirty == stale(nodes, events, i)
        }
}

/// The index of the node with `key`.
pub open spec fn index_of_key<T>(nodes: Seq<RequestNode<T>>, key: u64) -> Option<int> {
    if exists|i: int| 0 <= i < nodes.len() && nodes[i].key == key {
        Some(choose|i: int| 0 <= i < nodes.len() && nodes[i].key == key)
    } else {
        None
    }
}

/// The result a request with `key` may reuse: that of a clean node whose
/// last run succeeded.
pub open spec fn cached_result<T>(nodes: Seq<RequestNode<T>>, key: u64) -> Option<T> {
    match index_of_key(nodes, key) {
        Some(i) => if nodes[i].dirty {
            None
        } else {
            nodes[i].result
        },
        None => None,
    }
}

pub open spec fn keys_unique<T>(nodes: Seq<RequestNode<T>>) -> bool {
    forall|i: int, j: int|
        0 <= i < nodes.len() && 0 <= j < nodes.len() && i != j ==> nodes[i].key != nodes[j].key
}

pub open spec fn children_in_range<T>(nodes: Seq<RequestNode<T>>) -> bool {
    forall|i: int, c: int|
        0 <= i < nodes.len() && 0 <= c < nodes[i].children@.len() ==> #[trigger] nodes[i].children@[c]
            < nodes.len()
}

proof fn lemma_unique_index<T>(nodes: Seq<RequestNode<T>>, key: u64, i: int)
    requires
        keys_unique(nodes),
        0 <= i < nodes.len(),
        nodes[i].key == key,
    ensures
        index_of_key(nodes, key) == Some(i),
{
    let k = choose|k: int| 0 <= k < nodes.len() && nodes[k].key == key;
    assert(nodes[k].key == key);
}

proof fn lemma_cached_kept<T>(old: Seq<RequestNode<T>>, new: Seq<RequestNode<T>>, key: u64, k: u64)
    requires
        keys_unique(old),
        keys_unique(new),
        k != key,
        new.len() >= old.len(),
        forall|i: int| 0 <= i < old.len() && old[i].key != key ==> new[i] == old[i],
        forall|i: int| 0 <= i < new.len() ==> (i < old.len() && new[i] == old[i]) || new[i].key == key,
    ensures
        cached_result(new, k) == cached_result(old, k),
{
    if exists|i: int| 0 <= i < old.len() && old[i].key == k {
        let i = choose|i: int| 0 <= i < old.len() && old[i].key == k;
        lemma_unique_index(old, k, i);
        assert(new[i] == old[i]);
        lemma_unique_index(new, k, i);
    } else {
        assert forall|i: int| 0 <= i < new.len() implies new[i].key != k by {
            if i < old.len() && new[i] == old[i] {
            }
        }
    }
}

proof fn lemma_quiet_reaches<T>(nodes: Seq<RequestNode<T>>, k: nat)
    requires
        children_in_range(nodes),
        forall|i: int| 0 <= i < nodes.len() ==> !(#[trigger] nodes[i]).dirty,
    ensures
        forall|i: int| 0 <= i < nodes.len() ==> !(#[trigger] reaches(nodes, Seq::<FileEvent>::empty(), k)[i]),
    decreases k,
{
    let events = Seq::<FileEvent>::empty();
    if k == 0 {
        assert forall|i: int| 0 <= i < nodes.len() implies !(#[trigger] reaches(nodes, events, k)[i]) by {
            assert(!nodes[i].dirty);
            assert(!hit(nodes[i], events));
        }
    } else {
        lemma_quiet_reaches(nodes, (k - 1) as nat);
        let prev = reaches(nodes, events, (k - 1) as nat);
        assert forall|i: int| 0 <= i < nodes.len() implies !(#[trigger] reaches(nodes, events, k)[i]) by {
            assert(!prev[i]);
            assert(reaches(nodes, events, k) == advance(nodes, prev));
            if exists|c: int| 0 <= c < nodes[i].children@.len() && #[trigger] prev[nodes[i].children@[c] as int] {
                let c = choose|c: int| 0 <= c < nodes[i].children@.len() && #[trigger] prev[nodes[i].children@[c] as int];
                assert(prev.len() == nodes.len());
                assert(nodes[i].children@[c] < nodes.len());
                assert(!prev[nodes[i].children@[c] as int]);
            }
        }
    }
}

/// A request runs again in a build exactly when its last run failed or a
/// path of child edges leads from it to a request that was left dirty or
/// whose invalidations the build's events fire.
pub proof fn lemma_rerun_exactly_stale<T>(
    nodes: Seq<RequestNode<T>>,
    events: Seq<FileEvent>,
    next: Seq<RequestNode<T>>,
    i: int,
)
    requires
        keys_unique(nodes),
        after_events(nodes, events, next),
        0 <= i < nodes.len(),
    ensures
        cached_result(next, nodes[i].key) is None <==> (nodes[i].result is None || reachable(
            nodes,
            events,
            i,
        )),
        cached_result(next, nodes[i].key) is Some ==> cached_result(next, nodes[i].key)
            == nodes[i].result,
{
    lemma_stale_iff_reachable(nodes, events, i);
    assert(next[i].key == nodes[i].key);
    assert forall|a: int, b: int| 0 <= a < next.len() && 0 <= b < next.len() && a != b implies next[a].key != next[b].key by {
        assert(next[a].key == nodes[a].key && next[b].key == nodes[b].key);
    }
    lemma_unique_index(next, nodes[i].key, i);
}

/// With nothing left dirty and no events, a new build keeps every cached
/// result: a pure request that ran once is not run again and yields the same
/// result.
pub proof fn lemma_quiet_build_keeps_results<T>(
    nodes: Seq<RequestNode<T>>,
    next: Seq<RequestNode<T>>,
    key: u64,
)
    requires
        children_in_range(nodes),
        forall|i: int| 0 <= i < nodes.len() ==> !(#[trigger] nodes[i]).dirty,
        after_events(nodes, Seq::<FileEvent>::empty(), next),
    ensures
        cached_result(next, key) == cached_result(nodes, key),
{
    lemma_quiet_reaches(nodes, nodes.len());
    assert forall|i: int| 0 <= i < nodes.len() implies next[i] == nodes[i] by {
        assert(!stale(nodes, Seq::<FileEvent>::empty(), i));
        assert(!nodes[i].dirty);
    }
    assert(next =~= nodes);
}

/// Whether an event fires an invalidation.
pub fn event_fires(inv: &Invalidation, e: &FileEvent) -> (r: bool)
    ensures
        r == fires(*inv, *e),
{
    match inv {
        Invalidation::InvalidateOnFileUpdate(p) => e.kind == FileEventKind::Update && bytes_eq(
            p.as_slice(),
            e.path.as_slice(),
        ),
        Invalidation::InvalidateOnFileCreate(p) => e.kind == FileEventKind::Create && glob_matches(
            p.as_slice(),
            e.path.as_slice(),
        ),
        Invalidation::InvalidateOnFileDelete(p) => e.kind == FileEventKind::Delete && bytes_eq(
            p.as_slice(),
            e.path.as_slice(),
        ),
        _ => false,
    }
}

fn node_hit<T>(n: &RequestNode<T>, events: &Vec<FileEvent>) -> (r: bool)
    ensures
        r == hit(*n, events@),
{
    let mut i: usize = 0;
    while i < n.invalidations.len()
        invariant
            0 <= i <= n.invalidations@.len(),
            forall|a: int, b: int|
                0 <= a < i && 0 <= b < events@.len() ==> !fires(
                    #[trigger] n.invalidations@[a],
                    #[trigger] events@[b],
                ),
        decreases n.invalidations@.len() - i,
    {
        let mut j: usize = 0;
        while j < events.len()
            invariant
                0 <= i < n.invalidations@.len(),
                0 <= j <= events@.len(),
                forall|a: int, b: int|
                    0 <= a < i && 0 <= b < events@.len() ==> !fires(
                        #[trigger] n.invalidations@[a],
                        #[trigger] events@[b],
                    ),
                forall|b: int| 0 <= b < j ==> !fires(n.invalidations@[i as int], #[trigger] events@[b]),
            decreases events@.len() - j,
        {
            if event_fires(&n.invalidations[i], &events[j]) {
                return true;
            }
            j += 1;
        }
        i += 1;
    }
    false
}

/// Whether some child of a node is flagged.
fn any_child_flagged(children: &Vec<usize>, flags: &Vec<bool>) -> (r: bool)
    requires
        forall|c: int| 0 <= c < children@.len() ==> #[trigger] children@[c] < flags@.len(),
    ensures
        r == exists|c: int| 0 <= c < children@.len() && #[trigger] flags@[children@[c] as int],
{
    let mut c: usize = 0;
    while c < children.len()
        invariant
            0 <= c <= children@.len(),
            forall|x: int| 0 <= x < children@.len() ==> #[trigger] children@[x] < flags@.len(),
            forall|d: int| 0 <= d < c ==> !#[trigger] flags@[children@[d] as int],
        decreases children@.len() - c,
    {
        if flags[children[c]] {
            assert(flags@[children@[c as int] as int]);
            return true;
        }
        c += 1;
    }
    false
}

/// Memoization graph of requests across builds.
pub struct RequestTracker<T> {
    nodes: Vec<RequestNode<T>>,
}

impl<T> View for RequestTracker<T> {
    type V = Seq<RequestNode<T>>;

    closed spec fn view(&self) -> Seq<RequestNode<T>> {
        self.nodes@
    }
}

impl<T> RequestTracker<T> {
    pub open spec fn wf(&self) -> bool {
        keys_unique(self@) && children_in_range(self@)
    }

    pub fn new() -> (r: Self)
        ensures
            r.wf(),
            r@ == Seq::<RequestNode<T>>::empty(),
    {
        RequestTracker { nodes: Vec::new() }
    }

    pub fn len(&self) -> (r: usize)
        ensures
            r == self@.len(),
    {
        self.nodes.len()
    }

    /// The index of the node with `key`.
    pub fn find(&self, key: u64) -> (r: Option<usize>)
        requires
            self.wf(),
        ensures
            match r {
                Some(i) => index_of_key(self@, key) == Some(i as int),
                None => index_of_key(self@, key) is None,
            },
    {
        let mut i: usize = 0;
        while i < self.nodes.len()
            invariant
                self.wf(),
                0 <= i <= self@.len(),
                forall|j: int| 0 <= j < i ==> self@[j].key != key,
            decreases self@.len() - i,
        {
            if self.nodes[i].key == key {
                proof {
                    let k = choose|k: int| 0 <= k < self@.len() && self@[k].key == key;
                    assert(self@[k].key == key);
                    assert(self@[i as int].key == key);
                }
                return Some(i);
            }
            i += 1;
        }
        None
    }

    /// The result that a request with `key` may reuse in this build.
    pub fn cached(&self, key: u64) -> (r: Option<&T>)
        requires
            self.wf(),
        ensures
            match r {
                Some(v) => cached_result(self@, key) == Some(*v),
                None => cached_result(self@, key) is None,
            },
    {
        match self.find(key) {
            Some(i) => {
                let n = &self.nodes[i];
                if n.dirty {
                    None
                } else {
                    match &n.result {
                        Some(v) => Some(v),
                        None => None,
                    }
                }
            },
            None => None,
        }
    }

    /// Stores the outcome of a run of the request with `key`, clean, in place
    /// of any earlier one; returns its index.
    pub fn record(
        &mut self,
        key: u64,
        result: Option<T>,
        invalidations: Vec<Invalidation>,
        children: Vec<usize>,
    ) -> (r: usize)
        requires
            old(self).wf(),
            forall|c: int| 0 <= c < children@.len() ==> #[trigger] children@[c] < old(self)@.len(),
        ensures
            final(self).wf(),
            final(self)@[r as int] == (RequestNode { key, result, invalidations, children, dirty: false }),
            cached_result(final(self)@, key) == result,
            forall|k: u64| k != key ==> #[trigger] cached_result(final(self)@, k) == cached_result(old(self)@, k),
            match index_of_key(old(self)@, key) {
                Some(i) => r == i && final(self)@ == old(self)@.update(i, final(self)@[i]),
                None => r == old(self)@.len() && final(self)@ == old(self)@.push(final(self)@[r as int]),
            },
    {
        let ghost kids = children@;
        let ghost res = result;
        let node = RequestNode { key, result, invalidations, children, dirty: false };
        match self.find(key) {
            Some(i) => {
                self.nodes.remove(i);
                self.nodes.insert(i, node);
                proof {
                    assert(self@ =~= old(self)@.update(i as int, self@[i as int]));
                    assert forall|a: int, b: int|
                        0 <= a < self@.len() && 0 <= b < self@.len() && a != b implies self@[a].key
                        != self@[b].key by {
                        if a != i && b != i {
                            assert(self@[a] == old(self)@[a] && self@[b] == old(self)@[b]);
                        } else if a == i {
                            assert(self@[b] == old(self)@[b]);
                        } else {
                            assert(self@[a] == old(self)@[a]);
                        }
                    }
                    assert forall|x: int, c: int|
                        0 <= x < self@.len() && 0 <= c < self@[x].children@.len() implies #[trigger] self@[x].children@[c]
                        < self@.len() by {
                        if x != i {
                            assert(self@[x] == old(self)@[x]);
                            assert(old(self)@[x].children@[c] < old(self)@.len());
                        } else {
                            assert(self@[x].children@ == kids);
                            assert(kids[c] < old(self)@.len());
                        }
                    }
                    lemma_unique_index(self@, key, i as int);
                    assert(self@[i as int].result == res);
                    assert forall|k: u64| k != key implies #[trigger] cached_result(self@, k) == cached_result(old(self)@, k) by {
                        lemma_cached_kept(old(self)@, self@, key, k);
                    }
                }
                i
            },
            None => {
                let r = self.nodes.len();
                self.nodes.push(node);
                proof {
                    assert forall|a: int, b: int|
                        0 <= a < self@.len() && 0 <= b < self@.len() && a != b implies self@[a].key
                        != self@[b].key by {
                        if a < r && b < r {
                            assert(self@[a] == old(self)@[a] && self@[b] == old(self)@[b]);
                        } else if a < r {
                            assert(self@[a] == old(self)@[a]);
                            assert(old(self)@[a].key != key);
                        } else {
                            assert(self@[b] == old(self)@[b]);
                            assert(old(self)@[b].key != key);
                        }
                    }
                    assert forall|x: int, c: int|
                        0 <= x < self@.len() && 0 <= c < self@[x].children@.len() implies #[trigger] self@[x].children@[c]
                        < self@.len() by {
                        if x < r {
                            assert(self@[x] == old(self)@[x]);
                            assert(old(self)@[x].children@[c] < old(self)@.len());
                        } else {
                            assert(self@[x].children@ == kids);
                            assert(kids[c] < old(self)@.len());
                        }
                    }
                    lemma_unique_index(self@, key, r as int);
                    assert(self@[r as int].result == res);
                    assert forall|k: u64| k != key implies #[trigger] cached_result(self@, k) == cached_result(old(self)@, k) by {
                        lemma_cached_kept(old(self)@, self@, key, k);
                    }
                }
                r
            },
        }
    }
    /// Starts a new build: marks dirty every request that an event hits, and
    /// every request from which a path of child edges leads to a dirty one.
    pub fn next_build(&mut self, events: &Vec<FileEvent>)
        requires
            old(self).wf(),
        ensures
            final(self).wf(),
            after_events(old(self)@, events@, final(self)@),
    {
        let n = self.nodes.len();
        let ghost nodes = self@;
        let mut flags: Vec<bool> = Vec::new();
        let mut i: usize = 0;
        while i < n
            invariant
                n == nodes.len(),
                self@ == nodes,
                0 <= i <= n,
                flags@.len() == i,
                forall|j: int| 0 <= j < i ==> flags@[j] == seeds(nodes, events@)[j],
            decreases n - i,
        {
            let f = self.nodes[i].dirty || node_hit(&self.nodes[i], events);
            flags.push(f);
            i += 1;
        }
        assert(flags@ =~= reaches(nodes, events@, 0));
        let mut k: usize = 0;
        while k < n
            invariant
                n == nodes.len(),
                self@ == nodes,
                children_in_range(nodes),
                0 <= k <= n,
                flags@.len() == n,
                flags@ == reaches(nodes, events@, k as nat),
            decreases n - k,
        {
            let mut next: Vec<bool> = Vec::new();
            let mut i: usize = 0;
            while i < n
                invariant
                    n == nodes.len(),
                    self@ == nodes,
                    children_in_range(nodes),
                    0 <= i <= n,
                    flags@.len() == n,
                    flags@ == reaches(nodes, events@, k as nat),
                    next@.len() == i,
                    forall|j: int| 0 <= j < i ==> next@[j] == advance(nodes, flags@)[j],
                decreases n - i,
            {
                let children = &self.nodes[i].children;
                proof {
                    assert forall|c: int| 0 <= c < children@.len() implies #[trigger] children@[c]
                        < flags@.len() by {
                        assert(nodes[i as int].children@[c] < nodes.len());
                    }
                }
                let from_child = any_child_flagged(children, &flags);
                let v = flags[i] || from_child;
                proof {
                    let j = i as int;
                    assert(children@ == nodes[j].children@);
                    if from_child {
                        let c = choose|c: int|
                            0 <= c < children@.len() && #[trigger] flags@[children@[c] as int];
                        assert(flags@[nodes[j].children@[c] as int]);
                    }
                    assert(v == advance(nodes, flags@)[j]);
                }
                next.push(v);
                i += 1;
            }
            proof {
                assert(next@ =~= advance(nodes, flags@));
                assert(reaches(nodes, events@, (k + 1) as nat) == advance(nodes, reaches(nodes, events@, k as nat)));
            }
            flags = next;
            k += 1;
        }
        let mut i: usize = 0;
        while i < n
            invariant
                n == nodes.len(),
                self@.len() == n,
                keys_unique(nodes),
                children_in_range(nodes),
                0 <= i <= n,
                flags@.len() == n,
                flags@ == reaches(nodes, events@, n as nat),
                forall|j: int|
                    0 <= j < n ==> {
                        &&& (#[trigger] self@[j]).key == nodes[j].key
                        &&& self@[j].result == nodes[j].result
                        &&& self@[j].invalidations == nodes[j].invalidations
                        &&& self@[j].children == nodes[j].children
                        &&& self@[j].dirty == if j < i {
                            flags@[j]
                        } else {
                            nodes[j].dirty
                        }
                    },
            decreases n - i,
        {
            self.nodes[i].dirty = flags[i];
            i += 1;
        }
        proof {
            assert forall|a: int, b: int|
                0 <= a < self@.len() && 0 <= b < self@.len() && a != b implies self@[a].key
                != self@[b].key by {
                assert(self@[a].key == nodes[a].key && self@[b].key == nodes[b].key);
            }
            assert forall|x: int, c: int|
                0 <= x < self@.len() && 0 <= c < self@[x].children@.len() implies #[trigger] self@[x].children@[c]
                < self@.len() by {
                assert(self@[x].children == nodes[x].children);
                assert(nodes[x].children@[c] < nodes.len());
            }
        }
    }
}

} // verus!
