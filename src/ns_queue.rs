//! The nameserver queue: candidate hosts by how many labels of the target
//! name their zone matches, deepest first.
use vstd::multiset::Multiset;
use vstd::prelude::*;

use indexmap::IndexSet;

use crate::host::{is_resolved, Host, HostView};

verus! {

#[verifier::external_type_specification]
#[verifier::external_body]
#[verifier::reject_recursive_types(T)]
#[verifier::reject_recursive_types(S)]
pub struct ExIndexSet<T, S>(IndexSet<T, S>);

/// The values of an index set, in their order.
pub uninterp spec fn index_set_items(s: IndexSet<usize>) -> Seq<usize>;

/// Relies on `IndexSet::new`: a set with no values.
#[verifier::external_body]
fn index_set_new() -> (r: IndexSet<usize>)
    ensures
        index_set_items(r) == Seq::<usize>::empty(),
{
    IndexSet::new()
}

/// Relies on `IndexSet::len`: the number of values.
#[verifier::external_body]
fn index_set_len(s: &IndexSet<usize>) -> (r: usize)
    ensures
        r == index_set_items(*s).len(),
{
    s.len()
}

/// Relies on `IndexSet::insert`: a value not yet present goes at the end; a
/// present one leaves the set as it was.
#[verifier::external_body]
fn index_set_insert(s: &mut IndexSet<usize>, v: usize) -> (r: bool)
    ensures
        r == !index_set_items(*old(s)).contains(v),
        r ==> index_set_items(*final(s)) == index_set_items(*old(s)).push(v),
        !r ==> index_set_items(*final(s)) == index_set_items(*old(s)),
{
    s.insert(v)
}

/// Relies on `IndexSet::get_index`: the value at a position.
#[verifier::external_body]
fn index_set_get(s: &IndexSet<usize>, i: usize) -> (r: Option<usize>)
    ensures
        i < index_set_items(*s).len() ==> r == Some(index_set_items(*s)[i as int]),
        i >= index_set_items(*s).len() ==> r is None,
{
    s.get_index(i).copied()
}

/// Relies on `IndexSet::swap_remove_index`: the value at a position leaves
/// and the last value takes its place.
#[verifier::external_body]
fn index_set_swap_remove(s: &mut IndexSet<usize>, i: usize) -> (r: Option<usize>)
    ensures
        i < index_set_items(*old(s)).len() ==> r == Some(index_set_items(*old(s))[i as int])
            && index_set_items(*final(s)) == index_set_items(*old(s)).update(
            i as int,
            index_set_items(*old(s)).last(),
        ).drop_last(),
        i >= index_set_items(*old(s)).len() ==> r is None && index_set_items(*final(s))
            == index_set_items(*old(s)),
{
    s.swap_remove_index(i)
}

/// Relies on `rand::Rng::gen_range` over `0..n` with the thread's generator:
/// a value below `n` (an empty range panics).
#[verifier::external_body]
fn random_below(n: usize) -> (r: usize)
    requires
        n > 0,
    ensures
        r < n,
{
    rand::Rng::gen_range(&mut rand::thread_rng(), 0..n)
}

/// The last position of level `l` in `levels`, or -1.
pub open spec fn level_pos(levels: Seq<usize>, l: int) -> int
    decreases levels.len(),
{
    if levels.len() == 0 {
        -1
    } else if levels.last() == l {
        levels.len() - 1
    } else {
        level_pos(levels.drop_last(), l)
    }
}

proof fn lemma_level_pos(levels: Seq<usize>, l: int)
    ensures
        -1 <= level_pos(levels, l) < levels.len(),
        level_pos(levels, l) >= 0 ==> levels[level_pos(levels, l)] == l,
        level_pos(levels, l) < 0 ==> forall|k: int| 0 <= k < levels.len() ==> levels[k] != l,
    decreases levels.len(),
{
    if levels.len() > 0 && levels.last() != l {
        lemma_level_pos(levels.drop_last(), l);
        if level_pos(levels, l) < 0 {
            assert forall|k: int| 0 <= k < levels.len() implies levels[k] != l by {
                if k < levels.len() - 1 {
                    assert(levels[k] == levels.drop_last()[k]);
                }
            }
        }
    }
}

proof fn lemma_level_pos_distinct(levels: Seq<usize>, k: int)
    requires
        0 <= k < levels.len(),
        forall|i: int, j: int| 0 <= i < j < levels.len() ==> levels[i] != levels[j],
    ensures
        level_pos(levels, levels[k] as int) == k,
    decreases levels.len(),
{
    if k < levels.len() - 1 {
        assert(levels.last() != levels[k]);
        assert(levels.drop_last()[k] == levels[k]);
        lemma_level_pos_distinct(levels.drop_last(), k);
    }
}

/// The hosts that a list of positions picks from `hosts`.
pub open spec fn picked(items: Seq<usize>, hosts: Seq<Host>) -> Multiset<HostView> {
    items.map_values(|i: usize| hosts[i as int]@).to_multiset()
}

proof fn lemma_picked_extend(items: Seq<usize>, hosts: Seq<Host>, h: Host)
    requires
        forall|j: int| 0 <= j < items.len() ==> #[trigger] items[j] < hosts.len(),
    ensures
        picked(items, hosts.push(h)) == picked(items, hosts),
{
    assert(items.map_values(|i: usize| hosts.push(h)[i as int]@) =~= items.map_values(
        |i: usize| hosts[i as int]@,
    ));
}

proof fn lemma_picked_push(items: Seq<usize>, hosts: Seq<Host>, v: usize)
    requires
        v < hosts.len(),
    ensures
        picked(items.push(v), hosts) == picked(items, hosts).insert(hosts[v as int]@),
{
    let f = |i: usize| hosts[i as int]@;
    assert(items.push(v).map_values(f) =~= items.map_values(f).push(f(v)));
    vstd::seq_lib::to_multiset_build(items.map_values(f), f(v));
}

proof fn lemma_picked_swap_remove(items: Seq<usize>, hosts: Seq<Host>, i: int)
    requires
        0 <= i < items.len(),
    ensures
        picked(items.update(i, items.last()).drop_last(), hosts) == picked(items, hosts).remove(
            hosts[items[i] as int]@,
        ),
        picked(items, hosts).count(hosts[items[i] as int]@) > 0,
{
    let f = |x: usize| hosts[x as int]@;
    let m = items.map_values(f);
    let u = m.update(i, m.last());
    assert(items.update(i, items.last()).drop_last().map_values(f) =~= u.drop_last());
    assert(u.drop_last() =~= u.remove(u.len() - 1));
    vstd::seq_lib::to_multiset_update(m, i, m.last());
    vstd::seq_lib::to_multiset_remove(u, u.len() - 1);
    assert(u[u.len() - 1] == m.last());
    vstd::seq_lib::to_multiset_contains(m, m[i]);
    assert(m.contains(m[i]));
    let ms = m.to_multiset();
    assert(ms.insert(m.last()).remove(m[i]).remove(m.last()) =~= ms.remove(m[i]));
}

proof fn lemma_picked_len(items: Seq<usize>, hosts: Seq<Host>)
    ensures
        picked(items, hosts).len() == items.len(),
{
    vstd::seq_lib::to_multiset_len(items.map_values(|i: usize| hosts[i as int]@));
}

/// The IPv4 addresses of the thirteen root servers, a through m.
pub open spec fn root_v4() -> Seq<Seq<u8>> {
    seq![
        seq![198u8, 41, 0, 4],
        seq![199u8, 9, 14, 201],
        seq![192u8, 33, 4, 12],
        seq![199u8, 7, 91, 13],
        seq![192u8, 203, 230, 10],
        seq![192u8, 5, 5, 241],
        seq![192u8, 112, 36, 4],
        seq![198u8, 97, 190, 53],
        seq![192u8, 36, 148, 17],
        seq![192u8, 58, 128, 30],
        seq![193u8, 0, 14, 129],
        seq![199u8, 7, 83, 42],
        seq![202u8, 12, 27, 33],
    ]
}

/// Whether a pool holds the root servers and nothing else.
pub open spec fn holds_roots(p: Multiset<HostView>) -> bool {
    &&& forall|h: HostView| #[trigger] p.count(h) > 0 ==> root_hosts().contains(h)
    &&& forall|i: int| 0 <= i < 13 ==> #[trigger] p.count(root_hosts()[i]) > 0
}

/// The root servers as hosts known by address only.
pub open spec fn root_hosts() -> Seq<HostView> {
    root_v4().map_values(|a: Seq<u8>| (None::<Seq<char>>, Some(a), None::<Seq<u8>>))
}

/// The root servers' IPv4 addresses.
pub fn root_servers() -> (r: Vec<[u8; 4]>)
    ensures
        r@.len() == 13,
        forall|j: int| 0 <= j < 13 ==> #[trigger] r@[j]@ == root_v4()[j],
{
    let r: Vec<[u8; 4]> = vec![
        [198, 41, 0, 4],
        [199, 9, 14, 201],
        [192, 33, 4, 12],
        [199, 7, 91, 13],
        [192, 203, 230, 10],
        [192, 5, 5, 241],
        [192, 112, 36, 4],
        [198, 97, 190, 53],
        [192, 36, 148, 17],
        [192, 58, 128, 30],
        [193, 0, 14, 129],
        [199, 7, 83, 42],
        [202, 12, 27, 33],
    ];
    assert forall|j: int| 0 <= j < 13 implies #[trigger] r@[j]@ == root_v4()[j] by {
        assert(r@[j]@ =~= root_v4()[j]);
    }
    r
}

/// Candidate nameservers. At each level the resolved hosts (with an address)
/// and the unresolved ones (a name only) are kept apart.
pub struct NsQueue {
    hosts: Vec<Host>,
    levels: Vec<usize>,
    resolved: Vec<IndexSet<usize>>,
    unresolved: Vec<IndexSet<usize>>,
    max_level: usize,
}

/// What inserting `h` at `level` does: the pool it belongs to gains it unless
/// it already waits there, nothing else changes, and the deepest level seen
/// is raised to `level`.
pub open spec fn insert_result(q: NsQueue, q2: NsQueue, h: HostView, level: int) -> bool {
    &&& q2.wf()
    &&& q2.top() == if level > q.top() { level } else { q.top() as int }
    &&& q2.pool(level, is_resolved(h)) == if q.pool(level, is_resolved(h)).count(h) > 0 {
        q.pool(level, is_resolved(h))
    } else {
        q.pool(level, is_resolved(h)).insert(h)
    }
    &&& forall|l: int, res: bool|
        (l != level || res != is_resolved(h)) ==> #[trigger] q2.pool(l, res) == q.pool(l, res)
}

/// What adding a host not yet waiting does: as inserting, with the host added
/// to its pool.
pub open spec fn pushed_result(q: NsQueue, q2: NsQueue, h: HostView, level: int) -> bool {
    &&& q2.wf()
    &&& q2.top() == if level > q.top() { level } else { q.top() as int }
    &&& q2.pool(level, is_resolved(h)) == q.pool(level, is_resolved(h)).insert(h)
    &&& forall|l: int, res: bool|
        (l != level || res != is_resolved(h)) ==> #[trigger] q2.pool(l, res) == q.pool(l, res)
}

/// What a pop does: when no host waits, nothing and no pool changes;
/// otherwise a host from the deepest level that has one, from its resolved
/// pool when that is not empty, taken out of that pool alone.
pub open spec fn pop_result(q: NsQueue, q2: NsQueue, r: Option<HostView>) -> bool {
    &&& q2.wf()
    &&& r is None ==> (forall|l: int| !#[trigger] q.nonempty(l)) && (forall|l: int, res: bool|
        #[trigger] q2.pool(l, res) == q.pool(l, res))
    &&& r matches Some(h) ==> {
        let top = q2.top() as int;
        let b = q.pool(top, true).len() > 0;
        &&& q.is_top(top)
        &&& is_resolved(h) == b
        &&& q.pool(top, b).count(h) > 0
        &&& q2.pool(top, b) == q.pool(top, b).remove(h)
        &&& forall|l: int, res: bool|
            (l != top || res != b) ==> #[trigger] q2.pool(l, res) == q.pool(l, res)
    }
}

pub open spec fn opt_host_view(r: Option<Host>) -> Option<HostView> {
    match r {
        Some(h) => Some(h@),
        None => None,
    }
}

impl NsQueue {
    pub closed spec fn items_at(&self, k: int, res: bool) -> Seq<usize> {
        if res {
            index_set_items(self.resolved@[k])
        } else {
            index_set_items(self.unresolved@[k])
        }
    }

    /// The hosts waiting at `level`, resolved or not.
    pub closed spec fn pool(&self, level: int, res: bool) -> Multiset<HostView> {
        let k = level_pos(self.levels@, level);
        if k < 0 {
            Multiset::empty()
        } else {
            picked(self.items_at(k, res), self.hosts@)
        }
    }

    /// The deepest level that a host has been inserted at since the queue
    /// last ran dry above it.
    pub closed spec fn top(&self) -> usize {
        self.max_level
    }

    pub closed spec fn wf(&self) -> bool {
        &&& self.levels@.len() == self.resolved@.len()
        &&& self.levels@.len() == self.unresolved@.len()
        &&& forall|i: int, j: int|
            0 <= i < j < self.levels@.len() ==> self.levels@[i] != self.levels@[j]
        &&& forall|k: int, j: int, res: bool|
            0 <= k < self.levels@.len() && 0 <= j < self.items_at(k, res).len() ==> #[trigger] self.items_at(k, res)[j]
                < self.hosts@.len() && is_resolved(self.hosts@[self.items_at(k, res)[j] as int]@) == res
        &&& forall|k: int, res: bool|
            0 <= k < self.levels@.len() && self.levels@[k] > self.max_level ==> #[trigger] self.items_at(k, res).len() == 0
    }

    pub open spec fn nonempty(&self, level: int) -> bool {
        self.pool(level, true).len() > 0 || self.pool(level, false).len() > 0
    }

    /// Whether `level` is the deepest level with a host waiting.
    pub open spec fn is_top(&self, level: int) -> bool {
        &&& self.nonempty(level)
        &&& forall|m: int| m > level ==> !#[trigger] self.nonempty(m)
    }

    proof fn lemma_pool_at(&self, l: int, res: bool)
        requires
            self.wf(),
        ensures
            level_pos(self.levels@, l) < 0 ==> self.pool(l, res).len() == 0,
            level_pos(self.levels@, l) >= 0 ==> self.pool(l, res).len() == self.items_at(
                level_pos(self.levels@, l),
                res,
            ).len(),
    {
        lemma_level_pos(self.levels@, l);
        let k = level_pos(self.levels@, l);
        if k >= 0 {
            lemma_picked_len(self.items_at(k, res), self.hosts@);
        }
    }

    fn find_level(&self, level: usize) -> (r: Option<usize>)
        ensures
            level_pos(self.levels@, level as int) >= 0 <==> r is Some,
            r matches Some(k) ==> k as int == level_pos(self.levels@, level as int) && k
                < self.levels@.len(),
    {
        let ghost ls = self.levels@;
        let mut j: usize = self.levels.len();
        assert(ls.subrange(0, j as int) =~= ls);
        while j > 0
            invariant
                j <= ls.len(),
                ls == self.levels@,
                level_pos(ls, level as int) == level_pos(ls.subrange(0, j as int), level as int),
            decreases j,
        {
            assert(ls.subrange(0, j as int).drop_last() =~= ls.subrange(0, j - 1));
            if self.levels[j - 1] == level {
                return Some(j - 1);
            }
            j = j - 1;
        }
        None
    }

    /// The position of the deepest level that has a host waiting.
    fn top_index(&self) -> (r: Option<usize>)
        requires
            self.wf(),
        ensures
            r is None ==> forall|l: int| !#[trigger] self.nonempty(l),
            r matches Some(k) ==> k < self.levels@.len() && self.is_top(self.levels@[k as int] as int)
                && level_pos(self.levels@, self.levels@[k as int] as int) == k,
    {
        let mut best: Option<usize> = None;
        let mut i: usize = 0;
        while i < self.levels.len()
            invariant
                self.wf(),
                i <= self.levels@.len(),
                best matches Some(b) ==> b < i && (self.items_at(b as int, true).len() > 0
                    || self.items_at(b as int, false).len() > 0),
                forall|j: int|
                    0 <= j < i && (self.items_at(j, true).len() > 0 || self.items_at(j, false).len()
                        > 0) ==> (best matches Some(b) && self.levels@[j] <= self.levels@[b as int]),
            decreases self.levels@.len() - i,
        {
            let busy = index_set_len(&self.resolved[i]) > 0 || index_set_len(&self.unresolved[i]) > 0;
            if busy {
                let better = match best {
                    Some(b) => self.levels[i] > self.levels[b],
                    None => true,
                };
                if better {
                    best = Some(i);
                }
            }
            i = i + 1;
        }
        proof {
            match best {
                Some(b) => {
                    let lb = self.levels@[b as int] as int;
                    lemma_level_pos_distinct(self.levels@, b as int);
                    self.lemma_pool_at(lb, true);
                    self.lemma_pool_at(lb, false);
                    assert forall|m: int| m > lb implies !#[trigger] self.nonempty(m) by {
                        self.lemma_pool_at(m, true);
                        self.lemma_pool_at(m, false);
                        lemma_level_pos(self.levels@, m);
                    }
                },
                None => {
                    assert forall|l: int| !#[trigger] self.nonempty(l) by {
                        self.lemma_pool_at(l, true);
                        self.lemma_pool_at(l, false);
                        lemma_level_pos(self.levels@, l);
                    }
                },
            }
        }
        best
    }

    /// Takes a host from the deepest level that has one: a resolved host
    /// when that level has one, else an unresolved one, chosen at random.
    pub fn pop(&mut self) -> (r: Option<Host>)
        requires
            old(self).wf(),
        ensures
            pop_result(*old(self), *final(self), opt_host_view(r)),
    {
        let ghost pre = *self;
        match self.top_index() {
            None => {
                self.max_level = 0;
                proof {
                    assert forall|kk: int, r: bool| 0 <= kk < pre.levels@.len() implies #[trigger] pre.items_at(kk, r).len() == 0 by {
                        lemma_level_pos_distinct(pre.levels@, kk);
                        pre.lemma_pool_at(pre.levels@[kk] as int, r);
                        assert(!pre.nonempty(pre.levels@[kk] as int));
                    }
                    assert forall|l: int, res: bool| #[trigger] self.pool(l, res) == pre.pool(l, res) by {}
                    assert forall|kk: int, r: bool| #[trigger] self.items_at(kk, r) == pre.items_at(kk, r) by {}
                    assert forall|kk: int, j: int, r: bool|
                        0 <= kk < self.levels@.len() && 0 <= j < self.items_at(kk, r).len() implies #[trigger] self.items_at(kk, r)[j]
                            < self.hosts@.len() && is_resolved(self.hosts@[self.items_at(kk, r)[j] as int]@) == r by {
                        assert(pre.items_at(kk, r)[j] < pre.hosts@.len());
                    }
                    assert(self.wf());
                }
                None
            },
            Some(k) => {
                let level = self.levels[k];
                let b = index_set_len(&self.resolved[k]) > 0;
                proof {
                    pre.lemma_pool_at(level as int, true);
                    pre.lemma_pool_at(level as int, false);
                }
                let ghost items = pre.items_at(k as int, b);
                let ghost i: int;
                let taken = if b {
                    let n = index_set_len(&self.resolved[k]);
                    let j = random_below(n);
                    proof {
                        i = j as int;
                    }
                    index_set_swap_remove(&mut self.resolved[k], j)
                } else {
                    let n = index_set_len(&self.unresolved[k]);
                    let j = random_below(n);
                    proof {
                        i = j as int;
                    }
                    index_set_swap_remove(&mut self.unresolved[k], j)
                };
                self.max_level = level;
                let x = match taken {
                    Some(x) => x,
                    None => {
                        return None;
                    },
                };
                proof {
                    assert(x == items[i]);
                    assert(x < pre.hosts@.len());
                }
                let h = self.hosts[x].clone();
                proof {
                    let post = *self;
                    let hv = h@;
                    assert(hv == pre.hosts@[x as int]@);
                    assert(post.items_at(k as int, b) == items.update(i, items.last()).drop_last());
                    lemma_picked_swap_remove(items, pre.hosts@, i);
                    assert forall|kk: int, r: bool| 0 <= kk < post.levels@.len() && (kk != k || r != b) implies #[trigger] post.items_at(kk, r)
                        == pre.items_at(kk, r) by {}
                    assert forall|l: int, res: bool| (l != level || res != b) implies #[trigger] post.pool(l, res)
                        == pre.pool(l, res) by {
                        lemma_level_pos(pre.levels@, l);
                        let p = level_pos(pre.levels@, l);
                        if p >= 0 && l != level {
                            assert(p != k);
                        }
                    }
                    // well-formedness
                    assert forall|kk: int, j: int, r: bool|
                        0 <= kk < post.levels@.len() && 0 <= j < post.items_at(kk, r).len() implies #[trigger] post.items_at(kk, r)[j]
                            < post.hosts@.len() && is_resolved(post.hosts@[post.items_at(kk, r)[j] as int]@) == r by {
                        if kk == k && r == b {
                            let u = items.update(i, items.last());
                            assert(post.items_at(kk, r)[j] == u[j]);
                            if j == i {
                                assert(u[j] == items[items.len() - 1]);
                            } else {
                                assert(u[j] == items[j]);
                            }
                        } else {
                            assert(post.items_at(kk, r)[j] == pre.items_at(kk, r)[j]);
                        }
                    }
                    assert forall|kk: int, r: bool|
                        0 <= kk < post.levels@.len() && post.levels@[kk] > post.max_level implies #[trigger] post.items_at(kk, r).len() == 0 by {
                        lemma_level_pos_distinct(pre.levels@, kk);
                        pre.lemma_pool_at(pre.levels@[kk] as int, r);
                        assert(!pre.nonempty(pre.levels@[kk] as int));
                        assert(kk != k);
                    }
                    assert(pre.pool(level as int, b) =~= picked(items, pre.hosts@));
                    assert(post.wf());
                    assert(pre.is_top(level as int));
                    assert(is_resolved(hv) == b);
                    assert(b == (pre.pool(level as int, true).len() > 0));
                    assert(pre.pool(level as int, b).count(hv) > 0);
                    assert(post.pool(level as int, b) == pre.pool(level as int, b).remove(hv));
                }
                Some(h)
            },
        }
    }

    /// A host that `pop` could take now, left in the queue.
    pub fn peek(&self) -> (r: Option<Host>)
        requires
            self.wf(),
        ensures
            r is None ==> forall|l: int| !#[trigger] self.nonempty(l),
            r matches Some(h) ==> exists|l: int|
                #[trigger] self.is_top(l) && self.pool(l, self.pool(l, true).len() > 0).count(h@) > 0,
    {
        match self.top_index() {
            None => None,
            Some(k) => {
                let level = self.levels[k];
                let b = index_set_len(&self.resolved[k]) > 0;
                proof {
                    self.lemma_pool_at(level as int, true);
                    self.lemma_pool_at(level as int, false);
                }
                let ghost items = self.items_at(k as int, b);
                let n = if b {
                    index_set_len(&self.resolved[k])
                } else {
                    index_set_len(&self.unresolved[k])
                };
                let j = random_below(n);
                let got = if b {
                    index_set_get(&self.resolved[k], j)
                } else {
                    index_set_get(&self.unresolved[k], j)
                };
                match got {
                    Some(x) => {
                        proof {
                            assert(x < self.hosts@.len());
                            lemma_picked_swap_remove(items, self.hosts@, j as int);
                        }
                        let h = self.hosts[x].clone();
                        assert(self.is_top(level as int));
                        Some(h)
                    },
                    None => None,
                }
            },
        }
    }

    /// A queue holding the thirteen root servers, by IPv4 address, at level 0.
    pub fn seeded() -> (r: NsQueue)
        ensures
            r.wf(),
            r.top() == 0,
            holds_roots(r.pool(0, true)),
            forall|l: int, res: bool| (l != 0 || !res) ==> #[trigger] r.pool(l, res) == Multiset::<HostView>::empty(),
    {
        let roots = root_servers();
        let mut q = NsQueue::new();
        let mut i: usize = 0;
        while i < roots.len()
            invariant
                roots@.len() == 13,
                forall|j: int| 0 <= j < 13 ==> #[trigger] roots@[j]@ == root_v4()[j],
                i <= 13,
                q.wf(),
                q.top() == 0,
                forall|h: HostView| #[trigger] q.pool(0, true).count(h) > 0 ==> root_hosts().contains(h),
                forall|j: int| 0 <= j < i ==> #[trigger] q.pool(0, true).count(root_hosts()[j]) > 0,
                forall|l: int, res: bool| (l != 0 || !res) ==> #[trigger] q.pool(l, res) == Multiset::<HostView>::empty(),
            decreases 13 - i,
        {
            let h = Host::from_ipv4(roots[i]);
            let ghost hv = h@;
            let ghost before = q;
            q.insert(h, 0);
            proof {
                assert(hv == root_hosts()[i as int]);
                assert(root_hosts().contains(hv));
                assert forall|x: HostView| #[trigger] q.pool(0, true).count(x) > 0 implies root_hosts().contains(x) by {
                    if x != hv {
                        assert(before.pool(0, true).count(x) > 0);
                    }
                }
                assert forall|j: int| 0 <= j < i + 1 implies #[trigger] q.pool(0, true).count(root_hosts()[j]) > 0 by {
                    if j < i {
                        assert(before.pool(0, true).count(root_hosts()[j]) > 0);
                    }
                }
            }
            i = i + 1;
        }
        q
    }

    /// Whether `host` already waits at `level`.
    pub fn holds(&self, host: &Host, level: usize) -> (r: bool)
        requires
            self.wf(),
        ensures
            r == (self.pool(level as int, is_resolved(host@)).count(host@) > 0),
    {
        let res = host.resolved();
        match self.find_level(level) {
            None => {
                proof {
                    self.lemma_pool_at(level as int, res);
                }
                false
            },
            Some(k) => {
                let ghost items = self.items_at(k as int, res);
                let ghost f = |x: usize| self.hosts@[x as int]@;
                let ghost m = items.map_values(f);
                let n = if res {
                    index_set_len(&self.resolved[k])
                } else {
                    index_set_len(&self.unresolved[k])
                };
                let mut j: usize = 0;
                while j < n
                    invariant
                        j <= n,
                        n == items.len(),
                        k < self.levels@.len(),
                        k as int == level_pos(self.levels@, level as int),
                        items == self.items_at(k as int, res),
                        m == items.map_values(f),
                        f == (|x: usize| self.hosts@[x as int]@),
                        res == is_resolved(host@),
                        self.wf(),
                        forall|jj: int| 0 <= jj < j ==> m[jj] != host@,
                    decreases n - j,
                {
                    let got = if res {
                        index_set_get(&self.resolved[k], j)
                    } else {
                        index_set_get(&self.unresolved[k], j)
                    };
                    match got {
                        Some(x) => {
                            assert(x == items[j as int]);
                            assert(x < self.hosts@.len());
                            if self.hosts[x].same_as(host) {
                                proof {
                                    assert(m[j as int] == host@);
                                    assert(m.contains(host@));
                                    vstd::seq_lib::to_multiset_contains(m, host@);
                                    assert(items.map_values(|i: usize| self.hosts@[i as int]@) =~= m);
                                }
                                return true;
                            }
                        },
                        None => {},
                    }
                    j = j + 1;
                }
                proof {
                    assert(!m.contains(host@));
                    vstd::seq_lib::to_multiset_contains(m, host@);
                    assert(items.map_values(|i: usize| self.hosts@[i as int]@) =~= m);
                }
                false
            },
        }
    }

    /// Adds `host` at `level`, among the resolved hosts if it has an address,
    /// unless it already waits there.
    pub fn insert(&mut self, host: Host, level: usize)
        requires
            old(self).wf(),
        ensures
            insert_result(*old(self), *final(self), host@, level as int),
    {
        if self.holds(&host, level) {
            let ghost pre = *self;
            if level > self.max_level {
                self.max_level = level;
            }
            proof {
                assert forall|kk: int, r: bool| #[trigger] self.items_at(kk, r) == pre.items_at(kk, r) by {}
                assert forall|l: int, res: bool| #[trigger] self.pool(l, res) == pre.pool(l, res) by {}
                assert forall|kk: int, j: int, r: bool|
                    0 <= kk < self.levels@.len() && 0 <= j < self.items_at(kk, r).len() implies #[trigger] self.items_at(kk, r)[j]
                        < self.hosts@.len() && is_resolved(self.hosts@[self.items_at(kk, r)[j] as int]@) == r by {
                    assert(pre.items_at(kk, r)[j] < pre.hosts@.len());
                }
                assert forall|kk: int, r: bool|
                    0 <= kk < self.levels@.len() && self.levels@[kk] > self.max_level implies #[trigger] self.items_at(kk, r).len() == 0 by {
                    assert(pre.levels@[kk] > pre.max_level);
                }
            }
            return;
        }
        self.push_host(host, level);
    }

    fn push_host(&mut self, host: Host, level: usize)
        requires
            old(self).wf(),
        ensures
            pushed_result(*old(self), *final(self), host@, level as int),
    {
        let ghost hv = host@;
        let ghost pre = *self;
        let res = host.resolved();
        let idx = self.hosts.len();
        self.hosts.push(host);
        let k = match self.find_level(level) {
            Some(k) => k,
            None => {
                proof {
                    lemma_level_pos(self.levels@, level as int);
                }
                self.levels.push(level);
                self.resolved.push(index_set_new());
                self.unresolved.push(index_set_new());
                self.levels.len() - 1
            },
        };
        let ghost mid = *self;
        if res {
            index_set_insert(&mut self.resolved[k], idx);
        } else {
            index_set_insert(&mut self.unresolved[k], idx);
        }
        if level > self.max_level {
            self.max_level = level;
        }
        proof {
            let post = *self;
            assert(post.hosts@ == pre.hosts@.push(post.hosts@[idx as int]));
            assert(post.hosts@[idx as int]@ == hv);
            // positions of levels other than `level` are unchanged
            assert forall|l: int| l != level implies level_pos(post.levels@, l) == level_pos(
                pre.levels@,
                l,
            ) by {
                if post.levels@.len() > pre.levels@.len() {
                    assert(post.levels@.drop_last() =~= pre.levels@);
                }
            }
            lemma_level_pos(post.levels@, level as int);
            assert(post.levels@[k as int] == level);
            lemma_level_pos_distinct(post.levels@, k as int);
            assert forall|kk: int| 0 <= kk < pre.levels@.len() implies post.levels@[kk] == pre.levels@[kk] by {}
            // the items of every set
            assert forall|kk: int, r: bool| 0 <= kk < post.levels@.len() implies #[trigger] post.items_at(kk, r)
                == if kk == k && r == res {
                if kk < pre.levels@.len() {
                    pre.items_at(kk, r).push(idx)
                } else {
                    seq![idx]
                }
            } else if kk < pre.levels@.len() {
                pre.items_at(kk, r)
            } else {
                Seq::<usize>::empty()
            } by {
                if kk < pre.levels@.len() {
                    assert(pre.items_at(kk, r).len() >= 0);
                    assert forall|j: int| 0 <= j < pre.items_at(kk, r).len() implies #[trigger] pre.items_at(kk, r)[j] != idx by {
                        assert(pre.items_at(kk, r)[j] < pre.hosts@.len());
                    }
                    assert(!pre.items_at(kk, r).contains(idx));
                } else {
                    assert(mid.items_at(kk, r) == Seq::<usize>::empty());
                    assert(Seq::<usize>::empty().push(idx) =~= seq![idx]);
                }
            }
            // every old set picks the same hosts
            assert forall|kk: int, r: bool| 0 <= kk < pre.levels@.len() implies #[trigger] picked(
                pre.items_at(kk, r),
                post.hosts@,
            ) == picked(pre.items_at(kk, r), pre.hosts@) by {
                assert forall|j: int| 0 <= j < pre.items_at(kk, r).len() implies #[trigger] pre.items_at(kk, r)[j]
                    < pre.hosts@.len() by {}
                lemma_picked_extend(pre.items_at(kk, r), pre.hosts@, post.hosts@[idx as int]);
            }
            // the pools
            assert forall|l: int, r: bool| (l != level || r != res) implies #[trigger] post.pool(l, r)
                == pre.pool(l, r) by {
                lemma_level_pos(pre.levels@, l);
                lemma_level_pos(post.levels@, l);
                let p = level_pos(pre.levels@, l);
                if l != level && p >= 0 {
                    assert(level_pos(post.levels@, l) == p);
                    assert(post.levels@[p] == l);
                    assert(p != k);
                    assert(post.items_at(p, r) == pre.items_at(p, r));
                    assert(picked(pre.items_at(p, r), post.hosts@) == picked(pre.items_at(p, r), pre.hosts@));
                }
                if l == level {
                    if level_pos(pre.levels@, l) >= 0 {
                        lemma_level_pos_distinct(pre.levels@, level_pos(pre.levels@, l));
                        assert(level_pos(pre.levels@, l) == k);
                    } else {
                        assert(post.items_at(k as int, r) == Seq::<usize>::empty());
                        assert(post.items_at(k as int, r).map_values(|i: usize| post.hosts@[i as int]@) =~= Seq::<HostView>::empty());
                        assert(Seq::<HostView>::empty().to_multiset() =~= Multiset::<HostView>::empty()) by {
                            vstd::seq_lib::to_multiset_len(Seq::<HostView>::empty());
                        }
                    }
                }
            }
            let items0 = if k < pre.levels@.len() { pre.items_at(k as int, res) } else { Seq::<usize>::empty() };
            lemma_picked_push(items0, post.hosts@, idx);
            if k < pre.levels@.len() {
                lemma_level_pos_distinct(pre.levels@, k as int);
            } else {
                lemma_level_pos(pre.levels@, level as int);
                assert(seq![idx] =~= Seq::<usize>::empty().push(idx));
                assert(items0.map_values(|i: usize| post.hosts@[i as int]@) =~= Seq::<HostView>::empty());
                vstd::seq_lib::to_multiset_len(Seq::<HostView>::empty());
                assert(picked(items0, post.hosts@) =~= Multiset::<HostView>::empty());
            }
            // well-formedness
            assert forall|i: int, j: int| 0 <= i < j < post.levels@.len() implies post.levels@[i] != post.levels@[j] by {
                if j >= pre.levels@.len() {
                    lemma_level_pos(pre.levels@, level as int);
                }
            }
            assert forall|kk: int, j: int, r: bool|
                0 <= kk < post.levels@.len() && 0 <= j < post.items_at(kk, r).len() implies #[trigger] post.items_at(kk, r)[j]
                    < post.hosts@.len() && is_resolved(post.hosts@[post.items_at(kk, r)[j] as int]@) == r by {
                if kk < pre.levels@.len() && j < pre.items_at(kk, r).len() {
                    assert(post.items_at(kk, r)[j] == pre.items_at(kk, r)[j]);
                    assert(pre.items_at(kk, r)[j] < pre.hosts@.len());
                }
            }
            assert forall|kk: int, r: bool|
                0 <= kk < post.levels@.len() && post.levels@[kk] > post.max_level implies #[trigger] post.items_at(kk, r).len() == 0 by {
                if kk < pre.levels@.len() {
                    assert(pre.levels@[kk] > pre.max_level);
                    assert(pre.items_at(kk, r).len() == 0);
                    assert(kk != k);
                    assert(post.items_at(kk, r) == pre.items_at(kk, r));
                }
            }
        }
    }

    /// The deepest level seen; `pop` takes its host from this level.
    pub fn top_level(&self) -> (r: usize)
        ensures
            r == self.top(),
    {
        self.max_level
    }

    /// An empty queue.
    pub fn new() -> (r: NsQueue)
        ensures
            r.wf(),
            r.top() == 0,
            forall|l: int, res: bool| #[trigger] r.pool(l, res) == Multiset::<HostView>::empty(),
    {
        NsQueue {
            hosts: Vec::new(),
            levels: Vec::new(),
            resolved: Vec::new(),
            unresolved: Vec::new(),
            max_level: 0,
        }
    }
}

proof fn lemma_top_unique(q: NsQueue, a: int, b: int)
    requires
        q.is_top(a),
        q.is_top(b),
    ensures
        a == b,
{
    if a < b {
        assert(!q.nonempty(b));
    } else if b < a {
        assert(!q.nonempty(a));
    }
}

proof fn lemma_above_top_empty(q: NsQueue, l: int, res: bool)
    requires
        q.wf(),
        l > q.top(),
    ensures
        q.pool(l, res).len() == 0,
{
    q.lemma_pool_at(l, res);
    lemma_level_pos(q.levels@, l);
}

/// After `seeded`, a pop takes one of the root servers' addresses, at level 0.
pub proof fn lemma_seeded_pop(q: NsQueue, q2: NsQueue, r: Option<HostView>)
    requires
        q.wf(),
        q.top() == 0,
        holds_roots(q.pool(0, true)),
        forall|l: int, res: bool|
            (l != 0 || !res) ==> #[trigger] q.pool(l, res) == Multiset::<HostView>::empty(),
        pop_result(q, q2, r),
    ensures
        r matches Some(h) && root_hosts().contains(h),
        q2.top() == 0,
{
    assert(q.pool(0, true).count(root_hosts()[0]) > 0);
    vstd::multiset::lemma_multiset_empty_len(q.pool(0, true));
    assert(q.pool(0, true).len() > 0) by {
        if q.pool(0, true).len() == 0 {
            assert(q.pool(0, true) =~= Multiset::<HostView>::empty());
        }
    }
    assert(q.nonempty(0));
    assert(q.is_top(0)) by {
        assert forall|m: int| m > 0 implies !#[trigger] q.nonempty(m) by {
            assert(q.pool(m, true) == Multiset::<HostView>::empty());
            assert(q.pool(m, false) == Multiset::<HostView>::empty());
        }
    }
    match r {
        Some(h) => {
            lemma_top_unique(q, q2.top() as int, 0);
            vstd::seq_lib::to_multiset_contains(root_hosts(), h);
        },
        None => {
            assert(!q.nonempty(0));
        },
    }
}

/// A resolved host inserted deeper than any level seen so far is the next
/// host popped.
pub proof fn lemma_deeper_insert_pops_first(
    q: NsQueue,
    q1: NsQueue,
    q2: NsQueue,
    h: HostView,
    k: int,
    r: Option<HostView>,
)
    requires
        q.wf(),
        k > q.top(),
        is_resolved(h),
        insert_result(q, q1, h, k),
        pop_result(q1, q2, r),
    ensures
        r == Some(h),
        q2.top() == k,
{
    lemma_above_top_empty(q, k, true);
    lemma_above_top_empty(q, k, false);
    assert(q1.pool(k, true) =~= Multiset::<HostView>::empty().insert(h));
    assert(q1.nonempty(k));
    assert(q1.is_top(k)) by {
        assert forall|m: int| m > k implies !#[trigger] q1.nonempty(m) by {
            lemma_above_top_empty(q, m, true);
            lemma_above_top_empty(q, m, false);
        }
    }
    match r {
        Some(h2) => {
            lemma_top_unique(q1, q2.top() as int, k);
            assert(q1.pool(k, true).count(h2) > 0);
        },
        None => {
            assert(!q1.nonempty(k));
        },
    }
}

/// When the deepest level seen holds hosts, all of them unresolved, a pop
/// still takes one of them.
pub proof fn lemma_unresolved_only_pops(q: NsQueue, q2: NsQueue, r: Option<HostView>)
    requires
        q.wf(),
        q.pool(q.top() as int, false).len() > 0,
        q.pool(q.top() as int, true).len() == 0,
        pop_result(q, q2, r),
    ensures
        r matches Some(h) && q.pool(q.top() as int, false).count(h) > 0 && !is_resolved(h),
        q2.top() == q.top(),
{
    assert(q.is_top(q.top() as int)) by {
        assert forall|m: int| m > q.top() implies !#[trigger] q.nonempty(m) by {
            lemma_above_top_empty(q, m, true);
            lemma_above_top_empty(q, m, false);
        }
    }
    match r {
        Some(h) => {
            lemma_top_unique(q, q2.top() as int, q.top() as int);
        },
        None => {
            assert(!q.nonempty(q.top() as int));
        },
    }
}

} // verus!
