//! The record cache: owner name to the set of records held for it.
use vstd::prelude::*;

use crate::message::records_view;
use crate::name::Name;
use crate::record::{record_key, RecordView, ResourceRecord};
use crate::record_type::{type_code, RecordType};

verus! {

/// The cache's entries: each owner's text with the records held for it.
pub type CacheView = Seq<(Seq<char>, Seq<RecordView>)>;

/// The position of the last entry for owner `n`, or -1.
pub open spec fn owner_pos(es: CacheView, n: Seq<char>) -> int
    decreases es.len(),
{
    if es.len() == 0 {
        -1
    } else if es.last().0 == n {
        es.len() - 1
    } else {
        owner_pos(es.drop_last(), n)
    }
}

/// The records held for owner `n`, if any were ever inserted for it.
pub open spec fn lookup(es: CacheView, n: Seq<char>) -> Option<Seq<RecordView>> {
    if owner_pos(es, n) >= 0 {
        Some(es[owner_pos(es, n)].1)
    } else {
        None
    }
}

/// The position of the last record with the same key as `r`, or -1.
pub open spec fn key_pos(set: Seq<RecordView>, r: RecordView) -> int
    decreases set.len(),
{
    if set.len() == 0 {
        -1
    } else if record_key(set.last()) == record_key(r) {
        set.len() - 1
    } else {
        key_pos(set.drop_last(), r)
    }
}

/// A set with `r` put in: it replaces the record with the same key (so its
/// time to live is refreshed), or is added at the end.
pub open spec fn upsert(set: Seq<RecordView>, r: RecordView) -> Seq<RecordView> {
    if key_pos(set, r) >= 0 {
        set.update(key_pos(set, r), r)
    } else {
        set.push(r)
    }
}

/// A set with each of `rs` put in, in order.
pub open spec fn upsert_all(set: Seq<RecordView>, rs: Seq<RecordView>) -> Seq<RecordView>
    decreases rs.len(),
{
    if rs.len() == 0 {
        set
    } else {
        upsert(upsert_all(set, rs.drop_last()), rs.last())
    }
}

/// The entries after inserting `r` for owner `n`.
pub open spec fn cache_insert(es: CacheView, n: Seq<char>, r: RecordView) -> CacheView {
    if owner_pos(es, n) >= 0 {
        es.update(owner_pos(es, n), (n, upsert(es[owner_pos(es, n)].1, r)))
    } else {
        es.push((n, seq![r]))
    }
}

/// The records of type `t` among `rs`, in order.
pub open spec fn of_type(rs: Seq<RecordView>, t: u16) -> Seq<RecordView>
    decreases rs.len(),
{
    if rs.len() == 0 {
        seq![]
    } else if rs.last().1 == t {
        of_type(rs.drop_last(), t).push(rs.last())
    } else {
        of_type(rs.drop_last(), t)
    }
}

proof fn lemma_owner_pos_range(es: CacheView, n: Seq<char>)
    ensures
        -1 <= owner_pos(es, n) < es.len(),
        owner_pos(es, n) >= 0 ==> es[owner_pos(es, n)].0 == n,
    decreases es.len(),
{
    if es.len() > 0 && es.last().0 != n {
        lemma_owner_pos_range(es.drop_last(), n);
    }
}

proof fn lemma_key_pos_range(set: Seq<RecordView>, r: RecordView)
    ensures
        -1 <= key_pos(set, r) < set.len(),
        key_pos(set, r) >= 0 ==> record_key(set[key_pos(set, r)]) == record_key(r),
    decreases set.len(),
{
    if set.len() > 0 && record_key(set.last()) != record_key(r) {
        lemma_key_pos_range(set.drop_last(), r);
    }
}

/// Inserting into one owner's set leaves every other owner's records as they were.
pub proof fn lemma_cache_insert(es: CacheView, n: Seq<char>, r: RecordView, m: Seq<char>)
    ensures
        lookup(cache_insert(es, n, r), m) == if m == n {
            Some(
                upsert(
                    match lookup(es, n) {
                        Some(s) => s,
                        None => seq![],
                    },
                    r,
                ),
            )
        } else {
            lookup(es, m)
        },
    decreases es.len(),
{
    lemma_owner_pos_range(es, n);
    lemma_owner_pos_range(es, m);
    let es2 = cache_insert(es, n, r);
    if owner_pos(es, n) < 0 {
        assert(es2.drop_last() =~= es);
        assert(key_pos(seq![], r) == -1);
        assert(upsert(seq![], r) =~= seq![r]);
    } else {
        let p = owner_pos(es, n);
        lemma_owner_pos_update(es, p, (n, upsert(es[p].1, r)), m);
    }
}

proof fn lemma_owner_pos_update(es: CacheView, p: int, e: (Seq<char>, Seq<RecordView>), m: Seq<char>)
    requires
        0 <= p < es.len(),
        es[p].0 == e.0,
    ensures
        owner_pos(es.update(p, e), m) == owner_pos(es, m),
    decreases es.len(),
{
    let es2 = es.update(p, e);
    if es.len() > 0 {
        if p == es.len() - 1 {
            assert(es2.drop_last() =~= es.drop_last());
        } else {
            assert(es2.drop_last() =~= es.drop_last().update(p, e));
            lemma_owner_pos_update(es.drop_last(), p, e, m);
        }
    }
}

/// Putting in a record and then another with the same key leaves the set as
/// putting in only the second: the later time to live wins, and one copy stays.
pub proof fn lemma_upsert_same_key(set: Seq<RecordView>, r1: RecordView, r2: RecordView)
    requires
        record_key(r1) == record_key(r2),
    ensures
        upsert(upsert(set, r1), r2) == upsert(set, r2),
        upsert(upsert(seq![], r1), r2) == seq![r2],
{
    lemma_key_pos_range(set, r1);
    lemma_key_pos_range(set, r2);
    lemma_key_pos_same(set, r1, r2);
    let s1 = upsert(set, r1);
    if key_pos(set, r1) >= 0 {
        lemma_key_pos_update(set, key_pos(set, r1), r1, r2);
        assert(upsert(s1, r2) =~= upsert(set, r2));
    } else {
        assert(s1.drop_last() =~= set);
        assert(key_pos(s1, r2) == set.len());
        assert(upsert(s1, r2) =~= upsert(set, r2));
    }
    assert(key_pos(seq![], r1) == -1);
    let e1 = upsert(seq![], r1);
    assert(e1 =~= seq![r1]);
    assert(e1.drop_last() =~= Seq::<RecordView>::empty());
    assert(key_pos(e1, r2) == 0);
    assert(upsert(e1, r2) =~= seq![r2]);
}

proof fn lemma_key_pos_same(set: Seq<RecordView>, r1: RecordView, r2: RecordView)
    requires
        record_key(r1) == record_key(r2),
    ensures
        key_pos(set, r1) == key_pos(set, r2),
    decreases set.len(),
{
    if set.len() > 0 {
        lemma_key_pos_same(set.drop_last(), r1, r2);
    }
}

proof fn lemma_key_pos_update(set: Seq<RecordView>, p: int, r1: RecordView, r2: RecordView)
    requires
        0 <= p < set.len(),
        record_key(set[p]) == record_key(r1),
        record_key(r1) == record_key(r2),
    ensures
        key_pos(set.update(p, r1), r2) == key_pos(set, r2),
    decreases set.len(),
{
    let s2 = set.update(p, r1);
    if p == set.len() - 1 {
        assert(s2.drop_last() =~= set.drop_last());
    } else {
        assert(s2.drop_last() =~= set.drop_last().update(p, r1));
        lemma_key_pos_update(set.drop_last(), p, r1, r2);
    }
}

/// No two records of a set share a key.
pub open spec fn set_distinct(set: Seq<RecordView>) -> bool {
    forall|i: int, j: int| 0 <= i < j < set.len() ==> record_key(set[i]) != record_key(set[j])
}

/// No owner has two entries, and each owner's set holds one record per key.
pub open spec fn cache_distinct(es: CacheView) -> bool {
    &&& forall|i: int, j: int| 0 <= i < j < es.len() ==> es[i].0 != es[j].0
    &&& forall|i: int| 0 <= i < es.len() ==> set_distinct(#[trigger] es[i].1)
}

proof fn lemma_key_pos_absent(set: Seq<RecordView>, r: RecordView)
    ensures
        key_pos(set, r) < 0 ==> forall|i: int| 0 <= i < set.len() ==> record_key(#[trigger] set[i]) != record_key(r),
    decreases set.len(),
{
    if set.len() > 0 && record_key(set.last()) != record_key(r) {
        lemma_key_pos_absent(set.drop_last(), r);
        if key_pos(set, r) < 0 {
            assert forall|i: int| 0 <= i < set.len() implies record_key(#[trigger] set[i]) != record_key(r) by {
                if i < set.len() - 1 {
                    assert(set[i] == set.drop_last()[i]);
                }
            }
        }
    }
}

proof fn lemma_owner_pos_absent(es: CacheView, n: Seq<char>)
    ensures
        owner_pos(es, n) < 0 ==> forall|i: int| 0 <= i < es.len() ==> (#[trigger] es[i]).0 != n,
    decreases es.len(),
{
    if es.len() > 0 && es.last().0 != n {
        lemma_owner_pos_absent(es.drop_last(), n);
        if owner_pos(es, n) < 0 {
            assert forall|i: int| 0 <= i < es.len() implies (#[trigger] es[i]).0 != n by {
                if i < es.len() - 1 {
                    assert(es[i] == es.drop_last()[i]);
                }
            }
        }
    }
}

proof fn lemma_upsert_distinct(set: Seq<RecordView>, r: RecordView)
    requires
        set_distinct(set),
    ensures
        set_distinct(upsert(set, r)),
{
    lemma_key_pos_range(set, r);
    lemma_key_pos_absent(set, r);
}

/// Inserting keeps owners unique and one record per key in every set.
pub proof fn lemma_cache_insert_distinct(es: CacheView, n: Seq<char>, r: RecordView)
    requires
        cache_distinct(es),
    ensures
        cache_distinct(cache_insert(es, n, r)),
{
    lemma_owner_pos_range(es, n);
    lemma_owner_pos_absent(es, n);
    let es2 = cache_insert(es, n, r);
    if owner_pos(es, n) >= 0 {
        let p = owner_pos(es, n);
        lemma_upsert_distinct(es[p].1, r);
        assert forall|i: int| 0 <= i < es2.len() implies set_distinct(#[trigger] es2[i].1) by {
            if i != p {
                assert(es2[i] == es[i]);
            }
        }
    } else {
        assert(set_distinct(seq![r]));
        assert forall|i: int| 0 <= i < es2.len() implies set_distinct(#[trigger] es2[i].1) by {
            if i < es.len() {
                assert(es2[i] == es[i]);
            }
        }
    }
}

/// After an insert for owner `n`, the cache holds records for `n`, and for
/// every owner it held records for before.
pub proof fn lemma_insert_keeps_owners(es: CacheView, n: Seq<char>, r: RecordView, m: Seq<char>)
    ensures
        lookup(cache_insert(es, n, r), n) is Some,
        lookup(es, m) is Some ==> lookup(cache_insert(es, n, r), m) is Some,
{
    lemma_cache_insert(es, n, r, n);
    lemma_cache_insert(es, n, r, m);
}

pub proof fn lemma_insert_all_keeps_owners(es: CacheView, n: Seq<char>, rs: Seq<RecordView>, m: Seq<char>)
    ensures
        lookup(es, m) is Some ==> lookup(cache_insert_all(es, n, rs), m) is Some,
    decreases rs.len(),
{
    if rs.len() > 0 {
        lemma_insert_all_keeps_owners(es, n, rs.drop_last(), m);
        lemma_insert_keeps_owners(cache_insert_all(es, n, rs.drop_last()), n, rs.last(), m);
    }
}

/// The cache after inserting each `(owner, record)` of `ops` in order, from empty.
pub open spec fn replay(ops: Seq<(Seq<char>, RecordView)>) -> CacheView
    decreases ops.len(),
{
    if ops.len() == 0 {
        seq![]
    } else {
        cache_insert(replay(ops.drop_last()), ops.last().0, ops.last().1)
    }
}

/// Looking up an owner finds nothing exactly when no record was inserted
/// for it.
pub proof fn lemma_lookup_none_iff_never_inserted(ops: Seq<(Seq<char>, RecordView)>, n: Seq<char>)
    ensures
        lookup(replay(ops), n) is None <==> forall|i: int| 0 <= i < ops.len() ==> #[trigger] ops[i].0
            != n,
    decreases ops.len(),
{
    if ops.len() > 0 {
        let prev = ops.drop_last();
        lemma_lookup_none_iff_never_inserted(prev, n);
        lemma_cache_insert(replay(prev), ops.last().0, ops.last().1, n);
        if ops.last().0 != n {
            assert forall|i: int| 0 <= i < ops.len() && (forall|j: int| 0 <= j < prev.len() ==> #[trigger] prev[j].0 != n) implies #[trigger] ops[i].0 != n by {
                if i < prev.len() {
                    assert(ops[i] == prev[i]);
                }
            }
            assert((forall|i: int| 0 <= i < ops.len() ==> #[trigger] ops[i].0 != n) ==> (forall|j: int| 0 <= j < prev.len() ==> #[trigger] prev[j].0 != n)) by {
                if forall|i: int| 0 <= i < ops.len() ==> #[trigger] ops[i].0 != n {
                    assert forall|j: int| 0 <= j < prev.len() implies #[trigger] prev[j].0 != n by {
                        assert(prev[j] == ops[j]);
                    }
                }
            }
        } else {
            assert(ops[ops.len() - 1].0 == n);
        }
    }
}

/// The entries after inserting each of `rs` for owner `n`, in order.
pub open spec fn cache_insert_all(es: CacheView, n: Seq<char>, rs: Seq<RecordView>) -> CacheView
    decreases rs.len(),
{
    if rs.len() == 0 {
        es
    } else {
        cache_insert(cache_insert_all(es, n, rs.drop_last()), n, rs.last())
    }
}

fn upsert_record(set: &mut Vec<ResourceRecord>, record: ResourceRecord)
    ensures
        records_view(final(set)@) == upsert(records_view(old(set)@), record@),
{
    let ghost sv = records_view(set@);
    let ghost rv = record@;
    let mut j: usize = set.len();
    assert(sv.subrange(0, j as int) =~= sv);
    while j > 0
        invariant
            j <= set@.len(),
            set@ == old(set)@,
            sv == records_view(set@),
            rv == record@,
            key_pos(sv, rv) == key_pos(sv.subrange(0, j as int), rv),
        decreases j,
    {
        let ghost pre = sv.subrange(0, j as int);
        assert(pre.drop_last() =~= sv.subrange(0, j - 1));
        if set[j - 1] == record {
            assert(key_pos(sv, rv) == j - 1);
            let ghost before = set@;
            set[j - 1] = record;
            assert(set@ == before.update(j - 1, record));
            assert(records_view(set@) =~= upsert(sv, rv));
            assert(records_view(set@) == upsert(records_view(old(set)@), record@));
            return;
        }
        j = j - 1;
    }
    assert(key_pos(sv, rv) == -1);
    set.push(record);
    assert(records_view(set@) =~= upsert(sv, rv));
}

/// Owner names with the records held for each. Records with the same owner,
/// type, class and data are one record: inserting again refreshes its time
/// to live.
pub struct Cache {
    entries: Vec<(Name, Vec<ResourceRecord>)>,
}

impl View for Cache {
    type V = CacheView;

    closed spec fn view(&self) -> CacheView {
        Seq::new(
            self.entries@.len(),
            |i: int| (self.entries@[i].0@, records_view(self.entries@[i].1@)),
        )
    }
}

impl Cache {
    pub fn new() -> (r: Cache)
        ensures
            r@ == Seq::<(Seq<char>, Seq<RecordView>)>::empty(),
            cache_distinct(r@),
    {
        let c = Cache { entries: Vec::new() };
        assert(c@ =~= Seq::<(Seq<char>, Seq<RecordView>)>::empty());
        c
    }

    fn find_owner(&self, name: &Name) -> (r: Option<usize>)
        ensures
            owner_pos(self@, name@) >= 0 <==> r is Some,
            r matches Some(i) ==> i < self.entries@.len() && i as int == owner_pos(self@, name@),
    {
        let ghost es = self@;
        let mut j: usize = self.entries.len();
        assert(es.subrange(0, j as int) =~= es);
        while j > 0
            invariant
                j <= self.entries@.len(),
                es == self@,
                owner_pos(es, name@) == owner_pos(es.subrange(0, j as int), name@),
            decreases j,
        {
            assert(es.subrange(0, j as int).drop_last() =~= es.subrange(0, j - 1));
            if self.entries[j - 1].0 == *name {
                return Some(j - 1);
            }
            j = j - 1;
        }
        None
    }

    /// Inserts `record` into the set held for `name`, replacing the record
    /// with the same key.
    pub fn insert_record(&mut self, name: Name, record: ResourceRecord)
        ensures
            final(self)@ == cache_insert(old(self)@, name@, record@),
            cache_distinct(old(self)@) ==> cache_distinct(final(self)@),
    {
        let ghost es = self@;
        proof {
            if cache_distinct(es) {
                lemma_cache_insert_distinct(es, name@, record@);
            }
        }
        let ghost nv = name@;
        let ghost rv = record@;
        proof {
            lemma_owner_pos_range(es, nv);
        }
        match self.find_owner(&name) {
            Some(i) => {
                let ghost old_entries = self.entries@;
                let (owner, mut set) = self.entries.remove(i);
                upsert_record(&mut set, record);
                self.entries.insert(i, (owner, set));
                proof {
                    assert(owner@ == old_entries[i as int].0@);
                    assert(es[i as int].1 == records_view(old_entries[i as int].1@));
                    assert(self.entries@ =~= old_entries.update(i as int, self.entries@[i as int]));
                    assert(self@ =~= cache_insert(es, nv, rv));
                }
            },
            None => {
                let mut set: Vec<ResourceRecord> = Vec::new();
                set.push(record);
                self.entries.push((name, set));
                proof {
                    assert(records_view(set@) =~= seq![rv]);
                    assert(self@ =~= cache_insert(es, nv, rv));
                }
            },
        }
    }

    /// Inserts each of `records`, in order, into the set held for `name`.
    pub fn insert_records(&mut self, name: Name, records: Vec<ResourceRecord>)
        ensures
            final(self)@ == cache_insert_all(old(self)@, name@, records_view(records@)),
            cache_distinct(old(self)@) ==> cache_distinct(final(self)@),
    {
        let ghost start = self@;
        let ghost rs = records_view(records@);
        let mut i: usize = 0;
        while i < records.len()
            invariant
                i <= records@.len(),
                rs == records_view(records@),
                self@ == cache_insert_all(start, name@, rs.subrange(0, i as int)),
                cache_distinct(start) ==> cache_distinct(self@),
            decreases records@.len() - i,
        {
            assert(rs.subrange(0, i + 1).drop_last() =~= rs.subrange(0, i as int));
            self.insert_record(name.clone(), records[i].clone());
            i = i + 1;
        }
        assert(rs.subrange(0, i as int) =~= rs);
    }

    /// The records held for `name`, if any were inserted for it.
    pub fn get_record_set(&self, name: &Name) -> (r: Option<&Vec<ResourceRecord>>)
        ensures
            r matches Some(v) ==> lookup(self@, name@) == Some(records_view(v@)),
            r is None <==> lookup(self@, name@) is None,
    {
        proof {
            lemma_owner_pos_range(self@, name@);
        }
        match self.find_owner(name) {
            Some(i) => {
                proof {
                    assert(self@[i as int].1 == records_view(self.entries@[i as int].1@));
                    assert(owner_pos(self@, name@) == i as int);
                    assert(lookup(self@, name@) == Some(self@[i as int].1));
                }
                Some(&self.entries[i].1)
            },
            None => None,
        }
    }

    /// Copies of the records of type `t` held for `name`.
    pub fn get_records_by_type(&self, name: &Name, t: RecordType) -> (r: Vec<ResourceRecord>)
        ensures
            records_view(r@) == of_type(
                match lookup(self@, name@) {
                    Some(s) => s,
                    None => seq![],
                },
                type_code(t),
            ),
    {
        let code = t.to_int();
        let mut out: Vec<ResourceRecord> = Vec::new();
        match self.get_record_set(name) {
            Some(set) => {
                let ghost sv = records_view(set@);
                let mut i: usize = 0;
                while i < set.len()
                    invariant
                        i <= set@.len(),
                        sv == records_view(set@),
                        code == type_code(t),
                        records_view(out@) == of_type(sv.subrange(0, i as int), code),
                    decreases set@.len() - i,
                {
                    assert(sv.subrange(0, i + 1).drop_last() =~= sv.subrange(0, i as int));
                    if set[i].type_ == code {
                        let ghost before = records_view(out@);
                        out.push(set[i].clone());
                        assert(records_view(out@) =~= before.push(sv[i as int]));
                    }
                    i = i + 1;
                }
                assert(sv.subrange(0, i as int) =~= sv);
            },
            None => {
                assert(records_view(out@) =~= seq![]);
            },
        }
        out
    }
}

} // verus!
