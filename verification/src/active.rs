//! The connections that are open: which are new, which changed, which are gone.

use vstd::prelude::*;
use vstd::string::*;
use crate::connection::{ConnectionInfo, ConnectionView};
use crate::event::{ConnectionRecord, RecordView};
use crate::seqs;
use crate::tables;

verus! {

broadcast use vstd::seq_lib::group_seq_properties;

/// The open connections, in the order in which they appeared.
pub struct Active {
    records: Vec<ConnectionRecord>,
}

/// The contents of a list of records.
pub open spec fn record_views(s: Seq<ConnectionRecord>) -> Seq<RecordView> {
    s.map_values(|r: ConnectionRecord| r@)
}

impl View for Active {
    type V = Seq<RecordView>;

    closed spec fn view(&self) -> Seq<RecordView> {
        record_views(self.records@)
    }
}

/// Whether no two of the records have one key.
pub open spec fn distinct_keys(s: Seq<RecordView>) -> bool {
    forall|i: int, j: int|
        0 <= i < j < s.len() ==> (#[trigger] s[i]).conn.key() != (#[trigger] s[j]).conn.key()
}

/// Whether a connection with the key `k` is open.
pub open spec fn is_open(s: Seq<RecordView>, k: Seq<char>) -> bool {
    exists|i: int| 0 <= i < s.len() && (#[trigger] s[i]).conn.key() == k
}

/// Where the connection with the key `k` stands.
pub open spec fn position(s: Seq<RecordView>, k: Seq<char>) -> int {
    choose|i: int| 0 <= i < s.len() && (#[trigger] s[i]).conn.key() == k
}

/// Whether one of `conns` has the key `k`.
pub open spec fn is_listed(conns: Seq<ConnectionView>, k: Seq<char>) -> bool {
    exists|i: int| 0 <= i < conns.len() && (#[trigger] conns[i]).key() == k
}

/// The records of which `conns` does not list the key.
pub open spec fn stale(s: Seq<RecordView>, conns: Seq<ConnectionView>) -> Seq<RecordView> {
    s.filter(|r: RecordView| !is_listed(conns, r.conn.key()))
}

/// The records of which `conns` lists the key.
pub open spec fn fresh(s: Seq<RecordView>, conns: Seq<ConnectionView>) -> Seq<RecordView> {
    s.filter(|r: RecordView| is_listed(conns, r.conn.key()))
}

/// Whether `c` is open and in the state in which it was last seen.
pub open spec fn is_unchanged(s: Seq<RecordView>, c: ConnectionView) -> bool {
    is_open(s, c.key()) && s[position(s, c.key())].conn.state == c.state
}

/// The first position from `i` on whose connection is new or changed; the length of
/// `conns` where there is none.
pub open spec fn next_news(s: Seq<RecordView>, conns: Seq<ConnectionView>, i: int) -> int
    decreases conns.len() - i,
{
    if i >= conns.len() {
        conns.len() as int
    } else if is_unchanged(s, conns[i]) {
        next_news(s, conns, i + 1)
    } else {
        i
    }
}

/// The records with the state of the connection `c` brought up to date.
pub open spec fn with_state(s: Seq<RecordView>, c: ConnectionView) -> Seq<RecordView> {
    let i = position(s, c.key());
    s.update(
        i,
        RecordView { conn: ConnectionView { state: c.state, ..s[i].conn }, ..s[i] },
    )
}

proof fn lemma_position(s: Seq<RecordView>, i: int)
    requires
        distinct_keys(s),
        0 <= i < s.len(),
    ensures
        is_open(s, s[i].conn.key()),
        position(s, s[i].conn.key()) == i,
{
    let k = s[i].conn.key();
    let j = position(s, k);
    assert(0 <= j < s.len() && s[j].conn.key() == k);
    if j < i {
        assert(s[j].conn.key() != s[i].conn.key());
    }
    if i < j {
        assert(s[i].conn.key() != s[j].conn.key());
    }
}

impl Active {
    /// No connection open.
    pub fn new() -> (a: Self)
        ensures
            a@ == Seq::<RecordView>::empty(),
            distinct_keys(a@),
    {
        let a = Active { records: Vec::new() };
        proof {
            assert(a@ =~= Seq::<RecordView>::empty());
        }
        a
    }

    /// Where the connection with the key `k` stands, if it is open.
    fn find(&self, k: &String) -> (i: Option<usize>)
        requires
            distinct_keys(self@),
        ensures
            match i {
                Some(i) => i < self@.len() && is_open(self@, k@) && position(self@, k@) == i,
                None => !is_open(self@, k@),
            },
            self@.len() == self.records@.len(),
    {
        let mut i: usize = 0;
        while i < self.records.len()
            invariant
                i <= self.records@.len(),
                distinct_keys(self@),
                self@.len() == self.records@.len(),
                forall|j: int| 0 <= j < i ==> (#[trigger] self@[j]).conn.key() != k@,
            decreases self.records@.len() - i,
        {
            let key = self.records[i].conn.key();
            proof {
                assert(self@[i as int] == self.records@[i as int]@);
            }
            if key == *k {
                proof {
                    lemma_position(self@, i as int);
                }
                return Some(i);
            }
            i = i + 1;
        }
        None
    }

    /// The state in which the connection `c` was last seen, if it is open.
    pub fn last_state(&self, c: &ConnectionInfo) -> (st: Option<u32>)
        requires
            distinct_keys(self@),
        ensures
            match st {
                Some(st) => is_open(self@, c@.key()) && self@[position(
                    self@,
                    c@.key(),
                )].conn.state == st,
                None => !is_open(self@, c@.key()),
            },
    {
        match self.find(&c.key()) {
            Some(i) => {
                proof {
                    assert(self@[i as int] == self.records@[i as int]@);
                }
                Some(self.records[i].conn.state)
            },
            None => None,
        }
    }

    /// The first position from `i` on whose connection is new or changed.
    pub fn first_news(&self, conns: &Vec<ConnectionInfo>, i: usize) -> (j: usize)
        requires
            distinct_keys(self@),
            i <= conns@.len(),
        ensures
            j == next_news(self@, tables::views(conns@), i as int),
            i <= j <= conns@.len(),
    {
        let ghost v = tables::views(conns@);
        let mut j: usize = i;
        while j < conns.len()
            invariant
                distinct_keys(self@),
                v == tables::views(conns@),
                i <= j <= conns@.len(),
                next_news(self@, v, i as int) == next_news(self@, v, j as int),
            decreases conns@.len() - j,
        {
            proof {
                assert(v[j as int] == conns@[j as int]@);
            }
            match self.last_state(&conns[j]) {
                Some(st) => {
                    if st != conns[j].state {
                        return j;
                    }
                },
                None => {
                    return j;
                },
            }
            j = j + 1;
        }
        j
    }

    /// Brings the state of the open connection `c` up to date.
    pub fn set_state(&mut self, c: &ConnectionInfo)
        requires
            distinct_keys(old(self)@),
            is_open(old(self)@, c@.key()),
        ensures
            final(self)@ == with_state(old(self)@, c@),
            distinct_keys(final(self)@),
    {
        proof {
            lemma_with_state(self@, c@);
        }
        match self.find(&c.key()) {
            Some(i) => {
                proof {
                    assert(self@[i as int] == self.records@[i as int]@);
                }
                self.records[i].conn.state = c.state;
                proof {
                    assert(self@ =~= with_state(old(self)@, c@));
                }
            },
            None => {},
        }
    }

    /// Adds a connection that is not open.
    pub fn insert(&mut self, rec: ConnectionRecord)
        requires
            distinct_keys(old(self)@),
            !is_open(old(self)@, rec@.conn.key()),
        ensures
            final(self)@ == old(self)@.push(rec@),
            distinct_keys(final(self)@),
    {
        proof {
            lemma_push(self@, rec@);
        }
        self.records.push(rec);
        proof {
            assert(self@ =~= old(self)@.push(rec@));
        }
    }

    /// Takes all connections out.
    pub fn drain(&mut self) -> (recs: Vec<ConnectionRecord>)
        ensures
            final(self)@ == Seq::<RecordView>::empty(),
            distinct_keys(final(self)@),
            record_views(recs@) == old(self)@,
    {
        let mut recs: Vec<ConnectionRecord> = Vec::new();
        std::mem::swap(&mut recs, &mut self.records);
        proof {
            assert(self@ =~= Seq::<RecordView>::empty());
        }
        recs
    }
}

fn listed_keys(conns: &Vec<ConnectionInfo>) -> (keys: Vec<String>)
    ensures
        keys@.len() == conns@.len(),
        forall|i: int| 0 <= i < conns@.len() ==> (#[trigger] keys@[i])@ == conns@[i]@.key(),
{
    let mut keys: Vec<String> = Vec::new();
    let mut i: usize = 0;
    while i < conns.len()
        invariant
            i <= conns@.len(),
            keys@.len() == i,
            forall|j: int| 0 <= j < i ==> (#[trigger] keys@[j])@ == conns@[j]@.key(),
        decreases conns@.len() - i,
    {
        keys.push(conns[i].key());
        i = i + 1;
    }
    keys
}

fn has_text(keys: &Vec<String>, k: &String) -> (b: bool)
    ensures
        b == exists|i: int| 0 <= i < keys@.len() && (#[trigger] keys@[i])@ == k@,
{
    let mut i: usize = 0;
    while i < keys.len()
        invariant
            i <= keys@.len(),
            forall|j: int| 0 <= j < i ==> (#[trigger] keys@[j])@ != k@,
        decreases keys@.len() - i,
    {
        if keys[i] == *k {
            return true;
        }
        i = i + 1;
    }
    false
}

impl Active {
    /// Takes out the connections that `conns` does not list.
    pub fn take_stale(&mut self, conns: &Vec<ConnectionInfo>) -> (gone: Vec<ConnectionRecord>)
        requires
            distinct_keys(old(self)@),
        ensures
            final(self)@ == fresh(old(self)@, tables::views(conns@)),
            distinct_keys(final(self)@),
            record_views(gone@) == stale(old(self)@, tables::views(conns@)),
    {
        let ghost v = self@;
        let ghost cv = tables::views(conns@);
        let ghost p = |r: RecordView| is_listed(cv, r.conn.key());
        let ghost q = |r: RecordView| !is_listed(cv, r.conn.key());
        let keys = listed_keys(conns);
        let recs = self.drain();
        let mut kept: Vec<ConnectionRecord> = Vec::new();
        let mut gone: Vec<ConnectionRecord> = Vec::new();
        proof {
            reveal(Seq::filter);
            assert(record_views(kept@) =~= v.take(0).filter(p));
            assert(record_views(gone@) =~= v.take(0).filter(q));
        }
        for r in it: recs
            invariant
                it.seq() == recs@,
                record_views(recs@) == v,
                cv == tables::views(conns@),
                p == (|r: RecordView| is_listed(cv, r.conn.key())),
                q == (|r: RecordView| !is_listed(cv, r.conn.key())),
                keys@.len() == conns@.len(),
                forall|i: int| 0 <= i < conns@.len() ==> (#[trigger] keys@[i])@ == conns@[i]@.key(),
                record_views(kept@) == v.take(it.index()).filter(p),
                record_views(gone@) == v.take(it.index()).filter(q),
        {
            let ghost n = it.index();
            proof {
                assert(v[n] == recs@[n]@);
                seqs::lemma_filter_next(v, n, p);
                seqs::lemma_filter_next(v, n, q);
                lemma_record_views_push(kept@, r);
                lemma_record_views_push(gone@, r);
            }
            let key = r.conn.key();
            let listed = has_text(&keys, &key);
            proof {
                if listed {
                    let i = choose|i: int| 0 <= i < keys@.len() && (#[trigger] keys@[i])@ == key@;
                    assert(cv[i].key() == key@);
                }
                if is_listed(cv, key@) {
                    let i = choose|i: int| 0 <= i < cv.len() && (#[trigger] cv[i]).key() == key@;
                    assert(keys@[i]@ == key@);
                }
            }
            if listed {
                kept.push(r);
            } else {
                gone.push(r);
            }
        }
        self.records = kept;
        proof {
            assert(v.take(v.len() as int) =~= v);
            lemma_filter_keys(v, p);
        }
        gone
    }
}

proof fn lemma_record_views_push(s: Seq<ConnectionRecord>, r: ConnectionRecord)
    ensures
        record_views(s.push(r)) == record_views(s).push(r@),
{
    assert(record_views(s.push(r)) =~= record_views(s).push(r@));
}

/// Bringing a state up to date changes no key.
pub proof fn lemma_with_state(s: Seq<RecordView>, c: ConnectionView)
    requires
        distinct_keys(s),
        is_open(s, c.key()),
    ensures
        with_state(s, c).len() == s.len(),
        forall|i: int|
            0 <= i < s.len() ==> (#[trigger] with_state(s, c)[i]).conn.key() == s[i].conn.key(),
        distinct_keys(with_state(s, c)),
        forall|k: Seq<char>| is_open(with_state(s, c), k) <==> #[trigger] is_open(s, k),
{
    let t = with_state(s, c);
    let p = position(s, c.key());
    assert(0 <= p < s.len());
    assert forall|i: int| 0 <= i < s.len() implies (#[trigger] t[i]).conn.key() == s[i].conn.key() by {
        if i == p {
            assert(t[i].conn.local() == s[i].conn.local());
            assert(t[i].conn.remote() == s[i].conn.remote());
        }
    }
    assert forall|i: int, j: int| 0 <= i < j < t.len() implies (#[trigger] t[i]).conn.key() != (
    #[trigger] t[j]).conn.key() by {
        assert(s[i].conn.key() != s[j].conn.key());
    }
    assert forall|k: Seq<char>| is_open(t, k) <==> #[trigger] is_open(s, k) by {
        if is_open(s, k) {
            let i = choose|i: int| 0 <= i < s.len() && (#[trigger] s[i]).conn.key() == k;
            assert(t[i].conn.key() == k);
        }
        if is_open(t, k) {
            let i = choose|i: int| 0 <= i < t.len() && (#[trigger] t[i]).conn.key() == k;
            assert(s[i].conn.key() == k);
        }
    }
}

/// Adding a connection that is not open keeps the keys distinct.
pub proof fn lemma_push(s: Seq<RecordView>, r: RecordView)
    requires
        distinct_keys(s),
        !is_open(s, r.conn.key()),
    ensures
        distinct_keys(s.push(r)),
        forall|k: Seq<char>| #[trigger]
            is_open(s.push(r), k) <==> is_open(s, k) || k == r.conn.key(),
{
    let t = s.push(r);
    assert forall|i: int, j: int| 0 <= i < j < t.len() implies (#[trigger] t[i]).conn.key() != (
    #[trigger] t[j]).conn.key() by {
        if j == s.len() {
            assert(s[i].conn.key() != r.conn.key());
        }
    }
    assert forall|k: Seq<char>| #[trigger] is_open(t, k) <==> is_open(s, k) || k == r.conn.key() by {
        if is_open(s, k) {
            let i = choose|i: int| 0 <= i < s.len() && (#[trigger] s[i]).conn.key() == k;
            assert(t[i].conn.key() == k);
        }
        assert(t[s.len() as int].conn.key() == r.conn.key());
        if is_open(t, k) {
            let i = choose|i: int| 0 <= i < t.len() && (#[trigger] t[i]).conn.key() == k;
            if i < s.len() {
                assert(s[i].conn.key() == k);
            }
        }
    }
}

/// Picking some of the connections keeps the keys distinct.
pub proof fn lemma_filter_keys(s: Seq<RecordView>, p: spec_fn(RecordView) -> bool)
    requires
        distinct_keys(s),
    ensures
        distinct_keys(s.filter(p)),
        forall|k: Seq<char>| #[trigger]
            is_open(s.filter(p), k) ==> is_open(s, k) && p(s[position(s, k)]),
        forall|k: Seq<char>|
            is_open(s, k) && p(s[#[trigger] position(s, k)]) ==> is_open(s.filter(p), k),
    decreases s.len(),
{
    let f = s.filter(p);
    reveal(Seq::filter);
    seqs::lemma_filter_contains(s, p);
    assert forall|k: Seq<char>| #[trigger] is_open(f, k) implies is_open(s, k) && p(
        s[position(s, k)],
    ) by {
        let i = choose|i: int| 0 <= i < f.len() && (#[trigger] f[i]).conn.key() == k;
        assert(f.contains(f[i]));
        let j = choose|j: int| 0 <= j < s.len() && s[j] == f[i];
        assert(s[j].conn.key() == k);
        lemma_position(s, j);
    }
    assert forall|k: Seq<char>| is_open(s, k) && p(s[#[trigger] position(s, k)]) implies is_open(
        f,
        k,
    ) by {
        let r = s[position(s, k)];
        assert(s.contains(r));
        assert(f.contains(r));
        let i = choose|i: int| 0 <= i < f.len() && f[i] == r;
        assert(f[i].conn.key() == k);
    }
    if s.len() > 0 {
        let t = s.drop_last();
        assert forall|i: int, j: int| 0 <= i < j < t.len() implies (#[trigger] t[i]).conn.key()
            != (#[trigger] t[j]).conn.key() by {
            assert(s[i].conn.key() != s[j].conn.key());
        }
        lemma_filter_keys(t, p);
        let g = t.filter(p);
        if p(s.last()) {
            seqs::lemma_filter_contains(t, p);
            assert forall|i: int, j: int| 0 <= i < j < f.len() implies (#[trigger] f[i]).conn.key()
                != (#[trigger] f[j]).conn.key() by {
                if j == g.len() {
                    assert(g.contains(g[i]));
                    let n = choose|n: int| 0 <= n < t.len() && t[n] == g[i];
                    assert(s[n].conn.key() != s[s.len() - 1].conn.key());
                } else {
                    assert(g[i].conn.key() != g[j].conn.key());
                }
            }
        }
    }
}

/// All connections before the first new or changed one are unchanged.
pub proof fn lemma_next_news(s: Seq<RecordView>, conns: Seq<ConnectionView>, i: int)
    requires
        0 <= i <= conns.len(),
    ensures
        i <= next_news(s, conns, i) <= conns.len(),
        forall|j: int| i <= j < next_news(s, conns, i) ==> is_unchanged(s, #[trigger] conns[j]),
        next_news(s, conns, i) < conns.len() ==> !is_unchanged(s, conns[next_news(s, conns, i)]),
    decreases conns.len() - i,
{
    if i < conns.len() && is_unchanged(s, conns[i]) {
        lemma_next_news(s, conns, i + 1);
    }
}

} // verus!
