//! Sessions: each run of the watched process gets a number when it is first seen
//! and keeps it until it is gone.

use std::collections::BTreeMap;
use vstd::prelude::*;
use crate::process::has_pid;
use crate::seqs;

verus! {

broadcast use {
    vstd::seq_lib::group_seq_properties,
    vstd::std_specs::btree::group_btree_axioms,
    vstd::laws_cmp::group_laws_cmp,
};

/// The sessions of the running processes, and the last number given out.
pub struct Sessions {
    by_pid: BTreeMap<u32, i32>,
    counter: i32,
}

/// The contents of [`Sessions`].
#[verifier::ext_equal]
pub ghost struct SessionsView {
    pub by_pid: Map<u32, i32>,
    pub counter: i32,
}

/// A process that appeared or went, with its session.
pub enum SessionChange {
    Started { pid: u32, session: i32 },
    Exited { pid: u32, session: i32 },
}

impl SessionChange {
    pub open spec fn session(self) -> i32 {
        match self {
            SessionChange::Started { session, .. } => session,
            SessionChange::Exited { session, .. } => session,
        }
    }
}

/// Whether `q` lists the members of `s`, each once, in ascending order.
pub open spec fn is_ascending(q: Seq<u32>, s: Set<u32>) -> bool {
    &&& forall|i: int, j: int| 0 <= i < j < q.len() ==> q[i] < q[j]
    &&& forall|x: u32| q.contains(x) <==> s.contains(x)
}

/// The members of `s` in ascending order.
pub open spec fn ascending(s: Set<u32>) -> Seq<u32> {
    choose|q: Seq<u32>| is_ascending(q, s)
}

proof fn lemma_ascending_unique(q: Seq<u32>, r: Seq<u32>, s: Set<u32>)
    requires
        is_ascending(q, s),
        is_ascending(r, s),
    ensures
        q == r,
    decreases q.len(),
{
    if q.len() == 0 {
        if r.len() > 0 {
            assert(r.contains(r[0]));
        }
        assert(q =~= r);
    } else {
        assert(q.contains(q[0]));
        let i = choose|i: int| 0 <= i < r.len() && r[i] == q[0];
        assert(r.contains(r[0]));
        let j = choose|j: int| 0 <= j < q.len() && q[j] == r[0];
        assert(q[0] == r[0]);
        let (q1, r1, s1) = (q.skip(1), r.skip(1), s.remove(q[0]));
        assert(is_ascending(q1, s1)) by {
            lemma_ascending_tail(q, s);
        }
        assert(is_ascending(r1, s1)) by {
            lemma_ascending_tail(r, s);
        }
        lemma_ascending_unique(q1, r1, s1);
        assert(q =~= seq![q[0]] + q1);
        assert(r =~= seq![r[0]] + r1);
    }
}

proof fn lemma_ascending_tail(q: Seq<u32>, s: Set<u32>)
    requires
        is_ascending(q, s),
        q.len() > 0,
    ensures
        is_ascending(q.skip(1), s.remove(q[0])),
{
    let t = q.skip(1);
    assert forall|x: u32| t.contains(x) <==> s.remove(q[0]).contains(x) by {
        if t.contains(x) {
            let i = choose|i: int| 0 <= i < t.len() && t[i] == x;
            assert(q[i + 1] == x);
            assert(q.contains(x));
        }
        if s.remove(q[0]).contains(x) {
            assert(q.contains(x));
            let i = choose|i: int| 0 <= i < q.len() && q[i] == x;
            assert(t[i - 1] == x);
        }
    }
}

impl View for Sessions {
    type V = SessionsView;

    closed spec fn view(&self) -> SessionsView {
        SessionsView { by_pid: self.by_pid@, counter: self.counter }
    }
}

impl SessionsView {
    /// No two running processes share a session, and every session is one of those
    /// given out so far.
    pub open spec fn wf(self) -> bool {
        &&& self.counter >= 0
        &&& self.by_pid.dom().finite()
        &&& forall|p: u32| #[trigger]
            self.by_pid.contains_key(p) ==> 1 <= self.by_pid[p] <= self.counter
        &&& forall|p: u32, q: u32|
            #![trigger self.by_pid[p], self.by_pid[q]]
            self.by_pid.contains_key(p) && self.by_pid.contains_key(q) && self.by_pid[p]
                == self.by_pid[q] ==> p == q
    }

    /// Those of `pids` that have no session yet.
    pub open spec fn unseen(self, pids: Seq<u32>) -> Seq<u32> {
        pids.filter(|p: u32| !self.by_pid.contains_key(p))
    }

    /// Whether there are numbers left for all of `pids` that need one.
    pub open spec fn has_room(self, pids: Seq<u32>) -> bool {
        self.counter + self.unseen(pids).len() <= i32::MAX
    }

    /// Those that have a session and are not among `pids`, in ascending order.
    pub open spec fn gone(self, pids: Seq<u32>) -> Seq<u32> {
        ascending(self.by_pid.dom().difference(pids.to_set()))
    }

    /// The sessions once exactly `pids` are running: a process that was known keeps
    /// its number, the others get the next numbers in their order.
    pub open spec fn after(self, pids: Seq<u32>) -> SessionsView {
        let new = self.unseen(pids);
        SessionsView {
            by_pid: Map::new(
                |p: u32| pids.contains(p),
                |p: u32|
                    if self.by_pid.contains_key(p) {
                        self.by_pid[p]
                    } else {
                        (self.counter + 1 + new.index_of(p)) as i32
                    },
            ),
            counter: (self.counter + new.len()) as i32,
        }
    }

    /// Who started once exactly `pids` are running.
    pub open spec fn starts(self, pids: Seq<u32>) -> Seq<SessionChange> {
        let new = self.unseen(pids);
        Seq::new(
            new.len(),
            |i: int|
                SessionChange::Started { pid: new[i], session: (self.counter + 1 + i) as i32 },
        )
    }

    /// Who exited once exactly `pids` are running.
    pub open spec fn exits(self, pids: Seq<u32>) -> Seq<SessionChange> {
        self.gone(pids).map_values(
            |p: u32| SessionChange::Exited { pid: p, session: self.by_pid[p] },
        )
    }

    /// What changes once exactly `pids` are running: first who started, then who
    /// exited.
    pub open spec fn changes(self, pids: Seq<u32>) -> Seq<SessionChange> {
        self.starts(pids) + self.exits(pids)
    }
}

/// The keys of `m` in ascending order.
fn ascending_keys(m: &BTreeMap<u32, i32>) -> (keys: Vec<u32>)
    ensures
        is_ascending(keys@, m@.dom()),
{
    let ghost q = vstd::std_specs::iter::IteratorSpec::remaining(
        &vstd::std_specs::btree::spec_keys_iter(m),
    );
    let mut keys: Vec<u32> = Vec::new();
    for k in it: m.keys()
        invariant
            it.seq() == q,
            keys@ == q.unref().take(it.index()),
    {
        keys.push(*k);
    }
    proof {
        assert(keys@ =~= q.unref());
        assert(vstd::std_specs::btree::increasing_seq(q));
        assert(vstd::laws_cmp::obeys_cmp::<&u32>());
        assert forall|i: int, j: int| 0 <= i < j < q.len() implies *q[i] < *q[j] by {
            assert(vstd::std_specs::cmp::OrdSpec::cmp_spec(&q[i], &q[j]) is Less);
        }
        assert forall|x: u32| keys@.contains(x) <==> m@.dom().contains(x) by {
            assert(q.unref().to_set().contains(x) <==> q.unref().contains(x));
        }
    }
    keys
}

impl Sessions {
    /// No process seen, no number given out.
    pub fn new() -> (s: Self)
        ensures
            s@ == (SessionsView { by_pid: Map::empty(), counter: 0 }),
            s@.wf(),
    {
        Sessions { by_pid: BTreeMap::new(), counter: 0 }
    }

    /// Whether there are numbers left for those of `pids` that have no session yet.
    pub fn has_room(&self, pids: &Vec<u32>) -> (b: bool)
        ensures
            b == self@.has_room(pids@),
    {
        let ghost p = |p: u32| !self@.by_pid.contains_key(p);
        let mut unseen: u128 = 0;
        let mut i: usize = 0;
        proof {
            reveal(Seq::filter);
        }
        while i < pids.len()
            invariant
                i <= pids@.len(),
                p == (|p: u32| !self@.by_pid.contains_key(p)),
                unseen == pids@.take(i as int).filter(p).len(),
                unseen <= i,
            decreases pids@.len() - i,
        {
            proof {
                seqs::lemma_filter_next(pids@, i as int, p);
            }
            if !self.by_pid.contains_key(&pids[i]) {
                unseen = unseen + 1;
            }
            i = i + 1;
        }
        proof {
            assert(pids@.take(i as int) =~= pids@);
        }
        self.counter as i128 + unseen as i128 <= i32::MAX as i128
    }

    /// Takes note that exactly the processes `pids` are running. Returns who started,
    /// in the order of `pids`, and then who exited, in ascending order.
    pub fn observe(&mut self, pids: &Vec<u32>) -> (changes: Vec<SessionChange>)
        requires
            old(self)@.wf(),
            old(self)@.has_room(pids@),
            pids@.no_duplicates(),
        ensures
            final(self)@ == old(self)@.after(pids@),
            final(self)@.wf(),
            changes@ == old(self)@.changes(pids@),
    {
        let ghost v = self@;
        let mut changes = self.start_new(pids);
        proof {
            lemma_unseen(v, pids@);
        }
        let mut exits = self.drop_gone(pids, Ghost(v));
        changes.append(&mut exits);
        proof {
            assert(self@.by_pid =~= v.after(pids@).by_pid);
            assert(changes@ =~= v.changes(pids@));
            law_sessions_follow_processes(v, pids@);
        }
        changes
    }

    /// Gives a number to each of `pids` that has none.
    fn start_new(&mut self, pids: &Vec<u32>) -> (changes: Vec<SessionChange>)
        requires
            old(self)@.wf(),
            old(self)@.has_room(pids@),
            pids@.no_duplicates(),
        ensures
            final(self).started(old(self)@, old(self)@.unseen(pids@)),
            changes@ == old(self)@.starts(pids@),
    {
        let ghost v = self@;
        let ghost p = |p: u32| !v.by_pid.contains_key(p);
        let ghost new = v.unseen(pids@);
        let ghost starts = v.starts(pids@);
        let mut changes: Vec<SessionChange> = Vec::new();
        let mut i: usize = 0;
        proof {
            reveal(Seq::filter);
        }
        while i < pids.len()
            invariant
                i <= pids@.len(),
                pids@.no_duplicates(),
                v.counter + new.len() <= i32::MAX,
                v.counter >= 0,
                p == (|p: u32| !v.by_pid.contains_key(p)),
                new == pids@.filter(p),
                new == v.unseen(pids@),
                starts == v.starts(pids@),
                self.started(v, pids@.take(i as int).filter(p)),
                changes@ == starts.take(pids@.take(i as int).filter(p).len() as int),
            decreases pids@.len() - i,
        {
            let pid: u32 = pids[i];
            let ghost so_far = pids@.take(i as int).filter(p);
            let ghost next = pids@.take(i + 1).filter(p);
            proof {
                seqs::lemma_filter_next(pids@, i as int, p);
                lemma_filter_prefix(pids@, i + 1, p);
                assert(!so_far.contains(pid)) by {
                    seqs::lemma_filter_distinct(pids@.take(i as int), p);
                    if so_far.contains(pid) {
                        assert(pids@.take(i as int).contains(pid));
                        let j = choose|j: int| 0 <= j < i && pids@.take(i as int)[j] == pid;
                        assert(pids@[j] == pids@[i as int]);
                    }
                }
                assert(self.by_pid@.contains_key(pid) <==> v.by_pid.contains_key(pid));
            }
            if !self.by_pid.contains_key(&pid) {
                proof {
                    assert(next == so_far.push(pid));
                    assert(next == new.take(next.len() as int));
                    assert(next.last() == pid);
                    assert(new[so_far.len() as int] == pid);
                }
                self.counter = self.counter + 1;
                self.by_pid.insert(pid, self.counter);
                changes.push(SessionChange::Started { pid, session: self.counter });
                proof {
                    lemma_contains_push(so_far, pid);
                    assert(changes@ =~= starts.take(next.len() as int));
                }
            }
            i = i + 1;
        }
        proof {
            assert(pids@.take(i as int) =~= pids@);
            assert(starts.take(new.len() as int) =~= starts);
        }
        changes
    }

    /// Ends the session of each process that is not among `pids`.
    fn drop_gone(&mut self, pids: &Vec<u32>, Ghost(v): Ghost<SessionsView>) -> (exits: Vec<
        SessionChange,
    >)
        requires
            pids@.no_duplicates(),
            old(self).started(v, v.unseen(pids@)),
        ensures
            final(self).counter == old(self).counter,
            final(self).by_pid@ == old(self).by_pid@.restrict(pids@.to_set()),
            exits@ == v.exits(pids@),
    {
        let ghost mid = *self;
        let ghost new = v.unseen(pids@);
        let ghost out = |k: u32| !pids@.contains(k);
        let ghost all = v.exits(pids@);
        let keys = ascending_keys(&self.by_pid);
        let ghost gone = keys@.filter(out);
        let mut exits: Vec<SessionChange> = Vec::new();
        proof {
            lemma_gone(mid, v, new, pids@, keys@);
            reveal(Seq::filter);
            assert(mid.by_pid@ =~= mid.by_pid@.remove_keys(keys@.take(0).filter(out).to_set()));
        }
        let mut k: usize = 0;
        while k < keys.len()
            invariant
                k <= keys@.len(),
                is_ascending(keys@, mid.by_pid@.dom()),
                mid.started(v, new),
                forall|x: u32| #[trigger] new.contains(x) ==> pids@.contains(x),
                out == (|k: u32| !pids@.contains(k)),
                gone == keys@.filter(out),
                gone == v.gone(pids@),
                all == v.exits(pids@),
                self.counter == mid.counter,
                self.by_pid@ == mid.by_pid@.remove_keys(keys@.take(k as int).filter(out).to_set()),
                exits@ == all.take(keys@.take(k as int).filter(out).len() as int),
            decreases keys@.len() - k,
        {
            let pid: u32 = keys[k];
            let ghost so_far = keys@.take(k as int).filter(out);
            let ghost next = keys@.take(k + 1).filter(out);
            proof {
                seqs::lemma_filter_next(keys@, k as int, out);
                lemma_filter_prefix(keys@, k + 1, out);
                assert(keys@.contains(pid));
                assert(!so_far.contains(pid)) by {
                    seqs::lemma_filter_distinct(keys@.take(k as int), out);
                    if so_far.contains(pid) {
                        let j = choose|j: int| 0 <= j < k && keys@.take(k as int)[j] == pid;
                        assert(keys@[j] < keys@[k as int]);
                    }
                }
            }
            if !has_pid(pids, pid) {
                proof {
                    assert(next == so_far.push(pid));
                    assert(next == gone.take(next.len() as int));
                    assert(next.last() == pid);
                    assert(gone[so_far.len() as int] == pid);
                    assert(self.by_pid@.contains_key(pid));
                    assert(self.by_pid@[pid] == v.by_pid[pid]);
                }
                if let Some(session) = self.by_pid.remove(&pid) {
                    exits.push(SessionChange::Exited { pid, session });
                    proof {
                        lemma_contains_push(so_far, pid);
                        assert(exits@ =~= all.take(next.len() as int));
                        assert(self.by_pid@ =~= mid.by_pid@.remove_keys(next.to_set()));
                    }
                }
            }
            k = k + 1;
        }
        proof {
            assert(keys@.take(k as int) =~= keys@);
            assert(all.take(gone.len() as int) =~= all);
            seqs::lemma_filter_contains(keys@, out);
            assert forall|x: u32| mid.by_pid@.contains_key(x) implies (gone.contains(x)
                <==> !pids@.contains(x)) by {
                assert(keys@.contains(x) <==> mid.by_pid@.dom().contains(x));
            }
            assert(self.by_pid@ =~= mid.by_pid@.restrict(pids@.to_set()));
        }
        exits
    }

    /// Whether, on top of `v`, exactly the processes `new` have got their numbers.
    closed spec fn started(self, v: SessionsView, new: Seq<u32>) -> bool {
        &&& self.counter == v.counter + new.len()
        &&& forall|p: u32|
            #![trigger self.by_pid@.contains_key(p)]
            self.by_pid@.contains_key(p) <==> v.by_pid.contains_key(p) || new.contains(p)
        &&& forall|p: u32| #[trigger]
            v.by_pid.contains_key(p) ==> self.by_pid@[p] == v.by_pid[p]
        &&& forall|j: int|
            0 <= j < new.len() ==> self.by_pid@[#[trigger] new[j]] == v.counter + 1 + j
    }
}

proof fn lemma_contains_push(s: Seq<u32>, a: u32)
    ensures
        forall|x: u32| #[trigger] s.push(a).contains(x) <==> s.contains(x) || x == a,
{
    assert forall|x: u32| #[trigger] s.push(a).contains(x) <==> s.contains(x) || x == a by {
        if s.contains(x) {
            let i = choose|i: int| 0 <= i < s.len() && s[i] == x;
            assert(s.push(a)[i] == x);
        }
        assert(s.push(a)[s.len() as int] == a);
    }
}

/// Where a new process stands among the new ones.
proof fn lemma_unseen(v: SessionsView, pids: Seq<u32>)
    requires
        pids.no_duplicates(),
    ensures
        forall|p: u32|
            #![trigger v.unseen(pids).index_of(p)]
            pids.contains(p) && !v.by_pid.contains_key(p) ==> v.unseen(pids).contains(p) && 0
                <= v.unseen(pids).index_of(p) < v.unseen(pids).len() && v.unseen(pids)[v.unseen(
                pids,
            ).index_of(p)] == p,
{
    let new = v.unseen(pids);
    seqs::lemma_filter_distinct(pids, |p: u32| !v.by_pid.contains_key(p));
    assert forall|p: u32| pids.contains(p) && !v.by_pid.contains_key(p) implies new.contains(p)
        && 0 <= #[trigger] new.index_of(p) < new.len() && new[new.index_of(p)] == p by {
        assert(new.contains(p));
    }
}

proof fn lemma_filter_ascending(q: Seq<u32>, p: spec_fn(u32) -> bool)
    requires
        forall|i: int, j: int| 0 <= i < j < q.len() ==> q[i] < q[j],
    ensures
        forall|i: int, j: int|
            0 <= i < j < q.filter(p).len() ==> q.filter(p)[i] < q.filter(p)[j],
    decreases q.len(),
{
    reveal(Seq::filter);
    if q.len() > 0 {
        let t = q.drop_last();
        lemma_filter_ascending(t, p);
        seqs::lemma_filter_distinct(t, p);
        assert forall|i: int, j: int| 0 <= i < j < q.filter(p).len() implies q.filter(p)[i]
            < q.filter(p)[j] by {
            let f = t.filter(p);
            if j == f.len() {
                assert(f.contains(f[i]));
                let n = choose|n: int| 0 <= n < t.len() && t[n] == f[i];
                assert(q[n] < q.last());
            } else {
                assert(f[i] < f[j]);
            }
        }
    }
}

/// Among the keys once the new processes have their numbers, those not running any
/// more are those that were known and are not running.
proof fn lemma_gone(mid: Sessions, v: SessionsView, new: Seq<u32>, pids: Seq<u32>, keys: Seq<u32>)
    requires
        mid.started(v, new),
        pids.no_duplicates(),
        new == v.unseen(pids),
        is_ascending(keys, mid.by_pid@.dom()),
    ensures
        keys.filter(|k: u32| !pids.contains(k)) == v.gone(pids),
        forall|x: u32| #[trigger] new.contains(x) ==> pids.contains(x),
{
    let out = |k: u32| !pids.contains(k);
    let s = v.by_pid.dom().difference(pids.to_set());
    let gone = keys.filter(out);
    lemma_filter_ascending(keys, out);
    seqs::lemma_filter_distinct(keys, out);
    seqs::lemma_filter_distinct(pids, |p: u32| !v.by_pid.contains_key(p));
    assert forall|x: u32| gone.contains(x) <==> s.contains(x) by {
        assert(gone.contains(x) <==> keys.contains(x) && out(x));
        assert(keys.contains(x) <==> mid.by_pid@.dom().contains(x));
        assert(mid.by_pid@.contains_key(x) <==> v.by_pid.contains_key(x) || new.contains(x));
        assert(new.contains(x) ==> pids.contains(x));
        assert(pids.to_set().contains(x) <==> pids.contains(x));
    }
    assert(is_ascending(gone, s));
    lemma_ascending_unique(gone, ascending(s), s);
}

proof fn lemma_filter_prefix(s: Seq<u32>, k: int, p: spec_fn(u32) -> bool)
    requires
        0 <= k <= s.len(),
    ensures
        s.take(k).filter(p).len() <= s.filter(p).len(),
        s.take(k).filter(p) == s.filter(p).take(s.take(k).filter(p).len() as int),
{
    Seq::filter_distributes_over_add(s.take(k), s.skip(k), p);
    assert(s =~= s.take(k) + s.skip(k));
}

/// After an observation exactly the running processes have sessions. Whoever was
/// known keeps the number, and every new number is greater than all before it, so
/// that none is ever given out twice.
pub proof fn law_sessions_follow_processes(v: SessionsView, pids: Seq<u32>)
    requires
        v.wf(),
        v.has_room(pids),
        pids.no_duplicates(),
    ensures
        v.after(pids).wf(),
        v.after(pids).by_pid.dom() == pids.to_set(),
        forall|p: u32|
            pids.contains(p) && v.by_pid.contains_key(p) ==> #[trigger] v.after(pids).by_pid[p]
                == v.by_pid[p],
        forall|p: u32|
            pids.contains(p) && !v.by_pid.contains_key(p) ==> v.counter < #[trigger] v.after(
                pids,
            ).by_pid[p] <= v.after(pids).counter,
        v.counter <= v.after(pids).counter,
{
    let new = v.unseen(pids);
    let w = v.after(pids);
    seqs::lemma_filter_distinct(pids, |p: u32| !v.by_pid.contains_key(p));
    assert(w.by_pid.dom() =~= pids.to_set());
    assert forall|p: u32| pids.contains(p) && !v.by_pid.contains_key(p) implies v.counter
        < #[trigger] w.by_pid[p] <= w.counter && w.by_pid[p] == v.counter + 1 + new.index_of(p)
        && new[new.index_of(p)] == p by {
        assert(new.contains(p));
        let i = choose|i: int| 0 <= i < new.len() && new[i] == p;
        assert(0 <= new.index_of(p) < new.len());
    }
    assert forall|p: u32, q: u32|
        #![trigger w.by_pid[p], w.by_pid[q]]
        w.by_pid.contains_key(p) && w.by_pid.contains_key(q) && w.by_pid[p] == w.by_pid[q] implies p
        == q by {}
}

/// A process is reported as started exactly if it runs without a session, and as
/// exited exactly if it has a session without running; each is reported once, with a
/// number from one on.
pub proof fn law_changes_are_the_difference(v: SessionsView, pids: Seq<u32>)
    requires
        v.wf(),
        v.has_room(pids),
        pids.no_duplicates(),
    ensures
        forall|i: int|
            0 <= i < v.changes(pids).len() ==> (#[trigger] v.changes(pids)[i]).session() >= 1,
        v.unseen(pids).no_duplicates(),
        forall|p: u32|
            #![trigger v.unseen(pids).contains(p)]
            v.unseen(pids).contains(p) <==> pids.contains(p) && !v.by_pid.contains_key(p),
        v.gone(pids).no_duplicates(),
        forall|p: u32|
            #![trigger v.gone(pids).contains(p)]
            v.gone(pids).contains(p) <==> v.by_pid.contains_key(p) && !pids.contains(p),
        forall|i: int, j: int|
            0 <= i < j < v.gone(pids).len() ==> v.gone(pids)[i] < v.gone(pids)[j],
        seqs::is_subsequence(v.unseen(pids), pids),
{
    let s = v.by_pid.dom().difference(pids.to_set());
    seqs::lemma_filter_distinct(pids, |p: u32| !v.by_pid.contains_key(p));
    let q = lemma_ascending_exists(s);
    assert(is_ascending(ascending(s), s));
    seqs::lemma_filter_counts(pids, |p: u32| !v.by_pid.contains_key(p));
    let n = v.starts(pids).len();
    assert forall|i: int| 0 <= i < v.changes(pids).len() implies (#[trigger] v.changes(
        pids,
    )[i]).session() >= 1 by {
        if i >= n {
            let p = v.gone(pids)[i - n];
            assert(v.gone(pids).contains(p));
            assert(v.by_pid.contains_key(p));
        }
    }
}

proof fn lemma_ascending_exists(s: Set<u32>) -> (q: Seq<u32>)
    requires
        s.finite(),
    ensures
        is_ascending(q, s),
    decreases s.len(),
{
    if s.len() == 0 {
        Seq::empty()
    } else {
        let m = lemma_greatest(s);
        let q = lemma_ascending_exists(s.remove(m));
        let r = q.push(m);
        assert forall|i: int, j: int| 0 <= i < j < r.len() implies r[i] < r[j] by {
            if j == q.len() {
                assert(q.contains(q[i]));
            }
        }
        assert forall|x: u32| r.contains(x) <==> s.contains(x) by {
            if r.contains(x) && x != m {
                assert(q.contains(x));
            }
            if s.contains(x) && x != m {
                assert(q.contains(x));
                let i = choose|i: int| 0 <= i < q.len() && q[i] == x;
                assert(r[i] == x);
            }
            assert(r.last() == m);
        }
        r
    }
}

proof fn lemma_greatest(s: Set<u32>) -> (m: u32)
    requires
        s.finite(),
        s.len() > 0,
    ensures
        s.contains(m),
        forall|x: u32| s.contains(x) ==> x <= m,
    decreases s.len(),
{
    let a = s.choose();
    let t = s.remove(a);
    if t.len() == 0 {
        a
    } else {
        let b = lemma_greatest(t);
        if a < b {
            b
        } else {
            a
        }
    }
}

} // verus!
