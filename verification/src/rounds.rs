//! What one round of the monitor reports: the difference between the connections
//! that were open and those that are listed.

use vstd::prelude::*;
use crate::active;
use crate::clock;
use crate::connection::ConnectionView;
use crate::event;
use crate::event::{EventView, RecordView, TcpDataTotals};
use crate::seqs;

verus! {

broadcast use vstd::seq_lib::group_seq_properties;

/// The events that report an opening.
pub open spec fn openings(log: Seq<EventView>) -> Seq<EventView> {
    log.filter(|e: EventView| e is Open)
}

/// The events that report a closing.
pub open spec fn closings(log: Seq<EventView>) -> Seq<EventView> {
    log.filter(|e: EventView| e is Closed)
}

/// Whether `e` reports that `c` appeared.
pub open spec fn reports_open(e: EventView, c: ConnectionView) -> bool {
    exists|host: Seq<char>| e == #[trigger] event::open_event(c, host)
}

/// The events that report a change of state.
pub open spec fn state_changes(log: Seq<EventView>) -> Seq<EventView> {
    log.filter(|e: EventView| e is State)
}

/// A connection as it is listed, and the state in which it was seen before.
pub ghost struct StateChange {
    pub conn: ConnectionView,
    pub old_state: u32,
}

/// A record that is gone, the reading of the clock at that time, and the bytes that
/// the connection carried.
pub ghost struct Closing {
    pub record: RecordView,
    pub now: u128,
    pub totals: TcpDataTotals,
}

/// Whether `e` reports that `c` went, after the time from its first sight to the
/// reading of the clock, and with the bytes that it carried.
pub open spec fn reports_closed(e: EventView, c: Closing) -> bool {
    exists|host: Seq<char>|
        e == #[trigger] event::close_event(
            c.record,
            clock::elapsed(c.record.t0, c.now),
            host,
            c.totals,
        )
}

/// Whether `log` reports as opened exactly `opened`, as changed exactly `changed`,
/// and as closed exactly `closed`, each in order, and nothing else.
pub open spec fn tells(
    log: Seq<EventView>,
    opened: Seq<ConnectionView>,
    changed: Seq<StateChange>,
    closed: Seq<Closing>,
) -> bool {
    &&& openings(log).len() == opened.len()
    &&& forall|i: int|
        0 <= i < opened.len() ==> reports_open(#[trigger] openings(log)[i], opened[i])
    &&& state_changes(log) == changed.map_values(
        |c: StateChange| event::state_event(c.conn, c.old_state),
    )
    &&& closings(log).len() == closed.len()
    &&& forall|i: int|
        0 <= i < closed.len() ==> reports_closed(#[trigger] closings(log)[i], closed[i])
    &&& log.len() == opened.len() + changed.len() + closed.len()
}

/// How many of the records `gone` have their totals asked for.
pub open spec fn asked(gone: Seq<RecordView>) -> nat {
    gone.filter(|r: RecordView| event::has_totals(r.conn)).len()
}

/// The closings of the records `gone`, where `clocks` were the readings of the clock,
/// one for each, and `answers` the totals, one for each record that has them asked
/// for; the others have carried nothing.
pub open spec fn closed_as(
    gone: Seq<RecordView>,
    clocks: Seq<u128>,
    answers: Seq<TcpDataTotals>,
) -> Seq<Closing> {
    Seq::new(
        gone.len(),
        |i: int|
            Closing {
                record: gone[i],
                now: clocks[i],
                totals: if event::has_totals(gone[i].conn) {
                    answers[asked(gone.take(i)) as int]
                } else {
                    TcpDataTotals { tx: 0, rx: 0 }
                },
            },
    )
}

/// The state in which the connection with the key `k` was seen last: in `conns`, or
/// else in `s`.
pub open spec fn last_seen(
    s: Seq<RecordView>,
    conns: Seq<ConnectionView>,
    k: Seq<char>,
) -> Option<u32> {
    if active::is_listed(conns, k) {
        Some(listed_state(conns, k))
    } else if active::is_open(s, k) {
        Some(s[active::position(s, k)].conn.state)
    } else {
        None
    }
}

/// The connections of `conns` that were seen before, in `s` or earlier in `conns`,
/// in another state.
pub open spec fn changed(s: Seq<RecordView>, conns: Seq<ConnectionView>) -> Seq<StateChange>
    decreases conns.len(),
{
    if conns.len() == 0 {
        Seq::empty()
    } else {
        let c = conns.last();
        let rest = conns.drop_last();
        match last_seen(s, rest, c.key()) {
            Some(old_state) => if old_state != c.state {
                changed(s, rest).push(StateChange { conn: c, old_state })
            } else {
                changed(s, rest)
            },
            None => changed(s, rest),
        }
    }
}

/// The connections of `conns` that are not open in `s`: of each key the first.
pub open spec fn appeared(s: Seq<RecordView>, conns: Seq<ConnectionView>) -> Seq<ConnectionView>
    decreases conns.len(),
{
    if conns.len() == 0 {
        Seq::empty()
    } else {
        let c = conns.last();
        let rest = conns.drop_last();
        if active::is_open(s, c.key()) || active::is_listed(rest, c.key()) {
            appeared(s, rest)
        } else {
            appeared(s, rest).push(c)
        }
    }
}

/// The state in which `conns` lists the connection with the key `k`: the last one,
/// where it is listed more than once.
pub open spec fn listed_state(conns: Seq<ConnectionView>, k: Seq<char>) -> u32
    decreases conns.len(),
{
    if conns.len() == 0 {
        0
    } else if conns.last().key() == k {
        conns.last().state
    } else {
        listed_state(conns.drop_last(), k)
    }
}

/// Whether `a` and `b` are one record, up to the state it was last seen in.
pub open spec fn same_but_state(a: RecordView, b: RecordView) -> bool {
    a == (RecordView { conn: ConnectionView { state: a.conn.state, ..b.conn }, ..b })
}

/// Whether `c` is, but for its state, one of `conns`.
pub open spec fn is_one_of(c: ConnectionView, conns: Seq<ConnectionView>) -> bool {
    exists|j: int|
        0 <= j < conns.len() && c == (ConnectionView { state: c.state, ..#[trigger] conns[j] })
}

/// Whether `after` holds what is open once `conns` were listed while `before` was
/// open: exactly what is listed, as it is listed, each in its listed state, and of
/// what was open before all else as it was.
pub open spec fn follows(
    before: Seq<RecordView>,
    conns: Seq<ConnectionView>,
    after: Seq<RecordView>,
) -> bool {
    &&& active::distinct_keys(after)
    &&& forall|k: Seq<char>| #[trigger]
        active::is_open(after, k) <==> active::is_listed(conns, k)
    &&& forall|i: int|
        0 <= i < after.len() ==> (#[trigger] after[i]).conn.state == listed_state(
            conns,
            after[i].conn.key(),
        )
    &&& forall|i: int|
        0 <= i < after.len() && active::is_open(before, (#[trigger] after[i]).conn.key())
            ==> same_but_state(
            after[i],
            before[active::position(before, after[i].conn.key())],
        )
    &&& forall|i: int|
        0 <= i < after.len() && !active::is_open(before, (#[trigger] after[i]).conn.key())
            ==> is_one_of(after[i].conn, conns)
}

proof fn lemma_one_of_more(c: ConnectionView, conns: Seq<ConnectionView>, p: int)
    requires
        0 <= p < conns.len(),
        is_one_of(c, conns.take(p)),
    ensures
        is_one_of(c, conns.take(p + 1)),
{
    let s = conns.take(p);
    let j = choose|j: int|
        0 <= j < s.len() && c == (ConnectionView { state: c.state, ..#[trigger] s[j] });
    assert(conns.take(p + 1)[j] == s[j]);
}

proof fn lemma_listed_next(conns: Seq<ConnectionView>, p: int)
    requires
        0 <= p < conns.len(),
    ensures
        conns.take(p + 1).drop_last() == conns.take(p),
        conns.take(p + 1).last() == conns[p],
        forall|k: Seq<char>| #[trigger]
            active::is_listed(conns.take(p + 1), k) <==> active::is_listed(conns.take(p), k) || k
                == conns[p].key(),
{
    let a = conns.take(p);
    let b = conns.take(p + 1);
    assert(b.drop_last() =~= a);
    assert forall|k: Seq<char>| #[trigger]
        active::is_listed(b, k) <==> active::is_listed(a, k) || k == conns[p].key() by {
        if active::is_listed(a, k) {
            let i = choose|i: int| 0 <= i < a.len() && (#[trigger] a[i]).key() == k;
            assert(b[i].key() == k);
        }
        assert(b[p].key() == conns[p].key());
        if active::is_listed(b, k) {
            let i = choose|i: int| 0 <= i < b.len() && (#[trigger] b[i]).key() == k;
            if i < p {
                assert(a[i].key() == k);
            }
        }
    }
}

/// A connection appeared exactly if it is listed and was not open, and of each key
/// one does.
pub proof fn law_appeared(s: Seq<RecordView>, conns: Seq<ConnectionView>)
    ensures
        forall|k: Seq<char>| #[trigger]
            active::is_listed(appeared(s, conns), k) <==> active::is_listed(conns, k)
                && !active::is_open(s, k),
        forall|i: int, j: int|
            0 <= i < j < appeared(s, conns).len() ==> (#[trigger] appeared(s, conns)[i]).key() != (
            #[trigger] appeared(s, conns)[j]).key(),
    decreases conns.len(),
{
    let f = appeared(s, conns);
    if conns.len() > 0 {
        let rest = conns.drop_last();
        let c = conns.last();
        let g = appeared(s, rest);
        law_appeared(s, rest);
        assert(conns.take(conns.len() as int) =~= conns);
        assert(conns.take(conns.len() - 1) =~= rest);
        lemma_listed_next(conns, conns.len() - 1);
        if f.len() > g.len() {
            assert(f.take(f.len() as int) =~= f);
            assert(f.take(f.len() - 1) =~= g);
            lemma_listed_next(f, f.len() - 1);
            assert forall|i: int, j: int| 0 <= i < j < f.len() implies (#[trigger] f[i]).key() != (
            #[trigger] f[j]).key() by {
                if j == g.len() {
                    assert(g[i].key() == f[i].key());
                    assert(active::is_listed(g, g[i].key()));
                } else {
                    assert(g[i].key() != g[j].key());
                }
            }
        }
    }
}

/// Where a pass over `conns` stands at the position `p`, having begun with the open
/// connections `a0` and now holding `a`.
#[verifier::opaque]
pub open spec fn scanned(
    a0: Seq<RecordView>,
    conns: Seq<ConnectionView>,
    p: int,
    a: Seq<RecordView>,
) -> bool {
    let seen = conns.take(p);
    &&& active::distinct_keys(a)
    &&& a0.len() <= a.len()
    &&& forall|i: int|
        0 <= i < a0.len() ==> same_but_state(#[trigger] a[i], a0[i]) && (!active::is_listed(
            seen,
            a0[i].conn.key(),
        ) ==> a[i] == a0[i])
    &&& forall|i: int|
        a0.len() <= i < a.len() ==> active::is_listed(seen, (#[trigger] a[i]).conn.key())
            && is_one_of(a[i].conn, seen)
    &&& forall|k: Seq<char>| #[trigger] active::is_listed(seen, k) ==> active::is_open(a, k)
    &&& forall|i: int|
        0 <= i < a.len() && active::is_listed(seen, (#[trigger] a[i]).conn.key())
            ==> a[i].conn.state == listed_state(seen, a[i].conn.key())
}

/// A pass begins with nothing seen.
pub proof fn lemma_scan_begins(a0: Seq<RecordView>, conns: Seq<ConnectionView>)
    requires
        active::distinct_keys(a0),
    ensures
        scanned(a0, conns, 0, a0),
        appeared(a0, conns.take(0)) == Seq::<ConnectionView>::empty(),
        changed(a0, conns.take(0)) == Seq::<StateChange>::empty(),
{
    reveal(scanned);
    assert(forall|k: Seq<char>| !active::is_listed(conns.take(0), k));
}

proof fn lemma_open_keys(
    a0: Seq<RecordView>,
    conns: Seq<ConnectionView>,
    p: int,
    a: Seq<RecordView>,
    k: Seq<char>,
)
    requires
        scanned(a0, conns, p, a),
    ensures
        active::is_open(a, k) <==> active::is_open(a0, k) || active::is_listed(conns.take(p), k),
{
    reveal(scanned);
    if active::is_open(a0, k) {
        let i = choose|i: int| 0 <= i < a0.len() && (#[trigger] a0[i]).conn.key() == k;
        assert(same_but_state(a[i], a0[i]));
        assert(a[i].conn.key() == k);
    }
    if active::is_open(a, k) {
        let i = choose|i: int| 0 <= i < a.len() && (#[trigger] a[i]).conn.key() == k;
        if i < a0.len() {
            assert(same_but_state(a[i], a0[i]));
            assert(a0[i].conn.key() == k);
        }
    }
}

/// What the pass holds of an open connection is the state in which it was seen last.
proof fn lemma_last_seen(
    a0: Seq<RecordView>,
    conns: Seq<ConnectionView>,
    p: int,
    a: Seq<RecordView>,
    k: Seq<char>,
)
    requires
        scanned(a0, conns, p, a),
    ensures
        last_seen(a0, conns.take(p), k) == if active::is_open(a, k) {
            Some(a[active::position(a, k)].conn.state)
        } else {
            None
        },
{
    reveal(scanned);
    let seen = conns.take(p);
    lemma_open_keys(a0, conns, p, a, k);
    if active::is_open(a, k) {
        let j = active::position(a, k);
        assert(a[j].conn.key() == k);
        if !active::is_listed(seen, k) {
            let i = active::position(a0, k);
            assert(a0[i].conn.key() == k);
            assert(same_but_state(a[i], a0[i]));
            assert(a[i].conn.key() == k);
            if i < j {
                assert(a[i].conn.key() != a[j].conn.key());
            }
            if j < i {
                assert(a[j].conn.key() != a[i].conn.key());
            }
        }
    }
}

/// A connection that is open is brought up to date.
pub proof fn lemma_scan_open(
    a0: Seq<RecordView>,
    conns: Seq<ConnectionView>,
    p: int,
    a: Seq<RecordView>,
)
    requires
        0 <= p < conns.len(),
        scanned(a0, conns, p, a),
        active::is_open(a, conns[p].key()),
    ensures
        scanned(a0, conns, p + 1, active::with_state(a, conns[p])),
        appeared(a0, conns.take(p + 1)) == appeared(a0, conns.take(p)),
        changed(a0, conns.take(p + 1)) == if active::is_unchanged(a, conns[p]) {
            changed(a0, conns.take(p))
        } else {
            changed(a0, conns.take(p)).push(
                StateChange {
                    conn: conns[p],
                    old_state: a[active::position(a, conns[p].key())].conn.state,
                },
            )
        },
{
    reveal(scanned);
    let c = conns[p];
    let b = active::with_state(a, c);
    let q = active::position(a, c.key());
    let seen = conns.take(p);
    let next = conns.take(p + 1);
    lemma_listed_next(conns, p);
    lemma_open_keys(a0, conns, p, a, c.key());
    lemma_last_seen(a0, conns, p, a, c.key());
    active::lemma_with_state(a, c);
    assert forall|i: int| 0 <= i < a0.len() implies same_but_state(#[trigger] b[i], a0[i]) && (
    !active::is_listed(next, a0[i].conn.key()) ==> b[i] == a0[i]) by {
        assert(same_but_state(a[i], a0[i]));
        if i == q {
            assert(a0[i].conn.key() == c.key());
        }
    }
    assert forall|i: int| a0.len() <= i < b.len() implies active::is_listed(
        next,
        (#[trigger] b[i]).conn.key(),
    ) && is_one_of(b[i].conn, next) by {
        assert(a[i].conn.key() == b[i].conn.key());
        lemma_one_of_more(a[i].conn, conns, p);
        let j = choose|j: int|
            0 <= j < next.len() && a[i].conn == (ConnectionView {
                state: a[i].conn.state,
                ..#[trigger] next[j]
            });
        assert(b[i].conn == (ConnectionView { state: b[i].conn.state, ..next[j] }));
    }
    assert forall|i: int|
        0 <= i < b.len() && active::is_listed(
            next,
            (#[trigger] b[i]).conn.key(),
        ) implies b[i].conn.state == listed_state(next, b[i].conn.key()) by {
        assert(a[i].conn.key() == b[i].conn.key());
        if i != q {
            if i < q {
                assert(a[i].conn.key() != a[q].conn.key());
            } else {
                assert(a[q].conn.key() != a[i].conn.key());
            }
            assert(listed_state(next, a[i].conn.key()) == listed_state(seen, a[i].conn.key()));
        }
    }
    assert forall|k: Seq<char>| #[trigger] active::is_listed(next, k) implies active::is_open(
        b,
        k,
    ) by {
        assert(active::is_open(a, k));
    }
}

/// A connection that is not open is added.
pub proof fn lemma_scan_new(
    a0: Seq<RecordView>,
    conns: Seq<ConnectionView>,
    p: int,
    a: Seq<RecordView>,
    r: RecordView,
)
    requires
        0 <= p < conns.len(),
        scanned(a0, conns, p, a),
        !active::is_open(a, conns[p].key()),
        r.conn == conns[p],
    ensures
        scanned(a0, conns, p + 1, a.push(r)),
        appeared(a0, conns.take(p + 1)) == appeared(a0, conns.take(p)).push(conns[p]),
        changed(a0, conns.take(p + 1)) == changed(a0, conns.take(p)),
{
    reveal(scanned);
    let b = a.push(r);
    let seen = conns.take(p);
    let next = conns.take(p + 1);
    lemma_listed_next(conns, p);
    lemma_open_keys(a0, conns, p, a, conns[p].key());
    lemma_last_seen(a0, conns, p, a, conns[p].key());
    active::lemma_push(a, r);
    assert forall|i: int| 0 <= i < a0.len() implies same_but_state(#[trigger] b[i], a0[i]) && (
    !active::is_listed(next, a0[i].conn.key()) ==> b[i] == a0[i]) by {
        assert(same_but_state(a[i], a0[i]));
    }
    assert forall|i: int| a0.len() <= i < b.len() implies active::is_listed(
        next,
        (#[trigger] b[i]).conn.key(),
    ) && is_one_of(b[i].conn, next) by {
        if i < a.len() {
            assert(active::is_listed(seen, a[i].conn.key()));
            lemma_one_of_more(a[i].conn, conns, p);
        } else {
            assert(b[i].conn == (ConnectionView { state: b[i].conn.state, ..next[p] }));
        }
    }
    assert forall|i: int|
        0 <= i < b.len() && active::is_listed(
            next,
            (#[trigger] b[i]).conn.key(),
        ) implies b[i].conn.state == listed_state(next, b[i].conn.key()) by {
        if i < a.len() {
            assert(a[i].conn.key() != conns[p].key());
            assert(listed_state(next, a[i].conn.key()) == listed_state(seen, a[i].conn.key()));
        }
    }
    assert forall|k: Seq<char>| #[trigger] active::is_listed(next, k) implies active::is_open(
        b,
        k,
    ) by {
        if active::is_listed(seen, k) {
            assert(active::is_open(a, k));
        }
    }
}

/// Unchanged connections are passed over.
pub proof fn lemma_scan_unchanged(
    a0: Seq<RecordView>,
    conns: Seq<ConnectionView>,
    p: int,
    a: Seq<RecordView>,
)
    requires
        0 <= p <= conns.len(),
        scanned(a0, conns, p, a),
    ensures
        scanned(a0, conns, active::next_news(a, conns, p), a),
        appeared(a0, conns.take(active::next_news(a, conns, p))) == appeared(a0, conns.take(p)),
        changed(a0, conns.take(active::next_news(a, conns, p))) == changed(a0, conns.take(p)),
    decreases conns.len() - p,
{
    reveal(scanned);
    if p < conns.len() && active::is_unchanged(a, conns[p]) {
        lemma_scan_open(a0, conns, p, a);
        assert(active::with_state(a, conns[p]) =~= a);
        lemma_scan_unchanged(a0, conns, p + 1, a);
    }
}

/// What is not listed is what was open and is not listed.
proof fn lemma_stale(a0: Seq<RecordView>, conns: Seq<ConnectionView>, a: Seq<RecordView>)
    requires
        a0.len() <= a.len(),
        forall|i: int|
            0 <= i < a0.len() ==> same_but_state(#[trigger] a[i], a0[i]) && (!active::is_listed(
                conns,
                a0[i].conn.key(),
            ) ==> a[i] == a0[i]),
        forall|i: int|
            a0.len() <= i < a.len() ==> active::is_listed(conns, (#[trigger] a[i]).conn.key()),
    ensures
        active::stale(a, conns) == active::stale(a0, conns),
    decreases a.len(),
{
    reveal(Seq::filter);
    if a.len() > 0 {
        let b = a.drop_last();
        let n = b.len() as int;
        if a0.len() == a.len() {
            let b0 = a0.drop_last();
            assert forall|i: int| 0 <= i < b0.len() implies same_but_state(#[trigger] b[i], b0[i])
                && (!active::is_listed(conns, b0[i].conn.key()) ==> b[i] == b0[i]) by {
                assert(same_but_state(a[i], a0[i]));
            }
            lemma_stale(b0, conns, b);
            assert(same_but_state(a[n], a0[n]));
            assert(a[n].conn.key() == a0[n].conn.key());
        } else {
            assert forall|i: int| 0 <= i < a0.len() implies same_but_state(#[trigger] b[i], a0[i])
                && (!active::is_listed(conns, a0[i].conn.key()) ==> b[i] == a0[i]) by {
                assert(same_but_state(a[i], a0[i]));
            }
            assert forall|i: int| a0.len() <= i < b.len() implies active::is_listed(
                conns,
                (#[trigger] b[i]).conn.key(),
            ) by {
                assert(a[i] == b[i]);
            }
            lemma_stale(a0, conns, b);
            assert(active::is_listed(conns, a[n].conn.key()));
        }
    }
}

/// Behind the last connection the pass has found what is gone and what is open.
pub proof fn lemma_scan_ends(a0: Seq<RecordView>, conns: Seq<ConnectionView>, a: Seq<RecordView>)
    requires
        active::distinct_keys(a0),
        scanned(a0, conns, conns.len() as int, a),
    ensures
        active::stale(a, conns) == active::stale(a0, conns),
        follows(a0, conns, active::fresh(a, conns)),
        appeared(a0, conns.take(conns.len() as int)) == appeared(a0, conns),
        changed(a0, conns.take(conns.len() as int)) == changed(a0, conns),
{
    reveal(scanned);
    assert(conns.take(conns.len() as int) =~= conns);
    lemma_stale(a0, conns, a);
    let p = |r: RecordView| active::is_listed(conns, r.conn.key());
    let f = active::fresh(a, conns);
    active::lemma_filter_keys(a, p);
    seqs::lemma_filter_contains(a, p);
    assert forall|k: Seq<char>| #[trigger] active::is_open(f, k) <==> active::is_listed(
        conns,
        k,
    ) by {
        if active::is_open(f, k) {
            assert(active::is_open(a, k) && p(a[active::position(a, k)]));
        }
        if active::is_listed(conns, k) {
            assert(active::is_open(a, k));
            assert(a[active::position(a, k)].conn.key() == k);
        }
    }
    assert forall|i: int| 0 <= i < f.len() implies (#[trigger] f[i]).conn.state == listed_state(
        conns,
        f[i].conn.key(),
    ) && (active::is_open(a0, f[i].conn.key()) ==> same_but_state(
        f[i],
        a0[active::position(a0, f[i].conn.key())],
    )) && (!active::is_open(a0, f[i].conn.key()) ==> is_one_of(f[i].conn, conns)) by {
        assert(f.contains(f[i]));
        let j = choose|j: int| 0 <= j < a.len() && a[j] == f[i];
        assert(active::is_listed(conns, a[j].conn.key()));
        if j < a0.len() {
            assert(same_but_state(a[j], a0[j]));
            assert(a0[j].conn.key() == f[i].conn.key());
        }
        if active::is_open(a0, f[i].conn.key()) {
            let n = active::position(a0, f[i].conn.key());
            assert(same_but_state(a[n], a0[n]));
            assert(a[n].conn.key() == a0[n].conn.key());
            if n < j {
                assert(a[n].conn.key() != a[j].conn.key());
            }
            if j < n {
                assert(a[j].conn.key() != a[n].conn.key());
            }
        }
    }
}

/// The state of a listed connection is the one in its last row.
pub proof fn law_listed_state(conns: Seq<ConnectionView>, i: int)
    requires
        0 <= i < conns.len(),
        forall|j: int| i < j < conns.len() ==> (#[trigger] conns[j]).key() != conns[i].key(),
    ensures
        listed_state(conns, conns[i].key()) == conns[i].state,
    decreases conns.len(),
{
    if i < conns.len() - 1 {
        let d = conns.drop_last();
        assert(conns[conns.len() - 1].key() != conns[i].key());
        assert forall|j: int| i < j < d.len() implies (#[trigger] d[j]).key() != d[i].key() by {
            assert(conns[j].key() != conns[i].key());
        }
        law_listed_state(d, i);
    }
}

/// What is gone is every record whose key no listed connection has, in order, and no
/// other.
pub proof fn law_stale(s: Seq<RecordView>, conns: Seq<ConnectionView>)
    ensures
        seqs::is_subsequence(active::stale(s, conns), s),
        forall|r: RecordView| #[trigger]
            active::stale(s, conns).contains(r) <==> s.contains(r) && forall|j: int|
                0 <= j < conns.len() ==> (#[trigger] conns[j]).key() != r.conn.key(),
        forall|r: RecordView| #[trigger]
            active::stale(s, conns).to_multiset().count(r) <= s.to_multiset().count(r),
{
    let p = |r: RecordView| !active::is_listed(conns, r.conn.key());
    seqs::lemma_filter_counts(s, p);
    seqs::lemma_filter_contains(s, p);
}

proof fn lemma_first_rows(conns: Seq<ConnectionView>)
    requires
        conns.len() > 0,
        forall|i: int, j: int|
            0 <= i < j < conns.len() ==> (#[trigger] conns[i]).key() != (
            #[trigger] conns[j]).key(),
    ensures
        forall|i: int, j: int|
            0 <= i < j < conns.drop_last().len() ==> (#[trigger] conns.drop_last()[i]).key() != (
            #[trigger] conns.drop_last()[j]).key(),
        !active::is_listed(conns.drop_last(), conns.last().key()),
{
    let d = conns.drop_last();
    assert forall|i: int, j: int| 0 <= i < j < d.len() implies (#[trigger] d[i]).key() != (
    #[trigger] d[j]).key() by {
        assert(conns[i].key() != conns[j].key());
    }
    if active::is_listed(d, conns.last().key()) {
        let i = choose|i: int| 0 <= i < d.len() && (#[trigger] d[i]).key() == conns.last().key();
        assert(conns[i].key() != conns[conns.len() - 1].key());
    }
}

/// Where no key is listed twice, what changed is every listed connection that was
/// open in another state, told with that state, once each, and no other.
pub proof fn law_changed(s: Seq<RecordView>, conns: Seq<ConnectionView>)
    requires
        active::distinct_keys(s),
        forall|i: int, j: int|
            0 <= i < j < conns.len() ==> (#[trigger] conns[i]).key() != (
            #[trigger] conns[j]).key(),
    ensures
        forall|x: StateChange| #[trigger]
            changed(s, conns).contains(x) <==> conns.contains(x.conn) && x.old_state
                != x.conn.state && exists|i: int|
                0 <= i < s.len() && (#[trigger] s[i]).conn.key() == x.conn.key()
                    && s[i].conn.state == x.old_state,
        changed(s, conns).no_duplicates(),
    decreases conns.len(),
{
    let f = changed(s, conns);
    if conns.len() > 0 {
        let d = conns.drop_last();
        let c = conns.last();
        let g = changed(s, d);
        lemma_first_rows(conns);
        law_changed(s, d);
        assert(conns =~= d.push(c));
        assert(last_seen(s, d, c.key()) == if active::is_open(s, c.key()) {
            Some(s[active::position(s, c.key())].conn.state)
        } else {
            None
        });
        assert(!d.contains(c)) by {
            if d.contains(c) {
                let i = choose|i: int| 0 <= i < d.len() && d[i] == c;
                assert(d[i].key() == c.key());
            }
        }
        assert forall|x: StateChange| #[trigger] f.contains(x) <==> conns.contains(x.conn)
            && x.old_state != x.conn.state && exists|i: int|
            0 <= i < s.len() && (#[trigger] s[i]).conn.key() == x.conn.key() && s[i].conn.state
                == x.old_state by {
            assert(conns.contains(x.conn) <==> d.contains(x.conn) || x.conn == c);
            if f.len() > g.len() {
                assert(f =~= g.push(f.last()));
                assert(f.contains(x) <==> g.contains(x) || x == f.last());
            } else {
                assert(f =~= g);
            }
            if active::is_open(s, c.key()) {
                let i = active::position(s, c.key());
                assert(s[i].conn.key() == c.key());
                assert forall|j: int| 0 <= j < s.len() && (#[trigger] s[j]).conn.key()
                    == c.key() implies j == i by {
                    if j < i {
                        assert(s[j].conn.key() != s[i].conn.key());
                    }
                    if i < j {
                        assert(s[i].conn.key() != s[j].conn.key());
                    }
                }
            }
        }
        if f.len() > g.len() {
            assert(f =~= g.push(f.last()));
            assert(!g.contains(f.last()));
        }
    }
}

/// What appeared stands in the order of the list, and of each key it is the first
/// connection listed.
pub proof fn law_appeared_in_order(s: Seq<RecordView>, conns: Seq<ConnectionView>)
    ensures
        seqs::is_subsequence(appeared(s, conns), conns),
        forall|i: int|
            0 <= i < conns.len() && !active::is_open(s, (#[trigger] conns[i]).key()) && (forall|
                j: int,
            |
                0 <= j < i ==> (#[trigger] conns[j]).key() != conns[i].key()) ==> appeared(
                s,
                conns,
            ).contains(conns[i]),
    decreases conns.len(),
{
    let f = appeared(s, conns);
    if conns.len() == 0 {
        assert(seqs::picks(f, conns, Seq::empty()));
    } else {
        let d = conns.drop_last();
        let c = conns.last();
        let g = appeared(s, d);
        law_appeared_in_order(s, d);
        let at = choose|at: Seq<int>| seqs::picks(g, d, at);
        if f.len() > g.len() {
            assert(seqs::picks(f, conns, at.push(d.len() as int)));
        } else {
            assert(seqs::picks(f, conns, at));
        }
        assert forall|i: int|
            0 <= i < conns.len() && !active::is_open(s, (#[trigger] conns[i]).key()) && (forall|
                j: int,
            |
                0 <= j < i ==> (#[trigger] conns[j]).key() != conns[i].key()) implies f.contains(
            conns[i],
        ) by {
            if i < d.len() {
                assert(d[i] == conns[i]);
                assert forall|j: int| 0 <= j < i implies (#[trigger] d[j]).key()
                    != d[i].key() by {
                    assert(conns[j].key() != conns[i].key());
                }
                assert(g.contains(d[i]));
                let n = choose|n: int| 0 <= n < g.len() && g[n] == d[i];
                assert(f[n] == conns[i]);
            } else {
                if active::is_listed(d, c.key()) {
                    let j = choose|j: int| 0 <= j < d.len() && (#[trigger] d[j]).key() == c.key();
                    assert(conns[j].key() != conns[i].key());
                }
                assert(f.last() == c);
            }
        }
    }
}

} // verus!
