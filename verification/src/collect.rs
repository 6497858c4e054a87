//! The result collector: open-port records arrive in whatever order the
//! attempt units resolve, and leave as one ascending report.

use vstd::prelude::*;

verus! {

/// Ascending order by port number: the order of the final report.
pub open spec fn sorted(s: Seq<u16>) -> bool {
    forall|i: int, j: int| 0 <= i <= j < s.len() ==> s[i] <= s[j]
}

/// Gathers the open-port records emitted by the attempt units. Arrival
/// order is whatever order the attempts resolved in; it carries no meaning.
pub struct Collector {
    received: Vec<u16>,
}

impl View for Collector {
    type V = Seq<u16>;

    closed spec fn view(&self) -> Seq<u16> {
        self.received@
    }
}

impl Collector {
    /// A collector that has received nothing yet.
    pub fn new() -> (c: Collector)
        ensures
            c@ == Seq::<u16>::empty(),
    {
        let c = Collector { received: Vec::new() };
        proof {
            assert(c@ =~= Seq::<u16>::empty());
        }
        c
    }

    /// One open-port record arrives over the result channel.
    pub fn record(&mut self, port: u16)
        ensures
            final(self)@ == old(self)@.push(port),
    {
        self.received.push(port);
    }

    /// The attempt unit on `port` resolved: it emits its port number exactly
    /// when the connection was established, and nothing on any failure.
    pub fn note_outcome(&mut self, port: u16, open: bool)
        ensures
            final(self)@ == (if open {
                old(self)@.push(port)
            } else {
                old(self)@
            }),
    {
        if open {
            self.record(port);
        }
    }

    /// How many records have arrived so far.
    pub fn len(&self) -> (n: usize)
        ensures
            n == self@.len(),
    {
        self.received.len()
    }

    /// Drains the collector into the final report: exactly the records that
    /// arrived, rearranged into ascending order.
    pub fn into_report(self) -> (r: Vec<u16>)
        ensures
            sorted(r@),
            r@.to_multiset() == self@.to_multiset(),
            r@.len() == self@.len(),
            forall|p: u16| r@.contains(p) <==> self@.contains(p),
    {
        let Collector { received } = self;
        let mut out: Vec<u16> = Vec::new();
        let mut i: usize = 0;
        proof {
            assert(out@ =~= received@.subrange(0, 0));
        }
        while i < received.len()
            invariant
                i <= received@.len(),
                sorted(out@),
                out@.len() == i,
                out@.to_multiset() == received@.subrange(0, i as int).to_multiset(),
            decreases received@.len() - i,
        {
            let x = received[i];
            insert_sorted(&mut out, x);
            proof {
                broadcast use vstd::seq_lib::group_to_multiset_ensures;

                assert(received@.subrange(0, (i + 1) as int) =~= received@.subrange(
                    0,
                    i as int,
                ).push(x));
            }
            i = i + 1;
        }
        proof {
            broadcast use vstd::seq_lib::group_to_multiset_ensures;

            assert(received@.subrange(0, received@.len() as int) =~= received@);
            assert forall|p: u16| out@.contains(p) <==> received@.contains(p) by {
                assert(out@.to_multiset().count(p) == received@.to_multiset().count(p));
            }
        }
        out
    }
}

/// Places `x` into an already ascending sequence, keeping it ascending.
fn insert_sorted(r: &mut Vec<u16>, x: u16)
    requires
        sorted(old(r)@),
    ensures
        sorted(final(r)@),
        final(r)@.len() == old(r)@.len() + 1,
        final(r)@.to_multiset() == old(r)@.to_multiset().insert(x),
{
    let mut j: usize = 0;
    while j < r.len() && r[j] <= x
        invariant
            j <= r@.len(),
            r@ == old(r)@,
            forall|k: int| 0 <= k < j ==> r@[k] <= x,
        decreases r@.len() - j,
    {
        j = j + 1;
    }
    let ghost before = r@;
    r.insert(j, x);
    proof {
        broadcast use vstd::seq_lib::group_to_multiset_ensures;

        before.insert_ensures(j as int, x);
        assert(forall|k: int| j <= k < before.len() ==> x < #[trigger] before[k]) by {
            assert(forall|k: int|
                j < before.len() && j <= k < before.len() ==> before[j as int]
                    <= #[trigger] before[k]);
        }
        assert forall|a: int, b: int| 0 <= a <= b < r@.len() implies r@[a] <= r@[b] by {
            if b < j {
                assert(r@[a] == before[a] && r@[b] == before[b]);
            } else if b == j {
                if a < j {
                    assert(r@[a] == before[a] && before[a] <= x);
                }
            } else {
                assert(r@[b] == before[b - 1] && x < before[b - 1]);
                if a < j {
                    assert(r@[a] == before[a] && before[a] <= x);
                } else if a == j {
                    assert(r@[a] == x);
                } else {
                    assert(r@[a] == before[a - 1] && before[a - 1] <= before[b - 1]);
                }
            }
        }
    }
}

/// Law: the report is determined by the records alone. Two ascending
/// sequences that carry the same records are equal — so two scans that find
/// the same open ports produce the same report, however differently their
/// attempts happened to resolve.
pub proof fn lemma_report_deterministic(a: Seq<u16>, b: Seq<u16>)
    requires
        sorted(a),
        sorted(b),
        a.to_multiset() == b.to_multiset(),
    ensures
        a == b,
    decreases a.len(),
{
    broadcast use vstd::seq_lib::group_to_multiset_ensures;

    if a.len() == 0 {
        assert(a =~= b);
    } else {
        assert(a.contains(a[0]));
        assert(b.to_multiset().count(a[0]) > 0);
        assert(b.contains(a[0]));
        let i = choose|i: int| 0 <= i < b.len() && b[i] == a[0];
        assert(b[0] <= b[i]);
        assert(b.contains(b[0]));
        assert(a.to_multiset().count(b[0]) > 0);
        assert(a.contains(b[0]));
        let k = choose|k: int| 0 <= k < a.len() && a[k] == b[0];
        assert(a[0] <= a[k]);
        assert(a[0] == b[0]);
        assert(a.drop_first() =~= a.remove(0));
        assert(b.drop_first() =~= b.remove(0));
        assert(a.remove(0).to_multiset() == a.to_multiset().remove(a[0]));
        assert(b.remove(0).to_multiset() == b.to_multiset().remove(b[0]));
        lemma_report_deterministic(a.drop_first(), b.drop_first());
        assert forall|m: int| 0 <= m < a.len() implies a[m] == b[m] by {
            if m > 0 {
                assert(a[m] == a.drop_first()[m - 1]);
                assert(b[m] == b.drop_first()[m - 1]);
            }
        }
        assert(a =~= b);
    }
}

/// Law: when every attempt bears a distinct port — as in a scan, where each
/// port of the range is attempted once — the report holds exactly one row
/// per open port: none lost, none duplicated, none invented.
pub proof fn lemma_distinct_records_exact(recorded: Seq<u16>, report: Seq<u16>)
    requires
        recorded.no_duplicates(),
        report.to_multiset() == recorded.to_multiset(),
    ensures
        report.len() == recorded.len(),
        report.no_duplicates(),
        forall|p: u16| report.contains(p) <==> recorded.contains(p),
{
    vstd::seq_lib::to_multiset_len(report);
    vstd::seq_lib::to_multiset_len(recorded);
    recorded.lemma_multiset_has_no_duplicates();
    assert forall|x: u16| report.to_multiset().contains(x) implies report.to_multiset().count(x)
        == 1 by {
        assert(recorded.to_multiset().count(x) == report.to_multiset().count(x));
    }
    report.lemma_multiset_has_no_duplicates_conv();
    assert forall|p: u16| report.contains(p) <==> recorded.contains(p) by {
        vstd::seq_lib::to_multiset_contains(report, p);
        vstd::seq_lib::to_multiset_contains(recorded, p);
        assert(report.to_multiset().count(p) == recorded.to_multiset().count(p));
    }
}

/// The whole pipeline with its connection outcomes laid out: `open[i]` says
/// whether the attempt on `ports[i]` established a connection. Each port is
/// recorded exactly when its attempt succeeded, and the report lists, in
/// ascending order, exactly the ports whose attempts succeeded.
pub fn report_from_outcomes(ports: &Vec<u16>, open: &Vec<bool>) -> (r: Vec<u16>)
    requires
        ports@.len() == open@.len(),
    ensures
        sorted(r@),
        forall|p: u16|
            r@.contains(p) <==> exists|i: int|
                0 <= i < ports@.len() && ports@[i] == p && open@[i],
        ports@.no_duplicates() ==> r@.no_duplicates(),
{
    let mut c = Collector::new();
    let mut i: usize = 0;
    while i < ports.len()
        invariant
            i <= ports@.len(),
            ports@.len() == open@.len(),
            forall|p: u16|
                c@.contains(p) <==> exists|k: int| 0 <= k < i && ports@[k] == p && open@[k],
            ports@.no_duplicates() ==> c@.no_duplicates(),
        decreases ports@.len() - i,
    {
        let ghost pre = c@;
        c.note_outcome(ports[i], open[i]);
        proof {
            if ports@.no_duplicates() && open@[i as int] {
                assert(!pre.contains(ports@[i as int]));
                assert forall|a: int, b: int|
                    0 <= a < c@.len() && 0 <= b < c@.len() && a != b implies c@[a] != c@[b] by {
                    if a < pre.len() && b < pre.len() {
                        assert(c@[a] == pre[a] && c@[b] == pre[b]);
                    } else if a < pre.len() {
                        assert(c@[b] == ports@[i as int] && c@[a] == pre[a]);
                        assert(pre.contains(pre[a]));
                    } else if b < pre.len() {
                        assert(c@[a] == ports@[i as int] && c@[b] == pre[b]);
                        assert(pre.contains(pre[b]));
                    }
                }
            }
            assert forall|p: u16| c@.contains(p) <==> exists|k: int|
                0 <= k < i + 1 && ports@[k] == p && open@[k] by {
                if open@[i as int] {
                    if c@.contains(p) {
                        let m = choose|m: int| 0 <= m < c@.len() && c@[m] == p;
                        if m < pre.len() {
                            assert(pre[m] == p);
                            assert(pre.contains(p));
                        } else {
                            assert(p == ports@[i as int]);
                        }
                    }
                    if exists|k: int| 0 <= k < i + 1 && ports@[k] == p && open@[k] {
                        let k = choose|k: int| 0 <= k < i + 1 && ports@[k] == p && open@[k];
                        if k < i {
                            assert(pre.contains(p));
                            let m = choose|m: int| 0 <= m < pre.len() && pre[m] == p;
                            assert(c@[m] == p);
                        } else {
                            assert(c@[pre.len() as int] == p);
                        }
                        assert(c@.contains(p));
                    }
                } else {
                    assert(c@ == pre);
                }
            }
        }
        i = i + 1;
    }
    let ghost recorded = c@;
    let r = c.into_report();
    proof {
        if ports@.no_duplicates() {
            lemma_distinct_records_exact(recorded, r@);
        }
    }
    r
}

} // verus!
