//! What the list of the busiest processes says of their samples.

use crate::double::{
    law_every_quotient_rounds, law_whole_numbers_are_ordered, lemma_zero_size, quotient, sum, whole,
    zero, Double,
};
use crate::metrics::{
    carried, current_rates, has_process, has_rate, process_rates, sample_of, with_rate, ByLoad,
    ProcessRate, ProcessRateView,
};
use crate::order::{
    arranged, law_arranged_among_is_ordered, law_arranged_holds_the_same, law_arranged_keeps_all,
    law_text_order, law_text_order_chains, ranks_among, Rule,
};
use crate::sysfs::ProcessIoView;
use vstd::prelude::*;

verus! {

/// Whether the last sample of a process stands at a place.
pub open spec fn last_at(samples: Seq<ProcessIoView>, k: int, pid: u32) -> bool {
    &&& 0 <= k < samples.len()
    &&& samples[k].pid == pid
    &&& forall|j: int| k < j < samples.len() ==> (#[trigger] samples[j]).pid != pid
}

pub open spec fn nowhere(samples: Seq<ProcessIoView>, pid: u32) -> bool {
    forall|j: int| 0 <= j < samples.len() ==> (#[trigger] samples[j]).pid != pid
}

/// What a counter rose by; nothing where it fell.
pub open spec fn risen(from: u64, to: u64) -> nat {
    if to > from {
        (to - from) as nat
    } else {
        0
    }
}

/// What a process shows that was sampled twice.
pub open spec fn shows(r: ProcessRateView, p: ProcessIoView, c: ProcessIoView, dt: Double) -> bool {
    &&& r.pid == c.pid && r.name == c.name
    &&& r.read_bytes_sec == quotient(whole(risen(p.read_bytes, c.read_bytes)), dt)
    &&& r.write_bytes_sec == quotient(whole(risen(p.write_bytes, c.write_bytes)), dt)
    &&& r.total_read == c.read_bytes && r.total_write == c.write_bytes
}

pub open spec fn load_of(r: ProcessRateView) -> Double {
    sum(r.read_bytes_sec, r.write_bytes_sec)
}

// ----------------------------------------------------------------------- lemmas

proof fn lemma_last(samples: Seq<ProcessIoView>, pid: u32)
    ensures
        forall|k: int| #[trigger] last_at(samples, k, pid) ==> sample_of(samples, pid) == Some(
            samples[k],
        ),
        nowhere(samples, pid) <==> sample_of(samples, pid) is None,
        sample_of(samples, pid) is Some ==> exists|k: int| #[trigger] last_at(samples, k, pid),
    decreases samples.len(),
{
    if samples.len() > 0 {
        let rest = samples.drop_last();
        let n = samples.len() - 1;
        lemma_last(rest, pid);
        assert(samples[n] == samples.last());
        if samples.last().pid == pid {
            assert(last_at(samples, n, pid));
            assert forall|k: int| #[trigger] last_at(samples, k, pid) implies k == n by {
                if k < n {
                    assert(samples[n].pid != pid);
                }
            }
        } else {
            assert forall|k: int| #[trigger] last_at(samples, k, pid) implies sample_of(samples, pid)
                == Some(samples[k]) by {
                assert(last_at(rest, k, pid)) by {
                    assert forall|j: int| k < j < rest.len() implies (#[trigger] rest[j]).pid
                        != pid by {
                        assert(rest[j] == samples[j]);
                    }
                }
            }
            if nowhere(rest, pid) {
                assert forall|j: int| 0 <= j < samples.len() implies (#[trigger] samples[j]).pid
                    != pid by {
                    if j < n {
                        assert(rest[j] == samples[j]);
                    }
                }
            }
            if nowhere(samples, pid) {
                assert forall|j: int| 0 <= j < rest.len() implies (#[trigger] rest[j]).pid
                    != pid by {
                    assert(rest[j] == samples[j]);
                }
            }
            if sample_of(samples, pid) is Some {
                let k = choose|k: int| #[trigger] last_at(rest, k, pid);
                assert(last_at(samples, k, pid)) by {
                    assert(rest[k] == samples[k]);
                    assert forall|j: int| k < j < samples.len() implies (
                    #[trigger] samples[j]).pid != pid by {
                        if j < n {
                            assert(rest[j] == samples[j]);
                        }
                    }
                }
            }
        }
    }
}

spec fn once(rates: Seq<ProcessRateView>) -> bool {
    forall|i: int, j: int|
        0 <= i < j < rates.len() ==> (#[trigger] rates[i]).pid != (#[trigger] rates[j]).pid
}

proof fn lemma_set(rates: Seq<ProcessRateView>, r: ProcessRateView)
    requires
        once(rates),
    ensures
        ({
            let w = with_rate(rates, r);
            &&& once(w)
            &&& w.contains(r)
            &&& forall|i: int|
                0 <= i < w.len() ==> #[trigger] w[i] == r || (w[i].pid != r.pid && rates.contains(
                    w[i],
                ))
            &&& forall|i: int|
                0 <= i < rates.len() && (#[trigger] rates[i]).pid != r.pid ==> w.contains(rates[i])
        }),
    decreases rates.len(),
{
    let w = with_rate(rates, r);
    let n = rates.len() - 1;
    if rates.len() == 0 {
        assert(w[0] == r);
    } else {
        let rest = rates.drop_last();
        assert(rates[n] == rates.last());
        assert(once(rest)) by {
            assert forall|i: int, j: int| 0 <= i < j < rest.len() implies (#[trigger] rest[i]).pid
                != (#[trigger] rest[j]).pid by {
                assert(rest[i] == rates[i] && rest[j] == rates[j]);
            }
        }
        if rates.last().pid == r.pid {
            assert(w == rest.push(r));
            assert(w[n] == r);
            assert forall|i: int| 0 <= i < w.len() implies #[trigger] w[i] == r || (w[i].pid
                != r.pid && rates.contains(w[i])) by {
                if i < n {
                    assert(w[i] == rates[i]);
                    assert(rates[i].pid != rates[n].pid);
                }
            }
            assert forall|i: int| 0 <= i < rates.len() && (#[trigger] rates[i]).pid
                != r.pid implies w.contains(rates[i]) by {
                assert(w[i] == rates[i]);
            }
            assert(once(w)) by {
                assert forall|i: int, j: int| 0 <= i < j < w.len() implies (#[trigger] w[i]).pid
                    != (#[trigger] w[j]).pid by {
                    assert(w[i] == rates[i]);
                    assert(rates[i].pid != rates[j].pid);
                }
            }
        } else if has_rate(rates, r.pid) {
            lemma_set(rest, r);
            let v = with_rate(rest, r);
            assert(w == v.push(rates.last()));
            assert(w[v.len() as int] == rates.last());
            let q = choose|q: int| 0 <= q < v.len() && v[q] == r;
            assert(w[q] == r);
            assert forall|i: int| 0 <= i < w.len() implies #[trigger] w[i] == r || (w[i].pid
                != r.pid && rates.contains(w[i])) by {
                if i < v.len() {
                    assert(w[i] == v[i]);
                    if v[i] != r {
                        let k = choose|k: int| 0 <= k < rest.len() && rest[k] == v[i];
                        assert(rates[k] == w[i]);
                    }
                }
            }
            assert forall|i: int| 0 <= i < rates.len() && (#[trigger] rates[i]).pid
                != r.pid implies w.contains(rates[i]) by {
                if i < n {
                    assert(rest[i] == rates[i]);
                    assert(v.contains(rest[i]));
                    let k = choose|k: int| 0 <= k < v.len() && v[k] == rest[i];
                    assert(w[k] == rates[i]);
                }
            }
            assert(once(w)) by {
                assert forall|i: int, j: int| 0 <= i < j < w.len() implies (#[trigger] w[i]).pid
                    != (#[trigger] w[j]).pid by {
                    assert(w[i] == v[i]);
                    if j < v.len() {
                        assert(w[j] == v[j]);
                    } else if v[i] != r {
                        assert(rest.contains(v[i]));
                        let k = choose|k: int| 0 <= k < rest.len() && rest[k] == v[i];
                        assert(rates[k].pid != rates[n].pid);
                    }
                }
            }
        } else {
            assert(w == rates.push(r));
            assert(w[rates.len() as int] == r);
            assert forall|i: int| 0 <= i < w.len() implies #[trigger] w[i] == r || (w[i].pid
                != r.pid && rates.contains(w[i])) by {
                if i < rates.len() {
                    assert(w[i] == rates[i]);
                    assert(rates[i].pid != r.pid);
                }
            }
            assert forall|i: int| 0 <= i < rates.len() && (#[trigger] rates[i]).pid
                != r.pid implies w.contains(rates[i]) by {
                assert(w[i] == rates[i]);
            }
            assert(once(w)) by {
                assert forall|i: int, j: int| 0 <= i < j < w.len() implies (#[trigger] w[i]).pid
                    != (#[trigger] w[j]).pid by {
                    assert(w[i] == rates[i]);
                    if j < rates.len() {
                        assert(w[j] == rates[j]);
                    }
                }
            }
        }
    }
}

/// Whether rates show what two lists of samples hold.
spec fn shown(
    rates: Seq<ProcessRateView>,
    before: Seq<ProcessIoView>,
    now: Seq<ProcessIoView>,
    dt: Double,
) -> bool {
    &&& forall|i: int|
        0 <= i < rates.len() ==> {
            let pid = (#[trigger] rates[i]).pid;
            &&& sample_of(before, pid) is Some && sample_of(now, pid) is Some
            &&& shows(rates[i], sample_of(before, pid)->0, sample_of(now, pid)->0, dt)
        }
    &&& forall|pid: u32|
        sample_of(before, pid) is Some && (#[trigger] sample_of(now, pid)) is Some ==> has_rate(
            rates,
            pid,
        )
}

proof fn lemma_sampled_pid(samples: Seq<ProcessIoView>, pid: u32)
    ensures
        sample_of(samples, pid) matches Some(s) ==> s.pid == pid,
    decreases samples.len(),
{
    if samples.len() > 0 {
        lemma_sampled_pid(samples.drop_last(), pid);
    }
}

proof fn lemma_current(before: Seq<ProcessIoView>, now: Seq<ProcessIoView>, dt: Double)
    ensures
        once(current_rates(before, now, dt)),
        shown(current_rates(before, now, dt), before, now, dt),
    decreases now.len(),
{
    if now.len() > 0 {
        let rest = now.drop_last();
        let c = now.last();
        lemma_current(before, rest, dt);
        let a = current_rates(before, rest, dt);
        let w = current_rates(before, now, dt);
        assert forall|pid: u32| #[trigger] sample_of(now, pid) == (if c.pid == pid {
            Some(c)
        } else {
            sample_of(rest, pid)
        }) by {}
        match sample_of(before, c.pid) {
            Some(p) => {
                let r = ProcessRateView {
                    pid: c.pid,
                    name: c.name,
                    read_bytes_sec: quotient(whole(risen(p.read_bytes, c.read_bytes)), dt),
                    write_bytes_sec: quotient(whole(risen(p.write_bytes, c.write_bytes)), dt),
                    total_read: c.read_bytes,
                    total_write: c.write_bytes,
                };
                assert(w == with_rate(a, r));
                lemma_set(a, r);
                assert forall|i: int| 0 <= i < w.len() implies {
                    let pid = (#[trigger] w[i]).pid;
                    &&& sample_of(before, pid) is Some && sample_of(now, pid) is Some
                    &&& shows(w[i], sample_of(before, pid)->0, sample_of(now, pid)->0, dt)
                } by {
                    if w[i] != r {
                        let k = choose|k: int| 0 <= k < a.len() && a[k] == w[i];
                        assert(a[k].pid != c.pid);
                    }
                }
                assert forall|pid: u32|
                    sample_of(before, pid) is Some && (#[trigger] sample_of(now, pid)) is Some implies has_rate(
                w, pid) by {
                    if pid == c.pid {
                        let k = choose|k: int| 0 <= k < w.len() && w[k] == r;
                        assert(w[k].pid == pid);
                    } else {
                        assert(sample_of(rest, pid) is Some);
                        let i = choose|i: int| 0 <= i < a.len() && (#[trigger] a[i]).pid == pid;
                        assert(w.contains(a[i]));
                        let k = choose|k: int| 0 <= k < w.len() && w[k] == a[i];
                        assert(w[k].pid == pid);
                    }
                }
            },
            None => {
                assert forall|i: int| 0 <= i < w.len() implies {
                    let pid = (#[trigger] w[i]).pid;
                    &&& sample_of(before, pid) is Some && sample_of(now, pid) is Some
                    &&& shows(w[i], sample_of(before, pid)->0, sample_of(now, pid)->0, dt)
                } by {
                    assert(w[i] == a[i]);
                    assert(w[i].pid != c.pid);
                }
                assert forall|pid: u32|
                    sample_of(before, pid) is Some && (#[trigger] sample_of(now, pid)) is Some implies has_rate(
                w, pid) by {
                    assert(sample_of(rest, pid) is Some);
                }
            },
        }
    }
}

/// Whether a rate was carried forward at zero.
pub open spec fn at_rest(
    r: ProcessRateView,
    earlier: Seq<ProcessRateView>,
    now: Seq<ProcessIoView>,
) -> bool {
    &&& r.read_bytes_sec == zero() && r.write_bytes_sec == zero()
    &&& !nowhere(now, r.pid)
    &&& exists|k: int|
        0 <= k < earlier.len() && (#[trigger] earlier[k]).pid == r.pid && earlier[k].name == r.name
            && earlier[k].total_read == r.total_read && earlier[k].total_write == r.total_write
}

proof fn lemma_carried(
    rates: Seq<ProcessRateView>,
    earlier: Seq<ProcessRateView>,
    now: Seq<ProcessIoView>,
)
    requires
        once(rates),
    ensures
        ({
            let c = carried(rates, earlier, now);
            &&& once(c)
            &&& forall|i: int| 0 <= i < rates.len() ==> c.contains(#[trigger] rates[i])
            &&& forall|i: int|
                0 <= i < c.len() ==> rates.contains(#[trigger] c[i]) || (!has_rate(rates, c[i].pid)
                    && at_rest(c[i], earlier, now))
        }),
    decreases earlier.len(),
{
    let c = carried(rates, earlier, now);
    if earlier.len() == 0 {
        assert forall|i: int| 0 <= i < rates.len() implies c.contains(#[trigger] rates[i]) by {}
        assert forall|i: int| 0 <= i < c.len() implies rates.contains(#[trigger] c[i]) by {}
    } else {
        let before = earlier.drop_last();
        let e = earlier.last();
        let n = earlier.len() - 1;
        lemma_carried(rates, before, now);
        let b = carried(rates, before, now);
        assert(earlier[n] == e);
        lemma_last(now, e.pid);
        assert forall|i: int| 0 <= i < b.len() && !rates.contains(
            #[trigger] b[i],
        ) implies at_rest(b[i], earlier, now) by {
            let k = choose|k: int|
                0 <= k < before.len() && (#[trigger] before[k]).pid == b[i].pid && before[k].name
                    == b[i].name && before[k].total_read == b[i].total_read
                    && before[k].total_write == b[i].total_write;
            assert(earlier[k] == before[k]);
        }
        if has_process(now, e.pid) && !has_rate(b, e.pid) {
            let z = ProcessRateView { read_bytes_sec: zero(), write_bytes_sec: zero(), ..e };
            assert(c == b.push(z));
            assert(at_rest(z, earlier, now));
            assert forall|i: int| 0 <= i < rates.len() implies c.contains(#[trigger] rates[i]) by {
                assert(b.contains(rates[i]));
                let k = choose|k: int| 0 <= k < b.len() && b[k] == rates[i];
                assert(c[k] == rates[i]);
            }
            assert(!has_rate(rates, e.pid)) by {
                if has_rate(rates, e.pid) {
                    let i = choose|i: int|
                        0 <= i < rates.len() && (#[trigger] rates[i]).pid == e.pid;
                    assert(b.contains(rates[i]));
                    let k = choose|k: int| 0 <= k < b.len() && b[k] == rates[i];
                    assert(b[k].pid == e.pid);
                }
            }
            assert forall|i: int| 0 <= i < c.len() implies rates.contains(#[trigger] c[i]) || (
            !has_rate(rates, c[i].pid) && at_rest(c[i], earlier, now)) by {
                if i < b.len() {
                    assert(c[i] == b[i]);
                }
            }
            assert(once(c)) by {
                assert forall|i: int, j: int| 0 <= i < j < c.len() implies (#[trigger] c[i]).pid
                    != (#[trigger] c[j]).pid by {
                    assert(c[i] == b[i]);
                    if j < b.len() {
                        assert(c[j] == b[j]);
                    }
                }
            }
        }
    }
}

proof fn lemma_rate_is_number(n: nat, dt: Double)
    requires
        dt.finite(),
        zero().less(dt),
    ensures
        !quotient(whole(n), dt).nan(),
        !quotient(whole(n), dt).negative(),
{
    let a = whole(n);
    law_whole_numbers_are_ordered(n, n);
    crate::double::law_every_quotient_rounds(n * crate::double::one(), 1);
    lemma_zero_size(dt.mag());
    if a.finite() {
        law_every_quotient_rounds(a.size() * crate::double::one(), dt.size());
    }
}

proof fn lemma_sum_is_number(a: Double, b: Double)
    requires
        !a.nan() && !a.negative(),
        !b.nan() && !b.negative(),
    ensures
        !sum(a, b).nan(),
{
    law_every_quotient_rounds(a.size() + b.size(), 1);
}

proof fn lemma_loads_rank()
    ensures
        ranks_among::<ProcessRate, ByLoad>(|r: ProcessRateView| !load_of(r).nan()),
{
    let good = |r: ProcessRateView| !load_of(r).nan();
    assert forall|a: ProcessRateView, b: ProcessRateView|
        good(a) && good(b) && #[trigger] <ByLoad as Rule<ProcessRate>>::before(
            a,
            b,
        ) implies !<ByLoad as Rule<ProcessRate>>::before(b, a) by {
        law_text_order(a.name, b.name);
    }
    assert forall|a: ProcessRateView, b: ProcessRateView, c: ProcessRateView|
        good(a) && good(b) && good(c) && !#[trigger] <ByLoad as Rule<ProcessRate>>::before(b, a)
            && !#[trigger] <ByLoad as Rule<ProcessRate>>::before(
            c,
            b,
        ) implies !<ByLoad as Rule<ProcessRate>>::before(c, a) by {
        law_text_order(a.name, b.name);
        law_text_order(b.name, c.name);
        law_text_order(a.name, c.name);
        if crate::order::text_before(c.name, a.name) && crate::order::text_before(a.name, b.name) {
            law_text_order_chains(c.name, a.name, b.name);
        }
    }
}

proof fn lemma_all_good(
    before: Seq<ProcessIoView>,
    now: Seq<ProcessIoView>,
    dt: Double,
    earlier: Seq<ProcessRateView>,
)
    requires
        dt.finite(),
        zero().less(dt),
    ensures
        ({
            let c = carried(current_rates(before, now, dt), earlier, now);
            forall|i: int| 0 <= i < c.len() ==> !load_of(#[trigger] c[i]).nan()
        }),
{
    let rates = current_rates(before, now, dt);
    lemma_current(before, now, dt);
    lemma_carried(rates, earlier, now);
    let c = carried(rates, earlier, now);
    assert forall|i: int| 0 <= i < c.len() implies !load_of(#[trigger] c[i]).nan() by {
        if rates.contains(c[i]) {
            let k = choose|k: int| 0 <= k < rates.len() && rates[k] == c[i];
            let pid = rates[k].pid;
            let p = sample_of(before, pid)->0;
            let s = sample_of(now, pid)->0;
            assert(shows(rates[k], p, s, dt));
            lemma_rate_is_number(risen(p.read_bytes, s.read_bytes), dt);
            lemma_rate_is_number(risen(p.write_bytes, s.write_bytes), dt);
            lemma_sum_is_number(c[i].read_bytes_sec, c[i].write_bytes_sec);
        } else {
            lemma_sum_is_number(zero(), zero());
        }
    }
}

// ------------------------------------------------------------------------- laws

/// A listed process that was sampled twice shows what it read and wrote in between,
/// each over the time, by its last samples; one that was not shows none, and was
/// listed before. Every listed process still exists, and none is listed twice.
pub proof fn law_listed_processes_show_their_own_rise(
    before: Seq<ProcessIoView>,
    now: Seq<ProcessIoView>,
    dt: Double,
    top: usize,
    earlier: Seq<ProcessRateView>,
)
    requires
        !dt.at_most(zero()),
    ensures
        ({
            let list = process_rates(before, now, dt, top, earlier);
            &&& forall|i: int, k: int, m: int|
                0 <= i < list.len() && #[trigger] last_at(now, k, list[i].pid)
                    && #[trigger] last_at(before, m, list[i].pid) ==> shows(
                    list[i],
                    before[m],
                    now[k],
                    dt,
                )
            &&& forall|i: int|
                0 <= i < list.len() && nowhere(before, (#[trigger] list[i]).pid) ==> at_rest(
                    list[i],
                    earlier,
                    now,
                )
            &&& forall|i: int| 0 <= i < list.len() ==> !nowhere(now, (#[trigger] list[i]).pid)
            &&& forall|i: int, j: int|
                0 <= i < list.len() && 0 <= j < list.len() && i != j ==> (#[trigger] list[i]) != (
                #[trigger] list[j])
        }),
{
    let rates = current_rates(before, now, dt);
    lemma_current(before, now, dt);
    lemma_carried(rates, earlier, now);
    let c = carried(rates, earlier, now);
    let a = arranged::<ProcessRate, ByLoad>(c);
    let list = process_rates(before, now, dt, top, earlier);
    law_arranged_keeps_all::<ProcessRate, ByLoad>(c);
    assert forall|i: int| 0 <= i < list.len() implies c.contains(#[trigger] list[i]) by {
        assert(list[i] == a[i]);
        assert(a.contains(a[i]));
        law_arranged_holds_the_same::<ProcessRate, ByLoad>(c, a[i]);
    }
    assert forall|i: int| 0 <= i < list.len() implies {
        let r = #[trigger] list[i];
        let p = sample_of(before, r.pid);
        let s = sample_of(now, r.pid);
        &&& s is Some
        &&& p is Some ==> shows(r, p->0, s->0, dt)
        &&& p is None ==> at_rest(r, earlier, now)
    } by {
        let r = list[i];
        lemma_last(now, r.pid);
        assert(c.contains(r));
        let q = choose|q: int| 0 <= q < c.len() && c[q] == r;
        if rates.contains(c[q]) {
            let k = choose|k: int| 0 <= k < rates.len() && rates[k] == r;
            assert(rates[k].pid == r.pid);
        } else {
            assert(at_rest(c[q], earlier, now));
            if sample_of(before, r.pid) is Some {
                assert(has_rate(rates, r.pid));
            }
        }
    }
    assert forall|i: int, k: int, m: int|
        0 <= i < list.len() && #[trigger] last_at(now, k, list[i].pid) && #[trigger] last_at(
            before,
            m,
            list[i].pid,
        ) implies shows(list[i], before[m], now[k], dt) by {
        lemma_last(now, list[i].pid);
        lemma_last(before, list[i].pid);
    }
    assert forall|i: int| 0 <= i < list.len() && nowhere(
        before,
        (#[trigger] list[i]).pid,
    ) implies at_rest(list[i], earlier, now) by {
        lemma_last(before, list[i].pid);
    }
    assert forall|i: int| 0 <= i < list.len() implies !nowhere(now, (#[trigger] list[i]).pid) by {
        lemma_last(now, list[i].pid);
    }
    assert forall|i: int, j: int|
        0 <= i < list.len() && 0 <= j < list.len() && i != j implies (#[trigger] list[i]) != (
    #[trigger] list[j]) by {
        if list[i] == list[j] {
            broadcast use vstd::seq_lib::group_to_multiset_ensures;

            assert(c.no_duplicates()) by {
                assert forall|x: int, y: int|
                    0 <= x < c.len() && 0 <= y < c.len() && x != y implies c[x] != c[y] by {
                    if x < y {
                        assert(c[x].pid != c[y].pid);
                    } else {
                        assert(c[y].pid != c[x].pid);
                    }
                }
            }
            c.lemma_multiset_has_no_duplicates();
            a.lemma_multiset_has_no_duplicates_conv();
            assert(a[i] != a[j]);
        }
    }
}

/// The busiest come first: what a process reads and writes together is never more
/// than that of one listed before it. The list is cut at its end only: one that was
/// sampled twice is listed, or the list is full of processes at least as busy.
pub proof fn law_the_busiest_processes_come_first(
    before: Seq<ProcessIoView>,
    now: Seq<ProcessIoView>,
    dt: Double,
    top: usize,
    earlier: Seq<ProcessRateView>,
)
    requires
        dt.finite(),
        zero().less(dt),
    ensures
        ({
            let list = process_rates(before, now, dt, top, earlier);
            &&& list.len() <= top
            &&& forall|i: int, j: int|
                0 <= i < j < list.len() ==> !load_of(#[trigger] list[i]).less(
                    load_of(#[trigger] list[j]),
                )
            &&& forall|pid: u32, k: int, m: int|
                #[trigger] last_at(now, k, pid) && #[trigger] last_at(before, m, pid) ==> exists|
                    r: ProcessRateView,
                |
                    #[trigger] shows(r, before[m], now[k], dt) && (list.contains(r) || (list.len()
                        == top && left_out(r, list)))
        }),
{
    let rates = current_rates(before, now, dt);
    lemma_current(before, now, dt);
    lemma_carried(rates, earlier, now);
    let c = carried(rates, earlier, now);
    let a = arranged::<ProcessRate, ByLoad>(c);
    let list = process_rates(before, now, dt, top, earlier);
    law_arranged_keeps_all::<ProcessRate, ByLoad>(c);
    lemma_all_good(before, now, dt, earlier);
    lemma_loads_rank();
    let good = |r: ProcessRateView| !load_of(r).nan();
    assert forall|i: int| 0 <= i < c.len() implies good(#[trigger] c[i]) by {
        assert(!load_of(c[i]).nan());
    }
    law_arranged_among_is_ordered::<ProcessRate, ByLoad>(c, good);
    assert forall|i: int, j: int| 0 <= i < j < a.len() implies !load_of(#[trigger] a[i]).less(
        load_of(#[trigger] a[j]),
    ) by {
        assert(!<ByLoad as Rule<ProcessRate>>::before(a[j], a[i]));
    }
    assert forall|i: int, j: int| 0 <= i < j < list.len() implies !load_of(
        #[trigger] list[i],
    ).less(load_of(#[trigger] list[j])) by {
        assert(list[i] == a[i] && list[j] == a[j]);
    }
    assert forall|pid: u32, k: int, m: int|
        #[trigger] last_at(now, k, pid) && #[trigger] last_at(before, m, pid) implies exists|
        r: ProcessRateView,
    |
        #[trigger] shows(r, before[m], now[k], dt) && (list.contains(r) || (list.len() == top
            && left_out(r, list))) by {
        lemma_last(before, pid);
        lemma_last(now, pid);
        assert(sample_of(now, pid) is Some);
        assert(has_rate(rates, pid));
        let i = choose|i: int| 0 <= i < rates.len() && (#[trigger] rates[i]).pid == pid;
        let r = rates[i];
        assert(shows(r, before[m], now[k], dt));
        assert(c.contains(r));
        law_arranged_holds_the_same::<ProcessRate, ByLoad>(c, r);
        let x = choose|x: int| 0 <= x < a.len() && a[x] == r;
        if x < list.len() {
            assert(list[x] == r);
            assert(list.contains(r));
        } else {
            assert(left_out(r, list)) by {
                assert forall|q: int| 0 <= q < list.len() implies !load_of(
                    #[trigger] list[q],
                ).less(load_of(r)) by {
                    assert(list[q] == a[q]);
                }
            }
        }
    }
}

/// Whether no listed process is less busy.
pub open spec fn left_out(r: ProcessRateView, list: Seq<ProcessRateView>) -> bool {
    forall|q: int| 0 <= q < list.len() ==> !load_of(#[trigger] list[q]).less(load_of(r))
}

} // verus!
