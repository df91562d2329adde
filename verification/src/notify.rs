//! Which fetched items are new, and the lines that announce them.
use vstd::prelude::*;
use chrono::Timelike;
use crate::config::{color_wrap, Feed};
use crate::item::{fields, same_element, Element, ElementView, Toastable};
use crate::text::{contains, contains_str, push_char, push_str, to_chars};
use crate::timestamp::{after_update, Timestamp, TimestampView};

verus! {

// ----------------------------------------------------------------------------------
//   - Seen elements -
// ----------------------------------------------------------------------------------

/// What tells elements apart: whether it is an entry, and its publication time.
pub open spec fn key_of(e: ElementView) -> (bool, i64) {
    match e {
        ElementView::Item(i) => (false, i.pub_date),
        ElementView::Entry(i) => (true, i.pub_date),
    }
}

/// The elements announced so far, told apart by `key_of`.
pub struct Seen {
    keys: Vec<(bool, i64)>,
}

impl View for Seen {
    type V = Set<(bool, i64)>;

    closed spec fn view(&self) -> Set<(bool, i64)> {
        self.keys@.to_set()
    }
}

fn key(e: &Element) -> (k: (bool, i64))
    ensures
        k == key_of(e@),
{
    match e {
        Element::Item(_) => (false, e.timestamp()),
        Element::Entry(_) => (true, e.timestamp()),
    }
}

impl Seen {
    /// No element seen yet.
    pub fn new() -> (s: Seen)
        ensures
            s@ == Set::<(bool, i64)>::empty(),
    {
        let s = Seen { keys: Vec::new() };
        assert(s@ =~= Set::<(bool, i64)>::empty());
        s
    }

    /// Whether an element with the key `k` was seen.
    pub fn contains_key(&self, k: (bool, i64)) -> (b: bool)
        ensures
            b == self@.contains(k),
    {
        let mut i: usize = 0;
        while i < self.keys.len()
            invariant
                i <= self.keys@.len(),
                forall|j: int| 0 <= j < i ==> self.keys@[j] != k,
            decreases self.keys@.len() - i,
        {
            if self.keys[i].0 == k.0 && self.keys[i].1 == k.1 {
                assert(self.keys@.contains(k));
                return true;
            }
            i = i + 1;
        }
        assert(!self.keys@.contains(k));
        false
    }

    /// Adds `e`; true when no element like it was seen before (`HashSet::insert`).
    pub fn insert(&mut self, e: &Element) -> (fresh: bool)
        ensures
            fresh == !old(self)@.contains(key_of(e@)),
            final(self)@ == old(self)@.insert(key_of(e@)),
    {
        let k = key(e);
        if self.contains_key(k) {
            assert(self@ =~= self@.insert(k));
            false
        } else {
            let ghost before = self.keys@;
            self.keys.push(k);
            assert(self.keys@.to_set() =~= before.to_set().insert(k)) by {
                assert forall|x: (bool, i64)| self.keys@.contains(x) <==> (before.contains(x) || x == k) by {
                    if self.keys@.contains(x) {
                        let j = choose|j: int| 0 <= j < self.keys@.len() && self.keys@[j] == x;
                        if j < before.len() {
                            assert(before[j] == x);
                        }
                    }
                    if before.contains(x) {
                        let j = choose|j: int| 0 <= j < before.len() && before[j] == x;
                        assert(self.keys@[j] == x);
                    }
                    if x == k {
                        assert(self.keys@[before.len() as int] == k);
                    }
                }
            }
            true
        }
    }

    /// Forgets the elements published at or before `cutoff`.
    pub fn retain_newer(&mut self, cutoff: i64)
        ensures
            final(self)@ == old(self)@.filter(|k: (bool, i64)| k.1 > cutoff),
    {
        let ghost before = self.keys@;
        let mut kept: Vec<(bool, i64)> = Vec::new();
        let mut i: usize = 0;
        while i < self.keys.len()
            invariant
                i <= self.keys@.len(),
                before == self.keys@,
                forall|x: (bool, i64)| kept@.contains(x) <==> (x.1 > cutoff && exists|j: int| 0 <= j < i && before[j] == x),
            decreases self.keys@.len() - i,
        {
            let k = self.keys[i];
            let ghost old_kept = kept@;
            if k.1 > cutoff {
                kept.push(k);
            }
            assert forall|x: (bool, i64)| kept@.contains(x) <==> (x.1 > cutoff && exists|j: int| 0 <= j < i + 1 && before[j] == x) by {
                if kept@.contains(x) {
                    let j = choose|j: int| 0 <= j < kept@.len() && kept@[j] == x;
                    if j < old_kept.len() {
                        assert(old_kept[j] == x);
                        assert(old_kept.contains(x));
                    } else {
                        assert(before[i as int] == x);
                    }
                }
                if x.1 > cutoff && exists|j: int| 0 <= j < i + 1 && before[j] == x {
                    let j = choose|j: int| 0 <= j < i + 1 && before[j] == x;
                    if j < i {
                        assert(old_kept.contains(x));
                        let m = choose|m: int| 0 <= m < old_kept.len() && old_kept[m] == x;
                        assert(kept@[m] == x);
                    } else {
                        assert(kept@[kept@.len() - 1] == x);
                    }
                }
            }
            i = i + 1;
        }
        self.keys = kept;
        assert(self@ =~= before.to_set().filter(|k: (bool, i64)| k.1 > cutoff)) by {
            assert forall|x: (bool, i64)| self.keys@.contains(x) <==> (before.contains(x) && x.1 > cutoff) by {}
        }
    }
}

// ----------------------------------------------------------------------------------
//   - Selecting new items -
// ----------------------------------------------------------------------------------

/// The state while going through fetched items: what was seen, the
/// cut-off, and the positions of the items to announce.
pub struct SelectState {
    pub seen: Set<(bool, i64)>,
    pub cutoff: TimestampView,
    pub picked: Seq<int>,
}

/// One fetched item at position `idx`: when it is newer than `prev`, the
/// cut-off on entry, and not seen before, it is recorded as seen and the
/// cut-off moves to it; it is to be announced unless the cut-off on entry is
/// 0, which is the first run, when nothing is announced.
pub open spec fn select_step(st: SelectState, idx: int, e: ElementView, prev: i64) -> SelectState {
    let ts = fields(e).pub_date;
    if ts > prev && !st.seen.contains(key_of(e)) {
        let c = after_update(st.cutoff, ts);
        SelectState {
            seen: st.seen.insert(key_of(e)),
            cutoff: c,
            picked: if prev == 0 { st.picked } else { st.picked.push(idx) },
        }
    } else {
        st
    }
}

/// The items gone through in order, from the state `st`.
pub open spec fn select_all(items: Seq<ElementView>, st: SelectState, prev: i64) -> SelectState
    decreases items.len(),
{
    if items.len() == 0 {
        st
    } else {
        select_step(select_all(items.drop_last(), st, prev), items.len() - 1, items.last(), prev)
    }
}

/// Goes through fetched items in order, records the new ones as seen, moves
/// the cut-off forward to them, and gives the positions of those to announce.
/// An item is new when it was published after the cut-off as it was on entry
/// and nothing like it was seen. On the first run, when the cut-off on entry
/// is 0, new items are recorded but none is given to announce.
pub fn select_new(items: &Vec<Element>, seen: &mut Seen, cutoff: &mut Timestamp) -> (picked: Vec<usize>)
    ensures
        ({
            let out = select_all(
                items@.map_values(|e: Element| e@),
                SelectState { seen: old(seen)@, cutoff: old(cutoff)@, picked: Seq::empty() },
                old(cutoff)@.time,
            );
            &&& final(seen)@ == out.seen
            &&& final(cutoff)@ == out.cutoff
            &&& picked@.map_values(|i: usize| i as int) == out.picked
        }),
{
    let ghost iv = items@.map_values(|e: Element| e@);
    let ghost st0 = SelectState { seen: seen@, cutoff: cutoff@, picked: Seq::empty() };
    let prev = cutoff.timestamp();
    let mut picked: Vec<usize> = Vec::new();
    let mut i: usize = 0;
    assert(iv.take(0) =~= Seq::<ElementView>::empty());
    assert(picked@.map_values(|i: usize| i as int) =~= Seq::<int>::empty());
    while i < items.len()
        invariant
            i <= items@.len(),
            iv == items@.map_values(|e: Element| e@),
            ({
                let out = select_all(iv.take(i as int), st0, prev);
                &&& seen@ == out.seen
                &&& cutoff@ == out.cutoff
                &&& picked@.map_values(|i: usize| i as int) == out.picked
            }),
        decreases items@.len() - i,
    {
        let e = &items[i];
        assert(iv.take(i + 1).drop_last() =~= iv.take(i as int));
        assert(iv.take(i + 1).last() == e@);
        let ts = e.timestamp();
        if ts > prev {
            if seen.insert(e) {
                cutoff.update(ts);
                if prev != 0 {
                    let ghost old_p = picked@.map_values(|i: usize| i as int);
                    picked.push(i);
                    assert(picked@.map_values(|i: usize| i as int) =~= old_p.push(i as int));
                }
            }
        }
        i = i + 1;
    }
    assert(iv.take(items@.len() as int) =~= iv);
    picked
}

/// What going through fetched items guarantees: each picked position is a
/// fetched item published after the entry cut-off and unseen before, in
/// increasing order, no two of them alike, and all of them now seen; the
/// cut-off never moves back and nothing seen is forgotten.
pub proof fn lemma_select_all(items: Seq<ElementView>, st: SelectState, prev: i64)
    requires
        st.picked.len() == 0,
    ensures
        ({
            let out = select_all(items, st, prev);
            &&& out.cutoff.time >= st.cutoff.time
            &&& st.seen.subset_of(out.seen)
            &&& forall|k: int| 0 <= k < out.picked.len() ==> {
                let idx = #[trigger] out.picked[k];
                &&& 0 <= idx < items.len()
                &&& fields(items[idx]).pub_date > prev
                &&& !st.seen.contains(key_of(items[idx]))
                &&& out.seen.contains(key_of(items[idx]))
            }
            &&& forall|k: int, l: int| 0 <= k < l < out.picked.len() ==> #[trigger] out.picked[k] < #[trigger] out.picked[l]
            &&& forall|k: int, l: int| 0 <= k < l < out.picked.len() ==> key_of(items[#[trigger] out.picked[k]]) != key_of(items[#[trigger] out.picked[l]])
        }),
    decreases items.len(),
{
    if items.len() > 0 {
        let rest = items.drop_last();
        lemma_select_all(rest, st, prev);
        let mid = select_all(rest, st, prev);
        let out = select_all(items, st, prev);
        let n = items.len() - 1;
        let e = items.last();
        assert(out == select_step(mid, n, e, prev));
        assert forall|k: int| 0 <= k < mid.picked.len() implies (#[trigger] items[mid.picked[k]]) == rest[mid.picked[k]] by {}
        if fields(e).pub_date > prev && !mid.seen.contains(key_of(e)) {
            assert forall|k: int| 0 <= k < out.picked.len() implies {
                let idx = #[trigger] out.picked[k];
                &&& 0 <= idx < items.len()
                &&& fields(items[idx]).pub_date > prev
                &&& !st.seen.contains(key_of(items[idx]))
                &&& out.seen.contains(key_of(items[idx]))
            } by {
                if k < mid.picked.len() {
                    assert(out.picked[k] == mid.picked[k]);
                    assert(items[mid.picked[k]] == rest[mid.picked[k]]);
                } else {
                    assert(out.picked[k] == n);
                    assert(items[n] == e);
                }
            }
            assert forall|k: int, l: int| 0 <= k < l < out.picked.len() implies #[trigger] out.picked[k] < #[trigger] out.picked[l] by {
                if l < mid.picked.len() {
                    assert(out.picked[k] == mid.picked[k] && out.picked[l] == mid.picked[l]);
                } else {
                    assert(out.picked[k] == mid.picked[k]);
                }
            }
            assert forall|k: int, l: int| 0 <= k < l < out.picked.len() implies key_of(items[#[trigger] out.picked[k]]) != key_of(items[#[trigger] out.picked[l]]) by {
                assert(out.picked[k] == mid.picked[k]);
                assert(items[mid.picked[k]] == rest[mid.picked[k]]);
                if l < mid.picked.len() {
                    assert(out.picked[l] == mid.picked[l]);
                    assert(items[mid.picked[l]] == rest[mid.picked[l]]);
                } else {
                    assert(out.picked[l] == n);
                    assert(items[n] == e);
                    assert(mid.seen.contains(key_of(rest[mid.picked[k]])));
                }
            }
        } else {
            assert forall|k: int| 0 <= k < out.picked.len() implies {
                let idx = #[trigger] out.picked[k];
                &&& 0 <= idx < items.len()
                &&& fields(items[idx]).pub_date > prev
                &&& !st.seen.contains(key_of(items[idx]))
                &&& out.seen.contains(key_of(items[idx]))
            } by {
                assert(items[mid.picked[k]] == rest[mid.picked[k]]);
            }
            assert forall|k: int, l: int| 0 <= k < l < out.picked.len() implies key_of(items[#[trigger] out.picked[k]]) != key_of(items[#[trigger] out.picked[l]]) by {
                assert(items[mid.picked[k]] == rest[mid.picked[k]]);
                assert(items[mid.picked[l]] == rest[mid.picked[l]]);
            }
        }
    }
}

/// On the first run, when the cut-off on entry is 0, nothing is announced.
pub proof fn lemma_first_run_silent(items: Seq<ElementView>, st: SelectState)
    requires
        st.picked.len() == 0,
    ensures
        select_all(items, st, 0).picked.len() == 0,
    decreases items.len(),
{
    if items.len() > 0 {
        lemma_first_run_silent(items.drop_last(), st);
    }
}

/// Two elements count as one for the seen set exactly when they are of one
/// kind and published at the same time: items, or entries, published at
/// different times are never taken for one another.
pub proof fn lemma_key_identifies(a: ElementView, b: ElementView)
    ensures
        key_of(a) == key_of(b) <==> ((a is Entry) == (b is Entry) && fields(a).pub_date == fields(b).pub_date),
        key_of(a) == key_of(b) <==> same_element(a, b),
{
}

/// What is seen after going through fetched items: what was seen before,
/// and each item published after `prev`.
proof fn lemma_select_seen(items: Seq<ElementView>, st: SelectState, prev: i64, x: (bool, i64))
    ensures
        select_all(items, st, prev).seen.contains(x) <==> (st.seen.contains(x) || exists|k: int|
            0 <= k < items.len() && fields(#[trigger] items[k]).pub_date > prev && key_of(items[k]) == x),
    decreases items.len(),
{
    if items.len() > 0 {
        let rest = items.drop_last();
        let n = items.len() - 1;
        let e = items.last();
        lemma_select_seen(rest, st, prev, x);
        let mid = select_all(rest, st, prev);
        assert(select_all(items, st, prev) == select_step(mid, n, e, prev));
        if exists|k: int| 0 <= k < rest.len() && fields(#[trigger] rest[k]).pub_date > prev && key_of(rest[k]) == x {
            let k = choose|k: int| 0 <= k < rest.len() && fields(#[trigger] rest[k]).pub_date > prev && key_of(rest[k]) == x;
            assert(items[k] == rest[k]);
        }
        if exists|k: int| 0 <= k < items.len() && fields(#[trigger] items[k]).pub_date > prev && key_of(items[k]) == x {
            let k = choose|k: int| 0 <= k < items.len() && fields(#[trigger] items[k]).pub_date > prev && key_of(items[k]) == x;
            if k < n {
                assert(rest[k] == items[k]);
            } else {
                assert(items[k] == e);
            }
        }
    }
}

/// Which fetched items are announced: the item at position `n` is exactly
/// when this is not the first run, it was published after the cut-off on
/// entry, nothing of its kind published at the same time was seen before,
/// and no earlier fetched item is of its kind and published at the same time.
pub proof fn lemma_select_picks(items: Seq<ElementView>, st: SelectState, prev: i64, n: int)
    requires
        st.picked.len() == 0,
        0 <= n < items.len(),
    ensures
        select_all(items, st, prev).picked.contains(n) <==> {
            &&& prev != 0
            &&& fields(items[n]).pub_date > prev
            &&& !st.seen.contains((items[n] is Entry, fields(items[n]).pub_date))
            &&& forall|k: int|
                0 <= k < n ==> !((#[trigger] items[k] is Entry) == (items[n] is Entry) && fields(items[k]).pub_date
                    == fields(items[n]).pub_date)
        },
    decreases items.len(),
{
    let rest = items.drop_last();
    let m = items.len() - 1;
    let e = items.last();
    let mid = select_all(rest, st, prev);
    let out = select_all(items, st, prev);
    assert(out == select_step(mid, m, e, prev));
    lemma_select_all(rest, st, prev);
    if n < m {
        lemma_select_picks(rest, st, prev, n);
        assert(rest[n] == items[n]);
        let alike_rest = forall|k: int|
            0 <= k < n ==> !((#[trigger] rest[k] is Entry) == (rest[n] is Entry) && fields(rest[k]).pub_date
                == fields(rest[n]).pub_date);
        let alike_items = forall|k: int|
            0 <= k < n ==> !((#[trigger] items[k] is Entry) == (items[n] is Entry) && fields(items[k]).pub_date
                == fields(items[n]).pub_date);
        assert(alike_rest == alike_items) by {
            if alike_rest {
                assert forall|k: int|
                    0 <= k < n implies !((#[trigger] items[k] is Entry) == (items[n] is Entry) && fields(items[k]).pub_date
                        == fields(items[n]).pub_date) by {
                    assert(rest[k] == items[k]);
                }
            }
            if alike_items {
                assert forall|k: int|
                    0 <= k < n implies !((#[trigger] rest[k] is Entry) == (rest[n] is Entry) && fields(rest[k]).pub_date
                        == fields(rest[n]).pub_date) by {
                    assert(rest[k] == items[k]);
                }
            }
        }
        assert(out.picked.contains(n) <==> mid.picked.contains(n)) by {
            if mid.picked.contains(n) {
                let i = choose|i: int| 0 <= i < mid.picked.len() && mid.picked[i] == n;
                assert(out.picked[i] == n);
            }
            if out.picked.contains(n) {
                let i = choose|i: int| 0 <= i < out.picked.len() && out.picked[i] == n;
                assert(i < mid.picked.len());
                assert(mid.picked[i] == n);
            }
        }
    } else {
        assert(items[n] == e);
        assert(!mid.picked.contains(m)) by {
            if mid.picked.contains(m) {
                let i = choose|i: int| 0 <= i < mid.picked.len() && mid.picked[i] == m;
                assert(mid.picked[i] < rest.len());
            }
        }
        lemma_select_seen(rest, st, prev, key_of(e));
        assert(key_of(e) == (e is Entry, fields(e).pub_date));
        let earlier_seen = exists|k: int|
            0 <= k < rest.len() && fields(#[trigger] rest[k]).pub_date > prev && key_of(rest[k]) == key_of(e);
        let earlier_alike = exists|k: int|
            0 <= k < n && (#[trigger] items[k] is Entry) == (items[n] is Entry) && fields(items[k]).pub_date
                == fields(items[n]).pub_date;
        if fields(e).pub_date > prev {
            if earlier_seen {
                let k = choose|k: int|
                    0 <= k < rest.len() && fields(#[trigger] rest[k]).pub_date > prev && key_of(rest[k]) == key_of(e);
                assert(items[k] == rest[k]);
                assert(earlier_alike);
            }
            if earlier_alike {
                let k = choose|k: int|
                    0 <= k < n && (#[trigger] items[k] is Entry) == (items[n] is Entry) && fields(items[k]).pub_date
                        == fields(items[n]).pub_date;
                assert(items[k] == rest[k]);
                assert(key_of(rest[k]) == key_of(e));
                assert(earlier_seen);
            }
            assert(earlier_seen == earlier_alike);
        }
        let picked_now = fields(e).pub_date > prev && !mid.seen.contains(key_of(e)) && prev != 0;
        if picked_now {
            assert(out.picked == mid.picked.push(m));
            assert(out.picked[out.picked.len() - 1] == m);
            assert(out.picked.contains(m));
        } else {
            assert(out.picked == mid.picked);
            assert(!out.picked.contains(m));
        }
        assert(out.picked.contains(m) == picked_now);
        if !earlier_alike {
            assert forall|k: int|
                0 <= k < n implies !((#[trigger] items[k] is Entry) == (items[n] is Entry) && fields(items[k]).pub_date
                    == fields(items[n]).pub_date) by {}
        }
    }
}

/// The fetched item at position `k` is new to the run: published after
/// `prev`, and nothing of its kind published at the same time was seen
/// before the run.
pub open spec fn fresh_at(items: Seq<ElementView>, seen: Set<(bool, i64)>, prev: i64, k: int) -> bool {
    &&& 0 <= k < items.len()
    &&& fields(items[k]).pub_date > prev
    &&& !seen.contains((items[k] is Entry, fields(items[k]).pub_date))
}

/// The cut-off after going through fetched items is the newest of the
/// cut-off on entry and the publication times of the items new to the run:
/// it reaches each of them, and moves to nothing else.
pub proof fn lemma_select_cutoff(items: Seq<ElementView>, st: SelectState, prev: i64)
    ensures
        ({
            let out = select_all(items, st, prev);
            &&& out.cutoff.time >= st.cutoff.time
            &&& forall|k: int| #[trigger] fresh_at(items, st.seen, prev, k) ==> out.cutoff.time >= fields(items[k]).pub_date
            &&& out.cutoff.time == st.cutoff.time || exists|k: int|
                #[trigger] fresh_at(items, st.seen, prev, k) && out.cutoff.time == fields(items[k]).pub_date
        }),
    decreases items.len(),
{
    if items.len() > 0 {
        let rest = items.drop_last();
        let n = items.len() - 1;
        let e = items.last();
        lemma_select_cutoff(rest, st, prev);
        let mid = select_all(rest, st, prev);
        let out = select_all(items, st, prev);
        assert(out == select_step(mid, n, e, prev));
        assert(items[n] == e);
        assert(key_of(e) == (e is Entry, fields(e).pub_date));
        assert forall|k: int| 0 <= k < n implies #[trigger] fresh_at(items, st.seen, prev, k) == fresh_at(
            rest,
            st.seen,
            prev,
            k,
        ) by {
            assert(items[k] == rest[k]);
        }
        assert forall|k: int| #[trigger] fresh_at(items, st.seen, prev, k) implies out.cutoff.time >= fields(
            items[k],
        ).pub_date by {
            if k < n {
                assert(fresh_at(rest, st.seen, prev, k));
                assert(rest[k] == items[k]);
            } else if mid.seen.contains(key_of(e)) {
                lemma_select_seen(rest, st, prev, key_of(e));
                let j = choose|j: int|
                    0 <= j < rest.len() && fields(#[trigger] rest[j]).pub_date > prev && key_of(rest[j]) == key_of(e);
                assert(items[j] == rest[j]);
                assert(fresh_at(rest, st.seen, prev, j));
            }
        }
        if out.cutoff.time != st.cutoff.time {
            if out.cutoff.time == mid.cutoff.time {
                let k = choose|k: int| #[trigger] fresh_at(rest, st.seen, prev, k) && mid.cutoff.time == fields(rest[k]).pub_date;
                assert(rest[k] == items[k]);
                assert(fresh_at(items, st.seen, prev, k));
            } else {
                assert(fields(e).pub_date > prev && !mid.seen.contains(key_of(e)));
                lemma_select_seen(rest, st, prev, key_of(e));
                assert(fresh_at(items, st.seen, prev, n));
            }
        }
    }
}

// ----------------------------------------------------------------------------------
//   - Announcing -
// ----------------------------------------------------------------------------------

/// Whether `chrono` has a UTC date and time for the UNIX time `ts`: from
/// January 1, 262144 BCE (day -95746129 counted from January 1, 1 CE as day
/// 1) to December 31, 262142 CE (day 95745399), the range of its dates.
pub open spec fn utc_in_range(ts: int) -> bool {
    -8_334_601_228_800 <= ts <= 8_210_266_876_799
}

/// `chrono::DateTime::from_timestamp(ts, 0)` read as its UTC hour and minute
/// (`Timelike::hour`, `Timelike::minute`); `None` where `chrono` has no date
/// for `ts`. The contract states the hour and minute of the day that `ts`
/// falls in, and the range of `ts` that `chrono` accepts.
#[verifier::external_body]
fn utc_hour_minute(ts: i64) -> (r: Option<(u32, u32)>)
    ensures
        match r {
            Some((h, m)) => utc_in_range(ts as int) && h == (ts as int % 86400) / 3600 && m == (ts as int % 86400) % 3600 / 60,
            None => !utc_in_range(ts as int),
        },
{
    match chrono::DateTime::from_timestamp(ts, 0) {
        Some(dt) => Some((dt.hour(), dt.minute())),
        None => None,
    }
}

pub open spec fn digit(d: int) -> char {
    crate::number::digit_char(d)
}

/// A number below 100 written with two digits.
pub open spec fn two_digits(n: int) -> Seq<char> {
    seq![digit(n / 10), digit(n % 10)]
}

/// The line that announces an element published at `hour:minute`:
/// `HH:MM | link | title` followed by the extra text and a newline.
pub open spec fn announce_text(hour: int, minute: int, e: ElementView) -> Seq<char> {
    let f = fields(e);
    two_digits(hour) + seq![':'] + two_digits(minute) + " | "@ + f.link + " | "@ + f.title + (match f.extra {
        Some(x) => x,
        None => Seq::empty(),
    }) + seq!['\n']
}

/// How an announcement is laid out: the hour's two digits, a colon, the
/// minute's two digits, ` | `, the link, ` | `, the title, the extra text
/// when there is one, and a line break; nothing else.
pub proof fn lemma_announce_layout(hour: int, minute: int, e: ElementView)
    ensures
        ({
            let s = announce_text(hour, minute, e);
            let f = fields(e);
            let l = f.link.len() as int;
            let t = f.title.len() as int;
            let x: Seq<char> = match f.extra {
                Some(x) => x,
                None => Seq::empty(),
            };
            &&& s.len() == 12 + l + t + x.len()
            &&& s[0] == digit(hour / 10) && s[1] == digit(hour % 10)
            &&& s[2] == ':'
            &&& s[3] == digit(minute / 10) && s[4] == digit(minute % 10)
            &&& s.subrange(5, 8) == " | "@
            &&& s.subrange(8, 8 + l) == f.link
            &&& s.subrange(8 + l, 11 + l) == " | "@
            &&& s.subrange(11 + l, 11 + l + t) == f.title
            &&& s.subrange(11 + l + t, 11 + l + t + x.len()) == x
            &&& s.last() == '\n'
        }),
{
    reveal_strlit(" | ");
    let s = announce_text(hour, minute, e);
    let f = fields(e);
    let l = f.link.len() as int;
    let t = f.title.len() as int;
    let x: Seq<char> = match f.extra {
        Some(x) => x,
        None => Seq::empty(),
    };
    let sep = " | "@;
    let head = two_digits(hour) + seq![':'] + two_digits(minute);
    assert(s == head + sep + f.link + sep + f.title + x + seq!['\n']);
    assert(s.subrange(5, 8) =~= sep);
    assert(s.subrange(8, 8 + l) =~= f.link);
    assert(s.subrange(8 + l, 11 + l) =~= sep);
    assert(s.subrange(11 + l, 11 + l + t) =~= f.title);
    assert(s.subrange(11 + l + t, 11 + l + t + x.len()) =~= x);
}

/// The extra text of an element is written right after its title and before
/// the line break: the announcement of an element with extra text `x` is
/// that of the same element without it, with `x` put before the line break.
pub proof fn lemma_announce_extra(hour: int, minute: int, a: ElementView, b: ElementView, x: Seq<char>)
    requires
        fields(a).link == fields(b).link,
        fields(a).title == fields(b).title,
        fields(a).extra == Some(x),
        fields(b).extra is None,
    ensures
        announce_text(hour, minute, a) == announce_text(hour, minute, b).drop_last() + x + seq!['\n'],
        announce_text(hour, minute, b).last() == '\n',
{
    let fb = fields(b);
    let base = two_digits(hour) + seq![':'] + two_digits(minute) + " | "@ + fb.link + " | "@ + fb.title;
    assert(announce_text(hour, minute, b) =~= base + seq!['\n']);
    assert(announce_text(hour, minute, b).drop_last() =~= base);
    assert(announce_text(hour, minute, a) =~= base + x + seq!['\n']);
}

fn push_two_digits(s: &mut String, n: u32)
    requires
        n < 100,
    ensures
        final(s)@ == old(s)@ + two_digits(n as int),
{
    push_char(s, crate::number::char_of_digit((n / 10) as u64));
    push_char(s, crate::number::char_of_digit((n % 10) as u64));
    assert(final(s)@ =~= old(s)@ + two_digits(n as int));
}

/// The announcement of `e` for `feed`, given the hour and minute of its
/// publication, in the feed's colours.
pub fn format_line(feed: &Feed, hour: u32, minute: u32, e: &Element) -> (s: String)
    requires
        hour < 100,
        minute < 100,
    ensures
        s@ == color_wrap(feed@.options, announce_text(hour as int, minute as int, e@)),
{
    let mut line = String::new();
    push_two_digits(&mut line, hour);
    push_char(&mut line, ':');
    push_two_digits(&mut line, minute);
    push_str(&mut line, " | ");
    push_str(&mut line, e.link());
    push_str(&mut line, " | ");
    push_str(&mut line, e.title());
    match e.extra() {
        Some(x) => push_str(&mut line, x),
        None => {},
    }
    push_char(&mut line, '\n');
    assert(line@ =~= announce_text(hour as int, minute as int, e@));
    match feed.wrap_color(line.as_str()) {
        Ok(s) => s,
        Err(_) => String::new(),
    }
}

/// The announcement of `e` for `feed`, or `None` where `chrono` has no date
/// for its publication time.
pub fn announce_line(feed: &Feed, e: &Element) -> (r: Option<String>)
    ensures
        ({
            let ts = fields(e@).pub_date as int;
            match r {
                Some(s) => utc_in_range(ts) && s@ == color_wrap(
                    feed@.options,
                    announce_text((ts % 86400) / 3600, (ts % 86400) % 3600 / 60, e@),
                ),
                None => !utc_in_range(ts),
            }
        }),
{
    match utc_hour_minute(e.timestamp()) {
        Some((h, m)) => Some(format_line(feed, h, m, e)),
        None => None,
    }
}

// ----------------------------------------------------------------------------------
//   - Cycles -
// ----------------------------------------------------------------------------------

/// Whether a cycle starts more than three cycle intervals after the previous
/// one (as after a wake-up), given the time elapsed as whole seconds and the
/// nanoseconds beyond them.
pub fn cycle_overdue(elapsed_secs: i64, elapsed_subsec_nanos: i32, cycle_interval: u64) -> (b: bool)
    ensures
        b == (elapsed_secs * 1_000_000_000 + elapsed_subsec_nanos > 3 * cycle_interval * 1_000_000_000),
{
    let elapsed: i128 = elapsed_secs as i128 * 1_000_000_000 + elapsed_subsec_nanos as i128;
    let limit: i128 = 3 * (cycle_interval as i128) * 1_000_000_000;
    elapsed > limit
}

// ----------------------------------------------------------------------------------
//   - Percent-decoding -
// ----------------------------------------------------------------------------------

/// The value of a hexadecimal digit byte.
pub open spec fn hex_value(b: u8) -> Option<int> {
    if 0x30 <= b <= 0x39 {
        Some(b - 0x30)
    } else if 0x41 <= b <= 0x46 {
        Some(b - 0x41 + 10)
    } else if 0x61 <= b <= 0x66 {
        Some(b - 0x61 + 10)
    } else {
        None
    }
}

/// Bytes with each `%` followed by two hexadecimal digits replaced by the
/// byte they spell; every other byte, `+` among them, kept as it is.
pub open spec fn percent_decoded(b: Seq<u8>) -> Seq<u8>
    decreases b.len(),
{
    if b.len() == 0 {
        b
    } else if b[0] == 0x25 && b.len() >= 3 && hex_value(b[1]) is Some && hex_value(b[2]) is Some {
        seq![(hex_value(b[1]).unwrap() * 16 + hex_value(b[2]).unwrap()) as u8] + percent_decoded(b.skip(3))
    } else {
        seq![b[0]] + percent_decoded(b.skip(1))
    }
}

/// The text that `urlencoding::decode` gives for `s`: its UTF-8 bytes
/// percent-decoded, read back as UTF-8; `None` where they are no UTF-8.
pub open spec fn url_decoded(s: Seq<char>) -> Option<Seq<char>> {
    let bytes = percent_decoded(vstd::utf8::encode_utf8(s));
    if vstd::utf8::valid_utf8(bytes) {
        Some(vstd::utf8::decode_utf8(bytes))
    } else {
        None
    }
}

/// `urlencoding::decode(s)` as an owned string; `None` where it fails. The
/// contract states what its source does: percent-decode the UTF-8 bytes of
/// `s` (a `%` not followed by two hexadecimal digits is kept), then read the
/// bytes as UTF-8.
#[verifier::external_body]
fn percent_decode(s: &str) -> (r: Option<String>)
    ensures
        match r {
            Some(t) => url_decoded(s@) == Some(t@),
            None => url_decoded(s@) is None,
        },
{
    match urlencoding::decode(s) {
        Ok(c) => Some(c.into_owned()),
        Err(_) => None,
    }
}

impl Feed {
    /// The feed with its URL percent-decoded, or `None` where the decoded
    /// bytes are no UTF-8.
    pub fn decoded(&self) -> (r: Option<Feed>)
        ensures
            match r {
                Some(f) => url_decoded(self@.url) == Some(f@.url) && f@.options == self@.options,
                None => url_decoded(self@.url) is None,
            },
    {
        match percent_decode(self.url.as_str()) {
            Some(url) => Some(Feed { url, options: crate::config::clone_options(&self.options) }),
            None => None,
        }
    }
}

/// The message logged when fetching `url` failed with the error text `err`:
/// the error percent-decoded, in red, after the URL unless it names the URL
/// already. `None` where the decoded error is no UTF-8.
pub open spec fn fetch_error_text(url: Seq<char>, err: Seq<char>) -> Option<Seq<char>> {
    match url_decoded(err) {
        Some(d) => Some(
            if contains(d, url) {
                "\x1b[31m"@ + d + "\x1b[0m\n"@
            } else {
                url + "\x1b[31m -< "@ + d + "\x1b[0m\n"@
            },
        ),
        None => None,
    }
}

/// The message logged when fetching `url` failed with the error text `err`.
pub fn fetch_error_message(url: &str, err: &str) -> (r: Option<String>)
    ensures
        match r {
            Some(m) => fetch_error_text(url@, err@) == Some(m@),
            None => fetch_error_text(url@, err@) is None,
        },
{
    let d = match percent_decode(err) {
        Some(d) => d,
        None => {
            return None;
        },
    };
    let dc = to_chars(d.as_str());
    let uc = to_chars(url);
    let mut m = String::new();
    if contains_str(&dc, &uc) {
        push_str(&mut m, "\x1b[31m");
        push_str(&mut m, d.as_str());
        push_str(&mut m, "\x1b[0m\n");
    } else {
        push_str(&mut m, url);
        push_str(&mut m, "\x1b[31m -< ");
        push_str(&mut m, d.as_str());
        push_str(&mut m, "\x1b[0m\n");
    }
    assert(m@ =~= fetch_error_text(url@, err@).unwrap());
    Some(m)
}

} // verus!
