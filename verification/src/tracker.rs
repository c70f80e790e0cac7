use vstd::prelude::*;

verus! {

/// True when `seen + timeout` lies strictly before `now`: the record is
/// stale.
pub open spec fn stale_at(seen: u64, now: u64, timeout: u64) -> bool {
    now > seen + timeout
}

/// Decides whether a liveness record last refreshed at `seen` has timed out
/// by `now`, where `seen` may lie in the future of `now`.
pub fn is_stale(seen: u64, now: u64, timeout: u64) -> (r: bool)
    ensures
        r == stale_at(seen, now, timeout),
{
    if now > seen {
        now - seen > timeout
    } else {
        false
    }
}

/// One liveness record: a peer identifier (its textual form) and the clock
/// reading at which evidence of the peer was last seen.
pub type Entry = (Seq<char>, u64);

/// True when some record in `s` carries the key `p`.
pub open spec fn has_key(s: Seq<Entry>, p: Seq<char>) -> bool {
    exists|i: int| 0 <= i < s.len() && s[i].0 == p
}

/// The position of the record that carries `p`.
pub open spec fn key_index(s: Seq<Entry>, p: Seq<char>) -> int {
    choose|i: int| 0 <= i < s.len() && s[i].0 == p
}

/// No two records share a key.
pub open spec fn distinct_keys(s: Seq<Entry>) -> bool {
    forall|i: int, j: int| 0 <= i < j < s.len() ==> s[i].0 != s[j].0
}

/// The timestamp recorded for `p`.
pub open spec fn seen_at(s: Seq<Entry>, p: Seq<char>) -> u64 {
    s[key_index(s, p)].1
}

/// Recording evidence for `p` at time `now`: a fresh key is appended, a known
/// key merely has its timestamp replaced.
pub open spec fn touch_model(s: Seq<Entry>, p: Seq<char>, now: u64) -> Seq<Entry> {
    if has_key(s, p) {
        s.update(key_index(s, p), (p, now))
    } else {
        s.push((p, now))
    }
}

/// Dropping the record for `p`, if one is present.
pub open spec fn forget_model(s: Seq<Entry>, p: Seq<char>) -> Seq<Entry> {
    if has_key(s, p) {
        s.remove(key_index(s, p))
    } else {
        s
    }
}

/// The records that survive a sweep at `now`: those not yet stale.
pub open spec fn keep_fresh(s: Seq<Entry>, now: u64, timeout: u64) -> Seq<Entry>
    decreases s.len(),
{
    if s.len() == 0 {
        Seq::empty()
    } else {
        let rest = keep_fresh(s.drop_last(), now, timeout);
        if stale_at(s.last().1, now, timeout) {
            rest
        } else {
            rest.push(s.last())
        }
    }
}

/// The keys that a sweep at `now` evicts, in record order.
pub open spec fn stale_keys(s: Seq<Entry>, now: u64, timeout: u64) -> Seq<Seq<char>>
    decreases s.len(),
{
    if s.len() == 0 {
        Seq::empty()
    } else {
        let rest = stale_keys(s.drop_last(), now, timeout);
        if stale_at(s.last().1, now, timeout) {
            rest.push(s.last().0)
        } else {
            rest
        }
    }
}

/// When `s[i]` carries `p` and keys are distinct, `i` is the looked-up index.
pub proof fn lemma_seen_at_index(s: Seq<Entry>, p: Seq<char>, i: int)
    requires
        distinct_keys(s),
        0 <= i < s.len(),
        s[i].0 == p,
    ensures
        has_key(s, p),
        key_index(s, p) == i,
        seen_at(s, p) == s[i].1,
{
    assert(has_key(s, p));
    let k = key_index(s, p);
    assert(s[k].0 == p);
    if k != i {
        if k < i {
            assert(s[k].0 != s[i].0);
        } else {
            assert(s[i].0 != s[k].0);
        }
    }
}

/// Survivors keep their key set: a key is in `keep_fresh` exactly when it is in
/// `s` and not stale there, with its timestamp unchanged.
pub proof fn lemma_keep_fresh_keys(s: Seq<Entry>, now: u64, timeout: u64, p: Seq<char>)
    requires
        distinct_keys(s),
    ensures
        has_key(keep_fresh(s, now, timeout), p) <==> (has_key(s, p) && !stale_at(
            seen_at(s, p),
            now,
            timeout,
        )),
        has_key(keep_fresh(s, now, timeout), p) ==> seen_at(keep_fresh(s, now, timeout), p)
            == seen_at(s, p),
    decreases s.len(),
{
    let kf = keep_fresh(s, now, timeout);
    if s.len() == 0 {
        assert(!has_key(kf, p));
        assert(!has_key(s, p));
    } else {
        let head = s.drop_last();
        let last = s.last();
        assert(distinct_keys(head)) by {
            assert(forall|i: int, j: int|
                0 <= i < j < head.len() ==> head[i].0 == s[i].0 && head[j].0 == s[j].0);
        }
        lemma_keep_fresh_keys(head, now, timeout, p);
        lemma_keep_fresh_is_subset(head, now, timeout);
        let kh = keep_fresh(head, now, timeout);
        if last.0 == p {
            assert(s[s.len() - 1].0 == p);
            lemma_seen_at_index(s, p, s.len() - 1);
            assert(!has_key(head, p)) by {
                if has_key(head, p) {
                    let k = key_index(head, p);
                    assert(head[k].0 == p);
                    assert(s[k].0 == s[s.len() - 1].0);
                }
            }
            assert(!has_key(kh, p));
            if stale_at(last.1, now, timeout) {
                assert(kf == kh);
                assert(!has_key(kf, p));
            } else {
                assert(kf == kh.push(last));
                assert(kf[kf.len() - 1].0 == p);
                lemma_seen_at_index(kf, p, kf.len() - 1);
            }
        } else {
            // p can only live in the head, and seen_at agrees between s and head.
            assert(has_key(s, p) <==> has_key(head, p)) by {
                if has_key(s, p) {
                    let k = key_index(s, p);
                    assert(s[k].0 == p);
                    assert(k < s.len() - 1);
                    assert(head[k].0 == p);
                }
                if has_key(head, p) {
                    let k = key_index(head, p);
                    assert(head[k].0 == p);
                    assert(s[k].0 == p);
                }
            }
            if has_key(head, p) {
                let k = key_index(head, p);
                assert(head[k].0 == p);
                assert(s[k].0 == p);
                lemma_seen_at_index(s, p, k);
                assert(seen_at(head, p) == seen_at(s, p)) by {
                    lemma_seen_at_index(head, p, k);
                }
            }
            if stale_at(last.1, now, timeout) {
                assert(kf == kh);
            } else {
                assert(kf == kh.push(last));
                assert(has_key(kf, p) <==> has_key(kh, p)) by {
                    if has_key(kf, p) {
                        let k = key_index(kf, p);
                        assert(kf[k].0 == p);
                        if k < kf.len() - 1 {
                            assert(kh[k].0 == p);
                        } else {
                            assert(kf[k].0 == last.0);
                        }
                    }
                    if has_key(kh, p) {
                        let k = key_index(kh, p);
                        assert(kh[k].0 == p);
                        assert(kf[k].0 == p);
                    }
                }
                if has_key(kh, p) {
                    let k = key_index(kh, p);
                    assert(kh[k].0 == p);
                    lemma_seen_at_index(kh, p, k);
                    assert(kf[k].0 == p);
                    assert(distinct_keys(kf)) by {
                        lemma_keep_fresh_is_subset(s, now, timeout);
                    }
                    lemma_seen_at_index(kf, p, k);
                }
            }
        }
    }
}

/// Every record of `keep_fresh(s)` occurs in `s`.
pub proof fn lemma_keep_fresh_is_subset(s: Seq<Entry>, now: u64, timeout: u64)
    ensures
        forall|i: int|
            0 <= i < keep_fresh(s, now, timeout).len() ==> s.contains(
                #[trigger] keep_fresh(s, now, timeout)[i],
            ),
        distinct_keys(s) ==> distinct_keys(keep_fresh(s, now, timeout)),
    decreases s.len(),
{
    if s.len() > 0 {
        let head = s.drop_last();
        lemma_keep_fresh_is_subset(head, now, timeout);
        assert(forall|e: Entry| head.contains(e) ==> s.contains(e)) by {
            assert(forall|i: int| 0 <= i < head.len() ==> head[i] == s[i]);
        }
        if distinct_keys(s) {
            assert(distinct_keys(head)) by {
                assert(forall|i: int, j: int|
                    0 <= i < j < head.len() ==> head[i].0 == s[i].0 && head[j].0 == s[j].0);
            }
            let kept = keep_fresh(s, now, timeout);
            let kh = keep_fresh(head, now, timeout);
            if !stale_at(s.last().1, now, timeout) {
                assert(forall|i: int| 0 <= i < kh.len() ==> #[trigger] kh[i].0 != s.last().0) by {
                    assert(forall|i: int|
                        0 <= i < kh.len() ==> head.contains(#[trigger] kh[i]));
                    assert(forall|j: int| 0 <= j < head.len() ==> #[trigger] head[j].0 != s.last().0);
                }
            }
        }
    }
}

/// What touching changes: exactly the touched key is added (or refreshed),
/// every other record is untouched.
pub proof fn lemma_touch_model_keys(s: Seq<Entry>, q: Seq<char>, now: u64, p: Seq<char>)
    requires
        distinct_keys(s),
    ensures
        distinct_keys(touch_model(s, q, now)),
        has_key(touch_model(s, q, now), p) == (has_key(s, p) || p == q),
        p == q ==> seen_at(touch_model(s, q, now), p) == now,
        p != q && has_key(s, p) ==> seen_at(touch_model(s, q, now), p) == seen_at(s, p),
{
    let t = touch_model(s, q, now);
    if has_key(s, q) {
        let k = key_index(s, q);
        assert(s[k].0 == q);
        assert(t == s.update(k, (q, now)));
        assert(forall|i: int| 0 <= i < t.len() ==> t[i].0 == s[i].0);
        assert(distinct_keys(t));
        if p == q {
            lemma_seen_at_index(t, p, k);
        } else {
            if has_key(s, p) {
                let j = key_index(s, p);
                assert(s[j].0 == p);
                assert(j != k);
                assert(t[j] == s[j]);
                lemma_seen_at_index(t, p, j);
                lemma_seen_at_index(s, p, j);
            }
            if has_key(t, p) {
                let j = key_index(t, p);
                assert(t[j].0 == p);
                assert(s[j].0 == p);
            }
        }
    } else {
        assert(t == s.push((q, now)));
        assert(forall|i: int| 0 <= i < s.len() ==> t[i] == s[i]);
        assert(forall|i: int| 0 <= i < s.len() ==> #[trigger] s[i].0 != q);
        assert(distinct_keys(t));
        if p == q {
            lemma_seen_at_index(t, p, t.len() - 1);
        } else {
            if has_key(s, p) {
                let j = key_index(s, p);
                assert(s[j].0 == p);
                assert(t[j].0 == p);
                lemma_seen_at_index(t, p, j);
                lemma_seen_at_index(s, p, j);
            }
            if has_key(t, p) {
                let j = key_index(t, p);
                assert(t[j].0 == p);
                assert(j < s.len());
                assert(s[j].0 == p);
            }
        }
    }
}

/// What forgetting changes: exactly the forgotten key leaves, every other
/// record is untouched.
pub proof fn lemma_forget_model_keys(s: Seq<Entry>, q: Seq<char>, p: Seq<char>)
    requires
        distinct_keys(s),
    ensures
        distinct_keys(forget_model(s, q)),
        has_key(forget_model(s, q), p) == (has_key(s, p) && p != q),
        p != q && has_key(s, p) ==> seen_at(forget_model(s, q), p) == seen_at(s, p),
{
    let t = forget_model(s, q);
    if has_key(s, q) {
        let k = key_index(s, q);
        assert(s[k].0 == q);
        assert(t == s.remove(k));
        assert(forall|i: int|
            0 <= i < t.len() ==> t[i] == (if i < k {
                s[i]
            } else {
                s[i + 1]
            }));
        assert(distinct_keys(t)) by {
            assert(forall|a: int, b: int| 0 <= a < b < t.len() ==> t[a].0 != t[b].0);
        }
        if p == q {
            if has_key(t, p) {
                let j = key_index(t, p);
                assert(t[j].0 == q);
                if j < k {
                    assert(s[j].0 == q);
                } else {
                    assert(s[j + 1].0 == q);
                }
            }
        } else {
            if has_key(s, p) {
                let j = key_index(s, p);
                assert(s[j].0 == p);
                assert(j != k);
                if j < k {
                    assert(t[j].0 == p);
                    lemma_seen_at_index(t, p, j);
                } else {
                    assert(t[j - 1].0 == p);
                    lemma_seen_at_index(t, p, j - 1);
                }
                lemma_seen_at_index(s, p, j);
            }
            if has_key(t, p) {
                let j = key_index(t, p);
                assert(t[j].0 == p);
                if j < k {
                    assert(s[j].0 == p);
                } else {
                    assert(s[j + 1].0 == p);
                }
            }
        }
    }
}

/// Which keys a sweep evicts: exactly the stale ones, each once.
pub proof fn lemma_stale_keys_char(s: Seq<Entry>, now: u64, timeout: u64, p: Seq<char>)
    requires
        distinct_keys(s),
    ensures
        stale_keys(s, now, timeout).contains(p) <==> (has_key(s, p) && stale_at(
            seen_at(s, p),
            now,
            timeout,
        )),
        forall|i: int, j: int|
            0 <= i < j < stale_keys(s, now, timeout).len() ==> stale_keys(s, now, timeout)[i]
                != stale_keys(s, now, timeout)[j],
    decreases s.len(),
{
    let ks = stale_keys(s, now, timeout);
    if s.len() == 0 {
        assert(!ks.contains(p));
    } else {
        let head = s.drop_last();
        let last = s.last();
        assert(distinct_keys(head)) by {
            assert(forall|i: int, j: int|
                0 <= i < j < head.len() ==> head[i].0 == s[i].0 && head[j].0 == s[j].0);
        }
        lemma_stale_keys_char(head, now, timeout, p);
        let kh = stale_keys(head, now, timeout);
        // The head's stale keys never include the last record's key.
        assert(!kh.contains(last.0)) by {
            lemma_stale_keys_char(head, now, timeout, last.0);
            if has_key(head, last.0) {
                let j = key_index(head, last.0);
                assert(head[j].0 == last.0);
                assert(s[j].0 == s[s.len() - 1].0);
            }
        }
        if last.0 == p {
            assert(s[s.len() - 1].0 == p);
            lemma_seen_at_index(s, p, s.len() - 1);
            assert(!has_key(head, p)) by {
                if has_key(head, p) {
                    let j = key_index(head, p);
                    assert(head[j].0 == p);
                    assert(s[j].0 == s[s.len() - 1].0);
                }
            }
            if stale_at(last.1, now, timeout) {
                assert(ks == kh.push(p));
                assert(ks.contains(p)) by {
                    assert(ks[ks.len() - 1] == p);
                }
            } else {
                assert(ks == kh);
            }
        } else {
            assert(has_key(s, p) <==> has_key(head, p)) by {
                if has_key(s, p) {
                    let j = key_index(s, p);
                    assert(s[j].0 == p);
                    assert(j < s.len() - 1);
                    assert(head[j].0 == p);
                }
                if has_key(head, p) {
                    let j = key_index(head, p);
                    assert(head[j].0 == p);
                    assert(s[j].0 == p);
                }
            }
            if has_key(head, p) {
                let j = key_index(head, p);
                assert(head[j].0 == p);
                assert(s[j].0 == p);
                lemma_seen_at_index(s, p, j);
                lemma_seen_at_index(head, p, j);
            }
            if stale_at(last.1, now, timeout) {
                assert(ks == kh.push(last.0));
                assert(ks.contains(p) <==> kh.contains(p)) by {
                    if ks.contains(p) {
                        let j = choose|j: int| 0 <= j < ks.len() && ks[j] == p;
                        if j < ks.len() - 1 {
                            assert(kh[j] == p);
                        }
                    }
                    if kh.contains(p) {
                        let j = choose|j: int| 0 <= j < kh.len() && kh[j] == p;
                        assert(ks[j] == p);
                    }
                }
            } else {
                assert(ks == kh);
            }
        }
    }
}
/// live, each with the clock reading of the latest evidence for it.
pub struct LivenessTracker {
    entries: Vec<(String, u64)>,
}

impl View for LivenessTracker {
    type V = Seq<Entry>;

    closed spec fn view(&self) -> Seq<Entry> {
        Seq::new(self.entries@.len(), |i: int| (self.entries@[i].0@, self.entries@[i].1))
    }
}

impl LivenessTracker {
    /// Keys never repeat.
    pub open spec fn wf(&self) -> bool {
        distinct_keys(self@)
    }

    /// An empty tracker.
    pub fn new() -> (t: LivenessTracker)
        ensures
            t@ == Seq::<Entry>::empty(),
            t.wf(),
    {
        let t = LivenessTracker { entries: Vec::new() };
        proof {
            assert(t@ =~= Seq::<Entry>::empty());
        }
        t
    }

    /// Decides well-formedness at run time, for callers outside the proof
    /// that need to test it before relying on it.
    pub fn invariant_holds(&self) -> (r: bool)
        ensures
            r == self.wf(),
    {
        let n = self.entries.len();
        let mut i: usize = 0;
        while i < n
            invariant
                i <= n,
                n == self@.len(),
                forall|a: int, b: int| 0 <= a < b < self@.len() && a < i ==> self@[a].0 != self@[b].0,
            decreases n - i,
        {
            let mut j: usize = i + 1;
            while j < n
                invariant
                    i < j <= n,
                    n == self@.len(),
                    forall|b: int| i < b < j ==> self@[i as int].0 != self@[b].0,
                decreases n - j,
            {
                if crate::text::str_eq(self.entries[i].0.as_str(), self.entries[j].0.as_str()) {
                    proof {
                        assert(self@[i as int].0 == self@[j as int].0);
                        assert(!distinct_keys(self@));
                    }
                    return false;
                }
                j += 1;
            }
            i += 1;
        }
        true
    }

    /// How many peers are currently tracked.
    pub fn len(&self) -> (n: usize)
        ensures
            n == self@.len(),
    {
        self.entries.len()
    }

    /// The position of the record for `peer`, if one is present.
    fn find(&self, peer: &String) -> (r: Option<usize>)
        requires
            self.wf(),
        ensures
            match r {
                Some(i) => has_key(self@, peer@) && i == key_index(self@, peer@) && i
                    < self@.len(),
                None => !has_key(self@, peer@),
            },
    {
        let n = self.entries.len();
        let mut i: usize = 0;
        while i < n
            invariant
                i <= n,
                n == self@.len(),
                self.wf(),
                forall|j: int| 0 <= j < i ==> self@[j].0 != peer@,
            decreases n - i,
        {
            if self.entries[i].0 == *peer {
                proof {
                    assert(self@[i as int].0 == peer@);
                    let k = key_index(self@, peer@);
                    assert(self@[k].0 == peer@);
                    if k != i as int {
                        assert(self@[k].0 != self@[i as int].0);
                    }
                }
                return Some(i);
            }
            i += 1;
        }
        proof {
            if has_key(self@, peer@) {
                let k = key_index(self@, peer@);
                assert(self@[k].0 == peer@);
            }
        }
        None
    }

    /// True when `peer` is currently tracked.
    pub fn contains(&self, peer: &String) -> (r: bool)
        requires
            self.wf(),
        ensures
            r == has_key(self@, peer@),
    {
        self.find(peer).is_some()
    }

    /// Records evidence for `peer` at `now`. Returns true exactly when the
    /// peer was not tracked before: the first insertion is the one the caller
    /// announces; later touches only refresh the timestamp.
    pub fn touch(&mut self, peer: &String, now: u64) -> (newly: bool)
        requires
            old(self).wf(),
        ensures
            final(self).wf(),
            final(self)@ == touch_model(old(self)@, peer@, now),
            newly == !has_key(old(self)@, peer@),
    {
        match self.find(peer) {
            Some(i) => {
                let key = self.entries[i].0.clone();
                self.entries.set(i, (key, now));
                proof {
                    assert(final(self)@ =~= touch_model(old(self)@, peer@, now));
                    let s = final(self)@;
                    let o = old(self)@;
                    assert(forall|a: int, b: int|
                        0 <= a < b < s.len() ==> s[a].0 == o[a].0 && s[b].0 == o[b].0);
                }
                false
            },
            None => {
                self.entries.push((peer.clone(), now));
                proof {
                    assert(final(self)@ =~= touch_model(old(self)@, peer@, now));
                    let s = final(self)@;
                    let o = old(self)@;
                    assert(forall|a: int, b: int|
                        0 <= a < b < s.len() - 1 ==> s[a].0 == o[a].0 && s[b].0 == o[b].0);
                    assert(forall|a: int| 0 <= a < s.len() - 1 ==> s[a].0 != peer@);
                }
                true
            },
        }
    }

    /// Drops the record for `peer`. Returns true exactly when one was present:
    /// only that removal is the one the caller announces.
    pub fn forget(&mut self, peer: &String) -> (was_present: bool)
        requires
            old(self).wf(),
        ensures
            final(self).wf(),
            final(self)@ == forget_model(old(self)@, peer@),
            was_present == has_key(old(self)@, peer@),
    {
        match self.find(peer) {
            Some(i) => {
                self.entries.remove(i);
                proof {
                    assert(final(self)@ =~= forget_model(old(self)@, peer@));
                    let s = final(self)@;
                    let o = old(self)@;
                    assert(forall|a: int, b: int| 0 <= a < b < s.len() ==> s[a].0 != s[b].0) by {
                        assert(forall|a: int|
                            0 <= a < s.len() ==> s[a].0 == (if a < i as int {
                                o[a].0
                            } else {
                                o[a + 1].0
                            }));
                    }
                }
                true
            },
            None => false,
        }
    }

    /// Empties the tracker.
    pub fn clear(&mut self)
        ensures
            final(self)@ == Seq::<Entry>::empty(),
            final(self).wf(),
    {
        self.entries = Vec::new();
        proof {
            assert(final(self)@ =~= Seq::<Entry>::empty());
        }
    }

    /// Removes every record whose evidence is older than `timeout` before
    /// `now` and returns the evicted keys, in record order.
    pub fn sweep(&mut self, now: u64, timeout: u64) -> (evicted: Vec<String>)
        requires
            old(self).wf(),
        ensures
            final(self).wf(),
            final(self)@ == keep_fresh(old(self)@, now, timeout),
            evicted.deep_view() == stale_keys(old(self)@, now, timeout),
    {
        let ghost o = self@;
        let n = self.entries.len();
        let mut kept: Vec<(String, u64)> = Vec::new();
        let mut evicted: Vec<String> = Vec::new();
        let mut i: usize = 0;
        while i < n
            invariant
                i <= n,
                n == o.len(),
                self@ == o,
                self.wf(),
                Seq::new(kept@.len(), |k: int| (kept@[k].0@, kept@[k].1)) == keep_fresh(
                    o.subrange(0, i as int),
                    now,
                    timeout,
                ),
                evicted.deep_view() == stale_keys(o.subrange(0, i as int), now, timeout),
            decreases n - i,
        {
            let ghost pre = o.subrange(0, i as int);
            let ghost cur = o.subrange(0, i as int + 1);
            proof {
                assert(cur.drop_last() =~= pre);
                assert(cur.last() == o[i as int]);
            }
            let seen = self.entries[i].1;
            let key = self.entries[i].0.clone();
            if is_stale(seen, now, timeout) {
                evicted.push(key);
                proof {
                    assert(evicted.deep_view() =~= stale_keys(cur, now, timeout));
                }
            } else {
                kept.push((key, seen));
                proof {
                    assert(Seq::new(kept@.len(), |k: int| (kept@[k].0@, kept@[k].1)) =~= keep_fresh(
                        cur,
                        now,
                        timeout,
                    ));
                }
            }
            i += 1;
        }
        proof {
            assert(o.subrange(0, n as int) =~= o);
        }
        self.entries = kept;
        proof {
            lemma_keep_fresh_is_subset(o, now, timeout);
        }
        evicted
    }
}

} // verus!
