//! The key-value store: a mapping from keys to values that may expire, and
//! an index of the pending expirations in the order in which they fall due.
//!
//! The store has no clock of its own. Every operation that depends on the
//! time takes the current instant, in milliseconds since an epoch that the
//! caller chooses and keeps.

use crate::text::str_eq;
use crate::trusted::{bytes_contents, duration_as_millis, duration_millis};
use bytes::Bytes;
use std::time::Duration;
use vstd::hash_map::StringHashMap;
use vstd::prelude::*;

verus! {

/// A stored value and the instant at which it expires, if it does.
pub struct Entry {
    data: Bytes,
    expires_at: Option<u64>,
}

/// What an entry is, apart from how it is stored.
pub struct EntryView {
    pub data: Seq<u8>,
    pub expires_at: Option<u64>,
}

/// What the store holds: each key with its entry.
pub type Contents = Map<Seq<char>, EntryView>;

/// Whether a value with this expiration is gone at `now`. A value expires at
/// the instant of its expiration, not after it.
pub open spec fn is_expired(expires_at: Option<u64>, now: u64) -> bool {
    expires_at matches Some(t) && t <= now
}

/// The instant at which a value set at `now` with this time to live
/// expires. The instant is capped at the last one that the clock can show.
pub open spec fn spec_deadline(now: u64, ttl_ms: Option<nat>) -> Option<u64> {
    match ttl_ms {
        Some(ms) => Some(
            if now + ms > u64::MAX {
                u64::MAX
            } else {
                (now + ms) as u64
            },
        ),
        None => None,
    }
}

/// What a read of `key` at `now` returns.
pub open spec fn spec_get(m: Contents, key: Seq<char>, now: u64) -> Option<Seq<u8>> {
    if m.contains_key(key) && !is_expired(m[key].expires_at, now) {
        Some(m[key].data)
    } else {
        None
    }
}

/// The store after `key` was set at `now`.
pub open spec fn spec_set(
    m: Contents,
    key: Seq<char>,
    data: Seq<u8>,
    ttl_ms: Option<nat>,
    now: u64,
) -> Contents {
    m.insert(key, EntryView { data, expires_at: spec_deadline(now, ttl_ms) })
}

/// The store after a sweep at `now`: what has not expired stays as it is.
pub open spec fn spec_purge(m: Contents, now: u64) -> Contents {
    Map::new(
        |k: Seq<char>| m.contains_key(k) && !is_expired(m[k].expires_at, now),
        |k: Seq<char>| m[k],
    )
}

/// Whether `r` is the earliest pending expiration of `m`: `None` when no
/// entry of `m` expires.
pub open spec fn is_next_deadline(m: Contents, r: Option<u64>) -> bool {
    match r {
        None => forall|k: Seq<char>| m.contains_key(k) ==> (#[trigger] m[k]).expires_at is None,
        Some(t) => {
            &&& exists|k: Seq<char>| m.contains_key(k) && (#[trigger] m[k]).expires_at == Some(t)
            &&& forall|k: Seq<char>|
                m.contains_key(k) && (#[trigger] m[k]).expires_at is Some ==> t
                    <= m[k].expires_at->0
        },
    }
}

/// Whether a value set with this deadline falls due before everything that
/// was pending: then whoever waits for the next expiration must be woken.
pub open spec fn wakes_sweeper(m: Contents, deadline: Option<u64>) -> bool {
    deadline matches Some(t) && forall|k: Seq<char>|
        m.contains_key(k) && (#[trigger] m[k]).expires_at is Some ==> t < m[k].expires_at->0
}

/// A pending expiration: the instant and the key.
pub type Due = (u64, String);

pub struct Kv {
    entries: StringHashMap<Entry>,
    /// The pending expirations, earliest first.
    index: Vec<Due>,
}

impl View for Kv {
    type V = Contents;

    closed spec fn view(&self) -> Contents {
        Map::new(
            |k: Seq<char>| self.entries@.contains_key(k),
            |k: Seq<char>|
                EntryView {
                    data: bytes_contents(self.entries@[k].data),
                    expires_at: self.entries@[k].expires_at,
                },
        )
    }
}

/// Whether the index lists its expirations earliest first.
spec fn earliest_first(index: Seq<Due>) -> bool {
    forall|i: int, j: int|
        0 <= i < j < index.len() ==> (#[trigger] index[i]).0 <= (#[trigger] index[j]).0
}

/// Whether the index lists no key twice.
spec fn keys_once(index: Seq<Due>) -> bool {
    forall|i: int, j: int|
        0 <= i < j < index.len() ==> (#[trigger] index[i]).1@ != (#[trigger] index[j]).1@
}

/// Whether the index lists `key`.
spec fn lists(index: Seq<Due>, key: Seq<char>) -> bool {
    exists|i: int| 0 <= i < index.len() && (#[trigger] index[i]).1@ == key
}

/// Whether every expiration that the index lists is that of an entry.
spec fn agrees(index: Seq<Due>, m: Map<Seq<char>, Entry>) -> bool {
    forall|i: int|
        0 <= i < index.len() ==> m.contains_key((#[trigger] index[i]).1@)
            && m[index[i].1@].expires_at == Some(index[i].0)
}

/// Whether the index lists every entry that expires.
spec fn covers(index: Seq<Due>, m: Map<Seq<char>, Entry>) -> bool {
    forall|k: Seq<char>|
        m.contains_key(k) && (#[trigger] m[k]).expires_at is Some ==> lists(index, k)
}

/// The instant at which a value set at `now` with the time to live `ttl`
/// expires.
fn deadline_after(now: u64, ttl: &Duration) -> (t: u64)
    ensures
        Some(t) == spec_deadline(now, Some(duration_millis(*ttl))),
{
    let ms: u128 = duration_as_millis(ttl);
    let room: u64 = u64::MAX - now;
    if ms > room as u128 {
        u64::MAX
    } else {
        now + ms as u64
    }
}

/// Takes the expiration of `key` out of the index, if it is listed.
fn forget(index: &mut Vec<Due>, key: &str)
    requires
        earliest_first(old(index)@),
        keys_once(old(index)@),
    ensures
        earliest_first(final(index)@),
        keys_once(final(index)@),
        !lists(final(index)@, key@),
        forall|i: int|
            0 <= i < final(index)@.len() ==> old(index)@.contains(#[trigger] final(index)@[i]),
        forall|k: Seq<char>| k != key@ && lists(old(index)@, k) ==> lists(final(index)@, k),
{
    let mut i: usize = 0;
    while i < index.len()
        invariant
            i <= index.len(),
            index@ == old(index)@,
            earliest_first(old(index)@),
            keys_once(old(index)@),
            forall|j: int| 0 <= j < i ==> (#[trigger] index@[j]).1@ != key@,
        decreases index.len() - i,
    {
        if str_eq(index[i].1.as_str(), key) {
            index.remove(i);
            proof {
                lemma_forget(old(index)@, i as int);
            }
            return ;
        }
        i = i + 1;
    }
    assert forall|i: int| 0 <= i < index@.len() implies old(index)@.contains(
        #[trigger] index@[i],
    ) by {}
}

/// What taking one expiration out of the index leaves.
proof fn lemma_forget(before: Seq<Due>, at: int)
    requires
        earliest_first(before),
        keys_once(before),
        0 <= at < before.len(),
    ensures
        earliest_first(before.remove(at)),
        keys_once(before.remove(at)),
        !lists(before.remove(at), before[at].1@),
        forall|i: int|
            0 <= i < before.remove(at).len() ==> before.contains(#[trigger] before.remove(at)[i]),
        forall|k: Seq<char>| k != before[at].1@ && lists(before, k) ==> lists(before.remove(at), k),
{
    let after = before.remove(at);
    let origin = |i: int| if i < at { i } else { i + 1 };
    assert forall|i: int| 0 <= i < after.len() implies #[trigger] after[i]
        == before[origin(i)] by {}
    assert forall|i: int, j: int| 0 <= i < j < after.len() implies (#[trigger] after[i]).0 <= (
    #[trigger] after[j]).0 && after[i].1@ != after[j].1@ by {
        assert(after[i] == before[origin(i)]);
        assert(after[j] == before[origin(j)]);
    }
    assert forall|i: int| 0 <= i < after.len() implies before.contains(#[trigger] after[i]) by {
        assert(after[i] == before[origin(i)]);
    }
    if lists(after, before[at].1@) {
        let i = choose|i: int| 0 <= i < after.len() && (#[trigger] after[i]).1@ == before[at].1@;
        assert(after[i] == before[origin(i)]);
    }
    assert forall|k: Seq<char>| k != before[at].1@ && lists(before, k) implies lists(after, k) by {
        let j = choose|j: int| 0 <= j < before.len() && (#[trigger] before[j]).1@ == k;
        let i = if j < at { j } else { j - 1 };
        assert(after[i] == before[j]);
    }
}

/// Puts the expiration of `key` at `t` into the index, behind the
/// expirations that fall due no later. Returns where it stands.
fn file(index: &mut Vec<Due>, t: u64, key: String) -> (at: usize)
    requires
        earliest_first(old(index)@),
    ensures
        at <= old(index)@.len(),
        final(index)@ == old(index)@.insert(at as int, (t, key)),
        earliest_first(final(index)@),
{
    let mut at: usize = 0;
    while at < index.len() && index[at].0 <= t
        invariant
            at <= index.len(),
            index@ == old(index)@,
            forall|j: int| 0 <= j < at ==> (#[trigger] index@[j]).0 <= t,
        decreases index.len() - at,
    {
        at = at + 1;
    }
    index.insert(at, (t, key));
    proof {
        let before = old(index)@;
        let after = index@;
        assert forall|i: int, j: int| 0 <= i < j < after.len() implies (#[trigger] after[i]).0 <= (
        #[trigger] after[j]).0 by {
            if i != at {
                assert(after[i] == before[if i < at { i } else { i - 1 }]);
            }
            if j != at {
                assert(after[j] == before[if j < at { j } else { j - 1 }]);
            }
        }
    }
    at
}

/// Where the index lists something, it lists it after a new expiration was
/// put in, one place further on if the new one stands before it.
proof fn lemma_file(before: Seq<Due>, at: int, due: Due)
    requires
        0 <= at <= before.len(),
        keys_once(before),
        !lists(before, due.1@),
    ensures
        keys_once(before.insert(at, due)),
        lists(before.insert(at, due), due.1@),
        forall|k: Seq<char>| lists(before, k) ==> lists(before.insert(at, due), k),
        forall|i: int|
            0 <= i < before.insert(at, due).len() ==> #[trigger] before.insert(at, due)[i] == due
                || before.contains(before.insert(at, due)[i]),
{
    let after = before.insert(at, due);
    let origin = |i: int| if i < at { i } else { i - 1 };
    assert(after[at] == due);
    assert forall|i: int, j: int| 0 <= i < j < after.len() implies (#[trigger] after[i]).1@ != (
    #[trigger] after[j]).1@ by {
        if i != at {
            assert(after[i] == before[origin(i)]);
        }
        if j != at {
            assert(after[j] == before[origin(j)]);
        }
    }
    assert forall|k: Seq<char>| lists(before, k) implies lists(after, k) by {
        let j = choose|j: int| 0 <= j < before.len() && (#[trigger] before[j]).1@ == k;
        let i = if j < at { j } else { j + 1 };
        assert(after[i] == before[j]);
    }
    assert forall|i: int| 0 <= i < after.len() implies #[trigger] after[i] == due
        || before.contains(after[i]) by {
        if i != at {
            assert(after[i] == before[origin(i)]);
        }
    }
}

impl Kv {
    /// The index and the mapping agree: the index lists, earliest first and
    /// each key once, exactly the entries that expire.
    pub closed spec fn wf(&self) -> bool {
        &&& earliest_first(self.index@)
        &&& keys_once(self.index@)
        &&& agrees(self.index@, self.entries@)
        &&& covers(self.index@, self.entries@)
    }

    /// An empty store.
    pub fn new() -> (kv: Kv)
        ensures
            kv.wf(),
            kv@ == Map::<Seq<char>, EntryView>::empty(),
    {
        let kv = Kv { entries: StringHashMap::new(), index: Vec::new() };
        assert(kv@ =~= Map::<Seq<char>, EntryView>::empty());
        kv
    }

    /// The value of `key` at `now`. An entry that has expired is absent,
    /// whether or not a sweep has removed it yet.
    pub fn get(&self, key: &str, now: u64) -> (r: Option<Bytes>)
        ensures
            match spec_get(self@, key@, now) {
                Some(data) => r matches Some(b) && bytes_contents(b) == data,
                None => r is None,
            },
    {
        match self.entries.get(key) {
            Some(entry) => {
                let gone = match entry.expires_at {
                    Some(t) => t <= now,
                    None => false,
                };
                if gone {
                    None
                } else {
                    Some(entry.data.clone())
                }
            },
            None => None,
        }
    }

    /// The earliest pending expiration.
    pub fn next_deadline(&self) -> (r: Option<u64>)
        requires
            self.wf(),
        ensures
            is_next_deadline(self@, r),
    {
        if self.index.len() == 0 {
            proof {
                assert forall|k: Seq<char>| self@.contains_key(k) implies (
                #[trigger] self@[k]).expires_at is None by {
                    if self.entries@[k].expires_at is Some {
                        assert(lists(self.index@, k));
                    }
                }
            }
            None
        } else {
            let t = self.index[0].0;
            proof {
                let first = self.index@[0].1@;
                assert(self@.contains_key(first) && self@[first].expires_at == Some(t));
                assert forall|k: Seq<char>|
                    self@.contains_key(k) && (#[trigger] self@[k]).expires_at is Some implies t
                    <= self@[k].expires_at->0 by {
                    assert(self.entries@[k].expires_at is Some);
                    assert(lists(self.index@, k));
                    let i = choose|i: int|
                        0 <= i < self.index@.len() && (#[trigger] self.index@[i]).1@ == k;
                    assert(i == 0 || self.index@[0].0 <= self.index@[i].0);
                }
            }
            Some(t)
        }
    }

    /// Sets `key` to `value`. With a time to live the value expires that long
    /// after `now`, counted in whole milliseconds; without one it stays
    /// until it is set again. What `key` held before, and its pending
    /// expiration, are gone.
    ///
    /// The result says whether the new value falls due before everything
    /// that was pending, so that a sweeper that waits must be woken.
    pub fn set(&mut self, key: String, value: Bytes, expire: Option<Duration>, now: u64) -> (wake:
        bool)
        requires
            old(self).wf(),
        ensures
            final(self).wf(),
            final(self)@ == spec_set(
                old(self)@,
                key@,
                bytes_contents(value),
                ttl_millis(expire),
                now,
            ),
            wake == wakes_sweeper(old(self)@, spec_deadline(now, ttl_millis(expire))),
    {
        let deadline: Option<u64> = match &expire {
            Some(d) => Some(deadline_after(now, d)),
            None => None,
        };
        let pending = self.next_deadline();
        let wake = match deadline {
            Some(t) => match pending {
                Some(u) => t < u,
                None => true,
            },
            None => false,
        };
        forget(&mut self.index, key.as_str());
        let ghost thinned = self.index@;
        self.entries.insert(key.clone(), Entry { data: value, expires_at: deadline });
        let ghost m = self.entries@;
        proof {
            assert forall|i: int| 0 <= i < thinned.len() implies m.contains_key(
                (#[trigger] thinned[i]).1@,
            ) && m[thinned[i].1@].expires_at == Some(thinned[i].0) by {
                assert(old(self).index@.contains(thinned[i]));
            }
            assert forall|k: Seq<char>|
                k != key@ && m.contains_key(k) && (#[trigger] m[k]).expires_at is Some
                implies lists(thinned, k) by {
                assert(old(self).entries@[k].expires_at is Some);
            }
        }
        match deadline {
            Some(t) => {
                let at = file(&mut self.index, t, key);
                proof {
                    lemma_file(thinned, at as int, (t, key));
                    assert forall|i: int| 0 <= i < self.index@.len() implies m.contains_key(
                        (#[trigger] self.index@[i]).1@,
                    ) && m[self.index@[i].1@].expires_at == Some(self.index@[i].0) by {
                        if self.index@[i] != (t, key) {
                            let j = choose|j: int|
                                0 <= j < thinned.len() && thinned[j] == self.index@[i];
                            assert(m.contains_key(thinned[j].1@));
                        }
                    }
                }
            },
            None => {},
        }
        proof {
            assert(self@ =~= spec_set(
                old(self)@,
                key@,
                bytes_contents(value),
                ttl_millis(expire),
                now,
            ));
        }
        wake
    }

    /// Removes every entry that has expired at `now`, and returns the
    /// earliest expiration that is still pending.
    pub fn purge_expired(&mut self, now: u64) -> (next: Option<u64>)
        requires
            old(self).wf(),
        ensures
            final(self).wf(),
            final(self)@ == spec_purge(old(self)@, now),
            is_next_deadline(final(self)@, next),
    {
        while self.index.len() > 0 && self.index[0].0 <= now
            invariant
                self.wf(),
                forall|k: Seq<char>| #[trigger]
                    self.entries@.contains_key(k) ==> old(self).entries@.contains_key(k)
                        && self.entries@[k] == old(self).entries@[k],
                forall|k: Seq<char>|
                    old(self).entries@.contains_key(k) && !is_expired(
                        (#[trigger] old(self).entries@[k]).expires_at,
                        now,
                    ) ==> self.entries@.contains_key(k),
            decreases self.index.len(),
        {
            let ghost before = self.index@;
            let ghost m0 = self.entries@;
            let due = self.index.remove(0);
            self.entries.remove(due.1.as_str());
            proof {
                let after = self.index@;
                let m1 = self.entries@;
                lemma_forget(before, 0);
                assert forall|i: int| 0 <= i < after.len() implies m1.contains_key(
                    (#[trigger] after[i]).1@,
                ) && m1[after[i].1@].expires_at == Some(after[i].0) by {
                    assert(after[i] == before[i + 1]);
                    assert(before[0].1@ != before[i + 1].1@);
                }
                assert forall|k: Seq<char>|
                    m1.contains_key(k) && (#[trigger] m1[k]).expires_at is Some implies lists(
                    after,
                    k,
                ) by {
                    assert(m0[k].expires_at is Some);
                    assert(lists(before, k));
                }
                assert forall|k: Seq<char>|
                    old(self).entries@.contains_key(k) && !is_expired(
                        (#[trigger] old(self).entries@[k]).expires_at,
                        now,
                    ) implies m1.contains_key(k) by {
                    assert(m0.contains_key(k));
                    assert(m0[before[0].1@].expires_at == Some(before[0].0));
                }
            }
        }
        proof {
            let index = self.index@;
            assert forall|k: Seq<char>| self.entries@.contains_key(k) implies !is_expired(
                (#[trigger] self.entries@[k]).expires_at,
                now,
            ) by {
                if self.entries@[k].expires_at is Some {
                    assert(lists(index, k));
                    let i = choose|i: int| 0 <= i < index.len() && (#[trigger] index[i]).1@ == k;
                    assert(i == 0 || index[0].0 <= index[i].0);
                }
            }
            let kept = spec_purge(old(self)@, now);
            assert forall|k: Seq<char>| self@.contains_key(k) <==> kept.contains_key(k) by {
                if self.entries@.contains_key(k) {
                    assert(!is_expired(self.entries@[k].expires_at, now));
                }
                if kept.contains_key(k) {
                    assert(!is_expired(old(self).entries@[k].expires_at, now));
                }
            }
            assert(self@ =~= kept);
        }
        self.next_deadline()
    }

    /// How many entries the store holds, expired ones that no sweep has
    /// removed yet among them.
    pub fn len(&self) -> (n: usize)
        ensures
            n == self@.dom().len(),
    {
        proof {
            assert(self@.dom() =~= self.entries@.dom());
        }
        self.entries.len()
    }
}

/// The milliseconds of an optional time to live.
pub open spec fn ttl_millis(expire: Option<Duration>) -> Option<nat> {
    match expire {
        Some(d) => Some(duration_millis(d)),
        None => None,
    }
}

/// A value that was set with a time to live is read back before its
/// deadline and never from then on. The deadline is the instant of setting
/// plus the time to live, unless that is beyond the last instant of the
/// clock.
pub proof fn law_value_expires(
    m: Contents,
    key: Seq<char>,
    data: Seq<u8>,
    ttl_ms: nat,
    now: u64,
    at: u64,
)
    ensures
        spec_deadline(now, Some(ttl_ms)) is Some,
        now + ttl_ms <= u64::MAX ==> spec_deadline(now, Some(ttl_ms)) == Some(
            (now + ttl_ms) as u64,
        ),
        spec_get(spec_set(m, key, data, Some(ttl_ms), now), key, at) == if at < spec_deadline(
            now,
            Some(ttl_ms),
        )->0 {
            Some(data)
        } else {
            None
        },
{
}

/// Whether or not a sweep has run in between, a value that was set with a
/// time to live is read back before its deadline and never from then on.
pub proof fn law_value_expires_swept_or_not(
    m: Contents,
    key: Seq<char>,
    data: Seq<u8>,
    ttl_ms: nat,
    now: u64,
    swept: u64,
    at: u64,
)
    requires
        swept <= at,
    ensures
        spec_get(spec_purge(spec_set(m, key, data, Some(ttl_ms), now), swept), key, at) == if at
            < spec_deadline(now, Some(ttl_ms))->0 {
            Some(data)
        } else {
            None
        },
{
}

/// A value that was set without a time to live is read back at every
/// instant, whether or not a sweep has run in between.
pub proof fn law_value_without_ttl_stays(
    m: Contents,
    key: Seq<char>,
    data: Seq<u8>,
    now: u64,
    swept: u64,
    at: u64,
)
    ensures
        spec_get(spec_set(m, key, data, None, now), key, at) == Some(data),
        spec_get(spec_purge(spec_set(m, key, data, None, now), swept), key, at) == Some(data),
{
}

/// A sweep changes no answer: what a read returns at `at` is the same
/// whether or not entries were swept at an earlier instant `swept`.
pub proof fn law_sweep_is_invisible(m: Contents, key: Seq<char>, swept: u64, at: u64)
    requires
        swept <= at,
    ensures
        spec_get(spec_purge(m, swept), key, at) == spec_get(m, key, at),
{
}

/// Setting one key changes the answer for no other key.
pub proof fn law_set_leaves_other_keys(
    m: Contents,
    key: Seq<char>,
    data: Seq<u8>,
    ttl_ms: Option<nat>,
    now: u64,
    other: Seq<char>,
    at: u64,
)
    requires
        other != key,
    ensures
        spec_get(spec_set(m, key, data, ttl_ms, now), other, at) == spec_get(m, other, at),
{
}

} // verus!
