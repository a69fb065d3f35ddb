//! The state behind the server: string keys mapped to byte entries with
//! optional expiration, an expiration index ordered by instant, and the
//! per-channel broadcast senders for publish/subscribe.
//!
//! [`State`] is plain data plus decisions; a server wraps one `State` in a
//! mutex shared by its connection handlers and its expiration sweeper, and
//! every critical section is one call into this module.  Instants are
//! milliseconds on whatever clock the embedder uses; only their order
//! matters here.
//!
//! The central invariant, kept by every operation and stated by
//! [`lemma_expiration_mirror`], is that the expiration index holds exactly
//! the pairs `(t, k)` for which the entry at key `k` expires at instant
//! `t`.

use vstd::prelude::*;

use tokio::sync::broadcast::{Receiver, Sender};

use crate::bridge::{new_channel, sender_send, sender_subscribe};
use crate::text::{clone_bytes, str_eq};

verus! {

/// A stored value and the instant it expires, if any.
pub struct Entry {
    pub data: Vec<u8>,
    pub expires_at: Option<u64>,
}

/// Mathematical model of an entry.
#[verifier::ext_equal]
pub struct EntryModel {
    pub data: Seq<u8>,
    pub expires_at: Option<u64>,
}

impl View for Entry {
    type V = EntryModel;

    open spec fn view(&self) -> EntryModel {
        EntryModel { data: self.data@, expires_at: self.expires_at }
    }
}

/// No two list positions bind the same key.
pub open spec fn unique_str_keys<V>(l: Seq<(String, V)>) -> bool {
    forall|i: int, j: int| 0 <= i < j < l.len() ==> l[i].0@ != l[j].0@
}

/// Some list position binds this key.
pub open spec fn assoc_has_key<V>(l: Seq<(String, V)>, k: Seq<char>) -> bool {
    exists|i: int| 0 <= i < l.len() && #[trigger] l[i].0@ == k
}

/// The map an entry list stands for.
pub open spec fn entries_map_of(l: Seq<(String, Entry)>) -> Map<Seq<char>, EntryModel>
    decreases l.len(),
{
    if l.len() == 0 {
        Map::empty()
    } else {
        entries_map_of(l.drop_last()).insert(l.last().0@, l.last().1@)
    }
}

/// The channel-name set a channel list stands for.
pub open spec fn channel_set_of<V>(l: Seq<(String, V)>) -> Set<Seq<char>>
    decreases l.len(),
{
    if l.len() == 0 {
        Set::empty()
    } else {
        channel_set_of(l.drop_last()).insert(l.last().0@)
    }
}

/// The expiration index is ordered by instant; its head is the next
/// expiration.
pub open spec fn exp_sorted(l: Seq<(u64, String)>) -> bool {
    forall|i: int, j: int| 0 <= i < j < l.len() ==> l[i].0 <= l[j].0
}

/// Each key appears at most once in the expiration index.
pub open spec fn exp_unique_keys(l: Seq<(u64, String)>) -> bool {
    forall|i: int, j: int| 0 <= i < j < l.len() ==> l[i].1@ != l[j].1@
}

/// The pair `(t, k)` stands in the expiration index.
pub open spec fn exp_has(l: Seq<(u64, String)>, t: u64, k: Seq<char>) -> bool {
    exists|i: int| 0 <= i < l.len() && (#[trigger] l[i]).0 == t && l[i].1@ == k
}

/// The expiration index holds exactly the pairs `(t, k)` for which the
/// entry at `k` expires at `t`.
pub open spec fn mirror_ok(em: Map<Seq<char>, EntryModel>, l: Seq<(u64, String)>) -> bool {
    &&& forall|i: int|
        0 <= i < l.len() ==> em.contains_key((#[trigger] l[i]).1@) && em[l[i].1@].expires_at
            == Some(l[i].0)
    &&& forall|k: Seq<char>|
        #[trigger] em.contains_key(k) ==> match em[k].expires_at {
            Some(t) => exp_has(l, t, k),
            None => true,
        }
}

/// An entry is past due at `now`.
pub open spec fn entry_expired(e: EntryModel, now: u64) -> bool {
    match e.expires_at {
        Some(t) => t <= now,
        None => false,
    }
}

/// What a sweep at `now` leaves: the same map, minus every entry past due.
pub open spec fn purged_map(m: Map<Seq<char>, EntryModel>, now: u64) -> Map<
    Seq<char>,
    EntryModel,
> {
    Map::new(
        |k: Seq<char>| m.contains_key(k) && !entry_expired(m.index(k), now),
        |k: Seq<char>| m.index(k),
    )
}

/// `now + delay`, stopping at the largest representable instant.
pub open spec fn sat_add(now: u64, delay: u64) -> u64 {
    if now + delay > u64::MAX {
        u64::MAX
    } else {
        (now + delay) as u64
    }
}

/// The absolute expiration a `SET` with this time to live asks for.
pub open spec fn expiry_of(expire_ms: Option<u64>, now_ms: u64) -> Option<u64> {
    match expire_ms {
        Some(d) => Some(sat_add(now_ms, d)),
        None => None,
    }
}

/// A bound key is in the map, at the value its position binds.
proof fn lemma_entries_map_index(l: Seq<(String, Entry)>)
    requires
        unique_str_keys(l),
    ensures
        forall|k: Seq<char>| #[trigger] entries_map_of(l).contains_key(k) <==> assoc_has_key(l, k),
        forall|i: int|
            0 <= i < l.len() ==> entries_map_of(l)[(#[trigger] l[i]).0@] == l[i].1@,
    decreases l.len(),
{
    if l.len() > 0 {
        lemma_entries_map_index(l.drop_last());
        assert forall|k: Seq<char>| #[trigger] entries_map_of(l).contains_key(k) implies
            assoc_has_key(l, k) by {
            if k == l.last().0@ {
                assert((l[l.len() - 1]).0@ == k);
            } else {
                assert(entries_map_of(l.drop_last()).contains_key(k));
                let i = choose|i: int|
                    0 <= i < l.drop_last().len() && #[trigger] l.drop_last()[i].0@ == k;
                assert(l[i].0@ == k);
            }
        }
        assert forall|k: Seq<char>| assoc_has_key(l, k) implies entries_map_of(l).contains_key(
            k,
        ) by {
            let i = choose|i: int| 0 <= i < l.len() && #[trigger] l[i].0@ == k;
            if i < l.len() - 1 {
                assert(l.drop_last()[i].0@ == k);
                assert(assoc_has_key(l.drop_last(), k));
            }
        }
        assert forall|i: int| 0 <= i < l.len() implies entries_map_of(l)[(#[trigger] l[i]).0@]
            == l[i].1@ by {
            if i < l.len() - 1 {
                assert(l.drop_last()[i].0@ == l[i].0@);
                assert(l[i].0@ != l.last().0@);
                assert(entries_map_of(l.drop_last())[l[i].0@] == l.drop_last()[i].1@);
            }
        }
    }
}

/// Removing a position removes exactly its key from the map.
proof fn lemma_entries_map_remove(l: Seq<(String, Entry)>, i: int)
    requires
        unique_str_keys(l),
        0 <= i < l.len(),
    ensures
        entries_map_of(l.remove(i)) =~= entries_map_of(l).remove(l[i].0@),
        unique_str_keys(l.remove(i)),
        !assoc_has_key(l.remove(i), l[i].0@),
    decreases l.len(),
{
    lemma_entries_map_index(l);
    let removed_key = l[i].0@;
    assert forall|j: int| 0 <= j < l.remove(i).len() implies (#[trigger] l.remove(i)[j]).0@
        != removed_key by {
        if j < i {
            assert(l.remove(i)[j] == l[j]);
        } else {
            assert(l.remove(i)[j] == l[j + 1]);
        }
    }
    if i == l.len() - 1 {
        assert(l.remove(i) =~= l.drop_last());
        lemma_entries_map_index(l.drop_last());
        assert(!entries_map_of(l.drop_last()).contains_key(l[i].0@));
        assert(entries_map_of(l.remove(i)) =~= entries_map_of(l).remove(l[i].0@));
    } else {
        assert(l.remove(i).drop_last() =~= l.drop_last().remove(i));
        assert(l.remove(i).last() == l.last());
        lemma_entries_map_remove(l.drop_last(), i);
        assert(entries_map_of(l.remove(i)) =~= entries_map_of(l.drop_last().remove(i)).insert(
            l.last().0@,
            l.last().1@,
        ));
        assert(entries_map_of(l.remove(i)) =~= entries_map_of(l).remove(l[i].0@));
    }
}

/// A bound channel name is in the set.
proof fn lemma_channel_set_index(l: Seq<(String, Sender<Vec<u8>>)>)
    ensures
        forall|k: Seq<char>| #[trigger] channel_set_of(l).contains(k) <==> assoc_has_key(l, k),
    decreases l.len(),
{
    if l.len() > 0 {
        lemma_channel_set_index(l.drop_last());
        assert forall|k: Seq<char>| #[trigger] channel_set_of(l).contains(k) implies
            assoc_has_key(l, k) by {
            if k == l.last().0@ {
                assert((l[l.len() - 1]).0@ == k);
            } else {
                assert(channel_set_of(l.drop_last()).contains(k));
                let i = choose|i: int|
                    0 <= i < l.drop_last().len() && #[trigger] l.drop_last()[i].0@ == k;
                assert(l[i].0@ == k);
            }
        }
        assert forall|k: Seq<char>| assoc_has_key(l, k) implies channel_set_of(l).contains(k) by {
            assert(channel_set_of(l) == channel_set_of(l.drop_last()).insert(l.last().0@));
            let i = choose|i: int| 0 <= i < l.len() && #[trigger] l[i].0@ == k;
            if i < l.len() - 1 {
                assert(l.drop_last()[i].0@ == k);
                assert(assoc_has_key(l.drop_last(), k));
            } else {
                assert(l[i] == l.last());
            }
        }
    }
}

/// Finds the position binding `key` in an association list.
fn assoc_find<V>(l: &Vec<(String, V)>, key: &str) -> (r: Option<usize>)
    ensures
        match r {
            Some(i) => 0 <= i < l@.len() && l@[i as int].0@ == key@,
            None => !assoc_has_key(l@, key@),
        },
{
    let n = l.len();
    let mut i: usize = 0;
    while i < n
        invariant
            n == l@.len(),
            0 <= i <= n,
            forall|j: int| 0 <= j < i ==> (#[trigger] l@[j]).0@ != key@,
        decreases n - i,
    {
        if str_eq(l[i].0.as_str(), key) {
            return Some(i);
        }
        i = i + 1;
    }
    None
}

/// Removes the pair `(when, key)` from the expiration index, if it stands
/// there.
fn exp_remove(exp: &mut Vec<(u64, String)>, when: u64, key: &str)
    requires
        exp_sorted(old(exp)@),
        exp_unique_keys(old(exp)@),
    ensures
        exp_sorted(final(exp)@),
        exp_unique_keys(final(exp)@),
        forall|t: u64, k: Seq<char>|
            exp_has(final(exp)@, t, k) <==> (exp_has(old(exp)@, t, k) && !(t == when && k
                == key@)),
{
    let n = exp.len();
    let mut i: usize = 0;
    while i < n
        invariant
            n == exp@.len(),
            exp@ == old(exp)@,
            exp_sorted(exp@),
            exp_unique_keys(exp@),
            0 <= i <= n,
            forall|j: int| 0 <= j < i ==> !((#[trigger] exp@[j]).0 == when && exp@[j].1@ == key@),
        decreases n - i,
    {
        if exp[i].0 == when && str_eq(exp[i].1.as_str(), key) {
            let ghost l0 = exp@;
            exp.remove(i);
            proof {
                assert(exp@ =~= l0.remove(i as int));
                assert forall|a: int, b: int| 0 <= a < b < exp@.len() implies (
                #[trigger] exp@[a]).0 <= (#[trigger] exp@[b]).0 && exp@[a].1@ != exp@[b].1@ by {
                    let a0 = if a < i { a } else { a + 1 };
                    let b0 = if b < i { b } else { b + 1 };
                    assert(exp@[a] == l0[a0]);
                    assert(exp@[b] == l0[b0]);
                }
                assert forall|t: u64, k: Seq<char>| exp_has(exp@, t, k) implies (exp_has(
                    l0,
                    t,
                    k,
                ) && !(t == when && k == key@)) by {
                    let j = choose|j: int|
                        0 <= j < exp@.len() && (#[trigger] exp@[j]).0 == t && exp@[j].1@ == k;
                    let j0 = if j < i { j } else { j + 1 };
                    assert(exp@[j] == l0[j0]);
                    if k == key@ {
                        assert(l0[j0].1@ == l0[i as int].1@);
                        assert(false);
                    }
                }
                assert forall|t: u64, k: Seq<char>| (exp_has(l0, t, k) && !(t == when && k
                    == key@)) implies exp_has(exp@, t, k) by {
                    let j = choose|j: int|
                        0 <= j < l0.len() && (#[trigger] l0[j]).0 == t && l0[j].1@ == k;
                    if j < i {
                        assert(exp@[j] == l0[j]);
                    } else if j == i {
                        assert(false);
                    } else {
                        assert(exp@[j - 1] == l0[j]);
                    }
                }
            }
            return;
        }
        i = i + 1;
    }
    proof {
        if exp_has(exp@, when, key@) {
            let j = choose|j: int|
                0 <= j < exp@.len() && (#[trigger] exp@[j]).0 == when && exp@[j].1@ == key@;
            assert(false);
        }
    }
}

/// Finds where a pair with instant `when` belongs in the ordered index:
/// after every pair not later than it.
fn exp_find_slot(exp: &Vec<(u64, String)>, when: u64) -> (r: usize)
    requires
        exp_sorted(exp@),
    ensures
        r <= exp@.len(),
        forall|j: int| 0 <= j < r ==> (#[trigger] exp@[j]).0 <= when,
        r < exp@.len() ==> exp@[r as int].0 > when,
{
    let n = exp.len();
    let mut i: usize = 0;
    while i < n
        invariant
            n == exp@.len(),
            0 <= i <= n,
            forall|j: int| 0 <= j < i ==> (#[trigger] exp@[j]).0 <= when,
        decreases n - i,
    {
        if exp[i].0 > when {
            return i;
        }
        i = i + 1;
    }
    i
}

/// Inserts the pair `(when, key)` into the ordered index; the key must not
/// stand in it yet.
fn exp_insert(exp: &mut Vec<(u64, String)>, when: u64, key: String)
    requires
        exp_sorted(old(exp)@),
        exp_unique_keys(old(exp)@),
        forall|t: u64, k: Seq<char>| exp_has(old(exp)@, t, k) ==> k != key@,
    ensures
        exp_sorted(final(exp)@),
        exp_unique_keys(final(exp)@),
        forall|t: u64, k: Seq<char>|
            exp_has(final(exp)@, t, k) <==> (exp_has(old(exp)@, t, k) || (t == when && k
                == key@)),
{
    let i = exp_find_slot(exp, when);
    let ghost l0 = exp@;
    exp.insert(i, (when, key));
    proof {
        assert(exp@ =~= l0.insert(i as int, (when, key)));
        assert(exp@[i as int].0 == when && exp@[i as int].1@ == key@);
        assert forall|j: int| 0 <= j < l0.len() implies (#[trigger] l0[j]).1@ != key@ by {
            assert(exp_has(l0, l0[j].0, l0[j].1@));
        }
        assert forall|a: int, b: int| 0 <= a < b < exp@.len() implies (#[trigger] exp@[a]).0 <= (
        #[trigger] exp@[b]).0 && exp@[a].1@ != exp@[b].1@ by {
            if a != i && b != i {
                let a0 = if a < i { a } else { a - 1 };
                let b0 = if b < i { b } else { b - 1 };
                assert(exp@[a] == l0[a0]);
                assert(exp@[b] == l0[b0]);
            } else if a == i {
                assert(exp@[b] == l0[b - 1]);
                assert(l0[b - 1].0 > when);
            } else {
                assert(exp@[a] == l0[a]);
            }
        }
        assert forall|t: u64, k: Seq<char>| exp_has(exp@, t, k) implies (exp_has(l0, t, k) || (t
            == when && k == key@)) by {
            let j = choose|j: int|
                0 <= j < exp@.len() && (#[trigger] exp@[j]).0 == t && exp@[j].1@ == k;
            if j != i {
                let j0 = if j < i { j } else { j - 1 };
                assert(exp@[j] == l0[j0]);
            }
        }
        assert forall|t: u64, k: Seq<char>| (exp_has(l0, t, k) || (t == when && k == key@))
            implies exp_has(exp@, t, k) by {
            if exp_has(l0, t, k) {
                let j = choose|j: int|
                    0 <= j < l0.len() && (#[trigger] l0[j]).0 == t && l0[j].1@ == k;
                if j < i {
                    assert(exp@[j] == l0[j]);
                } else {
                    assert(exp@[j + 1] == l0[j]);
                }
            } else {
                assert(exp@[i as int].0 == t && exp@[i as int].1@ == k);
            }
        }
    }
}

/// The shared state: entries, the expiration index that mirrors them, the
/// publish/subscribe channels, and the shutdown flag that stops the
/// sweeper.
pub struct State {
    entries: Vec<(String, Entry)>,
    pub_sub: Vec<(String, Sender<Vec<u8>>)>,
    expirations: Vec<(u64, String)>,
    shutdown: bool,
}

impl State {
    /// Keys to stored entries.
    pub closed spec fn entries_map(self) -> Map<Seq<char>, EntryModel> {
        entries_map_of(self.entries@)
    }

    /// Names of the channels created so far; channels are never removed.
    pub closed spec fn channel_set(self) -> Set<Seq<char>> {
        channel_set_of(self.pub_sub@)
    }

    /// The pairs `(t, k)` of the expiration index.
    pub closed spec fn expiration_set(self) -> Set<(u64, Seq<char>)> {
        Set::new(|p: (u64, Seq<char>)| exp_has(self.expirations@, p.0, p.1))
    }

    /// The instant of the next expiration, if any entry expires at all.
    pub closed spec fn next_expiration_spec(self) -> Option<u64> {
        if self.expirations@.len() == 0 {
            None
        } else {
            Some(self.expirations@[0].0)
        }
    }

    /// Whether shutdown has been signalled.
    pub closed spec fn shutdown_spec(self) -> bool {
        self.shutdown
    }

    /// Well-formedness: keys unique, the expiration index sorted by instant
    /// with each key at most once, and the index mirroring the entries.
    pub closed spec fn wf(self) -> bool {
        &&& unique_str_keys(self.entries@)
        &&& unique_str_keys(self.pub_sub@)
        &&& exp_sorted(self.expirations@)
        &&& exp_unique_keys(self.expirations@)
        &&& mirror_ok(entries_map_of(self.entries@), self.expirations@)
    }

    /// A fresh state: nothing stored, no channels, not shut down.
    pub fn new() -> (r: State)
        ensures
            r.wf(),
            r.entries_map() == Map::<Seq<char>, EntryModel>::empty(),
            r.channel_set() == Set::<Seq<char>>::empty(),
            r.next_expiration_spec() is None,
            !r.shutdown_spec(),
    {
        let r = State {
            entries: Vec::new(),
            pub_sub: Vec::new(),
            expirations: Vec::new(),
            shutdown: false,
        };
        proof {
            assert(r.entries_map() =~= Map::<Seq<char>, EntryModel>::empty());
            assert(r.channel_set() =~= Set::<Seq<char>>::empty());
        }
        r
    }

    /// The value stored at `key`, if the key is bound at this instant.
    pub fn get(&self, key: &str) -> (r: Option<Vec<u8>>)
        requires
            self.wf(),
        ensures
            match r {
                Some(v) => self.entries_map().contains_key(key@) && v@
                    == self.entries_map().index(key@).data,
                None => !self.entries_map().contains_key(key@),
            },
    {
        proof {
            lemma_entries_map_index(self.entries@);
        }
        let n = self.entries.len();
        let mut i: usize = 0;
        while i < n
            invariant
                n == self.entries@.len(),
                unique_str_keys(self.entries@),
                0 <= i <= n,
                forall|j: int| 0 <= j < i ==> (#[trigger] self.entries@[j]).0@ != key@,
                forall|k: Seq<char>| #[trigger] entries_map_of(self.entries@).contains_key(k)
                    <==> assoc_has_key(self.entries@, k),
                forall|j: int|
                    0 <= j < self.entries@.len() ==> entries_map_of(self.entries@)[(
                    #[trigger] self.entries@[j]).0@] == self.entries@[j].1@,
                self.entries_map() == entries_map_of(self.entries@),
            decreases n - i,
        {
            if str_eq(self.entries[i].0.as_str(), key) {
                return Some(clone_bytes(&self.entries[i].1.data));
            }
            i = i + 1;
        }
        proof {
            if assoc_has_key(self.entries@, key@) {
                let j = choose|j: int|
                    0 <= j < self.entries@.len() && #[trigger] self.entries@[j].0@ == key@;
                assert(false);
            }
        }
        None
    }

    /// The instant of the next expiration.
    pub fn next_expiration(&self) -> (r: Option<u64>)
        ensures
            r == self.next_expiration_spec(),
    {
        if self.expirations.len() == 0 {
            None
        } else {
            Some(self.expirations[0].0)
        }
    }

    /// Whether shutdown has been signalled.
    pub fn is_shutdown(&self) -> (r: bool)
        ensures
            r == self.shutdown_spec(),
    {
        self.shutdown
    }

    /// Stores `value` at `key`, replacing any prior entry.  With a time to
    /// live, the entry expires `expire_ms` milliseconds after `now_ms`.
    /// Returns whether the new expiration precedes every prior one, in
    /// which case the caller must wake the sweeper, after releasing its
    /// lock, so it can shorten its sleep.
    pub fn set(&mut self, key: String, value: Vec<u8>, expire_ms: Option<u64>, now_ms: u64) -> (notify:
        bool)
        requires
            old(self).wf(),
        ensures
            final(self).wf(),
            final(self).entries_map() == old(self).entries_map().insert(
                key@,
                EntryModel { data: value@, expires_at: expiry_of(expire_ms, now_ms) },
            ),
            final(self).channel_set() == old(self).channel_set(),
            final(self).shutdown_spec() == old(self).shutdown_spec(),
            notify == match expiry_of(expire_ms, now_ms) {
                Some(t) => match old(self).next_expiration_spec() {
                    None => true,
                    Some(m) => m > t,
                },
                None => false,
            },
    {
        proof {
            lemma_entries_map_index(self.entries@);
        }
        let when_opt: Option<u64> = match expire_ms {
            Some(d) => if d > u64::MAX - now_ms {
                Some(u64::MAX)
            } else {
                Some(now_ms + d)
            },
            None => None,
        };
        assert(when_opt == expiry_of(expire_ms, now_ms));
        let notify = match when_opt {
            Some(w) => match self.next_expiration() {
                None => true,
                Some(m) => m > w,
            },
            None => false,
        };
        let ghost e0 = self.entries@;
        let ghost m0 = entries_map_of(e0);
        let ghost l0 = self.expirations@;
        let mut prev_expiry: Option<u64> = None;
        match assoc_find(&self.entries, key.as_str()) {
            Some(i) => {
                let prev = self.entries.remove(i);
                prev_expiry = prev.1.expires_at;
                proof {
                    lemma_entries_map_remove(e0, i as int);
                    assert(m0[key@] == prev.1@);
                    assert(entries_map_of(self.entries@) =~= m0.remove(key@));
                }
            },
            None => {
                proof {
                    assert(!m0.contains_key(key@));
                    assert(entries_map_of(self.entries@) =~= m0.remove(key@));
                }
            },
        }
        let ghost e1 = self.entries@;
        let ghost m1 = entries_map_of(e1);
        proof {
            assert(unique_str_keys(e1));
            assert(!assoc_has_key(e1, key@)) by {
                lemma_entries_map_index(e1);
                assert(!m1.contains_key(key@));
            }
            // No pair in the index bears this key, except the one its prior
            // expiration put there.
            assert forall|t: u64, k: Seq<char>| exp_has(l0, t, k) && k == key@ implies Some(t)
                == prev_expiry by {
                let j = choose|j: int|
                    0 <= j < l0.len() && (#[trigger] l0[j]).0 == t && l0[j].1@ == k;
                assert(m0.contains_key(k) && m0[k].expires_at == Some(t));
            }
        }
        match prev_expiry {
            Some(w) => exp_remove(&mut self.expirations, w, key.as_str()),
            None => (),
        }
        let ghost l1 = self.expirations@;
        proof {
            assert forall|t: u64, k: Seq<char>| exp_has(l1, t, k) implies (exp_has(l0, t, k) && k
                != key@) by {}
            assert forall|t: u64, k: Seq<char>| exp_has(l0, t, k) && k != key@ implies exp_has(
                l1,
                t,
                k,
            ) by {}
        }
        let ghost key_view = key@;
        let key_exp = key.clone();
        self.entries.push((key, Entry { data: value, expires_at: when_opt }));
        proof {
            assert(self.entries@.drop_last() =~= e1);
            assert(entries_map_of(self.entries@) =~= m1.insert(key_view, EntryModel {
                data: value@,
                expires_at: expiry_of(expire_ms, now_ms),
            }));
            assert(unique_str_keys(self.entries@)) by {
                assert forall|a: int, b: int|
                    0 <= a < b < self.entries@.len() implies (#[trigger] self.entries@[a]).0@ != (
                #[trigger] self.entries@[b]).0@ by {
                    if b == self.entries@.len() - 1 {
                        assert(self.entries@[a] == e1[a]);
                        if self.entries@[a].0@ == key_view {
                            assert(assoc_has_key(e1, key_view));
                        }
                    } else {
                        assert(self.entries@[a] == e1[a]);
                        assert(self.entries@[b] == e1[b]);
                    }
                }
            }
        }
        match when_opt {
            Some(w) => exp_insert(&mut self.expirations, w, key_exp),
            None => (),
        }
        proof {
            let m2 = entries_map_of(self.entries@);
            let l2 = self.expirations@;
            let new_e = EntryModel { data: value@, expires_at: expiry_of(expire_ms, now_ms) };
            assert(m2 =~= m0.insert(key_view, new_e));
            assert forall|i: int| 0 <= i < l2.len() implies entries_map_of(
                self.entries@,
            ).contains_key((#[trigger] l2[i]).1@) && entries_map_of(self.entries@)[l2[i].1@].expires_at
                == Some(l2[i].0) by {
                let t = l2[i].0;
                let k = l2[i].1@;
                assert(exp_has(l2, t, k));
                if k == key_view {
                    assert(when_opt == Some(t));
                } else {
                    assert(exp_has(l1, t, k));
                    assert(exp_has(l0, t, k));
                    let j = choose|j: int|
                        0 <= j < l0.len() && (#[trigger] l0[j]).0 == t && l0[j].1@ == k;
                    assert(m0.contains_key(k) && m0[k].expires_at == Some(t));
                }
            }
            assert forall|k: Seq<char>| #[trigger] m2.contains_key(k) implies (match m2[k].expires_at {
                Some(t) => exp_has(l2, t, k),
                None => true,
            }) by {
                if k == key_view {
                    match new_e.expires_at {
                        Some(t) => {
                            assert(exp_has(l2, t, k));
                        },
                        None => {},
                    }
                } else {
                    assert(m2[k] == m0[k]);
                    match m0[k].expires_at {
                        Some(t) => {
                            assert(exp_has(l0, t, k));
                            assert(exp_has(l1, t, k));
                            assert(exp_has(l2, t, k));
                        },
                        None => {},
                    }
                }
            }
        }
        notify
    }

    /// Deletes every entry past due at `now_ms` and reports when the next
    /// remaining entry expires, which is what the sweeper sleeps until.
    /// Once shutdown has been signalled it does nothing and reports no
    /// deadline, so the sweeper exits.
    pub fn purge_expired(&mut self, now_ms: u64) -> (r: Option<u64>)
        requires
            old(self).wf(),
        ensures
            final(self).wf(),
            old(self).shutdown_spec() ==> r is None && *final(self) == *old(self),
            !old(self).shutdown_spec() ==> {
                &&& final(self).entries_map() == purged_map(old(self).entries_map(), now_ms)
                &&& forall|k: Seq<char>|
                    final(self).entries_map().contains_key(k) <==> (#[trigger] old(self).entries_map().contains_key(
                        k,
                    ) && !entry_expired(old(self).entries_map().index(k), now_ms))
                &&& forall|k: Seq<char>|
                    #[trigger] final(self).entries_map().contains_key(k) ==> final(self).entries_map().index(
                        k,
                    ) == old(self).entries_map().index(k)
                &&& final(self).channel_set() == old(self).channel_set()
                &&& final(self).shutdown_spec() == old(self).shutdown_spec()
                &&& r == final(self).next_expiration_spec()
                &&& (r matches Some(t) ==> t > now_ms)
            },
    {
        if self.shutdown {
            return None;
        }
        let ghost m0 = entries_map_of(self.entries@);
        while self.expirations.len() > 0 && self.expirations[0].0 <= now_ms
            invariant
                self.wf(),
                !self.shutdown,
                self.pub_sub@ == old(self).pub_sub@,
                m0 == entries_map_of(old(self).entries@),
                forall|k: Seq<char>|
                    #[trigger] entries_map_of(self.entries@).contains_key(k) ==> m0.contains_key(
                        k,
                    ) && entries_map_of(self.entries@).index(k) == m0.index(k),
                forall|k: Seq<char>|
                    #[trigger] m0.contains_key(k) && !entry_expired(m0.index(k), now_ms)
                        ==> entries_map_of(self.entries@).contains_key(k),
            decreases self.expirations@.len(),
        {
            let ghost l_pre = self.expirations@;
            let ghost m_pre = entries_map_of(self.entries@);
            let pair = self.expirations.remove(0);
            proof {
                assert(pair == l_pre[0]);
                assert(self.expirations@ =~= l_pre.remove(0));
                assert(m_pre.contains_key(pair.1@) && m_pre.index(pair.1@).expires_at == Some(
                    pair.0,
                ));
                lemma_entries_map_index(self.entries@);
            }
            match assoc_find(&self.entries, pair.1.as_str()) {
                Some(i) => {
                    let ghost e_pre = self.entries@;
                    let removed = self.entries.remove(i);
                    proof {
                        lemma_entries_map_remove(e_pre, i as int);
                        assert(entries_map_of(self.entries@) =~= m_pre.remove(pair.1@));
                        // The removed entry was past due.
                        assert(entry_expired(m_pre.index(pair.1@), now_ms));
                        // Well-formedness is restored: the mirror holds for
                        // what is left.
                        let m2 = entries_map_of(self.entries@);
                        let l2 = self.expirations@;
                        assert forall|j: int| 0 <= j < l2.len() implies m2.contains_key((
                        #[trigger] l2[j]).1@) && m2.index(l2[j].1@).expires_at == Some(
                            l2[j].0,
                        ) by {
                            assert(l2[j] == l_pre[j + 1]);
                            assert(l_pre[j + 1].1@ != pair.1@);
                        }
                        assert forall|k: Seq<char>| #[trigger] m2.contains_key(k) implies (
                        match m2.index(k).expires_at {
                            Some(t) => exp_has(l2, t, k),
                            None => true,
                        }) by {
                            assert(k != pair.1@);
                            assert(m2.index(k) == m_pre.index(k));
                            match m_pre.index(k).expires_at {
                                Some(t) => {
                                    let j = choose|j: int|
                                        0 <= j < l_pre.len() && (#[trigger] l_pre[j]).0 == t
                                            && l_pre[j].1@ == k;
                                    assert(j != 0);
                                    assert(l2[j - 1] == l_pre[j]);
                                },
                                None => {},
                            }
                        }
                    }
                },
                None => {
                    proof {
                        assert(false);
                    }
                },
            }
        }
        proof {
            let m2 = entries_map_of(self.entries@);
            let l2 = self.expirations@;
            // Nothing left is past due: the head of the index is the least
            // instant, and it lies beyond `now_ms`.
            assert forall|k: Seq<char>| #[trigger] m2.contains_key(k) implies !entry_expired(
                m2.index(k),
                now_ms,
            ) by {
                match m2.index(k).expires_at {
                    Some(t) => {
                        let j = choose|j: int|
                            0 <= j < l2.len() && (#[trigger] l2[j]).0 == t && l2[j].1@ == k;
                        assert(l2[0].0 <= t);
                    },
                    None => {},
                }
            }
            assert(m2 =~= purged_map(m0, now_ms));
        }
        if self.expirations.len() > 0 {
            Some(self.expirations[0].0)
        } else {
            None
        }
    }

    /// Returns a fresh receiver for `channel`, creating the channel's
    /// sender on first subscription.  Channels are never removed.
    pub fn subscribe(&mut self, channel: String) -> (r: Receiver<Vec<u8>>)
        requires
            old(self).wf(),
        ensures
            final(self).wf(),
            final(self).channel_set() == old(self).channel_set().insert(channel@),
            final(self).entries_map() == old(self).entries_map(),
            final(self).expiration_set() == old(self).expiration_set(),
            final(self).next_expiration_spec() == old(self).next_expiration_spec(),
            final(self).shutdown_spec() == old(self).shutdown_spec(),
    {
        proof {
            lemma_channel_set_index(self.pub_sub@);
        }
        match assoc_find(&self.pub_sub, channel.as_str()) {
            Some(i) => {
                proof {
                    assert(channel_set_of(self.pub_sub@).contains(channel@));
                    assert(old(self).channel_set().insert(channel@) =~= old(self).channel_set());
                }
                sender_subscribe(&self.pub_sub[i].1)
            },
            None => {
                let (tx, rx) = new_channel();
                let ghost p0 = self.pub_sub@;
                self.pub_sub.push((channel, tx));
                proof {
                    assert(self.pub_sub@.drop_last() =~= p0);
                    assert(channel_set_of(self.pub_sub@) =~= channel_set_of(p0).insert(
                        self.pub_sub@.last().0@,
                    ));
                    assert(unique_str_keys(self.pub_sub@)) by {
                        assert forall|a: int, b: int|
                            0 <= a < b < self.pub_sub@.len() implies (
                        #[trigger] self.pub_sub@[a]).0@ != (#[trigger] self.pub_sub@[b]).0@ by {
                            if b == self.pub_sub@.len() - 1 {
                                assert(self.pub_sub@[a] == p0[a]);
                                if self.pub_sub@[a].0@ == self.pub_sub@[b].0@ {
                                    assert(assoc_has_key(p0, self.pub_sub@[b].0@));
                                }
                            } else {
                                assert(self.pub_sub@[a] == p0[a]);
                                assert(self.pub_sub@[b] == p0[b]);
                            }
                        }
                    }
                }
                rx
            },
        }
    }

    /// Sends `message` on `channel` and returns the number of subscribers
    /// that will receive it: zero when the channel has never been
    /// subscribed, or when every receiver is gone.
    pub fn publish(&self, channel: &str, message: Vec<u8>) -> (r: usize)
        requires
            self.wf(),
        ensures
            !self.channel_set().contains(channel@) ==> r == 0,
    {
        proof {
            lemma_channel_set_index(self.pub_sub@);
        }
        match assoc_find(&self.pub_sub, channel) {
            Some(i) => match sender_send(&self.pub_sub[i].1, message) {
                Some(count) => count,
                None => 0,
            },
            None => 0,
        }
    }

    /// Signals shutdown: the sweeper exits on its next wakeup.
    pub fn set_shutdown(&mut self)
        requires
            old(self).wf(),
        ensures
            final(self).wf(),
            final(self).shutdown_spec(),
            final(self).entries_map() == old(self).entries_map(),
            final(self).channel_set() == old(self).channel_set(),
            final(self).expiration_set() == old(self).expiration_set(),
            final(self).next_expiration_spec() == old(self).next_expiration_spec(),
    {
        self.shutdown = true;
    }
}

/// Expiration mirror: in a well-formed state the pair `(t, k)` stands in
/// the expiration index exactly when the entry at key `k` expires at
/// instant `t`.
pub proof fn lemma_expiration_mirror(s: State, t: u64, k: Seq<char>)
    requires
        s.wf(),
    ensures
        s.expiration_set().contains((t, k)) <==> (s.entries_map().contains_key(k)
            && s.entries_map().index(k).expires_at == Some(t)),
{
    if s.expiration_set().contains((t, k)) {
        let j = choose|j: int|
            0 <= j < s.expirations@.len() && (#[trigger] s.expirations@[j]).0 == t
                && s.expirations@[j].1@ == k;
        assert(s.entries_map().contains_key(k) && s.entries_map().index(k).expires_at == Some(t));
    }
    if s.entries_map().contains_key(k) && s.entries_map().index(k).expires_at == Some(t) {
        assert(exp_has(s.expirations@, t, k));
    }
}

/// Overwrite then read: inserting a binding makes the key read back as
/// exactly what was inserted, whatever the map held before.  Together with
/// the contracts of `set` and `get` this says a `GET` after a `SET` of the
/// same key yields the value just written.
pub proof fn lemma_set_then_get(m: Map<Seq<char>, EntryModel>, key: Seq<char>, e: EntryModel)
    ensures
        m.insert(key, e).contains_key(key),
        m.insert(key, e).index(key) == e,
{
}

/// TTL bound, as the sweeper sees it: a key stored to expire at instant
/// `t` does not survive a sweep at or past `t`, whatever else the map
/// held.  The sweeper itself runs by that instant because `set` reports
/// when it must be woken and `purge_expired` reports when it must next
/// run, which `lemma_next_expiration_min` shows is never after a pending
/// expiration.
pub proof fn lemma_ttl_bound(
    m: Map<Seq<char>, EntryModel>,
    k: Seq<char>,
    data: Seq<u8>,
    t: u64,
    now: u64,
)
    requires
        t <= now,
    ensures
        !purged_map(m.insert(k, EntryModel { data, expires_at: Some(t) }), now).contains_key(k),
{
}

/// The reported next expiration is the least instant in the index: the
/// sweeper never oversleeps a pending expiration by waiting for it.
pub proof fn lemma_next_expiration_min(s: State)
    requires
        s.wf(),
    ensures
        match s.next_expiration_spec() {
            Some(m) => (exists|k: Seq<char>| s.expiration_set().contains((m, k))) && forall|
                t: u64,
                k: Seq<char>,
            | s.expiration_set().contains((t, k)) ==> m <= t,
            None => forall|t: u64, k: Seq<char>| !s.expiration_set().contains((t, k)),
        },
{
    match s.next_expiration_spec() {
        Some(m) => {
            let k0 = s.expirations@[0].1@;
            assert(exp_has(s.expirations@, m, k0));
            assert(s.expiration_set().contains((m, k0)));
            assert forall|t: u64, k: Seq<char>| s.expiration_set().contains((t, k)) implies m
                <= t by {
                let j = choose|j: int|
                    0 <= j < s.expirations@.len() && (#[trigger] s.expirations@[j]).0 == t
                        && s.expirations@[j].1@ == k;
                assert(s.expirations@[0].0 <= s.expirations@[j].0);
            }
        },
        None => {
            assert forall|t: u64, k: Seq<char>| !s.expiration_set().contains((t, k)) by {
                if exp_has(s.expirations@, t, k) {
                    let j = choose|j: int|
                        0 <= j < s.expirations@.len() && (#[trigger] s.expirations@[j]).0 == t
                            && s.expirations@[j].1@ == k;
                }
            }
        },
    }
}

} // verus!
