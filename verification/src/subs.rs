//! The set of channels one connection subscribes to.
//!
//! A subscription session keeps this set beside its receivers: each
//! confirmation frame carries the number of channels subscribed after the
//! change, and the session ends when the set becomes empty.

use vstd::prelude::*;

use crate::text::str_eq;

verus! {

/// Some position holds this channel name.
pub open spec fn names_has(l: Seq<String>, c: Seq<char>) -> bool {
    exists|i: int| 0 <= i < l.len() && (#[trigger] l[i])@ == c
}

/// The channels a connection currently subscribes to, each at most once.
pub struct Subscriptions {
    channels: Vec<String>,
}

impl Subscriptions {
    /// The set of subscribed channel names.
    pub closed spec fn set_view(self) -> Set<Seq<char>> {
        Set::new(|c: Seq<char>| names_has(self.channels@, c))
    }

    /// How many channels are subscribed.
    pub closed spec fn count_spec(self) -> int {
        self.channels@.len() as int
    }

    /// No channel appears twice.
    pub closed spec fn wf(self) -> bool {
        forall|i: int, j: int|
            0 <= i < j < self.channels@.len() ==> (#[trigger] self.channels@[i])@ != (
            #[trigger] self.channels@[j])@
    }

    /// An empty subscription set.
    pub fn new() -> (r: Subscriptions)
        ensures
            r.wf(),
            r.set_view() == Set::<Seq<char>>::empty(),
            r.count_spec() == 0,
    {
        let r = Subscriptions { channels: Vec::new() };
        proof {
            assert(r.set_view() =~= Set::<Seq<char>>::empty());
        }
        r
    }

    /// How many channels are subscribed.
    pub fn len(&self) -> (r: usize)
        ensures
            r == self.count_spec(),
    {
        self.channels.len()
    }

    /// Whether no channel is subscribed, which ends the session.
    pub fn is_empty(&self) -> (r: bool)
        ensures
            r == (self.count_spec() == 0),
    {
        self.channels.len() == 0
    }

    /// Whether `channel` is subscribed.
    pub fn contains(&self, channel: &str) -> (r: bool)
        ensures
            r == self.set_view().contains(channel@),
    {
        let n = self.channels.len();
        let mut i: usize = 0;
        while i < n
            invariant
                n == self.channels@.len(),
                0 <= i <= n,
                forall|j: int| 0 <= j < i ==> (#[trigger] self.channels@[j])@ != channel@,
            decreases n - i,
        {
            if str_eq(self.channels[i].as_str(), channel) {
                return true;
            }
            i = i + 1;
        }
        proof {
            if names_has(self.channels@, channel@) {
                let j = choose|j: int|
                    0 <= j < self.channels@.len() && (#[trigger] self.channels@[j])@ == channel@;
                assert(false);
            }
        }
        false
    }

    /// Subscribes `channel`; reports whether it was new.
    pub fn add(&mut self, channel: String) -> (added: bool)
        requires
            old(self).wf(),
        ensures
            final(self).wf(),
            added == !old(self).set_view().contains(channel@),
            final(self).set_view() == old(self).set_view().insert(channel@),
            final(self).count_spec() == old(self).count_spec() + (if added {
                1int
            } else {
                0int
            }),
    {
        if self.contains(channel.as_str()) {
            proof {
                assert(final(self).set_view() =~= old(self).set_view().insert(channel@));
            }
            return false;
        }
        let ghost l0 = self.channels@;
        self.channels.push(channel);
        proof {
            let old_ins = old(self).set_view().insert(channel@);
            assert forall|c: Seq<char>| final(self).set_view().contains(c) implies old_ins.contains(
                c,
            ) by {
                let j = choose|j: int|
                    0 <= j < self.channels@.len() && (#[trigger] self.channels@[j])@ == c;
                if j < l0.len() {
                    assert(l0[j]@ == c);
                }
            }
            assert forall|c: Seq<char>| old_ins.contains(c) implies final(self).set_view().contains(
                c,
            ) by {
                if c == channel@ {
                    assert(self.channels@[l0.len() as int]@ == c);
                } else {
                    let j = choose|j: int| 0 <= j < l0.len() && (#[trigger] l0[j])@ == c;
                    assert(self.channels@[j]@ == c);
                }
            }
            assert(final(self).set_view() =~= old(self).set_view().insert(channel@));
            assert forall|i: int, j: int|
                0 <= i < j < self.channels@.len() implies (#[trigger] self.channels@[i])@ != (
            #[trigger] self.channels@[j])@ by {
                if j == self.channels@.len() - 1 {
                    assert(self.channels@[i] == l0[i]);
                    if self.channels@[i]@ == channel@ {
                        assert(names_has(l0, channel@));
                    }
                } else {
                    assert(self.channels@[i] == l0[i]);
                    assert(self.channels@[j] == l0[j]);
                }
            }
        }
        true
    }

    /// Unsubscribes `channel`; reports whether it was subscribed.
    pub fn remove(&mut self, channel: &str) -> (removed: bool)
        requires
            old(self).wf(),
        ensures
            final(self).wf(),
            removed == old(self).set_view().contains(channel@),
            final(self).set_view() == old(self).set_view().remove(channel@),
            final(self).count_spec() == old(self).count_spec() - (if removed {
                1int
            } else {
                0int
            }),
    {
        let n = self.channels.len();
        let mut i: usize = 0;
        while i < n
            invariant
                n == self.channels@.len(),
                0 <= i <= n,
                self.channels@ == old(self).channels@,
                old(self).wf(),
                forall|j: int| 0 <= j < i ==> (#[trigger] self.channels@[j])@ != channel@,
            decreases n - i,
        {
            if str_eq(self.channels[i].as_str(), channel) {
                let ghost l0 = self.channels@;
                self.channels.remove(i);
                proof {
                    assert(self.channels@ =~= l0.remove(i as int));
                    assert(l0[i as int]@ == channel@);
                    assert forall|a: int, b: int|
                        0 <= a < b < self.channels@.len() implies (
                    #[trigger] self.channels@[a])@ != (#[trigger] self.channels@[b])@ by {
                        let a0 = if a < i { a } else { a + 1 };
                        let b0 = if b < i { b } else { b + 1 };
                        assert(self.channels@[a] == l0[a0]);
                        assert(self.channels@[b] == l0[b0]);
                    }
                    assert(names_has(l0, channel@));
                    let old_rem = old(self).set_view().remove(channel@);
                    assert forall|c: Seq<char>| final(self).set_view().contains(c) implies
                        old_rem.contains(c) by {
                        let j = choose|j: int|
                            0 <= j < self.channels@.len() && (#[trigger] self.channels@[j])@ == c;
                        let j0 = if j < i { j } else { j + 1 };
                        assert(l0[j0]@ == c);
                        if c == channel@ {
                            assert(l0[j0]@ == l0[i as int]@);
                            assert(false);
                        }
                    }
                    assert forall|c: Seq<char>| old_rem.contains(c) implies final(
                        self
                    ).set_view().contains(c) by {
                        let j = choose|j: int| 0 <= j < l0.len() && (#[trigger] l0[j])@ == c;
                        if j < i {
                            assert(self.channels@[j]@ == c);
                        } else if j == i {
                            assert(false);
                        } else {
                            assert(self.channels@[j - 1]@ == c);
                        }
                    }
                    assert(final(self).set_view() =~= old(self).set_view().remove(channel@));
                }
                return true;
            }
            i = i + 1;
        }
        proof {
            if names_has(self.channels@, channel@) {
                let j = choose|j: int|
                    0 <= j < self.channels@.len() && (#[trigger] self.channels@[j])@ == channel@;
                assert(false);
            }
            assert(final(self).set_view() =~= old(self).set_view().remove(channel@));
        }
        false
    }

    /// The subscribed channel names, for unsubscribing them all.
    pub fn channel_names(&self) -> (r: Vec<String>)
        ensures
            r@.len() == self.count_spec(),
            forall|i: int| 0 <= i < r@.len() ==> (#[trigger] r@[i])@ == self.channels_at(i),
    {
        let n = self.channels.len();
        let mut out: Vec<String> = Vec::new();
        let mut i: usize = 0;
        while i < n
            invariant
                n == self.channels@.len(),
                0 <= i <= n,
                out@.len() == i,
                forall|j: int| 0 <= j < i ==> (#[trigger] out@[j])@ == self.channels@[j]@,
            decreases n - i,
        {
            out.push(self.channels[i].clone());
            i = i + 1;
        }
        out
    }

    /// The name at one position of the subscription list.
    pub closed spec fn channels_at(self, i: int) -> Seq<char> {
        self.channels@[i]@
    }
}

/// The channels an `UNSUBSCRIBE` applies to: the ones it names, or every
/// subscribed channel when it names none.
pub fn unsubscribe_targets(subs: &Subscriptions, requested: Vec<String>) -> (r: Vec<String>)
    ensures
        requested@.len() > 0 ==> r == requested,
        requested@.len() == 0 ==> r@.len() == subs.count_spec() && forall|i: int|
            0 <= i < r@.len() ==> (#[trigger] r@[i])@ == subs.channels_at(i),
{
    if requested.len() == 0 {
        subs.channel_names()
    } else {
        requested
    }
}

} // verus!
