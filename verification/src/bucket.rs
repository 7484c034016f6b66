//! A distance bucket: a capacity-bounded, insertion-ordered collection of
//! contacts that all share one distance class from the local node.

use vstd::prelude::*;

use crate::contact::Contact;

verus! {

/// Holds up to `bucket_size` contacts in insertion order. The bucket never
/// evicts on its own: when an insertion takes it over capacity, it reports
/// its oldest member as the eviction candidate and leaves the removal to
/// the caller.
pub struct Bucket {
    pub contacts: Vec<Contact>,
    pub bucket_size: u8,
}

impl Bucket {
    /// At most one stored contact per identifier.
    pub open spec fn wf(self) -> bool {
        forall|i: int, j: int|
            0 <= i < j < self.contacts@.len() ==> (#[trigger] self.contacts@[i]).id != (
            #[trigger] self.contacts@[j]).id
    }

    pub fn new(bucket_size: u8) -> (b: Bucket)
        ensures
            b.contacts@ == Seq::<Contact>::empty(),
            b.bucket_size == bucket_size,
            b.wf(),
    {
        Bucket { contacts: Vec::new(), bucket_size }
    }

    /// Insert `contact`, replacing any stored entry with the same identifier
    /// and moving that identifier to the most-recently-seen position at the
    /// back. Returns the oldest entry as the eviction candidate when the
    /// bucket is now over capacity, without removing it.
    pub fn add_contact(&mut self, contact: Contact) -> (evicted: Option<Contact>)
        requires
            old(self).wf(),
        ensures
            final(self).wf(),
            final(self).bucket_size == old(self).bucket_size,
            (forall|i: int|
                0 <= i < old(self).contacts@.len() ==> (#[trigger] old(self).contacts@[i]).id
                    != contact.id) ==> final(self).contacts@ == old(self).contacts@.push(contact),
            forall|i: int|
                0 <= i < old(self).contacts@.len() && (#[trigger] old(self).contacts@[i]).id
                    == contact.id ==> final(self).contacts@ == old(self).contacts@.remove(i).push(
                contact),
            final(self).contacts@.len() > 0,
            final(self).contacts@.last() == contact,
            evicted == (if final(self).contacts@.len() > final(self).bucket_size as int {
                Some(final(self).contacts@[0])
            } else {
                None::<Contact>
            }),
    {
        let mut i: usize = 0;
        let n = self.contacts.len();
        while i < n
            invariant
                n == self.contacts@.len(),
                0 <= i <= n,
                *self == *old(self),
                old(self).wf(),
                forall|j: int| 0 <= j < i ==> (#[trigger] self.contacts@[j]).id != contact.id,
            decreases n - i,
        {
            if self.contacts[i].id == contact.id {
                let ghost pre = self.contacts@;
                let ghost i0 = i as int;
                self.contacts.remove(i);
                self.contacts.push(contact);
                proof {
                    let mid = pre.remove(i0);
                    assert(self.contacts@ == mid.push(contact));
                    assert forall|j1: int, j2: int| 0 <= j1 < j2 < pre.len() implies (
                    #[trigger] pre[j1]).id != (#[trigger] pre[j2]).id by {
                        assert(pre[j1] == old(self).contacts@[j1]);
                        assert(pre[j2] == old(self).contacts@[j2]);
                    }
                    assert forall|k: int|
                        0 <= k < pre.len() && (#[trigger] pre[k]).id == contact.id implies k
                        == i0 by {
                        if k > i0 {
                            assert(pre[i0].id != pre[k].id);
                        }
                    }
                    assert forall|k: int| 0 <= k < mid.len() implies (#[trigger] mid[k]).id
                        != contact.id by {
                        if k < i0 {
                            assert(mid[k] == pre[k]);
                        } else {
                            assert(mid[k] == pre[k + 1]);
                        }
                    }
                    assert forall|j1: int, j2: int| 0 <= j1 < j2 < mid.len() implies (
                    #[trigger] mid[j1]).id != (#[trigger] mid[j2]).id by {
                        if j1 < i0 {
                            assert(mid[j1] == pre[j1]);
                        } else {
                            assert(mid[j1] == pre[j1 + 1]);
                        }
                        if j2 < i0 {
                            assert(mid[j2] == pre[j2]);
                        } else {
                            assert(mid[j2] == pre[j2 + 1]);
                        }
                    }
                    assert forall|j1: int, j2: int|
                        0 <= j1 < j2 < self.contacts@.len() implies (
                    #[trigger] self.contacts@[j1]).id != (#[trigger] self.contacts@[j2]).id by {
                        if j2 < mid.len() {
                            assert(self.contacts@[j1] == mid[j1]);
                            assert(self.contacts@[j2] == mid[j2]);
                        } else {
                            assert(self.contacts@[j1] == mid[j1]);
                            assert(self.contacts@[j2] == contact);
                        }
                    }
                }
                return self.head_if_full();
            }
            i = i + 1;
        }
        self.contacts.push(contact);
        self.head_if_full()
    }

    /// Remove the first stored entry equal to `contact` by full value
    /// (identifier and endpoint together); report whether one was removed.
    pub fn remove_contact(&mut self, contact: &Contact) -> (removed: bool)
        ensures
            final(self).bucket_size == old(self).bucket_size,
            removed == old(self).contacts@.contains(*contact),
            !removed ==> *final(self) == *old(self),
            removed ==> exists|i: int|
                0 <= i < old(self).contacts@.len() && old(self).contacts@[i] == *contact
                    && final(self).contacts@ == old(self).contacts@.remove(i),
            old(self).wf() ==> final(self).wf(),
    {
        let mut i: usize = 0;
        let n = self.contacts.len();
        while i < n
            invariant
                n == self.contacts@.len(),
                0 <= i <= n,
                *self == *old(self),
                forall|j: int| 0 <= j < i ==> self.contacts@[j] != *contact,
            decreases n - i,
        {
            if self.contacts[i] == *contact {
                let ghost pre = self.contacts@;
                let ghost i0 = i as int;
                self.contacts.remove(i);
                proof {
                    assert(pre.contains(*contact)) by {
                        assert(pre[i0] == *contact);
                    }
                    let mid = pre.remove(i0);
                    assert(self.contacts@ == mid);
                    assert(0 <= i0 < old(self).contacts@.len() && old(self).contacts@[i0]
                        == *contact && self.contacts@ == old(self).contacts@.remove(i0));
                    assert(old(self).contacts@.contains(*contact)) by {
                        assert(old(self).contacts@[i0] == *contact);
                    }
                    if old(self).wf() {
                        assert forall|j1: int, j2: int| 0 <= j1 < j2 < mid.len() implies (
                        #[trigger] mid[j1]).id != (#[trigger] mid[j2]).id by {
                            let p1 = if j1 < i0 {
                                j1
                            } else {
                                j1 + 1
                            };
                            let p2 = if j2 < i0 {
                                j2
                            } else {
                                j2 + 1
                            };
                            assert(mid[j1] == pre[p1]);
                            assert(mid[j2] == pre[p2]);
                            assert(pre[p1] == old(self).contacts@[p1]);
                            assert(pre[p2] == old(self).contacts@[p2]);
                        }
                    }
                }
                return true;
            }
            i = i + 1;
        }
        proof {
            if old(self).contacts@.contains(*contact) {
                let j = choose|j: int|
                    0 <= j < old(self).contacts@.len() && old(self).contacts@[j] == *contact;
                assert(false);
            }
        }
        false
    }

    /// The oldest entry, reported only when the bucket is over capacity.
    fn head_if_full(&self) -> (r: Option<Contact>)
        ensures
            r == (if self.contacts@.len() > self.bucket_size as int {
                Some(self.contacts@[0])
            } else {
                None::<Contact>
            }),
    {
        if self.contacts.len() > self.bucket_size as usize {
            Some(self.contacts[0])
        } else {
            None
        }
    }

    /// True exactly when no contact is stored.
    pub fn is_empty(&self) -> (r: bool)
        ensures
            r == (self.contacts@.len() == 0),
    {
        self.contacts.len() == 0
    }

    /// Whether `contact` is stored, by full value.
    pub fn contains(&self, contact: &Contact) -> (r: bool)
        ensures
            r == self.contacts@.contains(*contact),
    {
        let mut i: usize = 0;
        let n = self.contacts.len();
        while i < n
            invariant
                n == self.contacts@.len(),
                0 <= i <= n,
                forall|j: int| 0 <= j < i ==> self.contacts@[j] != *contact,
            decreases n - i,
        {
            if self.contacts[i] == *contact {
                proof {
                    assert(self.contacts@[i as int] == *contact);
                }
                return true;
            }
            i = i + 1;
        }
        proof {
            if self.contacts@.contains(*contact) {
                let j = choose|j: int|
                    0 <= j < self.contacts@.len() && self.contacts@[j] == *contact;
                assert(false);
            }
        }
        false
    }
}

} // verus!
