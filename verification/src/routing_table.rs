//! The routing table: routes each contact into the distance bucket for its
//! distance class from the local node, and answers bounded closest-contact
//! queries with a deterministic order.

use vstd::prelude::*;

use crate::bucket::Bucket;
use crate::contact::{contact_before, contact_lt, distance, Contact};

verus! {

/// A transient (distance, contact) pair, totally ordered first by distance
/// to the query target and then by the contact order; used only while
/// merging query candidates across buckets.
#[derive(Clone, Copy, Debug, PartialEq, Eq, Structural)]
pub struct ContactWithDistance {
    pub distance: usize,
    pub contact: Contact,
}

impl ContactWithDistance {
    pub fn new(contact: &Contact, target: &Contact) -> (e: ContactWithDistance)
        ensures
            e.contact == *contact,
            e.distance == distance(*contact, *target),
    {
        ContactWithDistance { distance: contact.log2_distance(target), contact: *contact }
    }
}

/// The strict total order that merges query candidates: ascending distance,
/// ties broken by the contact order.
pub open spec fn entry_lt(a: ContactWithDistance, b: ContactWithDistance) -> bool {
    a.distance < b.distance || (a.distance == b.distance && contact_lt(a.contact, b.contact))
}

/// The (distance to target, contact order) rank used to state what a query
/// returns: `a` ranks strictly before `b` relative to `target`.
pub open spec fn rank_lt(a: Contact, b: Contact, target: Contact) -> bool {
    distance(a, target) < distance(b, target) || (distance(a, target) == distance(b, target)
        && contact_lt(a, b))
}

/// Ascending, duplicate-free order over merge entries.
pub open spec fn sorted_by_rank(s: Seq<ContactWithDistance>) -> bool {
    forall|i: int, j: int| 0 <= i < j < s.len() ==> entry_lt(#[trigger] s[i], #[trigger] s[j])
}

/// Incomparable entries are equal: together with transitivity this makes
/// `entry_lt` a strict total order.
pub proof fn lemma_entry_order_total(a: ContactWithDistance, b: ContactWithDistance)
    ensures
        !entry_lt(a, a),
        !entry_lt(a, b) && !entry_lt(b, a) ==> a == b,
{
    crate::contact::lemma_contact_order_total(a.contact, b.contact);
    if !entry_lt(a, b) && !entry_lt(b, a) {
        assert(a.distance == b.distance);
        assert(a.contact == b.contact);
        assert(a == b);
    }
}

pub proof fn lemma_entry_order_trans(a: ContactWithDistance, b: ContactWithDistance, c: ContactWithDistance)
    ensures
        entry_lt(a, b) && entry_lt(b, c) ==> entry_lt(a, c),
{
    crate::contact::lemma_contact_order_trans(a.contact, b.contact, c.contact);
}

/// The members of `s` other than `target`, in order.
pub open spec fn candidates_of(s: Seq<Contact>, target: Contact) -> Seq<Contact>
    decreases s.len(),
{
    if s.len() == 0 {
        Seq::empty()
    } else if s.last() == target {
        candidates_of(s.drop_last(), target)
    } else {
        candidates_of(s.drop_last(), target).push(s.last())
    }
}

proof fn lemma_candidates_of_membership(s: Seq<Contact>, target: Contact)
    ensures
        forall|c: Contact|
            candidates_of(s, target).contains(c) <==> (s.contains(c) && c != target),
    decreases s.len(),
{
    if s.len() == 0 {
    } else {
        lemma_candidates_of_membership(s.drop_last(), target);
        assert forall|c: Contact|
            candidates_of(s, target).contains(c) <==> (s.contains(c) && c != target) by {
            let cp = candidates_of(s.drop_last(), target);
            if cp.contains(c) {
                let i = choose|i: int| 0 <= i < cp.len() && cp[i] == c;
                if s.last() != target {
                    assert(candidates_of(s, target)[i] == c);
                } else {
                    assert(candidates_of(s, target)[i] == c);
                }
            }
            if s.drop_last().contains(c) {
                let i = choose|i: int| 0 <= i < s.drop_last().len() && s.drop_last()[i] == c;
                assert(s[i] == c);
            }
            if s.contains(c) && c != target {
                let i = choose|i: int| 0 <= i < s.len() && s[i] == c;
                if i < s.len() - 1 {
                    assert(s.drop_last()[i] == c);
                } else {
                    assert(s.last() == c);
                    assert(candidates_of(s, target).last() == c);
                }
            }
            if candidates_of(s, target).contains(c) {
                let i = choose|i: int|
                    0 <= i < candidates_of(s, target).len() && candidates_of(s, target)[i] == c;
                if s.last() != target && i == candidates_of(s, target).len() - 1 {
                    assert(c == s.last());
                    assert(s[s.len() - 1] == c);
                } else {
                    assert(cp[i] == c);
                }
            }
        }
    }
}

proof fn lemma_push_contains(s: Seq<Contact>, x: Contact)
    ensures
        forall|c: Contact| #[trigger] s.push(x).contains(c) <==> (s.contains(c) || c == x),
{
    assert forall|c: Contact| #[trigger] s.push(x).contains(c) <==> (s.contains(c) || c == x) by {
        if s.push(x).contains(c) {
            let q = choose|q: int| 0 <= q < s.push(x).len() && s.push(x)[q] == c;
            if q < s.len() {
                assert(s[q] == c);
            }
        }
        if s.contains(c) {
            let q = choose|q: int| 0 <= q < s.len() && s[q] == c;
            assert(s.push(x)[q] == c);
        }
        if c == x {
            assert(s.push(x)[s.len() as int] == c);
        }
    }
}

proof fn lemma_concat_contains(a: Seq<Contact>, b: Seq<Contact>)
    ensures
        forall|c: Contact| #[trigger] (a + b).contains(c) <==> (a.contains(c) || b.contains(c)),
{
    assert forall|c: Contact| #[trigger] (a + b).contains(c) <==> (a.contains(c) || b.contains(
        c,
    )) by {
        if (a + b).contains(c) {
            let q = choose|q: int| 0 <= q < (a + b).len() && (a + b)[q] == c;
            if q < a.len() {
                assert(a[q] == c);
            } else {
                assert(b[q - a.len()] == c);
            }
        }
        if a.contains(c) {
            let q = choose|q: int| 0 <= q < a.len() && a[q] == c;
            assert((a + b)[q] == c);
        }
        if b.contains(c) {
            let q = choose|q: int| 0 <= q < b.len() && b[q] == c;
            assert((a + b)[q + a.len()] == c);
        }
    }
}

/// An exec comparison realizing the `entry_lt` order.
fn entry_before(a: &ContactWithDistance, b: &ContactWithDistance) -> (r: bool)
    ensures
        r == entry_lt(*a, *b),
{
    a.distance < b.distance || (a.distance == b.distance && contact_before(&a.contact, &b.contact))
}

/// Insert `e` into a strictly sorted vector of entries, keeping it strictly
/// sorted; an entry already present is left alone.
fn insert_in_order(entries: &mut Vec<ContactWithDistance>, e: ContactWithDistance)
    requires
        sorted_by_rank(old(entries)@),
    ensures
        sorted_by_rank(final(entries)@),
        forall|x: ContactWithDistance|
            #[trigger] final(entries)@.contains(x) <==> (old(entries)@.contains(x) || x == e),
        final(entries)@.contains(e),
        old(entries)@.contains(e) ==> *final(entries) == *old(entries),
        !old(entries)@.contains(e) ==> final(entries)@.len() == old(entries)@.len() + 1,
{
    let n = entries.len();
    let mut p: usize = 0;
    while p < n && entry_before(&entries[p], &e)
        invariant
            n == entries@.len(),
            0 <= p <= n,
            *entries == *old(entries),
            forall|q: int| 0 <= q < p ==> entry_lt(#[trigger] entries@[q], e),
        decreases n - p,
    {
        p = p + 1;
    }
    if p < n && entries[p] == e {
        proof {
            assert(entries@.contains(e)) by {
                assert(entries@[p as int] == e);
            }
            assert forall|x: ContactWithDistance|
                #[trigger] entries@.contains(x) <==> (entries@.contains(x) || x == e) by {
                if x == e {
                    assert(entries@.contains(x));
                }
            }
        }
        return ;
    }
    proof {
        assert forall|q: int| p <= q < n implies entry_lt(e, #[trigger] entries@[q]) by {
            lemma_entry_order_total(entries@[p as int], e);
            if q > p {
                lemma_entry_order_trans(e, entries@[p as int], entries@[q]);
            }
        }
        assert(!entries@.contains(e)) by {
            if entries@.contains(e) {
                let q = choose|q: int| 0 <= q < entries@.len() && entries@[q] == e;
                lemma_entry_order_total(e, e);
                assert(false);
            }
        }
    }
    let ghost pre = entries@;
    let ghost p0 = p as int;
    entries.insert(p, e);
    proof {
        assert(entries@ == pre.insert(p0, e));
        assert forall|i: int, j: int| 0 <= i < j < entries@.len() implies entry_lt(
            #[trigger] entries@[i],
            #[trigger] entries@[j],
        ) by {
            if i < p0 {
                assert(entries@[i] == pre[i]);
            } else if i == p0 {
                assert(entries@[i] == e);
            } else {
                assert(entries@[i] == pre[i - 1]);
            }
            if j < p0 {
                assert(entries@[j] == pre[j]);
            } else if j == p0 {
                assert(entries@[j] == e);
            } else {
                assert(entries@[j] == pre[j - 1]);
            }
            if i < p0 && j > p0 {
                lemma_entry_order_trans(pre[i], e, pre[j - 1]);
            }
        }
        assert forall|x: ContactWithDistance|
            #[trigger] entries@.contains(x) <==> (pre.contains(x) || x == e) by {
            if entries@.contains(x) {
                let q = choose|q: int| 0 <= q < entries@.len() && entries@[q] == x;
                if q < p0 {
                    assert(pre[q] == x);
                } else if q > p0 {
                    assert(pre[q - 1] == x);
                }
            }
            if pre.contains(x) {
                let q = choose|q: int| 0 <= q < pre.len() && pre[q] == x;
                if q < p0 {
                    assert(entries@[q] == x);
                } else {
                    assert(entries@[q + 1] == x);
                }
            }
            if x == e {
                assert(entries@[p0] == x);
            }
        }
        assert(entries@.contains(e)) by {
            assert(entries@[p0] == e);
        }
    }
}

/// The routing table: the local node's own contact, a sparse association
/// from distance class to bucket, and the shared per-bucket capacity. The
/// association is kept as a vector of (distance class, bucket) pairs with
/// pairwise distinct keys, created lazily on first insert.
pub struct RoutingTable {
    pub localhost: Contact,
    pub buckets: Vec<(usize, Bucket)>,
    pub bucket_size: u8,
}

impl RoutingTable {
    /// Distance classes are pairwise distinct and never zero; every bucket
    /// is well formed, shares the table's capacity, and holds exactly the
    /// contacts whose distance from the local node is its distance class.
    /// No two buckets share a distance class.
    pub open spec fn keys_distinct(self) -> bool {
        forall|j1: int, j2: int|
            0 <= j1 < j2 < self.buckets@.len() ==> (#[trigger] self.buckets@[j1]).0 != (
            #[trigger] self.buckets@[j2]).0
    }

    pub open spec fn wf(self) -> bool {
        &&& self.keys_distinct()
        &&& forall|j: int| 0 <= j < self.buckets@.len() ==> (#[trigger] self.buckets@[j]).0 != 0
        &&& forall|j: int| 0 <= j < self.buckets@.len() ==> (#[trigger] self.buckets@[j]).1.wf()
        &&& forall|j: int|
            0 <= j < self.buckets@.len() ==> (#[trigger] self.buckets@[j]).1.bucket_size
                == self.bucket_size
        &&& forall|j: int, i: int|
            0 <= j < self.buckets@.len() && 0 <= i < self.buckets@[j].1.contacts@.len()
                ==> distance(self.localhost, #[trigger] self.buckets@[j].1.contacts@[i])
                == self.buckets@[j].0 as nat
    }

    /// Whether a bucket for distance class `k` exists.
    pub open spec fn has_bucket(self, k: usize) -> bool {
        exists|j: int| 0 <= j < self.buckets@.len() && (#[trigger] self.buckets@[j]).0 == k
    }

    /// The contacts stored for distance class `k`, empty when no bucket for
    /// `k` exists.
    pub open spec fn bucket_contents(self, k: usize) -> Seq<Contact> {
        if self.has_bucket(k) {
            self.buckets@[choose|j: int|
                0 <= j < self.buckets@.len() && (#[trigger] self.buckets@[j]).0 == k].1.contacts@
        } else {
            Seq::<Contact>::empty()
        }
    }

    /// Whether `c` is stored anywhere in the table, by full value.
    pub open spec fn contains_contact(self, c: Contact) -> bool {
        exists|j: int, i: int|
            0 <= j < self.buckets@.len() && 0 <= i < self.buckets@[j].1.contacts@.len() && (
            #[trigger] self.buckets@[j].1.contacts@[i]) == c
    }

    proof fn lemma_bucket_contents_at(self, j: int)
        requires
            self.keys_distinct(),
            0 <= j < self.buckets@.len(),
        ensures
            self.has_bucket(self.buckets@[j].0),
            self.bucket_contents(self.buckets@[j].0) == self.buckets@[j].1.contacts@,
    {
        let k = self.buckets@[j].0;
        assert(self.has_bucket(k)) by {
            assert(0 <= j < self.buckets@.len() && self.buckets@[j].0 == k);
        }
        let j2 = choose|j2: int| 0 <= j2 < self.buckets@.len() && (#[trigger] self.buckets@[j2]).0 == k;
        if j2 != j {
            if j < j2 {
                assert(self.buckets@[j].0 != self.buckets@[j2].0);
            } else {
                assert(self.buckets@[j2].0 != self.buckets@[j].0);
            }
        }
    }

    /// Create an empty table around the local node's own contact, with the
    /// given per-bucket capacity, fixed for the table's lifetime.
    pub fn new(localhost: Contact, bucket_size: u8) -> (t: RoutingTable)
        ensures
            t.localhost == localhost,
            t.bucket_size == bucket_size,
            t.buckets@.len() == 0,
            t.wf(),
            forall|k: usize| !t.has_bucket(k),
            forall|c: Contact| !t.contains_contact(c),
    {
        RoutingTable { localhost, buckets: Vec::new(), bucket_size }
    }

    /// Position of the bucket for distance class `index`, if one exists.
    fn find_bucket(&self, index: usize) -> (r: Option<usize>)
        ensures
            match r {
                Some(j) => 0 <= j < self.buckets@.len() && self.buckets@[j as int].0 == index,
                None => !self.has_bucket(index),
            },
            r is Some <==> self.has_bucket(index),
    {
        let mut j: usize = 0;
        let n = self.buckets.len();
        while j < n
            invariant
                n == self.buckets@.len(),
                0 <= j <= n,
                forall|q: int| 0 <= q < j ==> (#[trigger] self.buckets@[q]).0 != index,
            decreases n - j,
        {
            if self.buckets[j].0 == index {
                proof {
                    assert(self.has_bucket(index)) by {
                        assert(self.buckets@[j as int].0 == index);
                    }
                }
                return Some(j);
            }
            j = j + 1;
        }
        proof {
            if self.has_bucket(index) {
                let q = choose|q: int|
                    0 <= q < self.buckets@.len() && (#[trigger] self.buckets@[q]).0 == index;
                assert(false);
            }
        }
        None
    }

    /// Two tables agree on distance class `k` when either both lack a
    /// bucket for it or matching entries carry equal contents.
    proof fn lemma_same_contents(a: RoutingTable, b: RoutingTable, k: usize)
        requires
            a.keys_distinct(),
            b.keys_distinct(),
            (exists|ja: int, jb: int|
                0 <= ja < a.buckets@.len() && 0 <= jb < b.buckets@.len() && (
                #[trigger] a.buckets@[ja]).0 == k && (#[trigger] b.buckets@[jb]).0 == k
                    && a.buckets@[ja].1.contacts@ == b.buckets@[jb].1.contacts@) || (!a.has_bucket(
                k,
            ) && !b.has_bucket(k)),
        ensures
            a.has_bucket(k) == b.has_bucket(k),
            a.bucket_contents(k) == b.bucket_contents(k),
    {
        if a.has_bucket(k) || b.has_bucket(k) {
            let (ja, jb) = choose|ja: int, jb: int|
                0 <= ja < a.buckets@.len() && 0 <= jb < b.buckets@.len() && (
                #[trigger] a.buckets@[ja]).0 == k && (#[trigger] b.buckets@[jb]).0 == k
                    && a.buckets@[ja].1.contacts@ == b.buckets@[jb].1.contacts@;
            a.lemma_bucket_contents_at(ja);
            b.lemma_bucket_contents_at(jb);
        }
    }

    /// Find or lazily create the bucket for distance class `index`,
    /// returning its position.
    fn add_bucket(&mut self, index: usize) -> (pos: usize)
        requires
            old(self).wf(),
            index != 0,
        ensures
            final(self).wf(),
            final(self).localhost == old(self).localhost,
            final(self).bucket_size == old(self).bucket_size,
            pos < final(self).buckets@.len(),
            final(self).buckets@[pos as int].0 == index,
            old(self).has_bucket(index) ==> final(self).buckets@ == old(self).buckets@,
            !old(self).has_bucket(index) ==> final(self).buckets@.len() == old(self).buckets@.len()
                + 1,
            forall|j: int|
                0 <= j < old(self).buckets@.len() ==> final(self).buckets@[j]
                    == old(self).buckets@[j],
            forall|k: usize| final(self).has_bucket(k) == (old(self).has_bucket(k) || k == index),
            forall|k: usize|
                k != index ==> final(self).bucket_contents(k) == old(self).bucket_contents(k),
            final(self).bucket_contents(index) == old(self).bucket_contents(index),
            final(self).bucket_contents(index) == final(self).buckets@[pos as int].1.contacts@,
    {
        match self.find_bucket(index) {
            Some(p) => {
                proof {
                    assert forall|k: usize|
                        self.has_bucket(k) == (self.has_bucket(k) || k == index) by {
                        if k == index {
                            assert(self.has_bucket(index));
                        }
                    }
                    self.lemma_bucket_contents_at(p as int);
                }
                p
            },
            None => {
                let b = Bucket::new(self.bucket_size);
                self.buckets.push((index, b));
                let pos = self.buckets.len() - 1;
                proof {
                    let pre = *old(self);
                    let post = *self;
                    let n = pre.buckets@.len() as int;
                    assert(post.buckets@ == pre.buckets@.push((index, b)));
                    assert(forall|j: int|
                        0 <= j < n ==> post.buckets@[j] == pre.buckets@[j]);
                    assert(post.buckets@[pos as int].0 == index);
                    assert forall|q: int| 0 <= q < n implies (#[trigger] pre.buckets@[q]).0
                        != index by {
                        if pre.buckets@[q].0 == index {
                            assert(pre.has_bucket(index));
                        }
                    }
                    assert(post.wf()) by {
                        assert forall|j1: int, j2: int|
                            0 <= j1 < j2 < post.buckets@.len() implies (
                        #[trigger] post.buckets@[j1]).0 != (#[trigger] post.buckets@[j2]).0 by {
                            if j2 < n {
                                assert(pre.buckets@[j1].0 != pre.buckets@[j2].0);
                            } else {
                                assert(pre.buckets@[j1].0 != index);
                            }
                        }
                        assert forall|j: int|
                            0 <= j < post.buckets@.len() implies (#[trigger] post.buckets@[j]).1.wf()
                            && post.buckets@[j].1.bucket_size == post.bucket_size && post.buckets@[j].0
                            != 0 by {
                            if j < n {
                                assert(post.buckets@[j] == pre.buckets@[j]);
                            }
                        }
                        assert forall|j: int, i: int|
                            0 <= j < post.buckets@.len() && 0 <= i
                                < post.buckets@[j].1.contacts@.len() implies distance(
                            post.localhost,
                            #[trigger] post.buckets@[j].1.contacts@[i],
                        ) == post.buckets@[j].0 as nat by {
                            assert(j < n);
                            assert(post.buckets@[j] == pre.buckets@[j]);
                        }
                    }
                    assert forall|k: usize|
                        post.has_bucket(k) == (pre.has_bucket(k) || k == index) by {
                        if pre.has_bucket(k) {
                            let q = choose|q: int|
                                0 <= q < pre.buckets@.len() && (#[trigger] pre.buckets@[q]).0 == k;
                            assert(post.buckets@[q].0 == k);
                            assert(post.has_bucket(k));
                        }
                        if k == index {
                            assert(post.buckets@[pos as int].0 == k);
                            assert(post.has_bucket(k));
                        }
                        if post.has_bucket(k) && k != index {
                            let q = choose|q: int|
                                0 <= q < post.buckets@.len() && (#[trigger] post.buckets@[q]).0
                                    == k;
                            assert(q < n);
                            assert(pre.buckets@[q].0 == k);
                            assert(pre.has_bucket(k));
                        }
                    }
                    assert forall|k: usize|
                        k != index implies post.bucket_contents(k) == pre.bucket_contents(k) by {
                        if pre.has_bucket(k) {
                            let q = choose|q: int|
                                0 <= q < pre.buckets@.len() && (#[trigger] pre.buckets@[q]).0 == k;
                            assert(post.buckets@[q].0 == k);
                            Self::lemma_same_contents(post, pre, k);
                        } else {
                            assert(!post.has_bucket(k));
                            Self::lemma_same_contents(post, pre, k);
                        }
                    }
                    post.lemma_bucket_contents_at(pos as int);
                    assert(pre.bucket_contents(index) == Seq::<Contact>::empty());
                }
                pos
            },
        }
    }

    /// Route `contact` to the bucket for its distance class from the local
    /// node and insert it there, replacing any stored entry with the same
    /// identifier. A contact at distance zero — the local node itself, or
    /// an identifier collision with it — is silently rejected. Returns the
    /// overflowing bucket's eviction candidate, which stays stored until
    /// the caller decides to remove it.
    pub fn add_contact(&mut self, contact: Contact) -> (evicted: Option<Contact>)
        requires
            old(self).wf(),
        ensures
            final(self).wf(),
            final(self).localhost == old(self).localhost,
            final(self).bucket_size == old(self).bucket_size,
            distance(old(self).localhost, contact) == 0 ==> *final(self) == *old(self) && evicted
                == None::<Contact>,
            distance(old(self).localhost, contact) != 0 ==> ({
                let k = distance(old(self).localhost, contact) as usize;
                let pre = old(self).bucket_contents(k);
                let post = final(self).bucket_contents(k);
                &&& final(self).has_bucket(k)
                &&& (forall|i: int|
                    0 <= i < pre.len() ==> (#[trigger] pre[i]).id != contact.id) ==> post
                    == pre.push(contact)
                &&& (forall|i: int|
                    0 <= i < pre.len() && (#[trigger] pre[i]).id == contact.id ==> post
                        == pre.remove(i).push(contact))
                &&& post.len() > 0 && post.last() == contact
                &&& (forall|k2: usize|
                    k2 != k ==> final(self).has_bucket(k2) == old(self).has_bucket(k2))
                &&& (forall|k2: usize|
                    k2 != k ==> final(self).bucket_contents(k2) == old(self).bucket_contents(k2))
                &&& evicted == (if post.len() > old(self).bucket_size as int {
                    Some(post[0])
                } else {
                    None::<Contact>
                })
            }),
    {
        let index = self.localhost.log2_distance(&contact);
        if index == 0 {
            return None;
        }
        let pos = self.add_bucket(index);
        let ghost mid = *self;
        let (key, mut b) = self.buckets.remove(pos);
        let ghost preb = b.contacts@;
        let evicted = b.add_contact(contact);
        self.buckets.insert(pos, (key, b));
        proof {
            let post = *self;
            let p = pos as int;
            assert(key == index);
            assert(post.buckets@ =~= mid.buckets@.update(p, (key, b)));
            assert(forall|j: int|
                0 <= j < mid.buckets@.len() && j != p ==> post.buckets@[j] == mid.buckets@[j]);
            assert(post.buckets@.len() == mid.buckets@.len());
            assert(post.buckets@[p].0 == index);
            assert(mid.buckets@[p].1.wf());
            assert(mid.buckets@[p].1.bucket_size == mid.bucket_size);
            assert(preb == mid.buckets@[p].1.contacts@);
            // well-formedness of the updated table
            assert(post.wf()) by {
                assert forall|j1: int, j2: int|
                    0 <= j1 < j2 < post.buckets@.len() implies (#[trigger] post.buckets@[j1]).0
                    != (#[trigger] post.buckets@[j2]).0 by {
                    assert(post.buckets@[j1].0 == mid.buckets@[j1].0);
                    assert(post.buckets@[j2].0 == mid.buckets@[j2].0);
                }
                assert forall|j: int|
                    0 <= j < post.buckets@.len() implies (#[trigger] post.buckets@[j]).1.wf()
                    && post.buckets@[j].1.bucket_size == post.bucket_size && post.buckets@[j].0
                    != 0 by {
                    if j != p {
                        assert(post.buckets@[j] == mid.buckets@[j]);
                    }
                }
                assert forall|j: int, i: int|
                    0 <= j < post.buckets@.len() && 0 <= i < post.buckets@[j].1.contacts@.len()
                    implies distance(post.localhost, #[trigger] post.buckets@[j].1.contacts@[i])
                    == post.buckets@[j].0 as nat by {
                    if j != p {
                        assert(post.buckets@[j] == mid.buckets@[j]);
                    } else {
                        let s = b.contacts@;
                        if exists|q: int| 0 <= q < preb.len() && (#[trigger] preb[q]).id == contact.id {
                            let q = choose|q: int|
                                0 <= q < preb.len() && (#[trigger] preb[q]).id == contact.id;
                            assert(s == preb.remove(q).push(contact));
                            if i < s.len() - 1 {
                                if i < q {
                                    assert(s[i] == preb[i]);
                                } else {
                                    assert(s[i] == preb[i + 1]);
                                }
                            } else {
                                assert(s[i] == contact);
                            }
                        } else {
                            assert(forall|q: int|
                                0 <= q < preb.len() ==> (#[trigger] preb[q]).id != contact.id);
                            assert(s == preb.push(contact));
                            if i < s.len() - 1 {
                                assert(s[i] == preb[i]);
                            } else {
                                assert(s[i] == contact);
                            }
                        }
                    }
                }
            }
            post.lemma_bucket_contents_at(p);
            assert(post.bucket_contents(index) == b.contacts@);
            assert forall|k2: usize|
                k2 != index implies post.bucket_contents(k2) == mid.bucket_contents(k2)
                && post.has_bucket(k2) == mid.has_bucket(k2) by {
                if mid.has_bucket(k2) {
                    let q = choose|q: int|
                        0 <= q < mid.buckets@.len() && (#[trigger] mid.buckets@[q]).0 == k2;
                    assert(q != p);
                    assert(post.buckets@[q] == mid.buckets@[q]);
                    Self::lemma_same_contents(post, mid, k2);
                } else {
                    assert(!post.has_bucket(k2)) by {
                        if post.has_bucket(k2) {
                            let q = choose|q: int|
                                0 <= q < post.buckets@.len() && (#[trigger] post.buckets@[q]).0
                                    == k2;
                            assert(mid.buckets@[q].0 == k2);
                            assert(mid.has_bucket(k2));
                        }
                    }
                    Self::lemma_same_contents(post, mid, k2);
                }
            }
            assert(post.has_bucket(index)) by {
                assert(post.buckets@[p].0 == index);
            }
        }
        evicted
    }

    /// Remove the stored entry equal to `contact` by full value, if any; a
    /// contact that is not present — including one whose identifier matches
    /// but whose endpoint differs — leaves the table unchanged.
    pub fn remove_contact(&mut self, contact: &Contact)
        requires
            old(self).wf(),
        ensures
            final(self).wf(),
            final(self).localhost == old(self).localhost,
            final(self).bucket_size == old(self).bucket_size,
            forall|k: usize| final(self).has_bucket(k) == old(self).has_bucket(k),
            !old(self).contains_contact(*contact) ==> final(self).buckets@ == old(self).buckets@,
            !final(self).contains_contact(*contact),
            forall|x: Contact|
                x != *contact ==> final(self).contains_contact(x) == old(self).contains_contact(x),
            forall|k: usize|
                k != distance(old(self).localhost, *contact) as usize
                    ==> final(self).bucket_contents(k) == old(self).bucket_contents(k),
            ({
                let k = distance(old(self).localhost, *contact) as usize;
                let pre = old(self).bucket_contents(k);
                let post = final(self).bucket_contents(k);
                &&& (!pre.contains(*contact)) ==> post == pre
                &&& (forall|i: int|
                    0 <= i < pre.len() && pre[i] == *contact ==> post == pre.remove(i))
            }),
    {
        let index = self.localhost.log2_distance(contact);
        proof {
            self.lemma_not_stored_when_absent(*contact, index);
        }
        if index == 0 {
            return;
        }
        let found = self.find_bucket(index);
        match found {
            None => {},
            Some(pos) => {
                let ghost mid = *self;
                let (key, mut b) = self.buckets.remove(pos);
                let ghost preb = b.contacts@;
                b.remove_contact(contact);
                self.buckets.insert(pos, (key, b));
                proof {
                    let post = *self;
                    let p = pos as int;
                    assert(post.buckets@ =~= mid.buckets@.update(p, (key, b)));
                    assert(forall|j: int|
                        0 <= j < mid.buckets@.len() && j != p ==> post.buckets@[j]
                            == mid.buckets@[j]);
                    assert(preb == mid.buckets@[p].1.contacts@);
                    assert(mid.buckets@[p].1.wf());
                    mid.lemma_bucket_contents_at(p);
                    assert(mid.bucket_contents(index) == preb);
                    assert(post.wf()) by {
                        assert forall|j1: int, j2: int|
                            0 <= j1 < j2 < post.buckets@.len() implies (
                        #[trigger] post.buckets@[j1]).0 != (#[trigger] post.buckets@[j2]).0 by {
                            assert(post.buckets@[j1].0 == mid.buckets@[j1].0);
                            assert(post.buckets@[j2].0 == mid.buckets@[j2].0);
                        }
                        assert forall|j: int|
                            0 <= j < post.buckets@.len() implies (
                        #[trigger] post.buckets@[j]).1.wf() && post.buckets@[j].1.bucket_size
                            == post.bucket_size && post.buckets@[j].0 != 0 by {
                            if j != p {
                                assert(post.buckets@[j] == mid.buckets@[j]);
                            }
                        }
                        assert forall|j: int, i: int|
                            0 <= j < post.buckets@.len() && 0 <= i
                                < post.buckets@[j].1.contacts@.len() implies distance(
                            post.localhost,
                            #[trigger] post.buckets@[j].1.contacts@[i],
                        ) == post.buckets@[j].0 as nat by {
                            if j != p {
                                assert(post.buckets@[j] == mid.buckets@[j]);
                            } else {
                                let s = b.contacts@;
                                if preb.contains(*contact) {
                                    let q = choose|q: int|
                                        0 <= q < preb.len() && preb[q] == *contact && s
                                            == preb.remove(q);
                                    if i < q {
                                        assert(s[i] == preb[i]);
                                    } else {
                                        assert(s[i] == preb[i + 1]);
                                    }
                                } else {
                                    assert(s == preb);
                                }
                            }
                        }
                    }
                    post.lemma_bucket_contents_at(p);
                    assert(post.bucket_contents(index) == b.contacts@);
                    assert forall|k2: usize|
                        k2 != index implies post.bucket_contents(k2) == mid.bucket_contents(k2)
                        && post.has_bucket(k2) == mid.has_bucket(k2) by {
                        if mid.has_bucket(k2) {
                            let q = choose|q: int|
                                0 <= q < mid.buckets@.len() && (#[trigger] mid.buckets@[q]).0
                                    == k2;
                            assert(q != p);
                            assert(post.buckets@[q] == mid.buckets@[q]);
                            Self::lemma_same_contents(post, mid, k2);
                        } else {
                            assert(!post.has_bucket(k2)) by {
                                if post.has_bucket(k2) {
                                    let q = choose|q: int|
                                        0 <= q < post.buckets@.len() && (
                                        #[trigger] post.buckets@[q]).0 == k2;
                                    assert(mid.buckets@[q].0 == k2);
                                    assert(mid.has_bucket(k2));
                                }
                            }
                            Self::lemma_same_contents(post, mid, k2);
                        }
                    }
                    assert(post.has_bucket(index)) by {
                        assert(post.buckets@[p].0 == index);
                    }
                    // the removed value is gone, and nothing else changed
                    assert forall|j: int, i: int|
                        0 <= j < post.buckets@.len() && 0 <= i < post.buckets@[j].1.contacts@.len()
                        implies (#[trigger] post.buckets@[j].1.contacts@[i]) != *contact by {
                        if j != p {
                            assert(post.buckets@[j] == mid.buckets@[j]);
                            assert(distance(mid.localhost, mid.buckets@[j].1.contacts@[i])
                                == mid.buckets@[j].0 as nat);
                            assert(mid.buckets@[j].0 != index) by {
                                if j < p {
                                    assert(mid.buckets@[j].0 != mid.buckets@[p].0);
                                } else {
                                    assert(mid.buckets@[p].0 != mid.buckets@[j].0);
                                }
                            }
                        } else {
                            let s = b.contacts@;
                            if preb.contains(*contact) {
                                let q = choose|q: int|
                                    0 <= q < preb.len() && preb[q] == *contact && s == preb.remove(
                                        q,
                                    );
                                if s[i] == *contact {
                                    if i < q {
                                        assert(preb[i] == *contact);
                                        assert(preb[i].id == preb[q].id);
                                        assert(false);
                                    } else {
                                        assert(preb[i + 1] == *contact);
                                        assert(preb[q].id == preb[i + 1].id);
                                        assert(false);
                                    }
                                }
                            } else {
                                assert(s == preb);
                                if s[i] == *contact {
                                    assert(preb.contains(*contact)) by {
                                        assert(preb[i] == *contact);
                                    }
                                    assert(false);
                                }
                            }
                        }
                    }
                    assert(!post.contains_contact(*contact));
                    // membership of every other contact is untouched
                    assert forall|x: Contact| x != *contact implies post.contains_contact(x)
                        == mid.contains_contact(x) by {
                        if mid.contains_contact(x) {
                            let (j, i) = choose|j: int, i: int|
                                0 <= j < mid.buckets@.len() && 0 <= i
                                    < mid.buckets@[j].1.contacts@.len() && (
                                #[trigger] mid.buckets@[j].1.contacts@[i]) == x;
                            if j != p {
                                assert(post.buckets@[j].1.contacts@[i] == x);
                            } else {
                                let s = b.contacts@;
                                if preb.contains(*contact) {
                                    let q = choose|q: int|
                                        0 <= q < preb.len() && preb[q] == *contact && s
                                            == preb.remove(q);
                                    if i < q {
                                        assert(s[i] == x);
                                        assert(post.buckets@[p].1.contacts@[i] == x);
                                    } else if i == q {
                                        assert(false);
                                    } else {
                                        assert(s[i - 1] == x);
                                        assert(post.buckets@[p].1.contacts@[i - 1] == x);
                                    }
                                } else {
                                    assert(post.buckets@[p].1.contacts@[i] == x);
                                }
                            }
                            assert(post.contains_contact(x));
                        }
                        if post.contains_contact(x) {
                            let (j, i) = choose|j: int, i: int|
                                0 <= j < post.buckets@.len() && 0 <= i
                                    < post.buckets@[j].1.contacts@.len() && (
                                #[trigger] post.buckets@[j].1.contacts@[i]) == x;
                            if j != p {
                                assert(mid.buckets@[j].1.contacts@[i] == x);
                            } else {
                                let s = b.contacts@;
                                if preb.contains(*contact) {
                                    let q = choose|q: int|
                                        0 <= q < preb.len() && preb[q] == *contact && s
                                            == preb.remove(q);
                                    if i < q {
                                        assert(preb[i] == x);
                                        assert(mid.buckets@[p].1.contacts@[i] == x);
                                    } else {
                                        assert(preb[i + 1] == x);
                                        assert(mid.buckets@[p].1.contacts@[i + 1] == x);
                                    }
                                } else {
                                    assert(mid.buckets@[p].1.contacts@[i] == x);
                                }
                            }
                            assert(mid.contains_contact(x));
                        }
                    }
                    // a no-op removal leaves the vector exactly as it was
                    if !mid.contains_contact(*contact) {
                        assert(!preb.contains(*contact)) by {
                            if preb.contains(*contact) {
                                let q = choose|q: int|
                                    0 <= q < preb.len() && preb[q] == *contact;
                                assert(mid.buckets@[p].1.contacts@[q] == *contact);
                                assert(mid.contains_contact(*contact));
                            }
                        }
                        assert(b == mid.buckets@[p].1);
                        assert((key, b) == mid.buckets@[p]);
                        assert(post.buckets@ =~= mid.buckets@);
                    }
                }
            },
        }
    }

    /// All candidates a query may look at: every contact of each of the
    /// first `n` buckets, in order, without `target`.
    pub open spec fn candidates_up_to(self, target: Contact, n: int) -> Seq<Contact>
        decreases n,
    {
        if n <= 0 {
            Seq::empty()
        } else {
            self.candidates_up_to(target, n - 1) + candidates_of(
                self.buckets@[n - 1].1.contacts@,
                target,
            )
        }
    }

    /// Every contact a query of `target` considers, in bucket order.
    pub open spec fn candidate_seq(self, target: Contact) -> Seq<Contact> {
        self.candidates_up_to(target, self.buckets@.len() as int)
    }

    /// The set of contacts a query of `target` considers.
    pub open spec fn candidate_set(self, target: Contact) -> Set<Contact> {
        self.candidate_seq(target).to_set()
    }

    proof fn lemma_candidates_up_to_stored(self, target: Contact, n: int)
        requires
            0 <= n <= self.buckets@.len(),
        ensures
            forall|c: Contact|
                #[trigger] self.candidates_up_to(target, n).contains(c) ==> self.contains_contact(
                    c,
                ) && c != target,
        decreases n,
    {
        if n > 0 {
            self.lemma_candidates_up_to_stored(target, n - 1);
            let vis = self.buckets@[n - 1].1.contacts@;
            let head = self.candidates_up_to(target, n - 1);
            let tail = candidates_of(vis, target);
            lemma_concat_contains(head, tail);
            lemma_candidates_of_membership(vis, target);
            assert forall|c: Contact|
                #[trigger] self.candidates_up_to(target, n).contains(c) implies self
                .contains_contact(c) && c != target by {
                if tail.contains(c) {
                    assert(vis.contains(c));
                    let i = choose|i: int| 0 <= i < vis.len() && vis[i] == c;
                    assert(vis.len() <= self.buckets@[n - 1].1.contacts@.len());
                    assert(vis[i] == self.buckets@[n - 1].1.contacts@[i]);
                    assert(self.contains_contact(c)) by {
                        assert(self.buckets@[n - 1].1.contacts@[i] == c);
                    }
                }
            }
        }
    }

    /// Everything a query considers is stored in the table, is not the
    /// query target, and is not the local node.
    pub proof fn lemma_candidates_sound(self, target: Contact)
        requires
            self.wf(),
        ensures
            forall|c: Contact|
                #[trigger] self.candidate_set(target).contains(c) ==> self.contains_contact(c) && c
                    != target && c != self.localhost && distance(self.localhost, c) != 0,
    {
        self.lemma_candidates_up_to_stored(target, self.buckets@.len() as int);
        self.lemma_stored_properties();
    }

    /// Stored contacts are never at distance zero from the local node, so
    /// the local node's own contact is never stored.
    pub proof fn lemma_stored_properties(self)
        requires
            self.wf(),
        ensures
            forall|c: Contact|
                #[trigger] self.contains_contact(c) ==> distance(self.localhost, c) != 0 && c
                    != self.localhost,
    {
        assert forall|c: Contact|
            #[trigger] self.contains_contact(c) implies distance(self.localhost, c) != 0 && c
            != self.localhost by {
            let (j, i) = choose|j: int, i: int|
                0 <= j < self.buckets@.len() && 0 <= i < self.buckets@[j].1.contacts@.len() && (
                #[trigger] self.buckets@[j].1.contacts@[i]) == c;
            assert(distance(self.localhost, c) == self.buckets@[j].0 as nat);
            crate::contact::lemma_distance_self_zero(self.localhost);
            if c == self.localhost {
                assert(false);
            }
        }
    }

    /// Merge every candidate across the buckets into one strictly
    /// ascending (distance to target, contact order) sequence, skipping
    /// the target itself.
    fn get_contacts_in_distance_order(&self, target: &Contact) -> (entries: Vec<
        ContactWithDistance,
    >)
        requires
            self.wf(),
        ensures
            sorted_by_rank(entries@),
            forall|q: int|
                0 <= q < entries@.len() ==> (#[trigger] entries@[q]).distance == distance(
                    entries@[q].contact,
                    *target,
                ),
            forall|c: Contact|
                #[trigger] self.candidate_seq(*target).contains(c) <==> (exists|q: int|
                    0 <= q < entries@.len() && (#[trigger] entries@[q]).contact == c),
            entries@.len() == self.candidate_set(*target).len(),
    {
        let mut entries: Vec<ContactWithDistance> = Vec::new();
        let nb = self.buckets.len();
        let mut j: usize = 0;
        while j < nb
            invariant
                self.wf(),
                nb == self.buckets@.len(),
                0 <= j <= nb,
                sorted_by_rank(entries@),
                forall|q: int|
                    0 <= q < entries@.len() ==> (#[trigger] entries@[q]).distance == distance(
                        entries@[q].contact,
                        *target,
                    ),
                forall|c: Contact|
                    #[trigger] self.candidates_up_to(*target, j as int).contains(c) <==> (exists|
                        q: int,
                    |
                        0 <= q < entries@.len() && (#[trigger] entries@[q]).contact == c),
            decreases nb - j,
        {
            let limit = self.buckets[j].1.contacts.len();
            let ghost s = self.buckets@[j as int].1.contacts@;
            proof {
                assert(candidates_of(s.take(0), *target) == Seq::<Contact>::empty());
            }
            let mut i: usize = 0;
            while i < limit
                invariant
                    self.wf(),
                    nb == self.buckets@.len(),
                    0 <= j < nb,
                    s == self.buckets@[j as int].1.contacts@,
                    limit == s.len(),
                    0 <= i <= limit,
                    sorted_by_rank(entries@),
                    forall|q: int|
                        0 <= q < entries@.len() ==> (#[trigger] entries@[q]).distance == distance(
                            entries@[q].contact,
                            *target,
                        ),
                    forall|c: Contact|
                        #![trigger self.candidates_up_to(*target, j as int).contains(c)]
                        #![trigger candidates_of(s.take(i as int), *target).contains(c)]
                        (self.candidates_up_to(*target, j as int).contains(c) || candidates_of(
                            s.take(i as int),
                            *target,
                        ).contains(c)) <==> (exists|q: int|
                            0 <= q < entries@.len() && (#[trigger] entries@[q]).contact == c),
                decreases limit - i,
            {
                let c = self.buckets[j].1.contacts[i];
                proof {
                    assert(s.take(i + 1).drop_last() =~= s.take(i as int));
                    assert(s.take(i + 1).last() == s[i as int]);
                }
                if !(c == *target) {
                    let e = ContactWithDistance::new(&c, target);
                    let ghost pre_entries = entries@;
                    insert_in_order(&mut entries, e);
                    proof {
                        assert(candidates_of(s.take(i + 1), *target) == candidates_of(
                            s.take(i as int),
                            *target,
                        ).push(c));
                        lemma_push_contains(candidates_of(s.take(i as int), *target), c);
                        assert forall|q: int|
                            0 <= q < entries@.len() implies (#[trigger] entries@[q]).distance
                            == distance(entries@[q].contact, *target) by {
                            let x = entries@[q];
                            assert(entries@.contains(x)) by {
                                assert(entries@[q] == x);
                            }
                            if x != e {
                                assert(pre_entries.contains(x));
                                let q2 = choose|q2: int|
                                    0 <= q2 < pre_entries.len() && pre_entries[q2] == x;
                                assert(pre_entries[q2].distance == distance(
                                    pre_entries[q2].contact,
                                    *target,
                                ));
                            }
                        }
                        assert forall|cc: Contact|
                            #![trigger self.candidates_up_to(*target, j as int).contains(cc)]
                            #![trigger candidates_of(s.take(i + 1), *target).contains(cc)]
                            (self.candidates_up_to(*target, j as int).contains(cc)
                                || candidates_of(s.take(i + 1), *target).contains(cc)) <==> (exists|
                            q: int,
                        |
                            0 <= q < entries@.len() && (#[trigger] entries@[q]).contact == cc) by {
                            if self.candidates_up_to(*target, j as int).contains(cc)
                                || candidates_of(s.take(i + 1), *target).contains(cc) {
                                if cc == c {
                                    assert(entries@.contains(e));
                                    let q = choose|q: int|
                                        0 <= q < entries@.len() && entries@[q] == e;
                                    assert(entries@[q].contact == cc);
                                } else {
                                    assert(candidates_of(s.take(i as int), *target).push(
                                        c,
                                    ).contains(cc) ==> candidates_of(
                                        s.take(i as int),
                                        *target,
                                    ).contains(cc));
                                    assert(self.candidates_up_to(*target, j as int).contains(cc)
                                        || candidates_of(s.take(i as int), *target).contains(cc));
                                    assert(exists|q: int|
                                        0 <= q < pre_entries.len() && (
                                        #[trigger] pre_entries[q]).contact == cc);
                                    let q = choose|q: int|
                                        0 <= q < pre_entries.len() && (
                                        #[trigger] pre_entries[q]).contact == cc;
                                    let x = pre_entries[q];
                                    assert(pre_entries.contains(x)) by {
                                        assert(pre_entries[q] == x);
                                    }
                                    assert(entries@.contains(x));
                                    let q2 = choose|q2: int|
                                        0 <= q2 < entries@.len() && entries@[q2] == x;
                                    assert(entries@[q2].contact == cc);
                                }
                            }
                            if exists|q: int|
                                0 <= q < entries@.len() && (#[trigger] entries@[q]).contact == cc {
                                let q = choose|q: int|
                                    0 <= q < entries@.len() && (#[trigger] entries@[q]).contact
                                        == cc;
                                let x = entries@[q];
                                assert(entries@.contains(x)) by {
                                    assert(entries@[q] == x);
                                }
                                if x == e {
                                    assert(cc == c);
                                    assert(candidates_of(s.take(i as int), *target).push(
                                        c,
                                    ).contains(cc));
                                    assert(candidates_of(s.take(i + 1), *target).contains(cc));
                                } else {
                                    assert(pre_entries.contains(x));
                                    let q2 = choose|q2: int|
                                        0 <= q2 < pre_entries.len() && pre_entries[q2] == x;
                                    assert(pre_entries[q2].contact == cc);
                                    assert(exists|q3: int|
                                        0 <= q3 < pre_entries.len() && (
                                        #[trigger] pre_entries[q3]).contact == cc);
                                    assert(self.candidates_up_to(*target, j as int).contains(cc)
                                        || candidates_of(s.take(i as int), *target).contains(cc));
                                    if candidates_of(s.take(i as int), *target).contains(cc) {
                                        assert(candidates_of(s.take(i as int), *target).push(
                                            c,
                                        ).contains(cc));
                                        assert(candidates_of(s.take(i + 1), *target).contains(cc));
                                    }
                                }
                            }
                        }
                    }
                } else {
                    proof {
                        assert(candidates_of(s.take(i + 1), *target) == candidates_of(
                            s.take(i as int),
                            *target,
                        ));
                        assert forall|cc: Contact|
                            #![trigger self.candidates_up_to(*target, j as int).contains(cc)]
                            #![trigger candidates_of(s.take(i + 1), *target).contains(cc)]
                            (self.candidates_up_to(*target, j as int).contains(cc)
                                || candidates_of(s.take(i + 1), *target).contains(cc)) <==> (exists|
                            q: int,
                        |
                            0 <= q < entries@.len() && (#[trigger] entries@[q]).contact == cc) by {
                            assert(candidates_of(s.take(i + 1), *target).contains(cc)
                                == candidates_of(s.take(i as int), *target).contains(cc));
                        }
                    }
                }
                i = i + 1;
            }
            proof {
                assert(s.take(limit as int) =~= self.buckets@[j as int].1.contacts@);
                let head = self.candidates_up_to(*target, j as int);
                let tail = candidates_of(self.buckets@[j as int].1.contacts@, *target);
                assert(self.candidates_up_to(*target, j + 1) == head + tail);
                lemma_concat_contains(head, tail);
                assert forall|c: Contact|
                    #[trigger] self.candidates_up_to(*target, j + 1).contains(c) <==> (exists|
                        q: int,
                    |
                        0 <= q < entries@.len() && (#[trigger] entries@[q]).contact == c) by {
                    assert(self.candidates_up_to(*target, j + 1).contains(c) == (head
                        + tail).contains(c));
                    assert(tail == candidates_of(s.take(limit as int), *target));
                    if (head + tail).contains(c) {
                        assert(head.contains(c) || tail.contains(c));
                    }
                    if head.contains(c) || candidates_of(s.take(limit as int), *target).contains(
                        c,
                    ) {
                        assert((head + tail).contains(c));
                    }
                }
            }
            j = j + 1;
        }
        proof {
            let mapped = entries@.map_values(|x: ContactWithDistance| x.contact);
            assert(entries@.len() == self.candidate_set(*target).len()) by {
                assert forall|q1: int, q2: int|
                    0 <= q1 < mapped.len() && 0 <= q2 < mapped.len() && q1 != q2 implies mapped[q1]
                    != mapped[q2] by {
                    let lo = if q1 < q2 {
                        q1
                    } else {
                        q2
                    };
                    let hi = if q1 < q2 {
                        q2
                    } else {
                        q1
                    };
                    assert(entry_lt(entries@[lo], entries@[hi]));
                    if entries@[q1].contact == entries@[q2].contact {
                        assert(entries@[q1].distance == entries@[q2].distance);
                        assert(entries@[q1] == entries@[q2]);
                        lemma_entry_order_total(entries@[lo], entries@[lo]);
                        assert(false);
                    }
                }
                assert(mapped.no_duplicates());
                mapped.unique_seq_to_set();
                assert(mapped.to_set() =~= self.candidate_seq(*target).to_set()) by {
                    assert forall|c: Contact| #[trigger] mapped.contains(c) implies self
                        .candidate_seq(*target).contains(c) by {
                        let q = choose|q: int| 0 <= q < mapped.len() && mapped[q] == c;
                        assert(entries@[q].contact == c);
                    }
                    assert forall|c: Contact|
                        #[trigger] self.candidate_seq(*target).contains(c) implies mapped.contains(
                        c,
                    ) by {
                        let q = choose|q: int|
                            0 <= q < entries@.len() && (#[trigger] entries@[q]).contact == c;
                        assert(mapped[q] == c);
                    }
                }
            }
        }
        entries
    }

    /// The up-to-`bucket_size` stored contacts nearest to `target`, in
    /// strictly ascending (distance to target, contact order): the target
    /// itself is excluded, and the local node is never stored. Every
    /// stored contact left out ranks strictly after everything returned.
    pub fn get_closest_contacts(&self, target: &Contact) -> (r: Vec<Contact>)
        requires
            self.wf(),
        ensures
            r@.len() == (if self.bucket_size as int <= self.candidate_set(*target).len() as int {
                self.bucket_size as int
            } else {
                self.candidate_set(*target).len() as int
            }),
            forall|q: int|
                0 <= q < r@.len() ==> self.candidate_set(*target).contains(#[trigger] r@[q]),
            forall|q: int| 0 <= q < r@.len() ==> #[trigger] r@[q] != *target,
            forall|q: int| 0 <= q < r@.len() ==> #[trigger] r@[q] != self.localhost,
            forall|q1: int, q2: int|
                0 <= q1 < q2 < r@.len() ==> rank_lt(#[trigger] r@[q1], #[trigger] r@[q2], *target),
            forall|c: Contact|
                #[trigger] self.candidate_set(*target).contains(c) && !r@.contains(c) ==> (forall|
                    q: int,
                |
                    0 <= q < r@.len() ==> rank_lt(#[trigger] r@[q], c, *target)),
    {
        let entries = self.get_contacts_in_distance_order(target);
        let cap = self.bucket_size as usize;
        let n = entries.len();
        let m = if cap <= n {
            cap
        } else {
            n
        };
        let mut r: Vec<Contact> = Vec::new();
        let mut q: usize = 0;
        while q < m
            invariant
                m <= n,
                n == entries@.len(),
                0 <= q <= m,
                r@.len() == q,
                forall|t: int| 0 <= t < q ==> #[trigger] r@[t] == entries@[t].contact,
            decreases m - q,
        {
            r.push(entries[q].contact);
            q = q + 1;
        }
        proof {
            self.lemma_candidates_sound(*target);
            assert forall|t: int| 0 <= t < r@.len() implies self.candidate_set(*target).contains(
                #[trigger] r@[t],
            ) by {
                assert(entries@[t].contact == r@[t]);
            }
            assert forall|q1: int, q2: int| 0 <= q1 < q2 < r@.len() implies rank_lt(
                #[trigger] r@[q1],
                #[trigger] r@[q2],
                *target,
            ) by {
                assert(entry_lt(entries@[q1], entries@[q2]));
            }
            assert forall|c: Contact|
                #[trigger] self.candidate_set(*target).contains(c) && !r@.contains(c) implies (
            forall|t: int| 0 <= t < r@.len() ==> rank_lt(#[trigger] r@[t], c, *target)) by {
                let w = choose|w: int|
                    0 <= w < entries@.len() && (#[trigger] entries@[w]).contact == c;
                assert(w >= m) by {
                    if w < m {
                        assert(r@[w] == c);
                        assert(r@.contains(c));
                    }
                }
                assert forall|t: int| 0 <= t < r@.len() implies rank_lt(
                    #[trigger] r@[t],
                    c,
                    *target,
                ) by {
                    assert(entry_lt(entries@[t], entries@[w]));
                }
            }
        }
        r
    }

    /// Whether `contact` is stored, by full value.
    pub fn contains(&self, contact: &Contact) -> (r: bool)
        requires
            self.wf(),
        ensures
            r == self.contains_contact(*contact),
    {
        let index = self.localhost.log2_distance(contact);
        proof {
            self.lemma_not_stored_when_absent(*contact, index);
        }
        if index == 0 {
            return false;
        }
        match self.find_bucket(index) {
            None => false,
            Some(pos) => {
                let r = self.buckets[pos].1.contains(contact);
                proof {
                    let p = pos as int;
                    if self.buckets@[p].1.contacts@.contains(*contact) {
                        let i = choose|i: int|
                            0 <= i < self.buckets@[p].1.contacts@.len()
                                && self.buckets@[p].1.contacts@[i] == *contact;
                        assert(self.contains_contact(*contact));
                    } else {
                        if self.contains_contact(*contact) {
                            let (j, i) = choose|j: int, i: int|
                                0 <= j < self.buckets@.len() && 0 <= i
                                    < self.buckets@[j].1.contacts@.len() && (
                                #[trigger] self.buckets@[j].1.contacts@[i]) == *contact;
                            assert(distance(self.localhost, *contact) == self.buckets@[j].0 as nat);
                            assert(self.buckets@[j].0 == index);
                            if j != p {
                                if j < p {
                                    assert(self.buckets@[j].0 != self.buckets@[p].0);
                                } else {
                                    assert(self.buckets@[p].0 != self.buckets@[j].0);
                                }
                            }
                            assert(self.buckets@[p].1.contacts@.contains(*contact)) by {
                                assert(self.buckets@[p].1.contacts@[i] == *contact);
                            }
                        }
                    }
                }
                r
            },
        }
    }

    /// Drop the bucket for distance class `index` if it exists and is
    /// empty; anything else leaves the table unchanged. Never invoked by
    /// the table itself: emptied buckets linger until the caller asks.
    pub fn remove_bucket(&mut self, index: usize)
        requires
            old(self).wf(),
        ensures
            final(self).wf(),
            final(self).localhost == old(self).localhost,
            final(self).bucket_size == old(self).bucket_size,
            !(old(self).has_bucket(index) && old(self).bucket_contents(index).len() == 0)
                ==> final(self).buckets@ == old(self).buckets@,
            old(self).has_bucket(index) && old(self).bucket_contents(index).len() == 0 ==> (
            !final(self).has_bucket(index) && forall|k: usize|
                k != index ==> final(self).has_bucket(k) == old(self).has_bucket(k)
                    && final(self).bucket_contents(k) == old(self).bucket_contents(k)),
    {
        match self.find_bucket(index) {
            None => {},
            Some(pos) => {
                proof {
                    self.lemma_bucket_contents_at(pos as int);
                }
                if self.buckets[pos].1.is_empty() {
                    let ghost mid = *self;
                    self.buckets.remove(pos);
                    proof {
                        let post = *self;
                        let p = pos as int;
                        let n = mid.buckets@.len() as int;
                        assert forall|j: int|
                            0 <= j < post.buckets@.len() implies #[trigger] post.buckets@[j] == (
                        if j < p {
                            mid.buckets@[j]
                        } else {
                            mid.buckets@[j + 1]
                        }) by {}
                        assert(post.wf()) by {
                            assert forall|j1: int, j2: int|
                                0 <= j1 < j2 < post.buckets@.len() implies (
                            #[trigger] post.buckets@[j1]).0 != (#[trigger] post.buckets@[j2]).0 by {
                                let p1 = if j1 < p {
                                    j1
                                } else {
                                    j1 + 1
                                };
                                let p2 = if j2 < p {
                                    j2
                                } else {
                                    j2 + 1
                                };
                                assert(post.buckets@[j1] == mid.buckets@[p1]);
                                assert(post.buckets@[j2] == mid.buckets@[p2]);
                            }
                            assert forall|j: int|
                                0 <= j < post.buckets@.len() implies (
                            #[trigger] post.buckets@[j]).1.wf() && post.buckets@[j].1.bucket_size
                                == post.bucket_size && post.buckets@[j].0 != 0 by {
                                if j < p {
                                    assert(post.buckets@[j] == mid.buckets@[j]);
                                } else {
                                    assert(post.buckets@[j] == mid.buckets@[j + 1]);
                                }
                            }
                            assert forall|j: int, i: int|
                                0 <= j < post.buckets@.len() && 0 <= i
                                    < post.buckets@[j].1.contacts@.len() implies distance(
                                post.localhost,
                                #[trigger] post.buckets@[j].1.contacts@[i],
                            ) == post.buckets@[j].0 as nat by {
                                if j < p {
                                    assert(post.buckets@[j] == mid.buckets@[j]);
                                } else {
                                    assert(post.buckets@[j] == mid.buckets@[j + 1]);
                                }
                            }
                        }
                        assert(!post.has_bucket(index)) by {
                            if post.has_bucket(index) {
                                let q = choose|q: int|
                                    0 <= q < post.buckets@.len() && (#[trigger] post.buckets@[q]).0
                                        == index;
                                let pq = if q < p {
                                    q
                                } else {
                                    q + 1
                                };
                                assert(mid.buckets@[pq].0 == index);
                                if pq != p {
                                    if pq < p {
                                        assert(mid.buckets@[pq].0 != mid.buckets@[p].0);
                                    } else {
                                        assert(mid.buckets@[p].0 != mid.buckets@[pq].0);
                                    }
                                }
                                assert(false);
                            }
                        }
                        assert forall|k: usize|
                            k != index implies post.has_bucket(k) == mid.has_bucket(k)
                            && post.bucket_contents(k) == mid.bucket_contents(k) by {
                            if mid.has_bucket(k) {
                                let q = choose|q: int|
                                    0 <= q < mid.buckets@.len() && (#[trigger] mid.buckets@[q]).0
                                        == k;
                                assert(q != p);
                                let pq = if q < p {
                                    q
                                } else {
                                    q - 1
                                };
                                assert(post.buckets@[pq] == mid.buckets@[q]);
                                Self::lemma_same_contents(post, mid, k);
                            } else {
                                assert(!post.has_bucket(k)) by {
                                    if post.has_bucket(k) {
                                        let q = choose|q: int|
                                            0 <= q < post.buckets@.len() && (
                                            #[trigger] post.buckets@[q]).0 == k;
                                        let pq = if q < p {
                                            q
                                        } else {
                                            q + 1
                                        };
                                        assert(mid.buckets@[pq].0 == k);
                                        assert(mid.has_bucket(k));
                                    }
                                }
                                Self::lemma_same_contents(post, mid, k);
                            }
                        }
                    }
                }
            },
        }
    }

    /// A contact at distance zero from the local node, or one whose
    /// distance class has no bucket, is not stored.
    proof fn lemma_not_stored_when_absent(self, c: Contact, index: usize)
        requires
            self.wf(),
            index as nat == distance(self.localhost, c),
        ensures
            index == 0 ==> !self.contains_contact(c),
            !self.has_bucket(index) ==> !self.contains_contact(c),
    {
        if self.contains_contact(c) {
            let (j, i) = choose|j: int, i: int|
                0 <= j < self.buckets@.len() && 0 <= i < self.buckets@[j].1.contacts@.len() && (
                #[trigger] self.buckets@[j].1.contacts@[i]) == c;
            assert(distance(self.localhost, c) == self.buckets@[j].0 as nat);
            assert(self.buckets@[j].0 == index);
            assert(self.has_bucket(index));
        }
    }
}

/// A contact whose identifier collides with the local node's — at distance
/// zero, like the local contact itself — is never stored in a well-formed
/// table, so no closest-contacts query ever considers it.
pub proof fn lemma_zero_distance_never_stored(t: RoutingTable, c: Contact)
    requires
        t.wf(),
        distance(t.localhost, c) == 0,
    ensures
        !t.contains_contact(c),
        forall|target: Contact| !(#[trigger] t.candidate_set(target)).contains(c),
{
    t.lemma_stored_properties();
    assert forall|target: Contact| !(#[trigger] t.candidate_set(target)).contains(c) by {
        t.lemma_candidates_sound(target);
        if t.candidate_set(target).contains(c) {
            assert(t.contains_contact(c));
        }
    }
}

/// The rank order of a query is strict and total: incomparable contacts
/// are one and the same.
pub proof fn lemma_rank_order_total(a: Contact, b: Contact, target: Contact)
    ensures
        !rank_lt(a, a, target),
        rank_lt(a, b, target) ==> !rank_lt(b, a, target),
        !rank_lt(a, b, target) && !rank_lt(b, a, target) ==> a == b,
{
    crate::contact::lemma_contact_order_total(a, b);
}

pub proof fn lemma_rank_order_trans(a: Contact, b: Contact, c: Contact, target: Contact)
    ensures
        rank_lt(a, b, target) && rank_lt(b, c, target) ==> rank_lt(a, c, target),
{
    crate::contact::lemma_contact_order_trans(a, b, c);
}

/// Between two rank-sorted sequences of equal length, if the members of
/// the second all lie inside the first, the second also holds every
/// member of the first.
proof fn lemma_members_pigeonhole(target: Contact, a: Seq<Contact>, b: Seq<Contact>, c: Contact)
    requires
        a.len() == b.len(),
        forall|q1: int, q2: int|
            0 <= q1 < q2 < a.len() ==> rank_lt(#[trigger] a[q1], #[trigger] a[q2], target),
        forall|q1: int, q2: int|
            0 <= q1 < q2 < b.len() ==> rank_lt(#[trigger] b[q1], #[trigger] b[q2], target),
        forall|w: int| 0 <= w < b.len() ==> a.contains(#[trigger] b[w]),
        a.contains(c),
    ensures
        b.contains(c),
{
    broadcast use vstd::seq_lib::seq_to_set_is_finite;

    assert forall|q1: int, q2: int|
        0 <= q1 < a.len() && 0 <= q2 < a.len() && q1 != q2 implies a[q1] != a[q2] by {
        let lo = if q1 < q2 {
            q1
        } else {
            q2
        };
        let hi = if q1 < q2 {
            q2
        } else {
            q1
        };
        assert(rank_lt(a[lo], a[hi], target));
        lemma_rank_order_total(a[lo], a[lo], target);
    }
    assert forall|q1: int, q2: int|
        0 <= q1 < b.len() && 0 <= q2 < b.len() && q1 != q2 implies b[q1] != b[q2] by {
        let lo = if q1 < q2 {
            q1
        } else {
            q2
        };
        let hi = if q1 < q2 {
            q2
        } else {
            q1
        };
        assert(rank_lt(b[lo], b[hi], target));
        lemma_rank_order_total(b[lo], b[lo], target);
    }
    assert(a.no_duplicates());
    assert(b.no_duplicates());
    a.unique_seq_to_set();
    b.unique_seq_to_set();
    assert(b.to_set().subset_of(a.to_set())) by {
        assert forall|x: Contact| b.to_set().contains(x) implies a.to_set().contains(x) by {
            assert(b.contains(x));
        }
    }
    if !b.contains(c) {
        b.to_set().lemma_subset_not_in_lt(a.to_set(), c);
        assert(false);
    }
}

proof fn lemma_sorted_same_members_equal(target: Contact, r1: Seq<Contact>, r2: Seq<Contact>)
    requires
        r1.len() == r2.len(),
        forall|q1: int, q2: int|
            0 <= q1 < q2 < r1.len() ==> rank_lt(#[trigger] r1[q1], #[trigger] r1[q2], target),
        forall|q1: int, q2: int|
            0 <= q1 < q2 < r2.len() ==> rank_lt(#[trigger] r2[q1], #[trigger] r2[q2], target),
        forall|c: Contact| r1.contains(c) <==> r2.contains(c),
    ensures
        r1 == r2,
    decreases r1.len(),
{
    if r1.len() > 0 {
        assert(r1.contains(r1[0])) by {
            assert(r1[0] == r1[0]);
        }
        assert(r2.contains(r2[0])) by {
            assert(r2[0] == r2[0]);
        }
        let q = choose|q: int| 0 <= q < r2.len() && r2[q] == r1[0];
        let p = choose|p: int| 0 <= p < r1.len() && r1[p] == r2[0];
        assert(r1[0] == r2[0]) by {
            if r1[0] != r2[0] {
                assert(q > 0 && p > 0);
                assert(rank_lt(r2[0], r2[q], target));
                assert(rank_lt(r1[0], r1[p], target));
                lemma_rank_order_total(r1[0], r2[0], target);
            }
        }
        let t1 = r1.drop_first();
        let t2 = r2.drop_first();
        assert forall|c: Contact| t1.contains(c) <==> t2.contains(c) by {
            if t1.contains(c) {
                let w = choose|w: int| 0 <= w < t1.len() && t1[w] == c;
                assert(r1[w + 1] == c);
                assert(r1.contains(c)) by {
                    assert(r1[w + 1] == c);
                }
                assert(c != r2[0]) by {
                    if c == r2[0] {
                        assert(rank_lt(r1[0], r1[w + 1], target));
                        lemma_rank_order_total(r1[0], c, target);
                    }
                }
                let w2 = choose|w2: int| 0 <= w2 < r2.len() && r2[w2] == c;
                assert(w2 > 0);
                assert(t2[w2 - 1] == c);
            }
            if t2.contains(c) {
                let w = choose|w: int| 0 <= w < t2.len() && t2[w] == c;
                assert(r2[w + 1] == c);
                assert(r2.contains(c)) by {
                    assert(r2[w + 1] == c);
                }
                assert(c != r1[0]) by {
                    if c == r1[0] {
                        assert(rank_lt(r2[0], r2[w + 1], target));
                        lemma_rank_order_total(r2[0], c, target);
                    }
                }
                let w2 = choose|w2: int| 0 <= w2 < r1.len() && r1[w2] == c;
                assert(w2 > 0);
                assert(t1[w2 - 1] == c);
            }
        }
        assert forall|q1: int, q2: int|
            0 <= q1 < q2 < t1.len() implies rank_lt(#[trigger] t1[q1], #[trigger] t1[q2], target) by {
            assert(t1[q1] == r1[q1 + 1]);
            assert(t1[q2] == r1[q2 + 1]);
        }
        assert forall|q1: int, q2: int|
            0 <= q1 < q2 < t2.len() implies rank_lt(#[trigger] t2[q1], #[trigger] t2[q2], target) by {
            assert(t2[q1] == r2[q1 + 1]);
            assert(t2[q2] == r2[q2 + 1]);
        }
        lemma_sorted_same_members_equal(target, t1, t2);
        assert forall|w: int| 0 <= w < r1.len() implies r1[w] == r2[w] by {
            if w > 0 {
                assert(t1[w - 1] == r1[w]);
                assert(t2[w - 1] == r2[w]);
            }
        }
        assert(r1 =~= r2);
    } else {
        assert(r1 =~= r2);
    }
}

/// The closest-contacts answer is pinned down: any two sequences that are
/// sorted by rank, drawn from the query's candidates, of the answer's
/// length, and minimal — every candidate left out ranks after everything
/// kept — are one and the same sequence. Repeated queries of an unchanged
/// table therefore return identical sequences.
pub proof fn lemma_closest_contacts_deterministic(
    t: RoutingTable,
    target: Contact,
    r1: Seq<Contact>,
    r2: Seq<Contact>,
)
    requires
        r1.len() == r2.len(),
        forall|q: int| 0 <= q < r1.len() ==> t.candidate_set(target).contains(#[trigger] r1[q]),
        forall|q: int| 0 <= q < r2.len() ==> t.candidate_set(target).contains(#[trigger] r2[q]),
        forall|q1: int, q2: int|
            0 <= q1 < q2 < r1.len() ==> rank_lt(#[trigger] r1[q1], #[trigger] r1[q2], target),
        forall|q1: int, q2: int|
            0 <= q1 < q2 < r2.len() ==> rank_lt(#[trigger] r2[q1], #[trigger] r2[q2], target),
        forall|c: Contact|
            #[trigger] t.candidate_set(target).contains(c) && !r1.contains(c) ==> (forall|q: int|
                0 <= q < r1.len() ==> rank_lt(#[trigger] r1[q], c, target)),
        forall|c: Contact|
            #[trigger] t.candidate_set(target).contains(c) && !r2.contains(c) ==> (forall|q: int|
                0 <= q < r2.len() ==> rank_lt(#[trigger] r2[q], c, target)),
    ensures
        r1 == r2,
{
    assert forall|c: Contact| r1.contains(c) <==> r2.contains(c) by {
        if r1.contains(c) && !r2.contains(c) {
            let q = choose|q: int| 0 <= q < r1.len() && r1[q] == c;
            assert(t.candidate_set(target).contains(c));
            // everything in r2 ranks before c; some member of r2 is not in
            // r1, and everything in r1 ranks before that member
            if forall|w: int| 0 <= w < r2.len() ==> r1.contains(#[trigger] r2[w]) {
                lemma_members_pigeonhole(target, r1, r2, c);
            } else {
                let w = choose|w: int| 0 <= w < r2.len() && !r1.contains(#[trigger] r2[w]);
                assert(t.candidate_set(target).contains(r2[w]));
                assert(rank_lt(r1[q], r2[w], target));
                assert(rank_lt(r2[w], c, target)) by {
                    assert(r2[w] != c) by {
                        if r2[w] == c {
                            assert(r2.contains(c)) by {
                                assert(r2[w] == c);
                            }
                        }
                    }
                    assert(rank_lt(r2[w], r1[q], target));
                }
                lemma_rank_order_total(r1[q], r2[w], target);
            }
        }
        if r2.contains(c) && !r1.contains(c) {
            let q = choose|q: int| 0 <= q < r2.len() && r2[q] == c;
            assert(t.candidate_set(target).contains(c));
            if forall|w: int| 0 <= w < r1.len() ==> r2.contains(#[trigger] r1[w]) {
                lemma_members_pigeonhole(target, r2, r1, c);
            } else {
                let w = choose|w: int| 0 <= w < r1.len() && !r2.contains(#[trigger] r1[w]);
                assert(t.candidate_set(target).contains(r1[w]));
                assert(rank_lt(r2[q], r1[w], target));
                assert(rank_lt(r1[w], c, target)) by {
                    assert(r1[w] != c) by {
                        if r1[w] == c {
                            assert(r1.contains(c)) by {
                                assert(r1[w] == c);
                            }
                        }
                    }
                    assert(rank_lt(r1[w], r2[q], target));
                }
                lemma_rank_order_total(r2[q], r1[w], target);
            }
        }
    }
    lemma_sorted_same_members_equal(target, r1, r2);
}

} // verus!
