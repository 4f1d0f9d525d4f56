//! The routing table: peers grouped into buckets by the length of the prefix
//! they share with the local identifier.

use vstd::prelude::*;
use crate::id::{
    Id, ID_BITS, xor_bytes, zero_prefix_bits, lex_lt, lemma_full_width_iff_equal,
    lemma_xor_injective, lemma_xor_symmetric_and_self_inverse, lemma_lex_lt_total,
    lemma_lex_lt_transitive, lemma_bytes_eq,
};

verus! {

/// A stored peer: its identifier and the caller's contact payload.
#[derive(Debug, Clone)]
pub struct Entry<C> {
    pub id: Id,
    pub contact: C,
}

/// A bounded list of entries, kept in insertion order.
#[derive(Debug, Clone)]
pub struct Bucket<C> {
    entries: Vec<Entry<C>>,
}

/// The failure of an insertion.
#[derive(Debug, Clone, Copy, PartialEq, Eq, Structural)]
pub enum InsertError {
    /// The identifier is the table's own.
    SelfInsertion,
}

/// Peers indexed by XOR distance from a local identifier.
#[derive(Debug, Clone)]
pub struct RoutingTable<C> {
    self_id: Id,
    buckets: Vec<Bucket<C>>,
    nodes_per_bucket: usize,
}

/// The bucket that holds `id` in a table around `local`: 159 minus the
/// number of leading bits the two share.
pub open spec fn bucket_index(local: Id, id: Id) -> int {
    ID_BITS - 1 - zero_prefix_bits(xor_bytes(local.bytes(), id.bytes()))
}

/// The number of entries over all buckets.
pub open spec fn total_entries<C>(buckets: Seq<Seq<Entry<C>>>) -> nat
    decreases buckets.len(),
{
    if buckets.len() == 0 {
        0
    } else {
        total_entries(buckets.drop_last()) + buckets.last().len()
    }
}

/// `x` is the (distance, contact) pair of entry `e` relative to `target`.
pub open spec fn is_item_of<C>(x: (Id, &C), e: Entry<C>, target: Id) -> bool {
    x.0.bytes() == xor_bytes(e.id.bytes(), target.bytes()) && *x.1 == e.contact
}

/// Some item of `s` is that of entry `e`.
pub open spec fn has_item<C>(s: Seq<(Id, &C)>, e: Entry<C>, target: Id) -> bool {
    exists|k: int| 0 <= k < s.len() && #[trigger] is_item_of(s[k], e, target)
}

/// Some pair of `r` carries the identifier and contact of entry `e`.
pub open spec fn lists<C>(r: Seq<(Id, &C)>, e: Entry<C>) -> bool {
    exists|k: int| 0 <= k < r.len() && (#[trigger] r[k]).0 == e.id && *r[k].1 == e.contact
}

/// Pairs ordered strictly by the byte order of their first component.
pub open spec fn sorted_by_key<C>(s: Seq<(Id, &C)>) -> bool {
    forall|k1: int, k2: int|
        0 <= k1 < k2 < s.len() ==> lex_lt(#[trigger] s[k1].0.bytes(), #[trigger] s[k2].0.bytes())
}

/// Inserts `x` into a list sorted by key at the place its key selects.
fn insert_by_key<'a, C>(v: &mut Vec<(Id, &'a C)>, x: (Id, &'a C)) -> (p: usize)
    requires
        sorted_by_key(old(v)@),
        forall|k: int| 0 <= k < old(v)@.len() ==> (#[trigger] old(v)@[k]).0.bytes() != x.0.bytes(),
    ensures
        p <= old(v)@.len(),
        final(v)@ == old(v)@.insert(p as int, x),
        sorted_by_key(final(v)@),
{
    let mut p: usize = 0;
    while p < v.len() && v[p].0.less_than(&x.0)
        invariant
            p <= v@.len(),
            forall|k: int| 0 <= k < p ==> lex_lt((#[trigger] v@[k]).0.bytes(), x.0.bytes()),
        decreases v@.len() - p,
    {
        p = p + 1;
    }
    proof {
        if p < v@.len() {
            lemma_lex_lt_total(v@[p as int].0.bytes(), x.0.bytes());
            assert forall|k: int| p <= k < v@.len() implies lex_lt(
                x.0.bytes(),
                (#[trigger] v@[k]).0.bytes(),
            ) by {
                if k > p {
                    lemma_lex_lt_transitive(
                        x.0.bytes(),
                        v@[p as int].0.bytes(),
                        v@[k].0.bytes(),
                    );
                }
            }
        }
    }
    let ghost before = v@;
    v.insert(p, x);
    proof {
        assert forall|k1: int, k2: int| 0 <= k1 < k2 < v@.len() implies lex_lt(
            #[trigger] v@[k1].0.bytes(),
            #[trigger] v@[k2].0.bytes(),
        ) by {
            if k2 < p {
                assert(v@[k1] == before[k1] && v@[k2] == before[k2]);
            } else if k2 == p {
                assert(v@[k1] == before[k1]);
            } else if k1 < p {
                lemma_lex_lt_transitive(
                    before[k1].0.bytes(),
                    x.0.bytes(),
                    before[k2 - 1].0.bytes(),
                );
            } else if k1 == p {
                assert(v@[k2] == before[k2 - 1]);
            } else {
                assert(v@[k1] == before[k1 - 1] && v@[k2] == before[k2 - 1]);
            }
        }
    }
    p
}

impl<C> View for Bucket<C> {
    type V = Seq<Entry<C>>;

    closed spec fn view(&self) -> Seq<Entry<C>> {
        self.entries@
    }
}

impl<C> Bucket<C> {
    /// The entries as (distance to `target`, contact) pairs, in bucket order.
    pub fn to_heap_items(&self, target: Id) -> (r: Vec<(Id, &C)>)
        ensures
            r@.len() == self@.len(),
            forall|j: int| 0 <= j < self@.len() ==> is_item_of(#[trigger] r@[j], self@[j], target),
    {
        let mut r: Vec<(Id, &C)> = Vec::new();
        let mut j: usize = 0;
        while j < self.entries.len()
            invariant
                j <= self@.len(),
                r@.len() == j,
                forall|k: int| 0 <= k < j ==> is_item_of(#[trigger] r@[k], self@[k], target),
            decreases self@.len() - j,
        {
            let e = &self.entries[j];
            r.push((e.id.xor(target), &e.contact));
            j = j + 1;
        }
        r
    }

    /// The position of `id` in the bucket, if it is there.
    fn position(&self, id: Id) -> (r: Option<usize>)
        ensures
            r matches Some(j) ==> j < self@.len() && self@[j as int].id == id,
            r is None ==> forall|j: int| 0 <= j < self@.len() ==> self@[j].id != id,
    {
        let mut j: usize = 0;
        while j < self.entries.len()
            invariant
                j <= self@.len(),
                forall|k: int| 0 <= k < j ==> self@[k].id != id,
            decreases self@.len() - j,
        {
            proof {
                lemma_bytes_eq(self@[j as int].id, id);
            }
            if self.entries[j].id == id {
                return Some(j);
            }
            j = j + 1;
        }
        None
    }

    /// Replaces the contact at position `j`, returning the one it held.
    fn replace_contact(&mut self, j: usize, contact: C) -> (r: C)
        requires
            j < old(self)@.len(),
        ensures
            r == old(self)@[j as int].contact,
            final(self)@ == old(self)@.update(
                j as int,
                Entry { id: old(self)@[j as int].id, contact },
            ),
    {
        let old_entry = self.entries.remove(j);
        self.entries.insert(j, Entry { id: old_entry.id, contact });
        proof {
            assert(self@ =~= old(self)@.update(
                j as int,
                Entry { id: old(self)@[j as int].id, contact },
            ));
        }
        old_entry.contact
    }

    fn push(&mut self, entry: Entry<C>)
        ensures
            final(self)@ == old(self)@.push(entry),
    {
        self.entries.push(entry);
    }

    fn len(&self) -> (r: usize)
        ensures
            r == self@.len(),
    {
        self.entries.len()
    }
}

impl<C> View for RoutingTable<C> {
    type V = Seq<Seq<Entry<C>>>;

    closed spec fn view(&self) -> Seq<Seq<Entry<C>>> {
        self.buckets@.map_values(|b: Bucket<C>| b@)
    }
}

impl<C> RoutingTable<C> {
    /// The identifier the table is built around.
    pub closed spec fn local_id(&self) -> Id {
        self.self_id
    }

    /// The most entries a bucket may hold.
    pub closed spec fn capacity(&self) -> nat {
        self.nodes_per_bucket as nat
    }

    /// The table's invariant: one bucket per bit, each within capacity, each
    /// entry in the bucket its distance to the local identifier selects, and
    /// no identifier twice in a bucket.
    pub open spec fn wf(&self) -> bool {
        &&& self@.len() == ID_BITS
        &&& self.capacity() * ID_BITS <= usize::MAX
        &&& forall|i: int| 0 <= i < self@.len() ==> #[trigger] self@[i].len() <= self.capacity()
        &&& forall|i: int, j: int|
            0 <= i < self@.len() && 0 <= j < self@[i].len() ==> self@[i][j].id != self.local_id()
                && bucket_index(self.local_id(), #[trigger] self@[i][j].id) == i
        &&& forall|i: int, j1: int, j2: int|
            0 <= i < self@.len() && 0 <= j1 < j2 < self@[i].len() ==> #[trigger] self@[i][j1].id
                != #[trigger] self@[i][j2].id
    }

    /// The table holds an entry with this identifier and contact.
    pub open spec fn stores(&self, id: Id, contact: C) -> bool {
        exists|i: int, j: int|
            0 <= i < self@.len() && 0 <= j < self@[i].len() && #[trigger] self@[i][j] == Entry {
                id,
                contact,
            }
    }

    /// Some entry of the table has this identifier.
    pub open spec fn contains_id(&self, id: Id) -> bool {
        exists|i: int, j: int|
            0 <= i < self@.len() && 0 <= j < self@[i].len() && #[trigger] self@[i][j].id == id
    }

    /// What an insertion of `(id, contact)` into `old` does: the self
    /// identifier is refused; a known identifier has its contact replaced and
    /// the previous one returned; a new identifier is appended to its bucket
    /// when there is room and dropped otherwise.
    pub open spec fn insert_outcome(
        old: Self,
        id: Id,
        contact: C,
        new: Self,
        r: Result<Option<C>, InsertError>,
    ) -> bool {
        let b = bucket_index(old.local_id(), id);
        &&& new.local_id() == old.local_id()
        &&& new.capacity() == old.capacity()
        &&& id == old.local_id() ==> r == Err::<Option<C>, InsertError>(InsertError::SelfInsertion)
            && new@ == old@
        &&& id != old.local_id() ==> 0 <= b < ID_BITS
        &&& forall|j: int|
            id != old.local_id() && 0 <= j < old@[b].len() && #[trigger] old@[b][j].id == id
                ==> r == Ok::<Option<C>, InsertError>(Some(old@[b][j].contact)) && new@ == old@.update(
                b,
                old@[b].update(j, Entry { id, contact }),
            )
        &&& id != old.local_id() && (forall|j: int| 0 <= j < old@[b].len() ==> old@[b][j].id != id)
            ==> r == Ok::<Option<C>, InsertError>(None) && (if old@[b].len() < old.capacity() {
            new@ == old@.update(b, old@[b].push(Entry { id, contact }))
        } else {
            new@ == old@
        })
    }

    /// An empty table around `self_id` whose buckets hold at most
    /// `nodes_per_bucket` entries each.
    pub fn new(self_id: Id, nodes_per_bucket: usize) -> (r: Self)
        requires
            nodes_per_bucket * ID_BITS <= usize::MAX,
        ensures
            r.wf(),
            r.local_id() == self_id,
            r.capacity() == nodes_per_bucket,
            forall|i: int| 0 <= i < ID_BITS ==> #[trigger] r@[i].len() == 0,
    {
        let mut buckets: Vec<Bucket<C>> = Vec::new();
        let mut i: usize = 0;
        while i < ID_BITS
            invariant
                i <= ID_BITS,
                buckets@.len() == i,
                forall|k: int| 0 <= k < i ==> (#[trigger] buckets@[k])@.len() == 0,
            decreases ID_BITS - i,
        {
            buckets.push(Bucket { entries: Vec::new() });
            i = i + 1;
        }
        RoutingTable { self_id, buckets, nodes_per_bucket }
    }

    /// Stores `contact` under `id`; see `insert_outcome` for the result.
    pub fn insert(&mut self, id: Id, contact: C) -> (r: Result<Option<C>, InsertError>)
        requires
            old(self).wf(),
        ensures
            final(self).wf(),
            Self::insert_outcome(*old(self), id, contact, *final(self), r),
    {
        let distance = self.self_id.xor(id);
        let matched_bits = distance.leading_zeros() as usize;
        proof {
            lemma_full_width_iff_equal(self.self_id, id);
        }
        if matched_bits == ID_BITS {
            return Err(InsertError::SelfInsertion);
        }
        let idx: usize = ID_BITS - matched_bits - 1;
        let ghost b = idx as int;
        match self.buckets[idx].position(id) {
            Some(j) => {
                let previous = self.buckets[idx].replace_contact(j, contact);
                proof {
                    assert(self@ =~= old(self)@.update(
                        b,
                        old(self)@[b].update(j as int, Entry { id, contact }),
                    ));
                    assert forall|k: int|
                        0 <= k < old(self)@[b].len() && #[trigger] old(self)@[b][k].id
                            == id implies k == j by {
                        if k != j {
                            assert(old(self)@[b][k].id != old(self)@[b][j as int].id);
                        }
                    }
                }
                Ok(Some(previous))
            },
            None => {
                if self.buckets[idx].len() < self.nodes_per_bucket {
                    self.buckets[idx].push(Entry { id, contact });
                    proof {
                        assert(self@ =~= old(self)@.update(
                            b,
                            old(self)@[b].push(Entry { id, contact }),
                        ));
                    }
                } else {
                    proof {
                        assert(self@ =~= old(self)@);
                    }
                }
                Ok(None)
            },
        }
    }

    /// Entries at two different places of a well-formed table have
    /// different identifiers.
    proof fn lemma_distinct_places(&self, a: int, b: int, i: int, j: int)
        requires
            self.wf(),
            0 <= a < self@.len(),
            0 <= b < self@[a].len(),
            0 <= i < self@.len(),
            0 <= j < self@[i].len(),
            a != i || b != j,
        ensures
            self@[a][b].id != self@[i][j].id,
    {
        if a == i {
            if b < j {
                assert(self@[a][b].id != self@[a][j].id);
            } else {
                assert(self@[a][j].id != self@[a][b].id);
            }
        } else {
            assert(bucket_index(self.local_id(), self@[a][b].id) == a);
            assert(bucket_index(self.local_id(), self@[i][j].id) == i);
        }
    }

    /// `(a, b)` is a place in the table that holds an entry.
    pub open spec fn placed(&self, a: int, b: int) -> bool {
        0 <= a < self@.len() && 0 <= b < self@[a].len()
    }

    /// `x` is the item of an entry placed before `(i, j)`, reading bucket by
    /// bucket.
    pub open spec fn item_before(&self, x: (Id, &C), target: Id, i: int, j: int) -> bool {
        exists|a: int, b: int|
            self.placed(a, b) && (a < i || (a == i && b < j)) && #[trigger] is_item_of(
                x,
                self@[a][b],
                target,
            )
    }

    /// `s` holds the items of exactly the entries placed before `(i, j)`.
    spec fn covers(&self, s: Seq<(Id, &C)>, target: Id, i: int, j: int) -> bool {
        &&& forall|k: int| 0 <= k < s.len() ==> self.item_before(#[trigger] s[k], target, i, j)
        &&& forall|a: int, b: int|
            self.placed(a, b) && (a < i || (a == i && b < j)) ==> has_item(
                s,
                #[trigger] self@[a][b],
                target,
            )
    }

    proof fn lemma_covers_insert(
        &self,
        s: Seq<(Id, &C)>,
        target: Id,
        i: int,
        j: int,
        p: int,
        x: (Id, &C),
    )
        requires
            self.covers(s, target, i, j),
            self.placed(i, j),
            is_item_of(x, self@[i][j], target),
            0 <= p <= s.len(),
        ensures
            self.covers(s.insert(p, x), target, i, j + 1),
    {
        let n = s.insert(p, x);
        assert forall|k: int| 0 <= k < n.len() implies self.item_before(
            #[trigger] n[k],
            target,
            i,
            j + 1,
        ) by {
            if k == p {
                assert(is_item_of(n[k], self@[i][j], target));
            } else {
                let kk = if k < p {
                    k
                } else {
                    k - 1
                };
                assert(n[k] == s[kk]);
                assert(self.item_before(s[kk], target, i, j));
                let (a, b) = choose|a: int, b: int|
                    self.placed(a, b) && (a < i || (a == i && b < j)) && #[trigger] is_item_of(
                        s[kk],
                        self@[a][b],
                        target,
                    );
                assert(is_item_of(n[k], self@[a][b], target));
            }
        }
        assert forall|a: int, b: int|
            self.placed(a, b) && (a < i || (a == i && b < j + 1)) implies has_item(
            n,
            #[trigger] self@[a][b],
            target,
        ) by {
            if a == i && b == j {
                assert(is_item_of(n[p], self@[a][b], target));
            } else {
                assert(has_item(s, self@[a][b], target));
                let kk = choose|k: int|
                    0 <= k < s.len() && #[trigger] is_item_of(s[k], self@[a][b], target);
                if kk < p {
                    assert(n[kk] == s[kk]);
                    assert(is_item_of(n[kk], self@[a][b], target));
                } else {
                    assert(n[kk + 1] == s[kk]);
                    assert(is_item_of(n[kk + 1], self@[a][b], target));
                }
            }
        }
    }

    proof fn lemma_covers_next_bucket(&self, s: Seq<(Id, &C)>, target: Id, i: int)
        requires
            0 <= i < self@.len(),
            self.covers(s, target, i, self@[i].len() as int),
        ensures
            self.covers(s, target, i + 1, 0),
    {
        assert forall|k: int| 0 <= k < s.len() implies self.item_before(
            #[trigger] s[k],
            target,
            i + 1,
            0,
        ) by {
            assert(self.item_before(s[k], target, i, self@[i].len() as int));
            let (a, b) = choose|a: int, b: int|
                self.placed(a, b) && (a < i || (a == i && b < self@[i].len())) && #[trigger] is_item_of(
                    s[k],
                    self@[a][b],
                    target,
                );
            assert(is_item_of(s[k], self@[a][b], target));
        }
        assert forall|a: int, b: int|
            self.placed(a, b) && (a < i + 1 || (a == i + 1 && b < 0)) implies has_item(
            s,
            #[trigger] self@[a][b],
            target,
        ) by {
            assert(self.placed(a, b) && (a < i || (a == i && b < self@[i].len())));
        }
    }

    proof fn lemma_new_key(&self, s: Seq<(Id, &C)>, target: Id, i: int, j: int, x: (Id, &C))
        requires
            self.wf(),
            self.covers(s, target, i, j),
            self.placed(i, j),
            is_item_of(x, self@[i][j], target),
        ensures
            forall|k: int| 0 <= k < s.len() ==> (#[trigger] s[k]).0.bytes() != x.0.bytes(),
    {
        assert forall|k: int| 0 <= k < s.len() implies (#[trigger] s[k]).0.bytes()
            != x.0.bytes() by {
            assert(self.item_before(s[k], target, i, j));
            let (a, b) = choose|a: int, b: int|
                self.placed(a, b) && (a < i || (a == i && b < j)) && #[trigger] is_item_of(
                    s[k],
                    self@[a][b],
                    target,
                );
            self.lemma_distinct_places(a, b, i, j);
            lemma_xor_injective(self@[a][b].id, self@[i][j].id, target);
        }
    }

    /// Every entry as a (distance to `target`, contact) pair, nearest first.
    fn sorted_items(&self, target: Id) -> (r: Vec<(Id, &C)>)
        requires
            self.wf(),
        ensures
            sorted_by_key(r@),
            self.covers(r@, target, ID_BITS as int, 0),
    {
        let mut sorted: Vec<(Id, &C)> = Vec::new();
        let mut i: usize = 0;
        while i < ID_BITS
            invariant
                self.wf(),
                i <= ID_BITS,
                sorted_by_key(sorted@),
                self.covers(sorted@, target, i as int, 0),
            decreases ID_BITS - i,
        {
            let items = self.buckets[i].to_heap_items(target);
            assert(self@[i as int] == self.buckets@[i as int]@);
            let mut j: usize = 0;
            while j < items.len()
                invariant
                    self.wf(),
                    i < ID_BITS,
                    j <= items@.len(),
                    items@.len() == self@[i as int].len(),
                    forall|b: int|
                        0 <= b < self@[i as int].len() ==> is_item_of(
                            #[trigger] items@[b],
                            self@[i as int][b],
                            target,
                        ),
                    sorted_by_key(sorted@),
                    self.covers(sorted@, target, i as int, j as int),
                decreases items@.len() - j,
            {
                let x = items[j];
                proof {
                    self.lemma_new_key(sorted@, target, i as int, j as int, x);
                }
                let ghost before = sorted@;
                let p = insert_by_key(&mut sorted, x);
                proof {
                    self.lemma_covers_insert(before, target, i as int, j as int, p as int, x);
                }
                j = j + 1;
            }
            proof {
                self.lemma_covers_next_bucket(sorted@, target, i as int);
            }
            i = i + 1;
        }
        sorted
    }

    /// Every stored entry as an (identifier, contact) pair, strictly nearest
    /// to `target` first. The result is a snapshot: it borrows the table.
    pub fn closest(&self, target: Id) -> (r: Vec<(Id, &C)>)
        requires
            self.wf(),
        ensures
            forall|k1: int, k2: int|
                0 <= k1 < k2 < r@.len() ==> lex_lt(
                    xor_bytes((#[trigger] r@[k1]).0.bytes(), target.bytes()),
                    xor_bytes((#[trigger] r@[k2]).0.bytes(), target.bytes()),
                ),
            forall|k: int| 0 <= k < r@.len() ==> self.stores((#[trigger] r@[k]).0, *r@[k].1),
            forall|i: int, j: int| self.placed(i, j) ==> lists(r@, #[trigger] self@[i][j]),
    {
        let sorted = self.sorted_items(target);
        let mut r: Vec<(Id, &C)> = Vec::new();
        let mut k: usize = 0;
        while k < sorted.len()
            invariant
                k <= sorted@.len(),
                r@.len() == k,
                forall|m: int|
                    0 <= m < k ==> (#[trigger] r@[m]).0.bytes() == xor_bytes(
                        sorted@[m].0.bytes(),
                        target.bytes(),
                    ) && r@[m].1 == sorted@[m].1,
            decreases sorted@.len() - k,
        {
            let (d, c) = sorted[k];
            r.push((d.xor(target), c));
            k = k + 1;
        }
        proof {
            assert forall|m: int| 0 <= m < r@.len() implies xor_bytes(
                (#[trigger] r@[m]).0.bytes(),
                target.bytes(),
            ) == sorted@[m].0.bytes() && self.stores(r@[m].0, *r@[m].1) by {
                assert(self.item_before(sorted@[m], target, ID_BITS as int, 0));
                let (a, b) = choose|a: int, b: int|
                    self.placed(a, b) && (a < ID_BITS || (a == ID_BITS && b < 0))
                        && #[trigger] is_item_of(sorted@[m], self@[a][b], target);
                let e = self@[a][b];
                lemma_xor_symmetric_and_self_inverse(e.id, target);
                lemma_bytes_eq(r@[m].0, e.id);
                lemma_xor_symmetric_and_self_inverse(r@[m].0, target);
                assert(self@[a][b] == Entry { id: r@[m].0, contact: *r@[m].1 });
            }
            assert forall|i: int, j: int| self.placed(i, j) implies lists(
                r@,
                #[trigger] self@[i][j],
            ) by {
                assert(has_item(sorted@, self@[i][j], target));
                let m = choose|m: int|
                    0 <= m < sorted@.len() && #[trigger] is_item_of(
                        sorted@[m],
                        self@[i][j],
                        target,
                    );
                let e = self@[i][j];
                lemma_xor_symmetric_and_self_inverse(e.id, target);
                lemma_bytes_eq(r@[m].0, e.id);
                assert(r@[m].0 == e.id && *r@[m].1 == e.contact);
            }
        }
        r
    }

    /// The number of entries over all buckets.
    pub fn len(&self) -> (r: usize)
        requires
            self.wf(),
        ensures
            r == total_entries(self@),
    {
        let mut sum: usize = 0;
        let mut i: usize = 0;
        while i < ID_BITS
            invariant
                self.wf(),
                i <= ID_BITS,
                sum == total_entries(self@.subrange(0, i as int)),
                sum <= i * self.capacity(),
            decreases ID_BITS - i,
        {
            proof {
                assert(self@.subrange(0, i + 1).drop_last() =~= self@.subrange(0, i as int));
                assert(self@[i as int].len() <= self.capacity());
                assert((i + 1) * self.capacity() == i * self.capacity() + self.capacity())
                    by (nonlinear_arith);
                assert((i + 1) * self.capacity() <= ID_BITS * self.capacity())
                    by (nonlinear_arith)
                    requires
                        i + 1 <= ID_BITS,
                ;
            }
            sum = sum + self.buckets[i].len();
            i = i + 1;
        }
        assert(self@.subrange(0, ID_BITS as int) =~= self@);
        sum
    }
}

proof fn lemma_total_bound<C>(s: Seq<Seq<Entry<C>>>, cap: nat)
    requires
        forall|i: int| 0 <= i < s.len() ==> #[trigger] s[i].len() <= cap,
    ensures
        total_entries(s) <= s.len() * cap,
    decreases s.len(),
{
    if s.len() > 0 {
        lemma_total_bound(s.drop_last(), cap);
        assert(s.len() * cap == (s.len() - 1) * cap + cap) by (nonlinear_arith);
    }
}

proof fn lemma_total_update_same_len<C>(s: Seq<Seq<Entry<C>>>, b: int, x: Seq<Entry<C>>)
    requires
        0 <= b < s.len(),
        x.len() == s[b].len(),
    ensures
        total_entries(s.update(b, x)) == total_entries(s),
    decreases s.len(),
{
    let u = s.update(b, x);
    if b < s.len() - 1 {
        assert(u.drop_last() =~= s.drop_last().update(b, x));
        lemma_total_update_same_len(s.drop_last(), b, x);
    } else {
        assert(u.drop_last() =~= s.drop_last());
    }
}

/// A well-formed table never holds more than a full bucket for every bit.
pub proof fn lemma_size_bound<C>(t: RoutingTable<C>)
    requires
        t.wf(),
    ensures
        total_entries(t@) <= ID_BITS * t.capacity(),
{
    lemma_total_bound(t@, t.capacity());
}

/// Inserting one identifier twice: when the first insertion stores it, the
/// second hands back the first contact and leaves the entry count unchanged.
pub proof fn lemma_insert_twice<C>(
    t0: RoutingTable<C>,
    t1: RoutingTable<C>,
    t2: RoutingTable<C>,
    id: Id,
    c1: C,
    c2: C,
    r1: Result<Option<C>, InsertError>,
    r2: Result<Option<C>, InsertError>,
)
    requires
        t0.wf(),
        RoutingTable::insert_outcome(t0, id, c1, t1, r1),
        RoutingTable::insert_outcome(t1, id, c2, t2, r2),
        id != t0.local_id(),
        t0.contains_id(id) || t0@[bucket_index(t0.local_id(), id)].len() < t0.capacity(),
    ensures
        r2 == Ok::<Option<C>, InsertError>(Some(c1)),
        total_entries(t2@) == total_entries(t1@),
{
    let b = bucket_index(t0.local_id(), id);
    let j = if exists|j: int| 0 <= j < t0@[b].len() && #[trigger] t0@[b][j].id == id {
        choose|j: int| 0 <= j < t0@[b].len() && #[trigger] t0@[b][j].id == id
    } else {
        if t0.contains_id(id) {
            let (i, k) = choose|i: int, k: int|
                0 <= i < t0@.len() && 0 <= k < t0@[i].len() && #[trigger] t0@[i][k].id == id;
            assert(t0@[i][k].id == id);
        }
        t0@[b].len() as int
    };
    assert(t1@[b][j] == Entry { id, contact: c1 });
    assert(t1@[b][j].id == id);
    lemma_total_update_same_len(t1@, b, t1@[b].update(j, Entry { id, contact: c2 }));
}

/// A run of insertions: `ts[k + 1]` is `ts[k]` after inserting
/// `(ids[k], cs[k])`, which returned `rs[k]`.
pub open spec fn insertion_run<C>(
    ts: Seq<RoutingTable<C>>,
    ids: Seq<Id>,
    cs: Seq<C>,
    rs: Seq<Result<Option<C>, InsertError>>,
) -> bool {
    &&& ts.len() == ids.len() + 1
    &&& cs.len() == ids.len()
    &&& rs.len() == ids.len()
    &&& forall|k: int| 0 <= k < ts.len() ==> (#[trigger] ts[k]).wf()
    &&& forall|k: int|
        0 <= k < ids.len() ==> #[trigger] RoutingTable::insert_outcome(
            ts[k],
            ids[k],
            cs[k],
            ts[k + 1],
            rs[k],
        )
}

/// How many of the new identifiers fit in a bucket of `held` entries.
pub open spec fn room_for<C>(t: RoutingTable<C>, held: int, n: int) -> int {
    if n < t.capacity() - held {
        n
    } else {
        t.capacity() - held
    }
}

proof fn lemma_fill_prefix<C>(
    ts: Seq<RoutingTable<C>>,
    ids: Seq<Id>,
    cs: Seq<C>,
    rs: Seq<Result<Option<C>, InsertError>>,
    b: int,
    n: int,
)
    requires
        insertion_run(ts, ids, cs, rs),
        forall|k: int|
            0 <= k < ids.len() ==> #[trigger] ids[k] != ts[0].local_id() && bucket_index(
                ts[0].local_id(),
                ids[k],
            ) == b,
        forall|k1: int, k2: int| 0 <= k1 < k2 < ids.len() ==> ids[k1] != ids[k2],
        forall|j: int, k: int|
            0 <= j < ts[0]@[b].len() && 0 <= k < ids.len() ==> #[trigger] ts[0]@[b][j].id
                != #[trigger] ids[k],
        0 <= b < ID_BITS,
        0 <= n <= ids.len(),
    ensures
        ts[n].local_id() == ts[0].local_id(),
        ts[n].capacity() == ts[0].capacity(),
        ts[n]@[b].len() == ts[0]@[b].len() + room_for(ts[0], ts[0]@[b].len() as int, n),
        forall|j: int| 0 <= j < ts[0]@[b].len() ==> #[trigger] ts[n]@[b][j].id == ts[0]@[b][j].id,
        forall|j: int|
            0 <= j < room_for(ts[0], ts[0]@[b].len() as int, n) ==> #[trigger] ts[n]@[b][ts[0]@[b].len()
                + j].id == ids[j],
    decreases n,
{
    assert(ts[0].wf());
    if n > 0 {
        let m = n - 1;
        let k0 = ts[0]@[b].len() as int;
        lemma_fill_prefix(ts, ids, cs, rs, b, m);
        assert(RoutingTable::insert_outcome(ts[m], ids[m], cs[m], ts[m + 1], rs[m]));
        assert(ids[m] != ts[0].local_id());
        assert(ts[m].wf());
        assert(bucket_index(ts[m].local_id(), ids[m]) == b);
        let held = room_for(ts[0], k0, m);
        assert forall|j: int| 0 <= j < ts[m]@[b].len() implies ts[m]@[b][j].id != ids[m] by {
            if j < k0 {
                assert(ts[m]@[b][j].id == ts[0]@[b][j].id);
                assert(ts[0]@[b][j].id != ids[m]);
            } else {
                assert(ts[m]@[b][k0 + (j - k0)].id == ids[j - k0]);
                assert(ids[j - k0] != ids[m]);
            }
        }
        if m < ts[0].capacity() - k0 {
            assert(ts[n]@[b] == ts[m]@[b].push(Entry { id: ids[m], contact: cs[m] }));
        } else {
            assert(ts[n]@ == ts[m]@);
        }
    }
}

/// Inserting more than the room left in a bucket of distinct identifiers that
/// all select it, none of them there before: the bucket ends exactly full,
/// holding its earlier entries followed by the first identifiers in the order
/// they came; every later insertion returned `Ok(None)` and left the table
/// unchanged, and those identifiers are stored nowhere.
pub proof fn lemma_bucket_capacity<C>(
    ts: Seq<RoutingTable<C>>,
    ids: Seq<Id>,
    cs: Seq<C>,
    rs: Seq<Result<Option<C>, InsertError>>,
    b: int,
)
    requires
        insertion_run(ts, ids, cs, rs),
        forall|k: int|
            0 <= k < ids.len() ==> #[trigger] ids[k] != ts[0].local_id() && bucket_index(
                ts[0].local_id(),
                ids[k],
            ) == b,
        forall|k1: int, k2: int| 0 <= k1 < k2 < ids.len() ==> ids[k1] != ids[k2],
        forall|j: int, k: int|
            0 <= j < ts[0]@[b].len() && 0 <= k < ids.len() ==> #[trigger] ts[0]@[b][j].id
                != #[trigger] ids[k],
        ids.len() > ts[0].capacity(),
    ensures
        ts.last()@[b].len() == ts[0].capacity(),
        forall|j: int| 0 <= j < ts[0]@[b].len() ==> #[trigger] ts.last()@[b][j].id == ts[0]@[b][j].id,
        forall|j: int|
            0 <= j < ts[0].capacity() - ts[0]@[b].len() ==> #[trigger] ts.last()@[b][ts[0]@[b].len()
                + j].id == ids[j],
        forall|m: int|
            #![trigger rs[m]]
            ts[0].capacity() - ts[0]@[b].len() <= m < ids.len() ==> rs[m] == Ok::<
                Option<C>,
                InsertError,
            >(None) && ts[m + 1]@ == ts[m]@,
        forall|m: int|
            ts[0].capacity() - ts[0]@[b].len() <= m < ids.len() ==> !ts.last().contains_id(
                #[trigger] ids[m],
            ),
{
    assert(ts[0].wf());
    assert(ids[0] != ts[0].local_id());
    lemma_full_width_iff_equal(ts[0].local_id(), ids[0]);
    let n = ids.len() as int;
    let k0 = ts[0]@[b].len() as int;
    lemma_fill_prefix(ts, ids, cs, rs, b, n);
    assert forall|m: int|
        #![trigger rs[m]]
        ts[0].capacity() - ts[0]@[b].len() <= m < ids.len() implies rs[m] == Ok::<
        Option<C>,
        InsertError,
    >(None) && ts[m + 1]@ == ts[m]@ by {
        lemma_fill_prefix(ts, ids, cs, rs, b, m);
        assert(RoutingTable::insert_outcome(ts[m], ids[m], cs[m], ts[m + 1], rs[m]));
        assert(ids[m] != ts[0].local_id());
        assert(ts[m].wf());
        assert forall|j: int| 0 <= j < ts[m]@[b].len() implies ts[m]@[b][j].id != ids[m] by {
            if j < k0 {
                assert(ts[m]@[b][j].id == ts[0]@[b][j].id);
                assert(ts[0]@[b][j].id != ids[m]);
            } else {
                assert(ts[m]@[b][k0 + (j - k0)].id == ids[j - k0]);
                assert(ids[j - k0] != ids[m]);
            }
        }
        assert(ts[m]@[b].len() == ts[m].capacity());
        assert(ts[m + 1]@ == ts[m]@);
    }
    let last = ts[n];
    assert(last.wf());
    assert forall|m: int| ts[0].capacity() - k0 <= m < ids.len() implies !last.contains_id(
        #[trigger] ids[m],
    ) by {
        if last.contains_id(ids[m]) {
            let (i, j) = choose|i: int, j: int|
                0 <= i < last@.len() && 0 <= j < last@[i].len() && #[trigger] last@[i][j].id
                    == ids[m];
            assert(bucket_index(last.local_id(), last@[i][j].id) == i);
            assert(ids[m] != ts[0].local_id());
            if j < k0 {
                assert(last@[b][j].id == ts[0]@[b][j].id);
                assert(ts[0]@[b][j].id != ids[m]);
            } else {
                assert(last@[b][k0 + (j - k0)].id == ids[j - k0]);
                assert(ids[j - k0] != ids[m]);
            }
        }
    }
}

proof fn lemma_full_bucket_frozen<C>(
    ts: Seq<RoutingTable<C>>,
    ids: Seq<Id>,
    cs: Seq<C>,
    rs: Seq<Result<Option<C>, InsertError>>,
    b: int,
    n: int,
)
    requires
        insertion_run(ts, ids, cs, rs),
        0 <= b < ID_BITS,
        ts[0]@[b].len() == ts[0].capacity(),
        0 <= n < ts.len(),
    ensures
        ts[n].local_id() == ts[0].local_id(),
        ts[n].capacity() == ts[0].capacity(),
        ts[n]@[b].len() == ts[0]@[b].len(),
        forall|j: int| 0 <= j < ts[0]@[b].len() ==> #[trigger] ts[n]@[b][j].id == ts[0]@[b][j].id,
    decreases n,
{
    if n > 0 {
        let m = n - 1;
        lemma_full_bucket_frozen(ts, ids, cs, rs, b, m);
        assert(RoutingTable::insert_outcome(ts[m], ids[m], cs[m], ts[m + 1], rs[m]));
        assert(ts[m].wf());
        assert(ts[n].wf());
        let c = bucket_index(ts[m].local_id(), ids[m]);
        if ids[m] != ts[m].local_id() {
            if exists|j: int| 0 <= j < ts[m]@[c].len() && #[trigger] ts[m]@[c][j].id == ids[m] {
                let j = choose|j: int|
                    0 <= j < ts[m]@[c].len() && #[trigger] ts[m]@[c][j].id == ids[m];
                assert(ts[n]@ == ts[m]@.update(
                    c,
                    ts[m]@[c].update(j, Entry { id: ids[m], contact: cs[m] }),
                ));
            } else if c != b {
                assert(ts[n]@[b] == ts[m]@[b]);
            } else {
                assert(ts[n]@ == ts[m]@);
            }
        }
    }
}

/// Once a bucket is full, no later insertion changes which identifiers it
/// holds: an identifier that selects it and is not among them stays out of
/// the table, so no later nearest-peer query lists it.
pub proof fn lemma_full_bucket_stays_full<C>(
    ts: Seq<RoutingTable<C>>,
    ids: Seq<Id>,
    cs: Seq<C>,
    rs: Seq<Result<Option<C>, InsertError>>,
    x: Id,
)
    requires
        insertion_run(ts, ids, cs, rs),
        x != ts[0].local_id(),
        ts[0]@[bucket_index(ts[0].local_id(), x)].len() == ts[0].capacity(),
        forall|j: int|
            0 <= j < ts[0]@[bucket_index(ts[0].local_id(), x)].len() ==> #[trigger] ts[0]@[bucket_index(
                ts[0].local_id(),
                x,
            )][j].id != x,
    ensures
        forall|n: int| 0 <= n < ts.len() ==> !(#[trigger] ts[n]).contains_id(x),
{
    let b = bucket_index(ts[0].local_id(), x);
    assert(ts[0].wf());
    lemma_full_width_iff_equal(ts[0].local_id(), x);
    assert forall|n: int| 0 <= n < ts.len() implies !(#[trigger] ts[n]).contains_id(x) by {
        lemma_full_bucket_frozen(ts, ids, cs, rs, b, n);
        let t = ts[n];
        assert(t.wf());
        if t.contains_id(x) {
            let (i, j) = choose|i: int, j: int|
                0 <= i < t@.len() && 0 <= j < t@[i].len() && #[trigger] t@[i][j].id == x;
            assert(bucket_index(t.local_id(), t@[i][j].id) == i);
            assert(t@[b][j].id == ts[0]@[b][j].id);
        }
    }
}

} // verus!
