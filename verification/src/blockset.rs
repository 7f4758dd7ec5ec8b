//! Sets of block hashes, kept in order so that a hash is found quickly.

use vstd::prelude::*;
use crate::apath::Place;
use crate::blockhash::BlockHash;

verus! {

/// Strict order of byte strings: byte by byte, a proper prefix first.
pub open spec fn bytes_lt(a: Seq<u8>, b: Seq<u8>) -> bool
    decreases a.len(),
{
    if b.len() == 0 {
        false
    } else if a.len() == 0 {
        true
    } else if a[0] == b[0] {
        bytes_lt(a.drop_first(), b.drop_first())
    } else {
        a[0] < b[0]
    }
}

/// No byte string comes before itself.
pub proof fn lemma_bytes_lt_irreflexive(a: Seq<u8>)
    ensures
        !bytes_lt(a, a),
    decreases a.len(),
{
    if a.len() > 0 {
        lemma_bytes_lt_irreflexive(a.drop_first());
    }
}

/// The order of byte strings is transitive.
pub proof fn lemma_bytes_lt_transitive(a: Seq<u8>, b: Seq<u8>, c: Seq<u8>)
    requires
        bytes_lt(a, b),
        bytes_lt(b, c),
    ensures
        bytes_lt(a, c),
    decreases a.len(),
{
    if a.len() > 0 && b.len() > 0 && c.len() > 0 {
        if a[0] == b[0] && b[0] == c[0] {
            lemma_bytes_lt_transitive(a.drop_first(), b.drop_first(), c.drop_first());
        }
    }
}

/// Of two different byte strings exactly one comes first.
pub proof fn lemma_bytes_lt_total(a: Seq<u8>, b: Seq<u8>)
    ensures
        a == b || bytes_lt(a, b) || bytes_lt(b, a),
        !(bytes_lt(a, b) && bytes_lt(b, a)),
        a == b ==> !bytes_lt(a, b),
    decreases a.len(),
{
    if a.len() == 0 || b.len() == 0 {
        if a.len() == 0 && b.len() == 0 {
            assert(a =~= b);
        }
    } else if a[0] == b[0] {
        lemma_bytes_lt_total(a.drop_first(), b.drop_first());
        if a.drop_first() == b.drop_first() {
            assert(a =~= seq![a[0]] + a.drop_first());
            assert(b =~= seq![b[0]] + b.drop_first());
        }
    }
    if a == b {
        lemma_bytes_lt_irreflexive(a);
    }
}

/// Where two byte strings first differ decides their order.
pub proof fn lemma_bytes_lt_at(a: Seq<u8>, b: Seq<u8>, i: int)
    requires
        0 <= i <= a.len(),
        i <= b.len(),
        a.take(i) == b.take(i),
    ensures
        i == a.len() ==> (bytes_lt(a, b) <==> i < b.len()),
        i == b.len() ==> !bytes_lt(a, b),
        i < a.len() && i < b.len() && a[i] != b[i] ==> (bytes_lt(a, b) <==> a[i] < b[i]),
    decreases i,
{
    if i > 0 {
        assert(a.take(i)[0] == a[0] && b.take(i)[0] == b[0]);
        assert(a.drop_first().take(i - 1) =~= a.take(i).drop_first());
        assert(b.drop_first().take(i - 1) =~= b.take(i).drop_first());
        lemma_bytes_lt_at(a.drop_first(), b.drop_first(), i - 1);
    }
}

/// Compares two byte strings.
pub fn place_of_bytes(a: &[u8], b: &[u8]) -> (r: Place)
    ensures
        r == Place::Before <==> bytes_lt(a@, b@),
        r == Place::Same <==> a@ == b@,
        r == Place::After <==> bytes_lt(b@, a@),
{
    let mut i: usize = 0;
    proof {
        lemma_bytes_lt_total(a@, b@);
    }
    while i < a.len() && i < b.len()
        invariant
            i <= a.len(),
            i <= b.len(),
            a@.take(i as int) == b@.take(i as int),
        decreases a.len() - i,
    {
        let x: u8 = a[i];
        let y: u8 = b[i];
        if x != y {
            proof {
                lemma_bytes_lt_total(a@, b@);
                lemma_bytes_lt_at(a@, b@, i as int);
                lemma_bytes_lt_at(b@, a@, i as int);
                assert(a@ != b@);
            }
            if x < y {
                return Place::Before;
            } else {
                return Place::After;
            }
        }
        assert(a@.take(i as int + 1) =~= a@.take(i as int).push(a@[i as int]));
        assert(b@.take(i as int + 1) =~= b@.take(i as int).push(b@[i as int]));
        i = i + 1;
    }
    proof {
        lemma_bytes_lt_at(a@, b@, i as int);
        lemma_bytes_lt_at(b@, a@, i as int);
    }
    if i < b.len() {
        assert(a@ != b@);
        Place::Before
    } else if i < a.len() {
        assert(a@ != b@);
        Place::After
    } else {
        assert(a@ =~= a@.take(i as int));
        assert(b@ =~= b@.take(i as int));
        Place::Same
    }
}

/// The hashes are in strictly increasing order.
pub open spec fn hashes_increasing(hashes: Seq<BlockHash>) -> bool {
    forall|i: int, j: int|
        0 <= i < j < hashes.len() ==> bytes_lt((#[trigger] hashes[i])@, (#[trigger] hashes[j])@)
}

/// The hashes that a list holds.
pub open spec fn hash_set(hashes: Seq<BlockHash>) -> Set<Seq<u8>> {
    Set::new(|h: Seq<u8>| exists|i: int| 0 <= i < hashes.len() && (#[trigger] hashes[i])@ == h)
}

/// The place among the hashes of the one with the bytes `hash`.
pub open spec fn rank_of(hashes: Seq<BlockHash>, hash: Seq<u8>) -> int {
    choose|i: int| 0 <= i < hashes.len() && (#[trigger] hashes[i])@ == hash
}

/// Among hashes in order each has one place.
pub proof fn lemma_rank(hashes: Seq<BlockHash>, i: int)
    requires
        hashes_increasing(hashes),
        0 <= i < hashes.len(),
    ensures
        rank_of(hashes, hashes[i]@) == i,
{
    let r = rank_of(hashes, hashes[i]@);
    lemma_bytes_lt_irreflexive(hashes[i]@);
    if r < i {
        assert(bytes_lt(hashes[r]@, hashes[i]@));
    } else if i < r {
        assert(bytes_lt(hashes[i]@, hashes[r]@));
    }
}

/// A hash put at its place among hashes in order leaves them in order, and
/// adds itself to what they hold.
pub proof fn lemma_inserted(before: Seq<BlockHash>, at: int, hash: BlockHash)
    requires
        hashes_increasing(before),
        0 <= at <= before.len(),
        forall|k: int| 0 <= k < at ==> bytes_lt((#[trigger] before[k])@, hash@),
        forall|k: int| at <= k < before.len() ==> bytes_lt(hash@, (#[trigger] before[k])@),
    ensures
        hashes_increasing(before.insert(at, hash)),
        hash_set(before.insert(at, hash)) == hash_set(before).insert(hash@),
{
    let after = before.insert(at, hash);
    assert(after[at]@ == hash@);
    assert forall|i: int, j: int| 0 <= i < j < after.len() implies bytes_lt(
        (#[trigger] after[i])@,
        (#[trigger] after[j])@,
    ) by {
        let fi = if i < at {
            i
        } else {
            i - 1
        };
        let fj = if j < at {
            j
        } else {
            j - 1
        };
        if i != at {
            assert(after[i] == before[fi]);
        }
        if j != at {
            assert(after[j] == before[fj]);
        }
    }
    assert forall|h: Seq<u8>| hash_set(after).contains(h) <==> hash_set(before).insert(
        hash@,
    ).contains(h) by {
        if hash_set(after).contains(h) {
            let k = choose|k: int| 0 <= k < after.len() && (#[trigger] after[k])@ == h;
            if k != at {
                let from = if k < at {
                    k
                } else {
                    k - 1
                };
                assert(after[k] == before[from]);
            }
        }
        if hash_set(before).contains(h) {
            let k = choose|k: int| 0 <= k < before.len() && (#[trigger] before[k])@ == h;
            let to = if k < at {
                k
            } else {
                k + 1
            };
            assert(after[to] == before[k]);
        }
    }
    assert(hash_set(after) =~= hash_set(before).insert(hash@));
}

/// A set of block hashes.
#[derive(Debug)]
pub struct BlockSet {
    /// The hashes of the set, in order, each once.
    items: Vec<BlockHash>,
}

impl View for BlockSet {
    type V = Set<Seq<u8>>;

    closed spec fn view(&self) -> Set<Seq<u8>> {
        hash_set(self.items@)
    }
}

impl BlockSet {
    /// The set is in order within.
    pub closed spec fn wf(&self) -> bool {
        &&& hashes_increasing(self.items@)
        &&& forall|i: int|
            0 <= i < self.items@.len() ==> (#[trigger] self.items@[i])@.len()
                == crate::blockhash::BLAKE_HASH_SIZE_BYTES
    }

    /// Every member of the set has the length of a hash.
    pub proof fn lemma_member_len(&self, hash: Seq<u8>)
        requires
            self.wf(),
            self@.contains(hash),
        ensures
            hash.len() == crate::blockhash::BLAKE_HASH_SIZE_BYTES,
    {
        let k = choose|k: int| 0 <= k < self.items@.len() && (#[trigger] self.items@[k])@ == hash;
    }

    /// The hashes of the set in order.
    pub closed spec fn ordered(&self) -> Seq<BlockHash> {
        self.items@
    }

    /// How the hashes in order stand to the set.
    pub proof fn lemma_ordered(&self)
        ensures
            self@ == hash_set(self.ordered()),
            self.wf() ==> hashes_increasing(self.ordered()),
    {
    }

    /// The empty set.
    pub fn new() -> (r: BlockSet)
        ensures
            r.wf(),
            r@ == Set::<Seq<u8>>::empty(),
            r.ordered().len() == 0,
    {
        let r = BlockSet { items: Vec::new() };
        assert(r@ =~= Set::<Seq<u8>>::empty());
        r
    }

    /// The number of hashes in the set.
    pub fn len(&self) -> (r: usize)
        ensures
            r == self.ordered().len(),
    {
        self.items.len()
    }

    /// One of the hashes of the set, by its place in their order.
    pub fn get(&self, i: usize) -> (r: &BlockHash)
        requires
            i < self.ordered().len(),
        ensures
            *r == self.ordered()[i as int],
            self@.contains(r@),
    {
        &self.items[i]
    }

    /// The place of `hash` in the order of the set: where it is, or where it
    /// would be if it were there.
    fn position(&self, hash: &BlockHash) -> (r: (usize, bool))
        requires
            self.wf(),
        ensures
            r.0 <= self.items@.len(),
            r.1 == self@.contains(hash@),
            r.1 ==> r.0 < self.items@.len() && self.items@[r.0 as int]@ == hash@,
            forall|k: int| 0 <= k < r.0 ==> bytes_lt((#[trigger] self.items@[k])@, hash@),
            forall|k: int|
                r.0 <= k < self.items@.len() && !(r.1 && k == r.0) ==> bytes_lt(
                    hash@,
                    (#[trigger] self.items@[k])@,
                ),
    {
        let mut low: usize = 0;
        let mut high: usize = self.items.len();
        while low < high
            invariant
                low <= high <= self.items@.len(),
                self.wf(),
                forall|k: int| 0 <= k < low ==> bytes_lt((#[trigger] self.items@[k])@, hash@),
                forall|k: int|
                    high <= k < self.items@.len() ==> bytes_lt(hash@, (#[trigger] self.items@[k])@),
            decreases high - low,
        {
            let mid = low + (high - low) / 2;
            match place_of_bytes(self.items[mid].as_bytes(), hash.as_bytes()) {
                Place::Same => {
                    proof {
                        assert forall|k: int| 0 <= k < mid implies bytes_lt(
                            (#[trigger] self.items@[k])@,
                            hash@,
                        ) by {
                            assert(bytes_lt(self.items@[k]@, self.items@[mid as int]@));
                        }
                        assert forall|k: int|
                            mid < k < self.items@.len() implies bytes_lt(
                            hash@,
                            (#[trigger] self.items@[k])@,
                        ) by {
                            assert(bytes_lt(self.items@[mid as int]@, self.items@[k]@));
                        }
                    }
                    return (mid, true);
                },
                Place::Before => {
                    proof {
                        assert forall|k: int| 0 <= k < mid + 1 implies bytes_lt(
                            (#[trigger] self.items@[k])@,
                            hash@,
                        ) by {
                            if k < mid {
                                assert(bytes_lt(self.items@[k]@, self.items@[mid as int]@));
                                lemma_bytes_lt_transitive(
                                    self.items@[k]@,
                                    self.items@[mid as int]@,
                                    hash@,
                                );
                            }
                        }
                    }
                    low = mid + 1;
                },
                Place::After => {
                    proof {
                        assert forall|k: int|
                            mid <= k < self.items@.len() implies bytes_lt(
                            hash@,
                            (#[trigger] self.items@[k])@,
                        ) by {
                            if k > mid {
                                assert(bytes_lt(self.items@[mid as int]@, self.items@[k]@));
                                lemma_bytes_lt_transitive(
                                    hash@,
                                    self.items@[mid as int]@,
                                    self.items@[k]@,
                                );
                            }
                        }
                    }
                    high = mid;
                },
            }
        }
        proof {
            if self@.contains(hash@) {
                let k = choose|k: int| 0 <= k < self.items@.len() && (#[trigger] self.items@[k])@ == hash@;
                lemma_bytes_lt_irreflexive(hash@);
            }
        }
        (low, false)
    }

    /// The place of the hash in the order of the set, if it is in the set.
    pub fn find(&self, hash: &BlockHash) -> (r: Option<usize>)
        requires
            self.wf(),
        ensures
            r is Some <==> self@.contains(hash@),
            r matches Some(i) ==> i < self.ordered().len() && self.ordered()[i as int]@ == hash@
                && i == rank_of(self.ordered(), hash@),
    {
        let (at, found) = self.position(hash);
        if found {
            proof {
                lemma_rank(self.items@, at as int);
            }
            Some(at)
        } else {
            None
        }
    }

    /// Puts a hash into the set, and tells the place that it has in the
    /// order of the set from then on. If the hash is there already, nothing
    /// changes and `None` comes back.
    pub fn insert_at(&mut self, hash: BlockHash) -> (r: Option<usize>)
        requires
            old(self).wf(),
        ensures
            final(self).wf(),
            final(self)@ == old(self)@.insert(hash@),
            r is None <==> old(self)@.contains(hash@),
            r is None ==> final(self).ordered() == old(self).ordered(),
            r matches Some(at) ==> at <= old(self).ordered().len() && final(self).ordered()
                == old(self).ordered().insert(at as int, hash),
    {
        let (at, found) = self.position(&hash);
        if found {
            assert(self@.insert(hash@) =~= self@);
            return None;
        }
        let ghost before = self.items@;
        let n = hash.len();
        self.items.insert(at, hash);
        proof {
            lemma_inserted(before, at as int, hash);
            assert forall|i: int| 0 <= i < self.items@.len() implies (
            #[trigger] self.items@[i])@.len() == crate::blockhash::BLAKE_HASH_SIZE_BYTES by {
                if i != at {
                    let from = if i < at {
                        i
                    } else {
                        i - 1
                    };
                    assert(self.items@[i] == before[from]);
                }
            }
        }
        Some(at)
    }

    /// True if the hash is in the set.
    pub fn contains(&self, hash: &BlockHash) -> (r: bool)
        requires
            self.wf(),
        ensures
            r == self@.contains(hash@),
    {
        self.position(hash).1
    }

    /// Puts a hash into the set. True comes back if it was not there.
    pub fn insert(&mut self, hash: BlockHash) -> (r: bool)
        requires
            old(self).wf(),
        ensures
            final(self).wf(),
            final(self)@ == old(self)@.insert(hash@),
            r == !old(self)@.contains(hash@),
    {
        self.insert_at(hash).is_some()
    }

    /// Takes a hash out of the set. True comes back if it was there.
    pub fn remove(&mut self, hash: &BlockHash) -> (r: bool)
        requires
            old(self).wf(),
        ensures
            final(self).wf(),
            final(self)@ == old(self)@.remove(hash@),
            r == old(self)@.contains(hash@),
    {
        let (at, found) = self.position(hash);
        if !found {
            assert(self@.remove(hash@) =~= self@);
            return false;
        }
        let ghost before = self.items@;
        self.items.remove(at);
        proof {
            let after = self.items@;
            assert forall|i: int, j: int| 0 <= i < j < after.len() implies bytes_lt(
                (#[trigger] after[i])@,
                (#[trigger] after[j])@,
            ) by {
                let fi = if i < at {
                    i
                } else {
                    i + 1
                };
                let fj = if j < at {
                    j
                } else {
                    j + 1
                };
                assert(after[i] == before[fi] && after[j] == before[fj]);
            }
            assert forall|i: int| 0 <= i < after.len() implies (#[trigger] after[i])@.len()
                == crate::blockhash::BLAKE_HASH_SIZE_BYTES by {
                let from = if i < at {
                    i
                } else {
                    i + 1
                };
                assert(after[i] == before[from]);
            }
            assert forall|h: Seq<u8>| hash_set(after).contains(h) <==> hash_set(before).remove(
                hash@,
            ).contains(h) by {
                if hash_set(after).contains(h) {
                    let k = choose|k: int| 0 <= k < after.len() && (#[trigger] after[k])@ == h;
                    let from = if k < at {
                        k
                    } else {
                        k + 1
                    };
                    assert(after[k] == before[from]);
                    if from < at {
                        assert(bytes_lt(before[from]@, before[at as int]@));
                    } else {
                        assert(bytes_lt(before[at as int]@, before[from]@));
                    }
                    lemma_bytes_lt_irreflexive(hash@);
                }
                if hash_set(before).remove(hash@).contains(h) {
                    let k = choose|k: int| 0 <= k < before.len() && (#[trigger] before[k])@ == h;
                    let to = if k < at {
                        k
                    } else {
                        k - 1
                    };
                    assert(after[to] == before[k]);
                }
            }
            assert(hash_set(after) =~= hash_set(before).remove(hash@));
        }
        true
    }

    /// The set of the hashes that are in this set or in `other`.
    pub fn union(&self, other: &BlockSet) -> (r: BlockSet)
        requires
            self.wf(),
            other.wf(),
        ensures
            r.wf(),
            r@ == self@.union(other@),
    {
        let a = &self.items;
        let b = &other.items;
        let mut out: Vec<BlockHash> = Vec::new();
        let mut i: usize = 0;
        let mut j: usize = 0;
        proof {
            assert(hash_set(out@) =~= hash_set(a@.take(0)).union(hash_set(b@.take(0))));
        }
        while i < a.len() || j < b.len()
            invariant
                i <= a.len(),
                j <= b.len(),
                a@ == self.items@,
                b@ == other.items@,
                self.wf(),
                other.wf(),
                hashes_increasing(out@),
                forall|k: int|
                    0 <= k < out@.len() ==> (#[trigger] out@[k])@.len()
                        == crate::blockhash::BLAKE_HASH_SIZE_BYTES,
                hash_set(out@) == hash_set(a@.take(i as int)).union(hash_set(b@.take(j as int))),
                forall|k: int|
                    0 <= k < out@.len() && i < a@.len() ==> bytes_lt(
                        (#[trigger] out@[k])@,
                        a@[i as int]@,
                    ),
                forall|k: int|
                    0 <= k < out@.len() && j < b@.len() ==> bytes_lt(
                        (#[trigger] out@[k])@,
                        b@[j as int]@,
                    ),
            decreases a.len() - i + (b.len() - j),
        {
            let ghost before = out@;
            let ghost i0 = i as int;
            let ghost j0 = j as int;
            let place = if i >= a.len() {
                Place::After
            } else if j >= b.len() {
                Place::Before
            } else {
                place_of_bytes(a[i].as_bytes(), b[j].as_bytes())
            };
            let next = match place {
                Place::Before => {
                    let next = a[i].clone();
                    i = i + 1;
                    next
                },
                Place::After => {
                    let next = b[j].clone();
                    j = j + 1;
                    next
                },
                Place::Same => {
                    let next = a[i].clone();
                    i = i + 1;
                    j = j + 1;
                    next
                },
            };
            let n = next.len();
            out.push(next);
            proof {
                let after = out@;
                let added = next@;
                lemma_hash_set_take(a@, i0);
                lemma_hash_set_take(b@, j0);
                assert forall|x: int, y: int| 0 <= x < y < after.len() implies bytes_lt(
                    (#[trigger] after[x])@,
                    (#[trigger] after[y])@,
                ) by {
                    assert(after[x] == before[x]);
                    if y < before.len() {
                        assert(after[y] == before[y]);
                    }
                }
                assert forall|k: int| 0 <= k < after.len() implies (#[trigger] after[k])@.len()
                    == crate::blockhash::BLAKE_HASH_SIZE_BYTES by {
                    if k < before.len() {
                        assert(after[k] == before[k]);
                    }
                }
                assert forall|k: int| 0 <= k < after.len() && i < a@.len() implies bytes_lt(
                    (#[trigger] after[k])@,
                    a@[i as int]@,
                ) by {
                    if k < before.len() {
                        assert(after[k] == before[k]);
                        if i0 < i {
                            assert(bytes_lt(a@[i0]@, a@[i as int]@));
                            lemma_bytes_lt_transitive(before[k]@, a@[i0]@, a@[i as int]@);
                        }
                    } else if i0 < i {
                        assert(bytes_lt(a@[i0]@, a@[i as int]@));
                    } else {
                        assert(bytes_lt(b@[j0]@, a@[i as int]@));
                    }
                }
                assert forall|k: int| 0 <= k < after.len() && j < b@.len() implies bytes_lt(
                    (#[trigger] after[k])@,
                    b@[j as int]@,
                ) by {
                    if k < before.len() {
                        assert(after[k] == before[k]);
                        if j0 < j {
                            assert(bytes_lt(b@[j0]@, b@[j as int]@));
                            lemma_bytes_lt_transitive(before[k]@, b@[j0]@, b@[j as int]@);
                        }
                    } else if j0 < j {
                        if i0 < i {
                            assert(bytes_lt(b@[j0]@, b@[j as int]@));
                        } else {
                            assert(bytes_lt(b@[j0]@, b@[j as int]@));
                        }
                    } else {
                        assert(bytes_lt(a@[i0]@, b@[j as int]@));
                    }
                }
                assert forall|h: Seq<u8>| hash_set(after).contains(h) <==> hash_set(
                    a@.take(i as int),
                ).union(hash_set(b@.take(j as int))).contains(h) by {
                    if hash_set(after).contains(h) {
                        let k = choose|k: int| 0 <= k < after.len() && (#[trigger] after[k])@ == h;
                        if k < before.len() {
                            assert(before[k] == after[k]);
                            assert(hash_set(before).contains(h));
                        }
                    }
                    if hash_set(before).contains(h) {
                        let k = choose|k: int| 0 <= k < before.len() && (#[trigger] before[k])@ == h;
                        assert(after[k] == before[k]);
                    }
                    if h == added {
                        assert(after[after.len() - 1]@ == h);
                    }
                }
                assert(hash_set(after) =~= hash_set(a@.take(i as int)).union(
                    hash_set(b@.take(j as int)),
                ));
            }
        }
        proof {
            assert(a@.take(i as int) =~= a@);
            assert(b@.take(j as int) =~= b@);
        }
        BlockSet { items: out }
    }

    /// The set of the hashes of a part of a list.
    fn from_range(hashes: &Vec<BlockHash>, low: usize, high: usize) -> (r: BlockSet)
        requires
            low <= high <= hashes@.len(),
        ensures
            r.wf(),
            r@ == hash_set(hashes@.subrange(low as int, high as int)),
        decreases high - low,
    {
        let ghost part = hashes@.subrange(low as int, high as int);
        if high - low == 0 {
            let r = BlockSet::new();
            assert(hash_set(part) =~= Set::<Seq<u8>>::empty());
            r
        } else if high - low == 1 {
            let mut r = BlockSet::new();
            r.insert(hashes[low].clone());
            proof {
                assert(part[0] == hashes@[low as int]);
                assert(hash_set(part) =~= Set::<Seq<u8>>::empty().insert(hashes@[low as int]@));
            }
            r
        } else {
            let mid = low + (high - low) / 2;
            let front = BlockSet::from_range(hashes, low, mid);
            let back = BlockSet::from_range(hashes, mid, high);
            let r = front.union(&back);
            proof {
                let a = hashes@.subrange(low as int, mid as int);
                let b = hashes@.subrange(mid as int, high as int);
                assert(part =~= a + b);
                assert forall|h: Seq<u8>| hash_set(part).contains(h) <==> hash_set(a).union(
                    hash_set(b),
                ).contains(h) by {
                    if hash_set(part).contains(h) {
                        let k = choose|k: int| 0 <= k < part.len() && (#[trigger] part[k])@ == h;
                        if k < a.len() {
                            assert(a[k] == part[k]);
                        } else {
                            assert(b[k - a.len()] == part[k]);
                        }
                    }
                    if hash_set(a).contains(h) {
                        let k = choose|k: int| 0 <= k < a.len() && (#[trigger] a[k])@ == h;
                        assert(part[k] == a[k]);
                    }
                    if hash_set(b).contains(h) {
                        let k = choose|k: int| 0 <= k < b.len() && (#[trigger] b[k])@ == h;
                        assert(part[a.len() + k] == b[k]);
                    }
                }
                assert(hash_set(part) =~= hash_set(a).union(hash_set(b)));
            }
            r
        }
    }

    /// The set of the hashes of a list.
    pub fn from_hashes(hashes: Vec<BlockHash>) -> (r: BlockSet)
        ensures
            r.wf(),
            r@ == hash_set(hashes@),
    {
        let n = hashes.len();
        assert(hashes@.subrange(0, n as int) =~= hashes@);
        BlockSet::from_range(&hashes, 0, n)
    }
}

/// One more hash of a list is one more member of its set.
pub proof fn lemma_hash_set_take(hashes: Seq<BlockHash>, n: int)
    ensures
        0 <= n < hashes.len() ==> hash_set(hashes.take(n + 1)) == hash_set(hashes.take(n)).insert(
            hashes[n]@,
        ),
{
    if 0 <= n < hashes.len() {
        let front = hashes.take(n);
        let more = hashes.take(n + 1);
        assert forall|h: Seq<u8>| hash_set(more).contains(h) <==> hash_set(front).insert(
            hashes[n]@,
        ).contains(h) by {
            if hash_set(more).contains(h) {
                let k = choose|k: int| 0 <= k < more.len() && (#[trigger] more[k])@ == h;
                if k < n {
                    assert(front[k] == more[k]);
                }
            }
            if hash_set(front).contains(h) {
                let k = choose|k: int| 0 <= k < front.len() && (#[trigger] front[k])@ == h;
                assert(more[k] == front[k]);
            }
            if h == hashes[n]@ {
                assert(more[n] == hashes[n]);
            }
        }
        assert(hash_set(more) =~= hash_set(front).insert(hashes[n]@));
    }
}

/// The uncompressed length of each block of a set of blocks.
#[derive(Debug)]
pub struct BlockLengths {
    hashes: BlockSet,
    /// The lengths, each at the place of its hash.
    lens: Vec<usize>,
}

impl View for BlockLengths {
    type V = Map<Seq<u8>, usize>;

    closed spec fn view(&self) -> Map<Seq<u8>, usize> {
        Map::new(
            |h: Seq<u8>| self.hashes@.contains(h),
            |h: Seq<u8>| self.lens@[rank_of(self.hashes.ordered(), h)],
        )
    }
}

impl BlockLengths {
    /// The lengths are in order within.
    pub closed spec fn wf(&self) -> bool {
        self.hashes.wf() && self.lens@.len() == self.hashes.ordered().len()
    }

    /// No lengths.
    pub fn new() -> (r: BlockLengths)
        ensures
            r.wf(),
            r@ == Map::<Seq<u8>, usize>::empty(),
    {
        let r = BlockLengths { hashes: BlockSet::new(), lens: Vec::new() };
        assert(r@ =~= Map::<Seq<u8>, usize>::empty());
        r
    }

    /// The number of blocks whose length is held.
    pub fn len(&self) -> (r: usize)
        requires
            self.wf(),
        ensures
            r == self@.dom().len(),
            self@.dom().finite(),
    {
        proof {
            self.hashes.lemma_ordered();
            lemma_hash_set_len(self.hashes.ordered());
            assert(self@.dom() =~= self.hashes@);
        }
        self.lens.len()
    }

    /// The length of a block, if it is held.
    pub fn get(&self, hash: &BlockHash) -> (r: Option<usize>)
        requires
            self.wf(),
        ensures
            r is Some <==> self@.contains_key(hash@),
            r matches Some(len) ==> len == self@[hash@],
    {
        match self.hashes.find(hash) {
            Some(i) => Some(self.lens[i]),
            None => None,
        }
    }

    /// Holds the length of a block, in place of any length that was held for
    /// it.
    pub fn insert(&mut self, hash: BlockHash, len: usize)
        requires
            old(self).wf(),
        ensures
            final(self).wf(),
            final(self)@ == old(self)@.insert(hash@, len),
    {
        let ghost before = self.hashes.ordered();
        let ghost key = hash@;
        proof {
            self.hashes.lemma_ordered();
        }
        match self.hashes.find(&hash) {
            Some(i) => {
                self.lens.set(i, len);
                proof {
                    assert forall|h: Seq<u8>| self@.contains_key(h) implies #[trigger] self@[h]
                        == old(self)@.insert(key, len)[h] by {
                        if h != key {
                            let k = rank_of(before, h);
                            lemma_rank(before, k);
                        }
                    }
                    assert(self@ =~= old(self)@.insert(key, len));
                }
            },
            None => {
                match self.hashes.insert_at(hash) {
                    Some(at) => {
                        self.lens.insert(at, len);
                        proof {
                            self.hashes.lemma_ordered();
                            let after = self.hashes.ordered();
                            assert(after[at as int]@ == key);
                            lemma_rank(after, at as int);
                            assert forall|h: Seq<u8>| self@.contains_key(h) implies #[trigger] self@[h]
                                == old(self)@.insert(key, len)[h] by {
                                if h != key {
                                    let k = rank_of(before, h);
                                    let to = if k < at {
                                        k
                                    } else {
                                        k + 1
                                    };
                                    assert(after[to] == before[k]);
                                    lemma_rank(after, to);
                                }
                            }
                            assert(self@ =~= old(self)@.insert(key, len));
                        }
                    },
                    None => {},
                }
            },
        }
    }
}

/// A list of hashes in order is as long as the set of them is large.
pub proof fn lemma_hash_set_len(hashes: Seq<BlockHash>)
    requires
        hashes_increasing(hashes),
    ensures
        hash_set(hashes).finite(),
        hash_set(hashes).len() == hashes.len(),
    decreases hashes.len(),
{
    if hashes.len() == 0 {
        assert(hash_set(hashes) =~= Set::<Seq<u8>>::empty());
    } else {
        let front = hashes.drop_last();
        let last = hashes.last()@;
        assert(hashes_increasing(front)) by {
            assert forall|i: int, j: int| 0 <= i < j < front.len() implies bytes_lt(
                (#[trigger] front[i])@,
                (#[trigger] front[j])@,
            ) by {
                assert(front[i] == hashes[i] && front[j] == hashes[j]);
            }
        }
        lemma_hash_set_len(front);
        assert(!hash_set(front).contains(last)) by {
            if hash_set(front).contains(last) {
                let k = choose|k: int| 0 <= k < front.len() && (#[trigger] front[k])@ == last;
                assert(front[k] == hashes[k]);
                assert(bytes_lt(hashes[k]@, hashes[hashes.len() - 1]@));
                lemma_bytes_lt_irreflexive(last);
            }
        }
        assert(hash_set(hashes) =~= hash_set(front).insert(last)) by {
            assert forall|h: Seq<u8>| hash_set(hashes).contains(h) <==> hash_set(front).insert(
                last,
            ).contains(h) by {
                if hash_set(hashes).contains(h) {
                    let k = choose|k: int| 0 <= k < hashes.len() && (#[trigger] hashes[k])@ == h;
                    if k < front.len() {
                        assert(front[k] == hashes[k]);
                    }
                }
                if hash_set(front).contains(h) {
                    let k = choose|k: int| 0 <= k < front.len() && (#[trigger] front[k])@ == h;
                    assert(hashes[k] == front[k]);
                }
                if h == last {
                    assert(hashes[hashes.len() - 1]@ == h);
                }
            }
        }
    }
}

} // verus!
