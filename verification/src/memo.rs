use std::collections::HashMap;
use vstd::prelude::*;

verus! {

/// One remembered result: a list of indices and the value found for it.
struct MemoEntry<V> {
    key: Vec<usize>,
    value: V,
}

/// A table from lists of indices to values, keyed by the exact list.
///
/// The lists are spread over buckets by a hash of their own, and a bucket is
/// searched from its start; no list stands twice in a bucket.
pub struct Memo<V: Copy> {
    buckets: HashMap<u64, Vec<MemoEntry<V>>>,
}

/// The bucket number of a list: a polynomial in its indices, modulo 2^64.
pub open spec fn hash_of(key: Seq<usize>) -> u64
    decreases key.len(),
{
    if key.len() == 0 {
        0u64
    } else {
        hash_of(key.drop_last()).wrapping_mul(1_000_003u64).wrapping_add(key.last() as u64)
    }
}

/// Whether some entry of the bucket is for `key`.
spec fn bucket_has<V>(bucket: Seq<MemoEntry<V>>, key: Seq<usize>) -> bool {
    exists|i: int| 0 <= i < bucket.len() && (#[trigger] bucket[i]).key@ == key
}

/// The value of an entry of the bucket that is for `key`.
spec fn bucket_value<V>(bucket: Seq<MemoEntry<V>>, key: Seq<usize>) -> V {
    bucket[choose|i: int| 0 <= i < bucket.len() && (#[trigger] bucket[i]).key@ == key].value
}

/// Whether no two entries of the bucket are for the same list.
spec fn bucket_distinct<V>(bucket: Seq<MemoEntry<V>>) -> bool {
    forall|i: int, j: int|
        0 <= i < j < bucket.len() ==> (#[trigger] bucket[i]).key@ != (#[trigger] bucket[j]).key@
}

/// The bucket in which `key` is looked for.
spec fn bucket_of<V>(buckets: Map<u64, Vec<MemoEntry<V>>>, key: Seq<usize>) -> Seq<MemoEntry<V>> {
    if buckets.contains_key(hash_of(key)) {
        buckets[hash_of(key)]@
    } else {
        Seq::empty()
    }
}

/// The table that the buckets stand for.
spec fn table_of<V>(buckets: Map<u64, Vec<MemoEntry<V>>>) -> Map<Seq<usize>, V> {
    Map::new(
        |key: Seq<usize>| bucket_has(bucket_of(buckets, key), key),
        |key: Seq<usize>| bucket_value(bucket_of(buckets, key), key),
    )
}

/// In a bucket without repetition, the entry at `at` is the one found for its
/// list.
proof fn lemma_entry_found<V>(bucket: Seq<MemoEntry<V>>, at: int)
    requires
        bucket_distinct(bucket),
        0 <= at < bucket.len(),
    ensures
        bucket_has(bucket, bucket[at].key@),
        bucket_value(bucket, bucket[at].key@) == bucket[at].value,
{
}

/// What a bucket holds after the entry at `at` was replaced by another for the
/// same list, or after an entry for a list that it lacked was put at its end.
proof fn lemma_bucket_changed<V>(before: Seq<MemoEntry<V>>, after: Seq<MemoEntry<V>>, at: int)
    requires
        bucket_distinct(before),
        0 <= at < after.len(),
        forall|i: int| 0 <= i < before.len() && i != at ==> after[i] == before[i],
        (after.len() == before.len() && before[at].key@ == after[at].key@) || (after.len()
            == before.len() + 1 && at == before.len() && !bucket_has(before, after[at].key@)),
    ensures
        bucket_distinct(after),
        bucket_has(after, after[at].key@),
        bucket_value(after, after[at].key@) == after[at].value,
        forall|other: Seq<usize>|
            other != after[at].key@ ==> (#[trigger] bucket_has(after, other) <==> bucket_has(
                before,
                other,
            )),
        forall|other: Seq<usize>|
            other != after[at].key@ && bucket_has(before, other) ==> #[trigger] bucket_value(
                after,
                other,
            ) == bucket_value(before, other),
{
    assert forall|i: int, j: int| 0 <= i < j < after.len() implies (#[trigger] after[i]).key@ != (
    #[trigger] after[j]).key@ by {
        if i != at && j != at {
            assert(after[i] == before[i] && after[j] == before[j]);
        } else if after.len() == before.len() {
            assert(before[i].key@ != before[j].key@);
        } else {
            assert(after[i] == before[i]);
        }
    }
    lemma_entry_found(after, at);
    assert forall|other: Seq<usize>| other != after[at].key@ implies (#[trigger] bucket_has(
        after,
        other,
    ) <==> bucket_has(before, other)) && (bucket_has(before, other) ==> bucket_value(after, other)
        == bucket_value(before, other)) by {
        if bucket_has(before, other) {
            let i = choose|i: int| 0 <= i < before.len() && (#[trigger] before[i]).key@ == other;
            assert(after[i] == before[i]);
            lemma_entry_found(after, i);
            lemma_entry_found(before, i);
        }
        if bucket_has(after, other) {
            let i = choose|i: int| 0 <= i < after.len() && (#[trigger] after[i]).key@ == other;
            assert(after[i] == before[i]);
        }
    }
}

/// Whether the two lists hold the same indices in the same order.
pub fn same_indices(a: &[usize], b: &[usize]) -> (same: bool)
    ensures
        same == (a@ == b@),
{
    if a.len() != b.len() {
        return false;
    }
    let mut i: usize = 0;
    while i < a.len()
        invariant
            i <= a@.len(),
            a@.len() == b@.len(),
            forall|k: int| 0 <= k < i ==> a@[k] == b@[k],
        decreases a@.len() - i,
    {
        if a[i] != b[i] {
            return false;
        }
        i = i + 1;
    }
    assert(a@ =~= b@);
    true
}

/// Computes the bucket number of a list.
pub fn hash_indices(key: &[usize]) -> (hash: u64)
    ensures
        hash == hash_of(key@),
{
    let mut hash: u64 = 0;
    let mut i: usize = 0;
    while i < key.len()
        invariant
            i <= key@.len(),
            hash == hash_of(key@.take(i as int)),
        decreases key@.len() - i,
    {
        proof {
            assert(key@.take(i + 1).drop_last() =~= key@.take(i as int));
        }
        hash = hash.wrapping_mul(1_000_003u64).wrapping_add(key[i] as u64);
        i = i + 1;
    }
    proof {
        assert(key@.take(i as int) =~= key@);
    }
    hash
}

/// Copies a list of indices.
fn copy_indices(key: &[usize]) -> (copy: Vec<usize>)
    ensures
        copy@ == key@,
{
    let mut copy: Vec<usize> = Vec::new();
    let mut i: usize = 0;
    while i < key.len()
        invariant
            i <= key@.len(),
            copy@ == key@.take(i as int),
        decreases key@.len() - i,
    {
        copy.push(key[i]);
        proof {
            assert(copy@ =~= key@.take(i + 1));
        }
        i = i + 1;
    }
    proof {
        assert(key@.take(i as int) =~= key@);
    }
    copy
}

/// The place of the entry for `key` in the bucket, if there is one.
fn find_in_bucket<V>(bucket: &Vec<MemoEntry<V>>, key: &[usize]) -> (found: Option<usize>)
    ensures
        match found {
            Some(at) => at < bucket@.len() && bucket@[at as int].key@ == key@,
            None => !bucket_has(bucket@, key@),
        },
{
    let mut i: usize = 0;
    while i < bucket.len()
        invariant
            i <= bucket@.len(),
            forall|k: int| 0 <= k < i ==> (#[trigger] bucket@[k]).key@ != key@,
        decreases bucket@.len() - i,
    {
        if same_indices(bucket[i].key.as_slice(), key) {
            return Some(i);
        }
        i = i + 1;
    }
    None
}

impl<V: Copy> View for Memo<V> {
    type V = Map<Seq<usize>, V>;

    /// The table: which lists have a value, and which.
    closed spec fn view(&self) -> Map<Seq<usize>, V> {
        table_of(self.buckets@)
    }
}

impl<V: Copy> Memo<V> {
    /// Whether no list stands twice in a bucket.
    pub closed spec fn well_formed(&self) -> bool {
        forall|hash: u64| #[trigger]
            self.buckets@.contains_key(hash) ==> bucket_distinct(self.buckets@[hash]@)
    }

    /// An empty table.
    pub fn new() -> (memo: Self)
        ensures
            memo.well_formed(),
            memo@ == Map::<Seq<usize>, V>::empty(),
    {
        let memo = Memo { buckets: HashMap::new() };
        proof {
            assert(memo@ =~= Map::<Seq<usize>, V>::empty());
        }
        memo
    }

    /// The value remembered for `key`, if there is one.
    pub fn get(&self, key: &[usize]) -> (found: Option<V>)
        requires
            self.well_formed(),
        ensures
            found == if self@.contains_key(key@) {
                Some(self@[key@])
            } else {
                None
            },
    {
        let hash = hash_indices(key);
        match self.buckets.get(&hash) {
            None => None,
            Some(bucket) => {
                match find_in_bucket(bucket, key) {
                    None => None,
                    Some(at) => {
                        proof {
                            lemma_entry_found(bucket@, at as int);
                        }
                        Some(bucket[at].value)
                    },
                }
            },
        }
    }

    /// Remembers `value` for `key`, in place of what was remembered for it
    /// before; every other list keeps its value.
    pub fn insert(&mut self, key: &[usize], value: V)
        requires
            old(self).well_formed(),
        ensures
            final(self).well_formed(),
            final(self)@ == old(self)@.insert(key@, value),
    {
        let hash = hash_indices(key);
        let mut bucket = match self.buckets.remove(&hash) {
            Some(bucket) => bucket,
            None => Vec::new(),
        };
        let ghost before = bucket@;
        let entry = MemoEntry { key: copy_indices(key), value };
        let ghost at: int;
        match find_in_bucket(&bucket, key) {
            Some(found) => {
                bucket.set(found, entry);
                proof {
                    at = found as int;
                }
            },
            None => {
                bucket.push(entry);
                proof {
                    at = before.len() as int;
                }
            },
        }
        proof {
            lemma_bucket_changed(before, bucket@, at);
        }
        self.buckets.insert(hash, bucket);
        proof {
            assert forall|other: Seq<usize>| hash_of(other) != hash implies bucket_of(
                self.buckets@,
                other,
            ) == bucket_of(old(self).buckets@, other) by {}
            assert(self@ =~= old(self)@.insert(key@, value));
        }
    }
}

} // verus!
