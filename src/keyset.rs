use vstd::prelude::*;
use std::collections::HashMap;

verus! {

broadcast use vstd::std_specs::hash::group_hash_axioms;

/// Modulus of the key fingerprint.
pub const FP_MOD: u64 = 1000000007;

/// Polynomial fingerprint of a key, below `FP_MOD`.
pub open spec fn fingerprint(k: Seq<usize>) -> u64
    decreases k.len(),
{
    if k.len() == 0 {
        0
    } else {
        ((fingerprint(k.drop_last()) as int * 131 + (k.last() as int % FP_MOD as int)) % FP_MOD as int) as u64
    }
}

fn fingerprint_of(k: &Vec<usize>) -> (h: u64)
    ensures
        h == fingerprint(k@),
{
    let mut h: u64 = 0;
    let mut i: usize = 0;
    while i < k.len()
        invariant
            i <= k@.len(),
            h == fingerprint(k@.subrange(0, i as int)),
            h < FP_MOD,
        decreases k@.len() - i,
    {
        proof {
            assert(k@.subrange(0, i + 1).drop_last() =~= k@.subrange(0, i as int));
            assert(h * 131 <= (FP_MOD - 1) * 131) by (nonlinear_arith)
                requires
                    h < FP_MOD,
            ;
        }
        let x = (k[i] as u64) % FP_MOD;
        h = (h * 131 + x) % FP_MOD;
        i += 1;
    }
    proof {
        assert(k@.subrange(0, i as int) =~= k@);
    }
    h
}

/// Whether two keys are equal.
fn same_key(a: &Vec<usize>, b: &Vec<usize>) -> (eq: bool)
    ensures
        eq == (a@ == b@),
{
    if a.len() != b.len() {
        return false;
    }
    let mut i: usize = 0;
    while i < a.len()
        invariant
            a@.len() == b@.len(),
            i <= a@.len(),
            forall|j: int| 0 <= j < i ==> a@[j] == b@[j],
        decreases a@.len() - i,
    {
        if a[i] != b[i] {
            return false;
        }
        i += 1;
    }
    assert(a@ =~= b@);
    true
}

/// The map holds `k` in the bucket of its fingerprint.
pub open spec fn in_buckets(m: Map<u64, Vec<Vec<usize>>>, k: Seq<usize>) -> bool {
    m.contains_key(fingerprint(k)) && exists|i: int|
        0 <= i < m[fingerprint(k)]@.len() && (#[trigger] m[fingerprint(k)]@[i])@ == k
}

/// A finite set of keys (sequences of `usize`), hashed by fingerprint into buckets that
/// are searched exactly.
pub struct KeySet {
    buckets: HashMap<u64, Vec<Vec<usize>>>,
    keys: Ghost<Set<Seq<usize>>>,
}

impl KeySet {
    /// The keys held.
    pub closed spec fn view(&self) -> Set<Seq<usize>> {
        self.keys@
    }

    pub closed spec fn wf(&self) -> bool {
        &&& self.keys@.finite()
        &&& forall|k: Seq<usize>| #[trigger] self.keys@.contains(k) <==> in_buckets(self.buckets@, k)
    }

    pub proof fn lemma_view_finite(&self)
        requires
            self.wf(),
        ensures
            self.view().finite(),
    {
    }

    pub fn new() -> (s: KeySet)
        ensures
            s.wf(),
            s.view() == Set::<Seq<usize>>::empty(),
    {
        KeySet { buckets: HashMap::new(), keys: Ghost(Set::empty()) }
    }

    pub fn contains(&self, k: &Vec<usize>) -> (b: bool)
        requires
            self.wf(),
        ensures
            b == self.view().contains(k@),
    {
        let h = fingerprint_of(k);
        match self.buckets.get(&h) {
            None => false,
            Some(bucket) => {
                let mut i: usize = 0;
                while i < bucket.len()
                    invariant
                        i <= bucket@.len(),
                        forall|j: int| 0 <= j < i ==> bucket@[j]@ != k@,
                        self.wf(),
                        h == fingerprint(k@),
                        self.buckets@.contains_key(h),
                        self.buckets@[h] == *bucket,
                    decreases bucket@.len() - i,
                {
                    if same_key(&bucket[i], k) {
                        assert(in_buckets(self.buckets@, k@));
                        return true;
                    }
                    i += 1;
                }
                proof {
                    if self.keys@.contains(k@) {
                        let j = choose|j: int| 0 <= j < self.buckets@[h]@.len() && (#[trigger] self.buckets@[h]@[j])@ == k@;
                        assert(bucket@[j]@ == k@);
                    }
                }
                false
            },
        }
    }

    pub fn insert(&mut self, k: Vec<usize>)
        requires
            old(self).wf(),
        ensures
            final(self).wf(),
            final(self).view() == old(self).view().insert(k@),
    {
        let h = fingerprint_of(&k);
        let ghost old_map = self.buckets@;
        let mut bucket = match self.buckets.remove(&h) {
            Some(v) => v,
            None => Vec::new(),
        };
        let ghost old_bucket = bucket@;
        proof {
            assert(old_map.contains_key(h) ==> old_bucket == old_map[h]@);
            assert(!old_map.contains_key(h) ==> old_bucket.len() == 0);
        }
        let ghost kv = k@;
        bucket.push(k);
        self.buckets.insert(h, bucket);
        self.keys = Ghost(self.keys@.insert(kv));
        proof {
            let m = self.buckets@;
            assert forall|k2: Seq<usize>| #[trigger] self.keys@.contains(k2) <==> in_buckets(m, k2) by {
                if fingerprint(k2) == h {
                    if in_buckets(m, k2) {
                        let i = choose|i: int| 0 <= i < m[h]@.len() && (#[trigger] m[h]@[i])@ == k2;
                        if i < old_bucket.len() {
                            assert(m[h]@[i] == old_bucket[i]);
                            assert(in_buckets(old_map, k2));
                        }
                    }
                    if old(self).keys@.contains(k2) {
                        let i = choose|i: int| 0 <= i < old_map[h]@.len() && (#[trigger] old_map[h]@[i])@ == k2;
                        assert(m[h]@[i] == old_map[h]@[i]);
                    }
                    if k2 == kv {
                        assert(m[h]@[old_bucket.len() as int]@ == kv);
                    }
                } else {
                    assert(m[fingerprint(k2)] == old_map[fingerprint(k2)]);
                }
            }
        }
    }
}

} // verus!
