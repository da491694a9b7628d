//! Filtering repeated keys out of a sequence, remembering the keys seen in
//! a hash map.
use vstd::prelude::*;

verus! {

/// The keys seen so far, held in a `hashbrown::HashMap` with unit values.
/// (The map type's allocator parameter is not nameable outside its crate,
/// so the map is kept behind this struct.)
#[verifier::external_body]
pub struct SeenKeys {
    map: hashbrown::HashMap<u64, ()>,
}

/// The set of keys a [`SeenKeys`] holds.
pub uninterp spec fn seen_keys(s: SeenKeys) -> Set<u64>;

impl SeenKeys {
    /// Relies on hashbrown::HashMap::new: the map starts empty.
    #[verifier::external_body]
    pub fn new() -> (r: SeenKeys)
        ensures
            seen_keys(r) == Set::<u64>::empty(),
    {
        SeenKeys { map: hashbrown::HashMap::new() }
    }

    /// Relies on hashbrown::HashMap::insert: it returns `None` exactly when
    /// the key was not in the map, and the key is in the map afterwards.
    #[verifier::external_body]
    fn insert(&mut self, key: u64) -> (r: bool)
        requires
            seen_keys(*old(self)).len() < usize::MAX / 8,
        ensures
            r == !seen_keys(*old(self)).contains(key),
            seen_keys(*final(self)) == seen_keys(*old(self)).insert(key),
    {
        self.map.insert(key, ()).is_none()
    }

    /// Relies on hashbrown::HashMap::len: the number of keys in the map.
    #[verifier::external_body]
    pub fn len(&self) -> (r: usize)
        ensures
            r == seen_keys(*self).len(),
    {
        self.map.len()
    }
}

/// The keys of `s` in order, each kept only where it first occurs.
pub open spec fn first_occurrences(s: Seq<u64>) -> Seq<u64>
    decreases s.len(),
{
    if s.len() == 0 {
        Seq::empty()
    } else if s.drop_last().contains(s.last()) {
        first_occurrences(s.drop_last())
    } else {
        first_occurrences(s.drop_last()).push(s.last())
    }
}

proof fn lemma_take_push_set(keys: Seq<u64>, i: int)
    requires
        0 <= i < keys.len(),
    ensures
        keys.take(i + 1).drop_last() == keys.take(i),
        keys.take(i + 1).last() == keys[i],
        keys.take(i + 1).to_set() == keys.take(i).to_set().insert(keys[i]),
        keys.take(i).contains(keys[i]) == keys.take(i).to_set().contains(keys[i]),
{
    assert(keys.take(i + 1).drop_last() =~= keys.take(i));
    assert(keys.take(i + 1) =~= keys.take(i).push(keys[i]));
    assert forall|k: u64| keys.take(i + 1).to_set().contains(k) == keys.take(i).to_set().insert(
        keys[i],
    ).contains(k) by {
        if keys.take(i).contains(k) {
            let j = choose|j: int| 0 <= j < keys.take(i).len() && #[trigger] keys.take(i)[j] == k;
            assert(keys.take(i + 1)[j] == k);
        }
        if keys.take(i + 1).contains(k) && k != keys[i] {
            let j = choose|j: int| 0 <= j < keys.take(i + 1).len() && #[trigger] keys.take(i + 1)[j] == k;
            assert(keys.take(i)[j] == k);
        }
        if k == keys[i] {
            assert(keys.take(i + 1)[i] == k);
        }
    }
    assert(keys.take(i + 1).to_set() =~= keys.take(i).to_set().insert(keys[i]));
}

/// The keys in order, each kept only where it first occurs.
pub fn unique(keys: &Vec<u64>) -> (r: Vec<u64>)
    requires
        keys@.len() < usize::MAX / 8,
    ensures
        r@ == first_occurrences(keys@),
{
    let mut used = SeenKeys::new();
    let mut out: Vec<u64> = Vec::new();
    let mut i: usize = 0;
    proof {
        assert(keys@.take(0) =~= Seq::<u64>::empty());
        assert(keys@.take(0).to_set() =~= Set::<u64>::empty());
    }
    while i < keys.len()
        invariant
            i <= keys@.len(),
            keys@.len() < usize::MAX / 8,
            out@ == first_occurrences(keys@.take(i as int)),
            seen_keys(used) == keys@.take(i as int).to_set(),
        decreases keys@.len() - i,
    {
        proof {
            lemma_take_push_set(keys@, i as int);
            keys@.take(i as int).lemma_cardinality_of_set();
        }
        let k = keys[i];
        if used.insert(k) {
            out.push(k);
        }
        i = i + 1;
    }
    assert(keys@.take(i as int) =~= keys@);
    out
}

/// The number of keys of `keys` that `used` does not hold yet, counting
/// each new key once.
pub fn count_new_keys(used: SeenKeys, keys: &Vec<u64>) -> (r: usize)
    requires
        seen_keys(used).finite(),
        seen_keys(used).len() + keys@.len() < usize::MAX / 8,
    ensures
        r == seen_keys(used).union(keys@.to_set()).len() - seen_keys(used).len(),
{
    broadcast use vstd::set::group_set_axioms, vstd::seq_lib::seq_to_set_is_finite;

    let ghost start = seen_keys(used);
    let mut used = used;
    let current = used.len();
    let mut i: usize = 0;
    proof {
        assert(keys@.take(0).to_set() =~= Set::<u64>::empty());
        assert(start.union(Set::<u64>::empty()) =~= start);
    }
    while i < keys.len()
        invariant
            i <= keys@.len(),
            start.finite(),
            start.len() + keys@.len() < usize::MAX / 8,
            seen_keys(used) == start.union(keys@.take(i as int).to_set()),
        decreases keys@.len() - i,
    {
        proof {
            lemma_take_push_set(keys@, i as int);
            keys@.take(i as int).lemma_cardinality_of_set();
            vstd::set_lib::lemma_len_union(start, keys@.take(i as int).to_set());
            assert(start.union(keys@.take(i as int).to_set()).insert(keys@[i as int]) =~= start.union(
                keys@.take(i as int + 1).to_set(),
            ));
        }
        used.insert(keys[i]);
        i = i + 1;
    }
    assert(keys@.take(i as int) =~= keys@);
    proof {
        vstd::set_lib::lemma_len_subset(start, seen_keys(used));
    }
    used.len() - current
}

/// Index of the first key of `rest`, from `i` on, that `seen` does not hold.
pub open spec fn first_new(rest: Seq<u64>, seen: Set<u64>, i: int) -> Option<int>
    decreases rest.len() - i,
{
    if i < 0 || i >= rest.len() {
        None
    } else if !seen.contains(rest[i]) {
        Some(i)
    } else {
        first_new(rest, seen, i + 1)
    }
}

/// Keys handed out one at a time, each only the first time it occurs.
pub struct UniqueBy {
    keys: Vec<u64>,
    pos: usize,
    used: SeenKeys,
}

impl UniqueBy {
    /// The keys not looked at yet.
    pub closed spec fn remaining(&self) -> Seq<u64> {
        self.keys@.skip(self.pos as int)
    }

    /// The keys handed out so far.
    pub closed spec fn seen(&self) -> Set<u64> {
        seen_keys(self.used)
    }

    pub closed spec fn wf(&self) -> bool {
        &&& self.pos <= self.keys@.len()
        &&& self.keys@.len() < usize::MAX / 8
        &&& seen_keys(self.used).finite()
        &&& seen_keys(self.used).len() <= self.pos
    }

    pub fn new(keys: Vec<u64>) -> (r: UniqueBy)
        requires
            keys@.len() < usize::MAX / 8,
        ensures
            r.wf(),
            r.remaining() == keys@,
            r.seen() == Set::<u64>::empty(),
    {
        let r = UniqueBy { keys, pos: 0, used: SeenKeys::new() };
        assert(r.keys@.skip(0) =~= r.keys@);
        r
    }

    /// The next key not handed out before, if any is left.
    pub fn next(&mut self) -> (r: Option<u64>)
        requires
            old(self).wf(),
        ensures
            final(self).wf(),
            match first_new(old(self).remaining(), old(self).seen(), 0) {
                Some(i) => {
                    &&& r == Some(old(self).remaining()[i])
                    &&& final(self).remaining() == old(self).remaining().skip(i + 1)
                    &&& final(self).seen() == old(self).seen().insert(old(self).remaining()[i])
                },
                None => {
                    &&& r is None
                    &&& final(self).remaining().len() == 0
                    &&& final(self).seen() == old(self).seen()
                },
            },
    {
        broadcast use vstd::set::group_set_axioms;

        let ghost rest = self.remaining();
        let ghost start = self.pos;
        while self.pos < self.keys.len()
            invariant
                start <= self.pos <= self.keys@.len(),
                self.keys@ == old(self).keys@,
                seen_keys(self.used) == seen_keys(old(self).used),
                rest == self.keys@.skip(start as int),
                start == old(self).pos,
                rest == old(self).remaining(),
                self.keys@.len() < usize::MAX / 8,
                seen_keys(self.used).finite(),
                seen_keys(self.used).len() <= start,
                first_new(rest, seen_keys(self.used), 0) == first_new(
                    rest,
                    seen_keys(self.used),
                    self.pos - start,
                ),
            decreases self.keys@.len() - self.pos,
        {
            let k = self.keys[self.pos];
            let ghost j = self.pos - start;
            let ghost before = seen_keys(self.used);
            assert(rest[j] == k);
            self.pos = self.pos + 1;
            if self.used.insert(k) {
                assert(first_new(rest, before, j) == Some(j));
                assert(self.keys@.skip(self.pos as int) =~= rest.skip(j + 1));
                return Some(k);
            }
            assert(before.insert(k) =~= before);
            assert(first_new(rest, before, j) == first_new(rest, before, j + 1));
        }
        assert(self.keys@.skip(self.pos as int).len() == 0);
        None
    }

    /// Bounds on how many keys are left to hand out: at least one when some
    /// key is left and none was handed out yet, at most as many as are left.
    pub fn size_hint(&self) -> (r: (usize, Option<usize>))
        requires
            self.wf(),
        ensures
            r.0 == (if self.remaining().len() > 0 && self.seen().len() == 0 {
                1usize
            } else {
                0usize
            }),
            r.1 == Some(self.remaining().len() as usize),
    {
        let left = self.keys.len() - self.pos;
        let low: usize = if left > 0 && self.used.len() == 0 {
            1
        } else {
            0
        };
        (low, Some(left))
    }

    /// How many keys are left to hand out.
    pub fn count(self) -> (r: usize)
        requires
            self.wf(),
        ensures
            r == self.seen().union(self.remaining().to_set()).len() - self.seen().len(),
    {
        let mut rest: Vec<u64> = Vec::new();
        let mut i: usize = self.pos;
        while i < self.keys.len()
            invariant
                self.pos <= i <= self.keys@.len(),
                rest@ == self.keys@.subrange(self.pos as int, i as int),
            decreases self.keys@.len() - i,
        {
            rest.push(self.keys[i]);
            i = i + 1;
            assert(rest@ =~= self.keys@.subrange(self.pos as int, i as int));
        }
        assert(rest@ =~= self.remaining());
        count_new_keys(self.used, &rest)
    }
}

} // verus!
