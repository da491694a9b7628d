//! Paths as byte strings: their order and substring search.
use vstd::prelude::*;

verus! {

/// Byte-wise lexicographic order on paths.
pub open spec fn path_lt(a: Seq<u8>, b: Seq<u8>) -> bool
    decreases a.len(),
{
    if a.len() == 0 {
        b.len() > 0
    } else if b.len() == 0 {
        false
    } else if a[0] != b[0] {
        a[0] < b[0]
    } else {
        path_lt(a.drop_first(), b.drop_first())
    }
}

/// Whether `pat` occurs in `s` at some position.
pub open spec fn occurs_in(pat: Seq<u8>, s: Seq<u8>) -> bool {
    exists|i: int| 0 <= i && i + pat.len() <= s.len() && #[trigger] s.subrange(i, i + pat.len()) == pat
}

pub proof fn lemma_path_lt_irreflexive(a: Seq<u8>)
    ensures
        !path_lt(a, a),
    decreases a.len(),
{
    if a.len() > 0 {
        lemma_path_lt_irreflexive(a.drop_first());
    }
}

pub proof fn lemma_path_lt_transitive(a: Seq<u8>, b: Seq<u8>, c: Seq<u8>)
    requires
        path_lt(a, b),
        path_lt(b, c),
    ensures
        path_lt(a, c),
    decreases a.len(),
{
    if a.len() > 0 && b.len() > 0 && c.len() > 0 {
        if a[0] == b[0] && b[0] == c[0] {
            lemma_path_lt_transitive(a.drop_first(), b.drop_first(), c.drop_first());
        }
    }
}

pub proof fn lemma_path_lt_asymmetric(a: Seq<u8>, b: Seq<u8>)
    requires
        path_lt(a, b),
    ensures
        !path_lt(b, a),
    decreases a.len(),
{
    if a.len() > 0 && b.len() > 0 && a[0] == b[0] {
        lemma_path_lt_asymmetric(a.drop_first(), b.drop_first());
    }
}

proof fn lemma_path_lt_skip(a: Seq<u8>, b: Seq<u8>, i: int)
    requires
        0 <= i < a.len(),
        i < b.len(),
        a[i] == b[i],
    ensures
        path_lt(a.skip(i), b.skip(i)) == path_lt(a.skip(i + 1), b.skip(i + 1)),
{
    assert(a.skip(i).drop_first() =~= a.skip(i + 1));
    assert(b.skip(i).drop_first() =~= b.skip(i + 1));
}

/// Compares two paths byte by byte.
pub fn compare_paths(a: &[u8], b: &[u8]) -> (r: core::cmp::Ordering)
    ensures
        (r == core::cmp::Ordering::Less) == path_lt(a@, b@),
        (r == core::cmp::Ordering::Equal) == (a@ == b@),
        (r == core::cmp::Ordering::Greater) == path_lt(b@, a@),
{
    let mut i: usize = 0;
    proof {
        assert(a@.skip(0) =~= a@);
        assert(b@.skip(0) =~= b@);
    }
    while i < a.len() && i < b.len()
        invariant
            i <= a@.len(),
            i <= b@.len(),
            a@.take(i as int) == b@.take(i as int),
            path_lt(a@, b@) == path_lt(a@.skip(i as int), b@.skip(i as int)),
            path_lt(b@, a@) == path_lt(b@.skip(i as int), a@.skip(i as int)),
        decreases a@.len() - i,
    {
        if a[i] < b[i] {
            proof {
                lemma_path_lt_asymmetric(a@.skip(i as int), b@.skip(i as int));
                assert(a@[i as int] != b@[i as int]);
                assert(a@.take(i as int + 1) != b@.take(i as int + 1)) by {
                    assert(a@.take(i as int + 1)[i as int] != b@.take(i as int + 1)[i as int]);
                }
                if a@ == b@ {
                    assert(a@.take(i as int + 1) =~= b@.take(i as int + 1));
                }
            }
            return core::cmp::Ordering::Less;
        }
        if a[i] > b[i] {
            proof {
                lemma_path_lt_asymmetric(b@.skip(i as int), a@.skip(i as int));
                assert(a@[i as int] != b@[i as int]);
            }
            return core::cmp::Ordering::Greater;
        }
        proof {
            lemma_path_lt_skip(a@, b@, i as int);
            lemma_path_lt_skip(b@, a@, i as int);
            assert(a@.take(i as int + 1) =~= a@.take(i as int).push(a@[i as int]));
            assert(b@.take(i as int + 1) =~= b@.take(i as int).push(b@[i as int]));
        }
        i = i + 1;
    }
    proof {
        assert(a@.take(i as int) =~= a@.subrange(0, i as int));
    }
    if a.len() < b.len() {
        proof {
            assert(a@ =~= a@.take(i as int));
            assert(a@.skip(i as int).len() == 0);
            assert(a@.len() != b@.len());
        }
        core::cmp::Ordering::Less
    } else if a.len() > b.len() {
        proof {
            assert(b@ =~= b@.take(i as int));
            assert(b@.skip(i as int).len() == 0);
            assert(a@.len() != b@.len());
        }
        core::cmp::Ordering::Greater
    } else {
        proof {
            assert(a@ =~= a@.take(i as int));
            assert(b@ =~= b@.take(i as int));
            lemma_path_lt_irreflexive(a@);
        }
        core::cmp::Ordering::Equal
    }
}

/// Whether `pat` occurs anywhere in `s`.
pub fn contains_bytes(s: &[u8], pat: &[u8]) -> (r: bool)
    ensures
        r == occurs_in(pat@, s@),
{
    if pat.len() > s.len() {
        return false;
    }
    let n = s.len();
    let last = n - pat.len();
    let mut i: usize = 0;
    loop
        invariant
            n == s@.len(),
            last + pat@.len() == s@.len(),
            i <= last,
            forall|j: int| 0 <= j < i ==> #[trigger] s@.subrange(j, j + pat@.len()) != pat@,
        decreases last - i,
    {
        let mut k: usize = 0;
        let mut same = true;
        while k < pat.len()
            invariant
                n == s@.len(),
                i <= last,
                last + pat@.len() == s@.len(),
                k <= pat@.len(),
                same == (forall|t: int| 0 <= t < k ==> s@[i + t] == pat@[t]),
            decreases pat@.len() - k,
        {
            if s[i + k] != pat[k] {
                same = false;
            }
            k = k + 1;
        }
        if same {
            assert(s@.subrange(i as int, i + pat@.len()) =~= pat@);
            return true;
        }
        proof {
            let t = choose|t: int| 0 <= t < pat@.len() && s@[i + t] != pat@[t];
            assert(s@.subrange(i as int, i + pat@.len())[t] != pat@[t]);
        }
        if i == last {
            return false;
        }
        i = i + 1;
    }
}

} // verus!
