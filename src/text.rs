//! Building blocks of rendered text: decimal numbers, repeated bytes,
//! line counts and line marking.
use vstd::prelude::*;

verus! {

pub const NEWLINE: u8 = 10;
pub const SPACE: u8 = 32;
pub const PLUS: u8 = 43;
pub const MINUS: u8 = 45;

/// Decimal digits of `n`, most significant first.
pub open spec fn decimal(n: nat) -> Seq<u8>
    decreases n,
{
    if n < 10 {
        seq![(48 + n) as u8]
    } else {
        decimal(n / 10) + seq![(48 + n % 10) as u8]
    }
}

/// Appends the decimal digits of `n` to `out`.
pub fn push_decimal(out: &mut Vec<u8>, n: u128)
    ensures
        final(out)@ == old(out)@ + decimal(n as nat),
    decreases n,
{
    if n < 10 {
        out.push(48 + n as u8);
    } else {
        push_decimal(out, n / 10);
        out.push(48 + (n % 10) as u8);
    }
    assert(final(out)@ =~= old(out)@ + decimal(n as nat)) by {
        if n >= 10 {
            assert(old(out)@ + decimal((n / 10) as nat) + seq![(48 + n % 10) as u8] =~= old(out)@
                + decimal(n as nat));
        }
    };
}

pub open spec fn repeat(b: u8, n: nat) -> Seq<u8> {
    Seq::new(n, |i: int| b)
}

/// Appends `n` copies of `b` to `out`.
pub fn push_repeat(out: &mut Vec<u8>, b: u8, n: u128)
    ensures
        final(out)@ == old(out)@ + repeat(b, n as nat),
{
    let mut k: u128 = 0;
    while k < n
        invariant
            k <= n,
            out@ == old(out)@ + repeat(b, k as nat),
        decreases n - k,
    {
        out.push(b);
        k = k + 1;
        assert(out@ =~= old(out)@ + repeat(b, k as nat));
    }
}

/// Appends all of `s` to `out`.
pub fn push_all(out: &mut Vec<u8>, s: &[u8])
    ensures
        final(out)@ == old(out)@ + s@,
{
    let mut k: usize = 0;
    while k < s.len()
        invariant
            k <= s@.len(),
            out@ == old(out)@ + s@.take(k as int),
        decreases s@.len() - k,
    {
        out.push(s[k]);
        k = k + 1;
        assert(out@ =~= old(out)@ + s@.take(k as int));
    }
    assert(s@.take(k as int) =~= s@);
}

/// Number of lines of `s`: its newlines, and one more for an unterminated
/// last line.
pub open spec fn line_count(s: Seq<u8>) -> nat
    decreases s.len(),
{
    if s.len() == 0 {
        0
    } else if s.len() == 1 || s[s.len() - 2] == NEWLINE {
        line_count(s.drop_last()) + 1
    } else {
        line_count(s.drop_last())
    }
}

proof fn lemma_line_count_bound(s: Seq<u8>)
    ensures
        line_count(s) <= s.len(),
    decreases s.len(),
{
    if s.len() > 0 {
        lemma_line_count_bound(s.drop_last());
    }
}

pub fn count_lines(s: &[u8]) -> (r: usize)
    ensures
        r == line_count(s@),
{
    let mut n: usize = 0;
    let mut i: usize = 0;
    while i < s.len()
        invariant
            i <= s@.len(),
            n == line_count(s@.take(i as int)),
        decreases s@.len() - i,
    {
        proof {
            assert(s@.take(i as int + 1).drop_last() =~= s@.take(i as int));
            lemma_line_count_bound(s@.take(i as int));
        }
        if i == 0 || s[i - 1] == NEWLINE {
            n = n + 1;
        }
        i = i + 1;
    }
    assert(s@.take(i as int) =~= s@);
    n
}

/// `s` with `mark` put before each of its lines.
pub open spec fn mark_lines(mark: u8, s: Seq<u8>) -> Seq<u8>
    decreases s.len(),
{
    if s.len() == 0 {
        Seq::empty()
    } else if s.len() == 1 || s[s.len() - 2] == NEWLINE {
        mark_lines(mark, s.drop_last()) + seq![mark, s.last()]
    } else {
        mark_lines(mark, s.drop_last()) + seq![s.last()]
    }
}

/// The lines of `s`, each led by `mark`, with the last one terminated.
pub open spec fn marked_block(mark: u8, s: Seq<u8>) -> Seq<u8> {
    if s.len() > 0 && s.last() != NEWLINE {
        mark_lines(mark, s) + seq![NEWLINE]
    } else {
        mark_lines(mark, s)
    }
}

/// Appends the lines of `s` to `out`, each led by `mark`, with the last one
/// terminated.
pub fn push_marked(out: &mut Vec<u8>, mark: u8, s: &[u8])
    ensures
        final(out)@ == old(out)@ + marked_block(mark, s@),
{
    let mut i: usize = 0;
    while i < s.len()
        invariant
            i <= s@.len(),
            out@ == old(out)@ + mark_lines(mark, s@.take(i as int)),
        decreases s@.len() - i,
    {
        proof {
            assert(s@.take(i as int + 1).drop_last() =~= s@.take(i as int));
        }
        if i == 0 || s[i - 1] == NEWLINE {
            out.push(mark);
        }
        out.push(s[i]);
        i = i + 1;
        assert(out@ =~= old(out)@ + mark_lines(mark, s@.take(i as int)));
    }
    assert(s@.take(i as int) =~= s@);
    if s.len() > 0 && s[s.len() - 1] != NEWLINE {
        out.push(NEWLINE);
    }
    assert(out@ =~= old(out)@ + marked_block(mark, s@));
}

} // verus!
