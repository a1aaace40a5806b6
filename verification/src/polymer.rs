//! Polymer reduction: adjacent units of the same type but opposite
//! polarity annihilate until no reactive pair remains.

use vstd::prelude::*;

verus! {

/// Two units react when they are the same letter in opposite cases:
/// ASCII upper and lower case differ exactly in bit `0x20`.
pub open spec fn reacts(a: u8, b: u8) -> bool {
    (a ^ 0x20) == b
}

/// One step of the stack reduction: a unit either annihilates the top
/// of the stack or lands on it.
pub open spec fn reduce_push(acc: Seq<u8>, c: u8) -> Seq<u8> {
    if acc.len() > 0 && reacts(acc.last(), c) {
        acc.drop_last()
    } else {
        acc.push(c)
    }
}

/// The fully reduced form of a polymer: every unit of the input in
/// turn, folded through [`reduce_push`].
pub open spec fn reduced(s: Seq<u8>) -> Seq<u8>
    decreases s.len(),
{
    if s.len() == 0 {
        Seq::empty()
    } else {
        reduce_push(reduced(s.drop_last()), s.last())
    }
}

/// No two adjacent units react.
pub open spec fn fully_reacted(p: Seq<u8>) -> bool {
    forall|i: int| 0 <= i && i + 1 < p.len() ==> !reacts(#[trigger] p[i], p[i + 1])
}

/// The reduced form of any polymer is fully reacted: no adjacent
/// pair of its units can annihilate.
pub proof fn lemma_reduced_fully_reacted(s: Seq<u8>)
    ensures
        fully_reacted(reduced(s)),
    decreases s.len(),
{
    if s.len() > 0 {
        lemma_reduced_fully_reacted(s.drop_last());
        let acc = reduced(s.drop_last());
        let c = s.last();
        if acc.len() > 0 && reacts(acc.last(), c) {
            assert forall|i: int| 0 <= i && i + 1 < acc.drop_last().len() implies !reacts(
                #[trigger] acc.drop_last()[i],
                acc.drop_last()[i + 1],
            ) by {
                assert(acc.drop_last()[i] == acc[i] && acc.drop_last()[i + 1] == acc[i + 1]);
            }
        } else {
            assert forall|i: int| 0 <= i && i + 1 < acc.push(c).len() implies !reacts(
                #[trigger] acc.push(c)[i],
                acc.push(c)[i + 1],
            ) by {
                if i + 1 < acc.len() {
                    assert(acc.push(c)[i] == acc[i] && acc.push(c)[i + 1] == acc[i + 1]);
                } else if acc.len() > 0 {
                    assert(acc.push(c)[i] == acc.last() && acc.push(c)[i + 1] == c);
                }
            }
        }
    }
}

/// Turns a polymer string into its sequence of units, one byte per
/// character.
pub fn polymer_from_str(s: &str) -> (r: Vec<u8>)
    ensures
        r@.len() == s@.len(),
        forall|k: int| 0 <= k < s@.len() ==> r@[k] == s@[k] as u8,
{
    if s.is_ascii() {
        proof {
            broadcast use vstd::string::is_ascii_spec_bytes;

        }
        return s.as_bytes_vec();
    }
    let n = s.unicode_len();
    let mut r: Vec<u8> = Vec::new();
    let mut k: usize = 0;
    while k < n
        invariant
            k <= n,
            n == s@.len(),
            r@.len() == k,
            forall|t: int| 0 <= t < k ==> r@[t] == s@[t] as u8,
        decreases n - k,
    {
        let c = s.get_char(k);
        r.push(c as u8);
        k = k + 1;
    }
    r
}

/// Reduces the polymer in place to its fully reacted form.
pub fn reduce_polymer(p: &mut Vec<u8>)
    ensures
        final(p)@ == reduced(old(p)@),
{
    let n = p.len();
    let mut i: usize = 0;
    let mut j: usize = 0;
    while i < n
        invariant
            j <= i <= n,
            n == p@.len() == old(p)@.len(),
            p@.subrange(0, j as int) == reduced(old(p)@.subrange(0, i as int)),
            forall|t: int| i <= t < n ==> p@[t] == old(p)@[t],
        decreases n - i,
    {
        let ghost pre = p@;
        let ci = p[i];
        proof {
            assert(old(p)@.subrange(0, i as int + 1).drop_last() =~= old(p)@.subrange(
                0,
                i as int,
            ));
            assert(old(p)@.subrange(0, i as int + 1).last() == ci);
        }
        if j == 0 || p[j - 1] ^ 32 != ci {
            proof {
                if j > 0 {
                    assert(pre[j - 1] == pre.subrange(0, j as int).last());
                }
            }
            p[j] = ci;
            proof {
                assert(p@.subrange(0, j as int + 1) =~= pre.subrange(0, j as int).push(ci));
                assert(forall|t: int| i < t < n ==> p@[t] == pre[t]);
            }
            j = j + 1;
        } else {
            proof {
                assert(pre[j - 1] == pre.subrange(0, j as int).last());
                assert(reacts(pre.subrange(0, j as int).last(), ci));
                assert(p@.subrange(0, j as int - 1) =~= pre.subrange(0, j as int).drop_last());
            }
            j = j - 1;
        }
        i = i + 1;
    }
    proof {
        assert(old(p)@.subrange(0, n as int) =~= old(p)@);
    }
    p.truncate(j);
    proof {
        assert(p@ =~= reduced(old(p)@));
    }
}

} // verus!
