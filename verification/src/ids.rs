//! Box identifiers: per-character tallies, the number of positions at
//! which two identifiers differ, and the characters they share.

use crate::text::push_char;
use vstd::prelude::*;

verus! {

/// How many times `c` occurs in `s`.
pub open spec fn count_char(s: Seq<char>, c: char) -> int
    decreases s.len(),
{
    if s.len() == 0 {
        0
    } else {
        count_char(s.drop_last(), c) + if s.last() == c {
            1int
        } else {
            0int
        }
    }
}

/// At how many positions from `k` on the two strings differ.
pub open spec fn diff_from(a: Seq<char>, b: Seq<char>, k: int) -> int
    recommends
        a.len() == b.len(),
    decreases a.len() - k,
{
    if 0 <= k < a.len() && k < b.len() {
        (if a[k] != b[k] {
            1int
        } else {
            0int
        }) + diff_from(a, b, k + 1)
    } else {
        0
    }
}

/// The characters the two strings share position by position, from
/// `k` on.
pub open spec fn common_from(a: Seq<char>, b: Seq<char>, k: int) -> Seq<char>
    decreases a.len() - k,
{
    if 0 <= k < a.len() && k < b.len() {
        if a[k] == b[k] {
            seq![a[k]] + common_from(a, b, k + 1)
        } else {
            common_from(a, b, k + 1)
        }
    } else {
        Seq::empty()
    }
}

/// Position differences never exceed the positions left.
proof fn lemma_diff_from_bounds(a: Seq<char>, b: Seq<char>, k: int)
    ensures
        0 <= diff_from(a, b, k),
        k <= a.len() ==> diff_from(a, b, k) <= a.len() - k,
    decreases a.len() - k,
{
    if 0 <= k < a.len() && k < b.len() {
        lemma_diff_from_bounds(a, b, k + 1);
    }
}

/// The tally has an entry for character `c`.
pub open spec fn has_entry(r: Seq<(char, usize)>, c: char) -> bool {
    exists|i: int| 0 <= i < r.len() && (#[trigger] r[i]).0 == c
}

/// Counts how many times `c` occurs in `s`.
pub fn count_char_occurrences(s: &str, c: char) -> (r: usize)
    ensures
        r == count_char(s@, c),
{
    let n = s.unicode_len();
    let mut count: usize = 0;
    let mut k: usize = 0;
    while k < n
        invariant
            k <= n,
            n == s@.len(),
            count <= k,
            count == count_char(s@.subrange(0, k as int), c),
        decreases n - k,
    {
        proof {
            assert(s@.subrange(0, k as int + 1).drop_last() =~= s@.subrange(0, k as int));
            assert(s@.subrange(0, k as int + 1).last() == s@[k as int]);
        }
        if s.get_char(k) == c {
            count = count + 1;
        }
        k = k + 1;
    }
    proof {
        assert(s@.subrange(0, n as int) =~= s@);
    }
    count
}

/// Tallies the characters of `s`: one entry per distinct character,
/// in order of first appearance, with its number of occurrences.
pub fn char_counts(s: &str) -> (r: Vec<(char, usize)>)
    ensures
        forall|i: int|
            0 <= i < r@.len() ==> #[trigger] r@[i].1 == count_char(s@, r@[i].0),
        forall|i: int, j: int| 0 <= i < j < r@.len() ==> r@[i].0 != r@[j].0,
        forall|t: int| 0 <= t < s@.len() ==> has_entry(r@, #[trigger] s@[t]),
{
    let n = s.unicode_len();
    let mut r: Vec<(char, usize)> = Vec::new();
    let mut k: usize = 0;
    while k < n
        invariant
            k <= n,
            n == s@.len(),
            forall|i: int|
                0 <= i < r@.len() ==> #[trigger] r@[i].1 == count_char(s@, r@[i].0),
            forall|i: int, j: int| 0 <= i < j < r@.len() ==> r@[i].0 != r@[j].0,
            forall|t: int| 0 <= t < k ==> has_entry(r@, #[trigger] s@[t]),
        decreases n - k,
    {
        let c = s.get_char(k);
        let mut found = false;
        let mut i: usize = 0;
        let rn = r.len();
        while i < rn
            invariant
                i <= rn == r@.len(),
                found <==> exists|q: int| 0 <= q < i && (#[trigger] r@[q]).0 == c,
            decreases rn - i,
        {
            if r[i].0 == c {
                found = true;
            }
            i = i + 1;
        }
        let ghost pre = r@;
        if !found {
            let count = count_char_occurrences(s, c);
            r.push((c, count));
        }
        proof {
            assert forall|t: int| 0 <= t < k + 1 implies has_entry(r@, #[trigger] s@[t]) by {
                if t < k {
                    let q0 = choose|q: int| 0 <= q < pre.len() && (#[trigger] pre[q]).0 == s@[t];
                    assert((r@[q0]).0 == s@[t]);
                } else {
                    if found {
                        let q0 = choose|q: int| 0 <= q < pre.len() && (#[trigger] pre[q]).0 == c;
                        assert((r@[q0]).0 == s@[t]);
                    } else {
                        assert((r@[pre.len() as int]).0 == s@[t]);
                    }
                }
            }
        }
        k = k + 1;
    }
    r
}

/// The number of positions at which the two identifiers differ.  The
/// identifiers must have the same length.
pub fn distance(a: &str, b: &str) -> (r: usize)
    requires
        a@.len() == b@.len(),
    ensures
        r == diff_from(a@, b@, 0),
{
    let n = a.unicode_len();
    let mut count: usize = 0;
    let mut k: usize = 0;
    while k < n
        invariant
            k <= n,
            n == a@.len() == b@.len(),
            count <= k,
            count == diff_from(a@, b@, 0) - diff_from(a@, b@, k as int),
        decreases n - k,
    {
        proof {
            lemma_diff_from_bounds(a@, b@, k as int + 1);
        }
        if a.get_char(k) != b.get_char(k) {
            count = count + 1;
        }
        k = k + 1;
    }
    count
}

/// The characters at positions where the two identifiers agree, in
/// order.
pub fn common_chars(a: &str, b: &str) -> (r: String)
    ensures
        r@ == common_from(a@, b@, 0),
{
    let na = a.unicode_len();
    let nb = b.unicode_len();
    let n = if na < nb {
        na
    } else {
        nb
    };
    let mut r = String::new();
    let mut k: usize = 0;
    while k < n
        invariant
            k <= n,
            na == a@.len(),
            nb == b@.len(),
            n == if na < nb {
                na
            } else {
                nb
            },
            r@ + common_from(a@, b@, k as int) == common_from(a@, b@, 0),
        decreases n - k,
    {
        let ghost pre = r@;
        let ca = a.get_char(k);
        if ca == b.get_char(k) {
            push_char(&mut r, ca);
            proof {
                assert(common_from(a@, b@, k as int) =~= seq![a@[k as int]] + common_from(
                    a@,
                    b@,
                    k as int + 1,
                ));
                assert(r@ + common_from(a@, b@, k as int + 1) =~= pre + common_from(
                    a@,
                    b@,
                    k as int,
                ));
            }
        }
        k = k + 1;
    }
    proof {
        assert(common_from(a@, b@, n as int) =~= Seq::<char>::empty());
        assert(r@ =~= r@ + common_from(a@, b@, n as int));
    }
    r
}

/// Finds a pair of identifiers that differ at exactly one position
/// and returns their shared characters, or `None` if no two
/// identifiers are that close.  All identifiers must have the same
/// length, and there must be at least one.
pub fn find_close(ids: &[String]) -> (r: Option<String>)
    requires
        ids@.len() >= 1,
        forall|i: int| 0 <= i < ids@.len() ==> (#[trigger] ids@[i])@.len() == ids@[0]@.len(),
    ensures
        r matches Some(s) ==> exists|i: int, j: int|
            0 <= i < j < ids@.len() && diff_from(ids@[i]@, ids@[j]@, 0) == 1 && s@ == common_from(
                ids@[i]@,
                ids@[j]@,
                0,
            ),
        r is None ==> forall|i: int, j: int|
            0 <= i < j < ids@.len() ==> diff_from(#[trigger] ids@[i]@, #[trigger] ids@[j]@, 0)
                != 1,
{
    let n = ids.len();
    let mut i: usize = 0;
    while i < n - 1
        invariant
            n == ids@.len() >= 1,
            i <= n - 1,
            forall|q: int| 0 <= q < n ==> (#[trigger] ids@[q])@.len() == ids@[0]@.len(),
            forall|q: int, j: int|
                0 <= q < i && q < j < n ==> diff_from(#[trigger] ids@[q]@, #[trigger] ids@[j]@, 0)
                    != 1,
        decreases n - i,
    {
        let mut j: usize = i + 1;
        while j < n
            invariant
                i < j <= n == ids@.len(),
                forall|q: int| 0 <= q < n ==> (#[trigger] ids@[q])@.len() == ids@[0]@.len(),
                forall|q: int, j2: int|
                    0 <= q < i && q < j2 < n ==> diff_from(
                        #[trigger] ids@[q]@,
                        #[trigger] ids@[j2]@,
                        0,
                    ) != 1,
                forall|j2: int|
                    i < j2 < j ==> diff_from(ids@[i as int]@, #[trigger] ids@[j2]@, 0) != 1,
            decreases n - j,
        {
            if distance(ids[i].as_str(), ids[j].as_str()) == 1 {
                let s = common_chars(ids[i].as_str(), ids[j].as_str());
                return Some(s);
            }
            j = j + 1;
        }
        i = i + 1;
    }
    None
}

} // verus!
