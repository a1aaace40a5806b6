//! Recipe scoreboard: two cooks repeatedly append the digits of the
//! sum of their current recipes' scores and hop forward, producing an
//! unbounded, fully deterministic stream of score digits.
//!
//! The stream is modelled by [`board_after`]: the exact board state
//! after a number of steps.  Because a step only ever appends digits,
//! the digit at any fixed position never changes again, which makes
//! [`recipe_digit`] — the limit stream — well defined.

use crate::text::push_char;
use vstd::prelude::*;

verus! {

/// A spec-level board state: the score digits so far and the two
/// cooks' current positions.
pub struct RecipeBoard {
    pub scores: Seq<u8>,
    pub i: int,
    pub j: int,
}

/// A board is well formed when it has at least the two seed digits,
/// both cooks stand on the board, and every entry is a single digit.
pub open spec fn board_wf(b: RecipeBoard) -> bool {
    &&& 2 <= b.scores.len()
    &&& 0 <= b.i < b.scores.len()
    &&& 0 <= b.j < b.scores.len()
    &&& forall|k: int| 0 <= k < b.scores.len() ==> #[trigger] b.scores[k] <= 9
}

/// One step: append the digits of the two current scores' sum, then
/// move each cook forward by one plus its current score, wrapping.
pub open spec fn board_step(b: RecipeBoard) -> RecipeBoard
    recommends
        board_wf(b),
{
    let sum = b.scores[b.i] + b.scores[b.j];
    let s2 = if sum >= 10 {
        b.scores.push((sum / 10) as u8).push((sum % 10) as u8)
    } else {
        b.scores.push(sum as u8)
    };
    RecipeBoard {
        scores: s2,
        i: (b.i + s2[b.i] + 1) % (s2.len() as int),
        j: (b.j + s2[b.j] + 1) % (s2.len() as int),
    }
}

/// The board after `n` steps, starting from the seed digits `3, 7`.
pub open spec fn board_after(n: nat) -> RecipeBoard
    decreases n,
{
    if n == 0 {
        RecipeBoard { scores: seq![3u8, 7u8], i: 0, j: 1 }
    } else {
        board_step(board_after((n - 1) as nat))
    }
}

/// The digit at position `n` of the limit stream.  After `n` steps the
/// board always holds more than `n` digits, and digits never change
/// once appended, so this is the digit every later board shows at `n`.
pub open spec fn recipe_digit(n: int) -> u8
    recommends
        0 <= n,
{
    board_after(n as nat).scores[n]
}

/// A step preserves well-formedness, appends one or two digits, and
/// never changes an existing digit.
pub proof fn lemma_board_step(b: RecipeBoard)
    requires
        board_wf(b),
    ensures
        board_wf(board_step(b)),
        b.scores.len() < board_step(b).scores.len() <= b.scores.len() + 2,
        forall|k: int| 0 <= k < b.scores.len() ==> #[trigger] board_step(b).scores[k] == b.scores[k],
{
    let sum = b.scores[b.i] + b.scores[b.j];
    let s2 = board_step(b).scores;
    assert(0 <= sum <= 18);
    vstd::arithmetic::div_mod::lemma_mod_division_less_than_divisor(
        b.i + s2[b.i] + 1,
        s2.len() as int,
    );
    vstd::arithmetic::div_mod::lemma_mod_pos_bound(b.i + s2[b.i] + 1, s2.len() as int);
    vstd::arithmetic::div_mod::lemma_mod_pos_bound(b.j + s2[b.j] + 1, s2.len() as int);
}

/// After `n` steps the board is well formed and holds at least `n + 2`
/// digits.
pub proof fn lemma_board_after(n: nat)
    ensures
        board_wf(board_after(n)),
        board_after(n).scores.len() >= n + 2,
    decreases n,
{
    if n == 0 {
        assert(board_wf(board_after(0)));
    } else {
        lemma_board_after((n - 1) as nat);
        lemma_board_step(board_after((n - 1) as nat));
    }
}

/// The board never shrinks.
pub proof fn lemma_board_len_mono(m: nat, n: nat)
    requires
        m <= n,
    ensures
        board_after(m).scores.len() <= board_after(n).scores.len(),
    decreases n - m,
{
    if n > m {
        lemma_board_len_mono(m, (n - 1) as nat);
        lemma_board_after((n - 1) as nat);
        lemma_board_step(board_after((n - 1) as nat));
    }
}

/// Digits are stable: a digit on the board after `m` steps reads the
/// same on the board after any later number of steps.
pub proof fn lemma_board_stable(m: nat, n: nat, k: int)
    requires
        m <= n,
        0 <= k < board_after(m).scores.len(),
    ensures
        board_after(n).scores[k] == board_after(m).scores[k],
    decreases n - m,
{
    if n > m {
        lemma_board_stable(m, (n - 1) as nat, k);
        lemma_board_len_mono(m, (n - 1) as nat);
        lemma_board_after((n - 1) as nat);
        lemma_board_step(board_after((n - 1) as nat));
    }
}

/// The digit `recipe_digit(k)` is what any sufficiently long board
/// shows at position `k`, and it is a single digit.
pub proof fn lemma_recipe_digit(steps: nat, k: int)
    requires
        0 <= k < board_after(steps).scores.len(),
    ensures
        board_after(steps).scores[k] == recipe_digit(k),
        recipe_digit(k) <= 9,
{
    lemma_board_after(steps);
    lemma_board_after(k as nat);
    if steps <= k as nat {
        lemma_board_stable(steps, k as nat, k);
    } else {
        lemma_board_stable(k as nat, steps, k);
    }
}

/// The mutable scoreboard: the score digits so far and the two cooks'
/// positions.
pub struct Scoreboard {
    scores: Vec<u8>,
    i: usize,
    j: usize,
}

impl Scoreboard {
    /// The spec-level board this scoreboard holds.
    pub closed spec fn model(self) -> RecipeBoard {
        RecipeBoard { scores: self.scores@, i: self.i as int, j: self.j as int }
    }

    /// The scoreboard's invariant.
    pub open spec fn wf(self) -> bool {
        board_wf(self.model())
    }

    /// The board seeded with the two starting recipes.
    pub fn new() -> (r: Scoreboard)
        ensures
            r.wf(),
            r.model() == board_after(0),
    {
        let r = Scoreboard { scores: vec![3u8, 7u8], i: 0, j: 1 };
        proof {
            assert(r.scores@ =~= seq![3u8, 7u8]);
        }
        r
    }

    /// Performs one step of the recipe process.
    pub fn step(&mut self)
        requires
            old(self).wf(),
            old(self).model().scores.len() <= usize::MAX - 12,
        ensures
            final(self).wf(),
            final(self).model() == board_step(old(self).model()),
    {
        proof {
            lemma_board_step(old(self).model());
        }
        let sum = self.scores[self.i] + self.scores[self.j];
        if sum >= 10 {
            self.scores.push(sum / 10);
        }
        self.scores.push(sum % 10);
        let n = self.scores.len();
        let di = self.scores[self.i];
        self.i = (self.i + di as usize + 1) % n;
        let dj = self.scores[self.j];
        self.j = (self.j + dj as usize + 1) % n;
    }

    /// The score digits so far.
    pub fn scores(&self) -> (r: &Vec<u8>)
        ensures
            r@ == self.model().scores,
    {
        &self.scores
    }
}

/// The character for a single digit.
pub open spec fn digit_char(d: u8) -> char {
    ((d + 48) as u8) as char
}

/// The scores of the `count` recipes that follow the first
/// `after_num` recipes, as a string of digits.
pub fn scores_after(after_num: usize, count: usize) -> (r: String)
    requires
        after_num + count <= usize::MAX - 12,
    ensures
        r@.len() == count,
        forall|t: int| 0 <= t < count ==> r@[t] == digit_char(recipe_digit(after_num + t)),
{
    let mut sb = Scoreboard::new();
    let ghost mut steps: nat = 0;
    while sb.scores.len() < after_num + count
        invariant
            after_num + count <= usize::MAX - 12,
            sb.wf(),
            sb.model() == board_after(steps),
        decreases after_num + count + 2 - sb.scores@.len(),
    {
        proof {
            lemma_board_step(sb.model());
        }
        sb.step();
        proof {
            steps = steps + 1;
        }
    }
    let mut s = String::new();
    let mut t: usize = 0;
    while t < count
        invariant
            t <= count,
            after_num + count <= usize::MAX - 12,
            sb.wf(),
            sb.model() == board_after(steps),
            sb.model().scores.len() >= after_num + count,
            s@.len() == t,
            forall|q: int| 0 <= q < t ==> s@[q] == digit_char(recipe_digit(after_num + q)),
        decreases count - t,
    {
        let d = sb.scores[after_num + t];
        proof {
            lemma_recipe_digit(steps, after_num + t);
        }
        push_char(&mut s, (d + 48) as char);
        t = t + 1;
    }
    s
}

/// The digits named by a sequence of digit characters.
pub open spec fn digits_of(s: Seq<char>) -> Seq<u8> {
    s.map(|_t: int, c: char| (c as int - 48) as u8)
}

/// The digit pattern `ds` occurs in the recipe stream at position `i`.
pub open spec fn matches_at(i: int, ds: Seq<u8>) -> bool {
    forall|t: int| 0 <= t < ds.len() ==> recipe_digit(i + t) == #[trigger] ds[t]
}

/// The number of recipes before the first occurrence of `seq` in the
/// recipe stream: the pattern occurs there and nowhere earlier.
///
/// The caller asserts that the pattern occurs at some position small
/// enough to address; the search would otherwise not terminate, just
/// as the underlying unbounded scan would not.
pub fn num_recipes_before(seq: &str) -> (r: usize)
    requires
        1 <= seq@.len(),
        forall|k: int| 0 <= k < seq@.len() ==> '0' <= #[trigger] seq@[k] <= '9',
        exists|i: int|
            0 <= i && i + seq@.len() + 12 <= usize::MAX && matches_at(i, digits_of(seq@)),
    ensures
        matches_at(r as int, digits_of(seq@)),
        forall|i2: int| 0 <= i2 < r ==> !matches_at(i2, digits_of(seq@)),
{
    let ghost target = choose|i: int|
        0 <= i && i + seq@.len() + 12 <= usize::MAX && matches_at(i, digits_of(seq@));
    let bytes = byte_digits(seq);
    let n = bytes.len();
    let mut sb = Scoreboard::new();
    let ghost mut steps: nat = 0;
    let mut i: usize = 0;
    loop
        invariant
            n == bytes@.len(),
            1 <= n,
            bytes@ == digits_of(seq@),
            sb.wf(),
            sb.model() == board_after(steps),
            0 <= target && target + n + 12 <= usize::MAX,
            matches_at(target, digits_of(seq@)),
            i <= target,
            forall|i2: int| 0 <= i2 < i ==> !matches_at(i2, digits_of(seq@)),
        decreases target - i,
    {
        while sb.scores.len() < i + n
            invariant
                i + n + 12 <= usize::MAX,
                sb.wf(),
                sb.model() == board_after(steps),
            decreases i + n + 2 - sb.scores@.len(),
        {
            proof {
                lemma_board_step(sb.model());
            }
            sb.step();
            proof {
                steps = steps + 1;
            }
        }
        let mut eq = true;
        let mut t: usize = 0;
        while t < n
            invariant
                t <= n,
                n == bytes@.len(),
                i + n <= usize::MAX,
                sb.model().scores.len() >= i + n,
                sb.wf(),
                sb.model() == board_after(steps),
                sb.model().scores.len() >= i + n,
                eq <==> (forall|q: int|
                    0 <= q < t ==> recipe_digit(i + q) == #[trigger] bytes@[q]),
            decreases n - t,
        {
            let d = sb.scores[i + t];
            proof {
                lemma_recipe_digit(steps, i + t);
            }
            if d != bytes[t] {
                eq = false;
            }
            t = t + 1;
        }
        if eq {
            return i;
        }
        proof {
            assert(!matches_at(i as int, digits_of(seq@)));
            assert(i < target);
        }
        i = i + 1;
    }
}

/// Turns a string of digit characters into the digits it names.
fn byte_digits(seq: &str) -> (r: Vec<u8>)
    requires
        forall|k: int| 0 <= k < seq@.len() ==> '0' <= #[trigger] seq@[k] <= '9',
    ensures
        r@ == digits_of(seq@),
{
    proof {
        broadcast use vstd::string::is_ascii_spec_bytes;

        assert(vstd::string::is_ascii(seq));
    }
    let bytes = seq.as_bytes_vec();
    let mut r: Vec<u8> = Vec::new();
    let mut k: usize = 0;
    let n = bytes.len();
    while k < n
        invariant
            k <= n,
            n == bytes@.len() == seq@.len(),
            forall|q: int| 0 <= q < n ==> #[trigger] bytes@[q] == seq@[q] as u8,
            forall|q: int| 0 <= q < seq@.len() ==> '0' <= #[trigger] seq@[q] <= '9',
            r@.len() == k,
            forall|q: int| 0 <= q < k ==> #[trigger] r@[q] == digits_of(seq@)[q],
        decreases n - k,
    {
        let b = bytes[k];
        r.push(b - 48);
        k = k + 1;
    }
    proof {
        assert(r@ =~= digits_of(seq@));
    }
    r
}

} // verus!
