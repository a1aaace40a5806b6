//! Guard sleep records: timestamped shift, sleep and wake events are
//! folded into per-guard lists of asleep spans, and the spans are
//! searched for the sleepiest guard and minute.

use vstd::prelude::*;

verus! {

/// A decimal digit character.
pub open spec fn is_digit(c: char) -> bool {
    '0' <= c <= '9'
}

/// The literal `lit` occurs in `s` at offset `off`.
pub open spec fn lit_at(s: Seq<char>, off: int, lit: Seq<char>) -> bool {
    &&& 0 <= off
    &&& off + lit.len() <= s.len()
    &&& forall|k: int| 0 <= k < lit.len() ==> s[off + k] == #[trigger] lit[k]
}

/// The value of the digit run `s[from..to]`.
pub open spec fn digits_value(s: Seq<char>, from: int, to: int) -> int
    decreases to - from,
{
    if from >= to {
        0
    } else {
        digits_value(s, from, to - 1) * 10 + (s[to - 1] as int - 48)
    }
}

/// The position of the `q`-th digit of a record's timestamp.
pub open spec fn digit_pos(q: int) -> int {
    if q < 4 {
        q + 1
    } else if q < 8 {
        q + 2
    } else {
        q + 3
    }
}

/// A record line has the timestamp shape `[YYYY-MM-DD HH:MM] ` with a
/// nonempty event after it.
pub open spec fn rec_shape(s: Seq<char>) -> bool {
    &&& s.len() >= 20
    &&& s[0] == '[' && s[5] == '-' && s[8] == '-' && s[11] == ' ' && s[14] == ':' && s[17] == ']'
        && s[18] == ' '
    &&& is_digit(s[1]) && is_digit(s[2]) && is_digit(s[3]) && is_digit(s[4]) && is_digit(s[6])
        && is_digit(s[7]) && is_digit(s[9]) && is_digit(s[10]) && is_digit(s[12]) && is_digit(
        s[13],
    ) && is_digit(s[15]) && is_digit(s[16])
}

/// The minute a record's timestamp names.
pub open spec fn rec_minute(s: Seq<char>) -> int {
    (s[15] as int - 48) * 10 + (s[16] as int - 48)
}

/// The event is a shift start: `Guard #<digits> begins shift`.
pub open spec fn is_shift(s: Seq<char>) -> bool {
    &&& s.len() >= 40
    &&& lit_at(s, 19, "Guard #"@)
    &&& lit_at(s, s.len() - 13, " begins shift"@)
    &&& forall|k: int| 26 <= k < s.len() - 13 ==> is_digit(#[trigger] s[k])
}

/// The guard number a shift record names.
pub open spec fn shift_id(s: Seq<char>) -> int {
    digits_value(s, 26, s.len() - 13)
}

/// What a record line says: `None` if it is malformed, otherwise the
/// minute and the event kind — `0` a shift start (with the guard
/// number), `1` falling asleep, `2` waking up, `3` any other event.
pub open spec fn rec_parse(s: Seq<char>) -> Option<(int, int, int)> {
    if !rec_shape(s) {
        None
    } else if is_shift(s) {
        Some((rec_minute(s), 0, shift_id(s)))
    } else if s.len() == 31 && lit_at(s, 19, "falls asleep"@) {
        Some((rec_minute(s), 1, 0))
    } else if s.len() == 27 && lit_at(s, 19, "wakes up"@) {
        Some((rec_minute(s), 2, 0))
    } else {
        Some((rec_minute(s), 3, 0))
    }
}

/// The first index holding guard `g`, or `-1`.
pub open spec fn find_key(acc: Seq<(u32, Seq<(u32, u32)>)>, g: int, i: int) -> int
    decreases acc.len() - i,
{
    if !(0 <= i < acc.len()) {
        -1
    } else if acc[i].0 == g {
        i
    } else {
        find_key(acc, g, i + 1)
    }
}

/// Appends the span to guard `g`'s list, creating the guard's entry
/// if it has none.
pub open spec fn add_span(
    acc: Seq<(u32, Seq<(u32, u32)>)>,
    g: int,
    st: int,
    m: int,
) -> Seq<(u32, Seq<(u32, u32)>)> {
    let i = find_key(acc, g, 0);
    if i == -1 {
        acc.push((g as u32, seq![(st as u32, m as u32)]))
    } else {
        acc.update(i, (acc[i].0, acc[i].1.push((st as u32, m as u32))))
    }
}

/// Folds record lines from index `k` on into per-guard span lists.
/// `gid` is the guard on shift, `start` the pending sleep minute.
/// `None` when a record is malformed, names a minute of 60 or more on
/// a sleep or wake event, names a guard number that does not fit,
/// puts a guard to sleep twice, or wakes one that is not asleep.
pub open spec fn guards_fold(
    ls: Seq<Seq<char>>,
    k: int,
    gid: Option<int>,
    start: Option<int>,
    acc: Seq<(u32, Seq<(u32, u32)>)>,
) -> Option<Seq<(u32, Seq<(u32, u32)>)>>
    decreases ls.len() - k,
{
    if !(0 <= k < ls.len()) {
        Some(acc)
    } else {
        match rec_parse(ls[k]) {
            None => None,
            Some((m, kind, id)) => {
                if kind == 0 {
                    if 0 <= id <= u32::MAX {
                        guards_fold(ls, k + 1, Some(id), start, acc)
                    } else {
                        None
                    }
                } else if m >= 60 {
                    None
                } else if kind == 1 {
                    if start is None {
                        guards_fold(ls, k + 1, gid, Some(m), acc)
                    } else {
                        None
                    }
                } else if kind == 2 {
                    match gid {
                        None => None,
                        Some(g) => match start {
                            None => None,
                            Some(st) => guards_fold(
                                ls,
                                k + 1,
                                gid,
                                None,
                                add_span(acc, g, st, m),
                            ),
                        },
                    }
                } else {
                    guards_fold(ls, k + 1, gid, start, acc)
                }
            }
        }
    }
}

/// The views of a vector of record lines.
pub open spec fn record_views(ls: Seq<String>) -> Seq<Seq<char>> {
    ls.map_values(|l: String| l@)
}

/// The spec-level shape of a guard table.
pub open spec fn guards_model(g: Seq<(u32, Vec<(u32, u32)>)>) -> Seq<(u32, Seq<(u32, u32)>)> {
    g.map_values(|p: (u32, Vec<(u32, u32)>)| (p.0, p.1@))
}

/// Why a set of records was rejected.
#[derive(Clone, Copy, Debug, PartialEq, Eq, Structural)]
pub enum GuardError {
    /// A line is not a timestamped record.
    BadRecord,
    /// A sleep or wake event names a minute of 60 or more.
    BadMinute,
    /// A shift record names a guard number that does not fit.
    BadGuardId,
    /// A guard fell asleep while already asleep.
    DoubleSleep,
    /// A wake event arrived while no guard was asleep.
    WakeBeforeSleep,
    /// A wake event arrived before any shift record.
    NoShift,
    /// The records put no guard to sleep at all.
    NoGuards,
}

/// Checks whether the character at `i` is a decimal digit.
fn digit_at(line: &str, i: usize) -> (r: bool)
    requires
        i < line@.len(),
    ensures
        r == is_digit(line@[i as int]),
{
    let c = line.get_char(i);
    '0' <= c && c <= '9'
}

/// Checks whether `lit` occurs in `line` at offset `off`.
fn matches_lit(line: &str, off: usize, lit: &str) -> (r: bool)
    requires
        off + lit@.len() <= line@.len(),
        line@.len() <= usize::MAX,
    ensures
        r == lit_at(line@, off as int, lit@),
{
    let n = lit.unicode_len();
    let mut k: usize = 0;
    while k < n
        invariant
            k <= n == lit@.len(),
            off + n <= line@.len() <= usize::MAX,
            forall|q: int| 0 <= q < k ==> line@[off + q] == #[trigger] lit@[q],
        decreases n - k,
    {
        if line.get_char(off + k) != lit.get_char(k) {
            return false;
        }
        k = k + 1;
    }
    true
}

/// Reads one record line: its minute, event kind, and — for a shift
/// start whose guard number fits — the guard number.  The last flag
/// reports a guard number too large to represent.
fn parse_record(line: &str) -> (r: Option<(u32, u8, u32, bool)>)
    ensures
        r is None <==> rec_parse(line@) is None,
        r matches Some(t) ==> rec_parse(line@) matches Some(p) && p.0 == t.0 && p.1 == t.1 && (t.1
            == 0 ==> ((t.3 <==> p.2 > u32::MAX) && (!t.3 ==> t.2 == p.2))),
{
    let n = line.unicode_len();
    if n < 20 {
        return None;
    }
    if line.get_char(0) != '[' || line.get_char(5) != '-' || line.get_char(8) != '-'
        || line.get_char(11) != ' ' || line.get_char(14) != ':' || line.get_char(17) != ']'
        || line.get_char(18) != ' ' {
        return None;
    }
    if !(digit_at(line, 1) && digit_at(line, 2) && digit_at(line, 3) && digit_at(line, 4)
        && digit_at(line, 6) && digit_at(line, 7) && digit_at(line, 9) && digit_at(line, 10)
        && digit_at(line, 12) && digit_at(line, 13) && digit_at(line, 15) && digit_at(line, 16)) {
        return None;
    }
    proof {
        assert(rec_shape(line@));
    }
    let c15 = line.get_char(15);
    let c16 = line.get_char(16);
    let minute = (c15 as u8 - 48) as u32 * 10 + (c16 as u8 - 48) as u32;
    proof {
        reveal_strlit("Guard #");
        reveal_strlit(" begins shift");
        reveal_strlit("falls asleep");
        reveal_strlit("wakes up");
    }
    // Shift start?
    if n >= 40 && matches_lit(line, 19, "Guard #") && matches_lit(line, n - 13, " begins shift") {
        let mut digits_ok = true;
        let mut p: usize = 26;
        let to = n - 13;
        while p < to
            invariant
                26 <= p <= to == n - 13,
                n == line@.len() >= 40,
                digits_ok <==> (forall|q: int| 26 <= q < p ==> is_digit(#[trigger] line@[q])),
            decreases to - p,
        {
            let c = line.get_char(p);
            if c < '0' || c > '9' {
                digits_ok = false;
            }
            p = p + 1;
        }
        if digits_ok {
            // All of the shift shape holds.
            proof {
                assert(is_shift(line@));
            }
            let mut val: u32 = 0;
            let mut too_big = false;
            let mut p2: usize = 26;
            while p2 < to
                invariant
                    26 <= p2 <= to == n - 13,
                    n == line@.len() >= 40,
                    forall|q: int| 26 <= q < to ==> is_digit(#[trigger] line@[q]),
                    !too_big ==> val == digits_value(line@, 26, p2 as int) && val <= u32::MAX,
                    too_big ==> digits_value(line@, 26, p2 as int) > u32::MAX,
                decreases to - p2,
            {
                let c = line.get_char(p2);
                let d = (c as u8 - 48) as u32;
                proof {
                    lemma_digits_value_nonneg(line@, 26, p2 as int);
                }
                if too_big {
                } else if val > (u32::MAX - d) / 10 {
                    too_big = true;
                    proof {
                        assert(digits_value(line@, 26, p2 as int + 1) == val * 10 + d);
                        assert(val * 10 + d > u32::MAX) by (nonlinear_arith)
                            requires
                                val > (u32::MAX - d) / 10,
                                0 <= d <= 9,
                        ;
                    }
                } else {
                    proof {
                        assert(val * 10 + d <= u32::MAX) by (nonlinear_arith)
                            requires
                                val <= (u32::MAX - d) / 10,
                                0 <= d <= 9,
                        ;
                    }
                    val = val * 10 + d;
                }
                p2 = p2 + 1;
            }
            return Some((minute, 0, val, too_big));
        } else {
            // Not a shift after all: some other event.
            proof {
                assert(!is_shift(line@));
                assert(line@.len() != 31 || !lit_at(line@, 19, "falls asleep"@)) by {
                    if line@.len() == 31 && lit_at(line@, 19, "falls asleep"@) {
                        assert(line@[19] == 'f');
                        assert(lit_at(line@, 19, "Guard #"@));
                        assert(line@[19] == 'G');
                    }
                }
                assert(line@.len() != 27 || !lit_at(line@, 19, "wakes up"@)) by {
                    if line@.len() == 27 && lit_at(line@, 19, "wakes up"@) {
                        assert(line@[19] == 'w');
                        assert(lit_at(line@, 19, "Guard #"@));
                        assert(line@[19] == 'G');
                    }
                }
            }
            return Some((minute, 3, 0, false));
        }
    }
    // Falls asleep?
    if n == 31 && matches_lit(line, 19, "falls asleep") {
        proof {
            assert(!is_shift(line@));
        }
        return Some((minute, 1, 0, false));
    }
    // Wakes up?
    if n == 27 && matches_lit(line, 19, "wakes up") {
        proof {
            assert(!is_shift(line@));
        }
        return Some((minute, 2, 0, false));
    }
    proof {
        if is_shift(line@) {
            assert(lit_at(line@, 19, "Guard #"@) && lit_at(
                line@,
                line@.len() - 13,
                " begins shift"@,
            ) && line@.len() >= 40);
        }
    }
    Some((minute, 3, 0, false))
}

/// Digit runs have nonnegative values.
proof fn lemma_digits_value_nonneg(s: Seq<char>, from: int, to: int)
    requires
        forall|q: int| from <= q < to ==> is_digit(#[trigger] s[q]),
    ensures
        digits_value(s, from, to) >= 0,
    decreases to - from,
{
    if from < to {
        lemma_digits_value_nonneg(s, from, to - 1);
        assert(digits_value(s, from, to - 1) * 10 >= 0) by (nonlinear_arith)
            requires
                digits_value(s, from, to - 1) >= 0,
        ;
    }
}

/// The value an exec option carries, as a spec integer.
pub open spec fn opt_of(c: Option<u32>) -> Option<int> {
    match c {
        Some(v) => Some(v as int),
        None => None,
    }
}

/// Folds the record lines into a guard table with one entry per
/// guard, in order of first sleep, each holding the guard's asleep
/// spans `(from, to)` in order.  Errors mirror [`guards_fold`]: any
/// fault in the records is reported, and a table without a single
/// span is `NoGuards`.
pub fn parse_records(records: &[String]) -> (r: Result<Vec<(u32, Vec<(u32, u32)>)>, GuardError>)
    ensures
        r matches Ok(g) ==> guards_fold(record_views(records@), 0, None, None, Seq::empty())
            == Some(guards_model(g@)) && g@.len() >= 1,
        r matches Ok(g) ==> forall|i: int, j: int|
            0 <= i < g@.len() && 0 <= j < (#[trigger] g@[i]).1@.len() ==> ((#[trigger] g@[i].1@[
        j]).0 < 60 && g@[i].1@[j].1 < 60),
        r is Err ==> guards_fold(record_views(records@), 0, None, None, Seq::empty()) == None::<
            Seq<(u32, Seq<(u32, u32)>)>,
        > || guards_fold(record_views(records@), 0, None, None, Seq::empty()) == Some(
            Seq::<(u32, Seq<(u32, u32)>)>::empty(),
        ),
{
    let mut guards: Vec<(u32, Vec<(u32, u32)>)> = Vec::new();
    let mut guard_id: Option<u32> = None;
    let mut sleep_start: Option<u32> = None;
    let n = records.len();
    let mut k: usize = 0;
    proof {
        assert(guards_model(guards@) =~= Seq::<(u32, Seq<(u32, u32)>)>::empty());
    }
    while k < n
        invariant
            k <= n == records@.len(),
            guards_fold(record_views(records@), 0, None, None, Seq::empty()) == guards_fold(
                record_views(records@),
                k as int,
                opt_of(guard_id),
                opt_of(sleep_start),
                guards_model(guards@),
            ),
            sleep_start matches Some(st) ==> st < 60,
            forall|i: int, j: int|
                0 <= i < guards@.len() && 0 <= j < (#[trigger] guards@[i]).1@.len() ==> ((
            #[trigger] guards@[i].1@[j]).0 < 60 && guards@[i].1@[j].1 < 60),
        decreases n - k,
    {
        let line = records[k].as_str();
        proof {
            assert(record_views(records@)[k as int] == line@);
        }
        match parse_record(line) {
            None => {
                return Err(GuardError::BadRecord);
            }
            Some((minute, kind, id, too_big)) => {
                if kind == 0 {
                    if too_big {
                        return Err(GuardError::BadGuardId);
                    }
                    guard_id = Some(id);
                } else if minute >= 60 {
                    return Err(GuardError::BadMinute);
                } else if kind == 1 {
                    if sleep_start.is_some() {
                        return Err(GuardError::DoubleSleep);
                    }
                    sleep_start = Some(minute);
                } else if kind == 2 {
                    match guard_id {
                        None => {
                            return Err(GuardError::NoShift);
                        }
                        Some(g) => {
                            match sleep_start {
                                None => {
                                    return Err(GuardError::WakeBeforeSleep);
                                }
                                Some(st) => {
                                    let ghost pre = guards@;
                                    let mut i: usize = 0;
                                    let gn = guards.len();
                                    let mut at: usize = gn;
                                    while i < gn
                                        invariant
                                            i <= gn == guards@.len(),
                                            at <= gn,
                                            at == gn ==> find_key(guards_model(guards@), g as int, 0)
                                                == find_key(guards_model(guards@), g as int, i as int),
                                            at < gn ==> find_key(guards_model(guards@), g as int, 0)
                                                == at && guards@[at as int].0 == g,
                                        decreases gn - i, (if at == gn { 1int } else { 0int }),
                                    {
                                        if at == gn && guards[i].0 == g {
                                            at = i;
                                        }
                                        i = i + 1;
                                    }
                                    if at < gn {
                                        let entry = &mut guards[at];
                                        entry.1.push((st, minute));
                                        proof {
                                            assert(guards_model(guards@) =~= add_span(
                                                guards_model(pre),
                                                g as int,
                                                st as int,
                                                minute as int,
                                            ));
                                        }
                                    } else {
                                        let spans: Vec<(u32, u32)> = vec![(st, minute)];
                                        guards.push((g, spans));
                                        proof {
                                            assert(find_key(
                                                guards_model(pre),
                                                g as int,
                                                gn as int,
                                            ) == -1);
                                            assert(find_key(guards_model(pre), g as int, 0) == -1);
                                            assert(guards@[pre.len() as int].1@ =~= seq![
                                                (st, minute),
                                            ]);
                                            assert(guards_model(guards@) =~= add_span(
                                                guards_model(pre),
                                                g as int,
                                                st as int,
                                                minute as int,
                                            ));
                                        }
                                    }
                                    sleep_start = None;
                                }
                            }
                        }
                    }
                }
            }
        }
        k = k + 1;
    }
    if guards.len() == 0 {
        return Err(GuardError::NoGuards);
    }
    Ok(guards)
}

/// The asleep spans recorded for guard `id`, or an empty list if the
/// table has no entry for it.
pub fn spans_of(guards: &Vec<(u32, Vec<(u32, u32)>)>, id: u32) -> (r: Vec<(u32, u32)>)
    ensures
        find_key(guards_model(guards@), id as int, 0) >= 0 ==> r@ == guards@[find_key(
            guards_model(guards@),
            id as int,
            0,
        )].1@,
        find_key(guards_model(guards@), id as int, 0) == -1 ==> r@ == Seq::<(u32, u32)>::empty(),
{
    let n = guards.len();
    let mut i: usize = 0;
    while i < n
        invariant
            i <= n == guards@.len(),
            find_key(guards_model(guards@), id as int, 0) == find_key(
                guards_model(guards@),
                id as int,
                i as int,
            ),
        decreases n - i,
    {
        if guards[i].0 == id {
            proof {
                assert(guards_model(guards@)[i as int].0 == id);
                assert(find_key(guards_model(guards@), id as int, i as int) == i);
            }
            let src = &guards[i].1;
            let m = src.len();
            let mut out: Vec<(u32, u32)> = Vec::new();
            let mut j: usize = 0;
            while j < m
                invariant
                    j <= m == src@.len(),
                    out@ =~= src@.subrange(0, j as int),
                decreases m - j,
            {
                out.push(src[j]);
                j = j + 1;
            }
            proof {
                assert(out@ =~= src@);
            }
            return out;
        }
        i = i + 1;
    }
    proof {
        assert(find_key(guards_model(guards@), id as int, n as int) == -1);
    }
    Vec::new()
}

/// The total number of minutes the spans cover.
pub open spec fn total_asleep_from(spans: Seq<(u32, u32)>, k: int) -> int
    decreases spans.len() - k,
{
    if 0 <= k < spans.len() {
        (if spans[k].1 >= spans[k].0 {
            spans[k].1 - spans[k].0
        } else {
            0
        }) + total_asleep_from(spans, k + 1)
    } else {
        0
    }
}

/// Partial totals are nonnegative.
proof fn lemma_total_asleep_nonneg(spans: Seq<(u32, u32)>, k: int)
    ensures
        total_asleep_from(spans, k) >= 0,
    decreases spans.len() - k,
{
    if 0 <= k < spans.len() {
        lemma_total_asleep_nonneg(spans, k + 1);
    }
}

/// Sums the minutes a guard's spans cover.
pub fn total_asleep(spans: &Vec<(u32, u32)>) -> (r: u64)
    requires
        spans@.len() <= u32::MAX,
    ensures
        r == total_asleep_from(spans@, 0),
{
    let n = spans.len();
    let mut total: u64 = 0;
    let mut k: usize = 0;
    while k < n
        invariant
            k <= n == spans@.len() <= u32::MAX,
            total == total_asleep_from(spans@, 0) - total_asleep_from(spans@, k as int),
            total <= k * 0x1_0000_0000,
        decreases n - k,
    {
        proof {
            lemma_total_asleep_nonneg(spans@, k as int + 1);
            assert(k * 0x1_0000_0000 + 0x1_0000_0000 == (k + 1) * 0x1_0000_0000)
                by (nonlinear_arith);
            assert((k + 1) * 0x1_0000_0000 <= 0x1_0000_0000 * 0x1_0000_0000) by (nonlinear_arith)
                requires
                    0 <= k + 1 <= 0x1_0000_0000,
            ;
        }
        let (a, b) = (spans[k].0, spans[k].1);
        if b >= a {
            total = total + (b - a) as u64;
        }
        k = k + 1;
    }
    total
}

/// A guard whose spans cover at least as many minutes as any other
/// guard's.  The table must be nonempty and is expected to come from
/// [`parse_records`].
pub fn find_most_sleepy_guard(guards: &Vec<(u32, Vec<(u32, u32)>)>) -> (r: u32)
    requires
        guards@.len() >= 1,
        forall|i: int| 0 <= i < guards@.len() ==> (#[trigger] guards@[i]).1@.len() <= u32::MAX,
    ensures
        exists|i: int|
            0 <= i < guards@.len() && (#[trigger] guards@[i]).0 == r && (forall|j: int|
                0 <= j < guards@.len() ==> total_asleep_from(#[trigger] guards@[j].1@, 0)
                    <= total_asleep_from(guards@[i].1@, 0)),
{
    let mut best: u32 = guards[0].0;
    let mut best_total: u64 = total_asleep(&guards[0].1);
    let ghost mut best_i: int = 0;
    let n = guards.len();
    let mut i: usize = 1;
    while i < n
        invariant
            1 <= i <= n == guards@.len(),
            forall|q: int| 0 <= q < guards@.len() ==> (#[trigger] guards@[q]).1@.len() <= u32::MAX,
            0 <= best_i < i,
            guards@[best_i].0 == best,
            best_total == total_asleep_from(guards@[best_i].1@, 0),
            forall|j: int|
                0 <= j < i ==> total_asleep_from(#[trigger] guards@[j].1@, 0) <= best_total,
        decreases n - i,
    {
        let t = total_asleep(&guards[i].1);
        if t > best_total {
            best = guards[i].0;
            best_total = t;
            proof {
                best_i = i as int;
            }
        }
        i = i + 1;
    }
    best
}

/// How many of the spans cover minute `m`.
pub open spec fn count_asleep_at(spans: Seq<(u32, u32)>, m: int, k: int) -> int
    decreases spans.len() - k,
{
    if 0 <= k < spans.len() {
        (if spans[k].0 <= m < spans[k].1 {
            1int
        } else {
            0int
        }) + count_asleep_at(spans, m, k + 1)
    } else {
        0
    }
}

/// Partial counts are nonnegative.
proof fn lemma_count_asleep_nonneg(spans: Seq<(u32, u32)>, m: int, k: int)
    ensures
        count_asleep_at(spans, m, k) >= 0,
    decreases spans.len() - k,
{
    if 0 <= k < spans.len() {
        lemma_count_asleep_nonneg(spans, m, k + 1);
    }
}

/// Counts the spans that cover minute `m`.
pub fn count_asleep(spans: &Vec<(u32, u32)>, m: u32) -> (r: usize)
    ensures
        r == count_asleep_at(spans@, m as int, 0),
{
    let n = spans.len();
    let mut count: usize = 0;
    let mut k: usize = 0;
    while k < n
        invariant
            k <= n == spans@.len(),
            count <= k,
            count == count_asleep_at(spans@, m as int, 0) - count_asleep_at(
                spans@,
                m as int,
                k as int,
            ),
        decreases n - k,
    {
        proof {
            lemma_count_asleep_nonneg(spans@, m as int, k as int + 1);
        }
        if spans[k].0 <= m && m < spans[k].1 {
            count = count + 1;
        }
        k = k + 1;
    }
    count
}

/// The minute of the hour the spans cover most often, and how often:
/// the earliest minute whose cover count no other minute exceeds.
pub fn find_most_sleepy_minute(spans: &Vec<(u32, u32)>) -> (r: (u32, usize))
    ensures
        r.0 < 60,
        r.1 == count_asleep_at(spans@, r.0 as int, 0),
        forall|m: int| 0 <= m < 60 ==> count_asleep_at(spans@, m, 0) <= r.1,
        forall|m: int| 0 <= m < r.0 ==> count_asleep_at(spans@, m, 0) < r.1,
{
    let mut best_minute: u32 = 0;
    let mut best_count: usize = count_asleep(spans, 0);
    let mut m: u32 = 1;
    while m < 60
        invariant
            1 <= m <= 60,
            best_minute < m,
            best_count == count_asleep_at(spans@, best_minute as int, 0),
            forall|q: int| 0 <= q < m ==> count_asleep_at(spans@, q, 0) <= best_count,
            forall|q: int| 0 <= q < best_minute ==> count_asleep_at(spans@, q, 0) < best_count,
        decreases 60 - m,
    {
        let c = count_asleep(spans, m);
        if c > best_count {
            best_minute = m;
            best_count = c;
        }
        m = m + 1;
    }
    (best_minute, best_count)
}

/// The guard most often asleep during one particular minute, with
/// that minute: no guard is asleep at any minute more often than the
/// returned guard at the returned minute.  `(0, 0)` when no guard is
/// ever asleep.
pub fn find_most_likely_asleep(guards: &Vec<(u32, Vec<(u32, u32)>)>) -> (r: (u32, u32))
    ensures
        (forall|j: int, m: int|
            0 <= j < guards@.len() && 0 <= m < 60 ==> #[trigger] count_asleep_at(
                guards@[j].1@,
                m,
                0,
            ) <= 0) ==> r == (0u32, 0u32),
        (exists|j: int, m: int|
            0 <= j < guards@.len() && 0 <= m < 60 && #[trigger] count_asleep_at(
                guards@[j].1@,
                m,
                0,
            ) > 0) ==> exists|i: int|
            0 <= i < guards@.len() && (#[trigger] guards@[i]).0 == r.0 && r.1 < 60 && (forall|
                j: int,
                m: int,
            |
                0 <= j < guards@.len() && 0 <= m < 60 ==> #[trigger] count_asleep_at(
                    guards@[j].1@,
                    m,
                    0,
                ) <= count_asleep_at(guards@[i].1@, r.1 as int, 0)),
{
    let mut max: usize = 0;
    let mut best_guard: u32 = 0;
    let mut best_minute: u32 = 0;
    let ghost mut best_i: int = -1;
    let n = guards.len();
    let mut i: usize = 0;
    while i < n
        invariant
            i <= n == guards@.len(),
            -1 <= best_i,
            best_i == -1 ==> max == 0 && best_guard == 0 && best_minute == 0,
            best_i >= 0 ==> 0 <= best_i < i && guards@[best_i].0 == best_guard && best_minute < 60
                && max == count_asleep_at(guards@[best_i].1@, best_minute as int, 0) && max > 0,
            forall|j: int, m: int|
                0 <= j < i && 0 <= m < 60 ==> #[trigger] count_asleep_at(guards@[j].1@, m, 0)
                    <= max,
        decreases n - i,
    {
        let (minute, times_asleep) = find_most_sleepy_minute(&guards[i].1);
        if times_asleep > max {
            max = times_asleep;
            best_guard = guards[i].0;
            best_minute = minute;
            proof {
                best_i = i as int;
            }
        }
        i = i + 1;
    }
    proof {
        if best_i == -1 {
            assert forall|j: int, m: int|
                0 <= j < guards@.len() && 0 <= m < 60 implies #[trigger] count_asleep_at(
                guards@[j].1@,
                m,
                0,
            ) <= 0 by {}
        } else {
            assert(0 <= best_i < guards@.len() && guards@[best_i].0 == best_guard && best_minute
                < 60);
            assert(count_asleep_at(guards@[best_i].1@, best_minute as int, 0) > 0);
            assert forall|j: int, m: int|
                0 <= j < guards@.len() && 0 <= m < 60 implies #[trigger] count_asleep_at(
                guards@[j].1@,
                m,
                0,
            ) <= count_asleep_at(guards@[best_i].1@, best_minute as int, 0) by {}
        }
    }
    (best_guard, best_minute)
}

} // verus!
