//! Assembly steps: dependencies between 26 lettered steps, the order
//! in which a single worker completes them, and how long a crew of
//! workers takes.  Step sets are kept as 26-bit masks.

use crate::text::push_char;
use vstd::prelude::*;

verus! {

/// The fixed shape of a dependency line; the letters at the two
/// marked positions vary.
pub open spec fn dep_template() -> Seq<char> {
    "Step A must be finished before step B can begin."@
}

/// The pair `(dependency, step)` a dependency line names: the line
/// must match the template exactly, with one capital letter at each
/// of the two letter positions.
pub open spec fn dep_line(s: Seq<char>) -> Option<(u32, u32)> {
    if s.len() == 48 && (forall|k: int|
        0 <= k < 48 && k != 5 && k != 36 ==> s[k] == #[trigger] dep_template()[k]) && 'A' <= s[5]
        <= 'Z' && 'A' <= s[36] <= 'Z' {
        Some((((s[5] as int - 65) as u32), ((s[36] as int - 65) as u32)))
    } else {
        None
    }
}

/// Folds dependency lines from index `k` on into the step mask and
/// the per-step dependency masks, or `None` if a line is malformed.
pub open spec fn deps_fold(ls: Seq<Seq<char>>, k: int, st: u32, dp: Seq<u32>) -> Option<
    (u32, Seq<u32>),
>
    decreases ls.len() - k,
{
    if !(0 <= k < ls.len()) {
        Some((st, dp))
    } else {
        match dep_line(ls[k]) {
            None => None,
            Some((d, t)) => deps_fold(
                ls,
                k + 1,
                st | (1u32 << t) | (1u32 << d),
                dp.update(t as int, dp[t as int] | (1u32 << d)),
            ),
        }
    }
}

/// The views of a vector of lines.
pub open spec fn line_views(ls: Seq<String>) -> Seq<Seq<char>> {
    ls.map_values(|l: String| l@)
}

/// Why reading or ordering the steps failed.
#[derive(Clone, Copy, Debug, PartialEq, Eq, Structural)]
pub enum StepsError {
    /// A line does not name a dependency.
    BadLine,
    /// No step can be taken although steps remain.
    Cycle,
}

/// Reads dependency lines into the step mask and the 26 dependency
/// masks, or reports `BadLine` exactly when a line is malformed.
pub fn parse_dependencies(lines: &[String]) -> (r: Result<(u32, Vec<u32>), StepsError>)
    ensures
        r matches Ok(p) ==> p.1@.len() == 26 && deps_fold(
            line_views(lines@),
            0,
            0,
            Seq::new(26, |i: int| 0u32),
        ) == Some((p.0, p.1@)),
        r is Err ==> r == Err::<(u32, Vec<u32>), StepsError>(StepsError::BadLine) && deps_fold(
            line_views(lines@),
            0,
            0,
            Seq::new(26, |i: int| 0u32),
        ) == None::<(u32, Seq<u32>)>,
{
    let mut steps: u32 = 0;
    let mut deps: Vec<u32> = vec![0u32; 26];
    proof {
        assert(deps@ =~= Seq::new(26, |i: int| 0u32));
    }
    let n = lines.len();
    let mut k: usize = 0;
    while k < n
        invariant
            k <= n == lines@.len(),
            deps@.len() == 26,
            deps_fold(line_views(lines@), 0, 0, Seq::new(26, |i: int| 0u32)) == deps_fold(
                line_views(lines@),
                k as int,
                steps,
                deps@,
            ),
        decreases n - k,
    {
        let line = lines[k].as_str();
        proof {
            assert(line_views(lines@)[k as int] == line@);
        }
        match parse_dep_line(line) {
            Some((d, t)) => {
                let ghost pre = deps@;
                steps = steps | (1u32 << t) | (1u32 << d);
                let dt = deps[t as usize];
                deps[t as usize] = dt | (1u32 << d);
                proof {
                    assert(deps@ =~= pre.update(t as int, pre[t as int] | (1u32 << d)));
                }
            }
            None => {
                return Err(StepsError::BadLine);
            }
        }
        k = k + 1;
    }
    Ok((steps, deps))
}

/// Reads one dependency line, if it matches the template.
pub fn parse_dep_line(line: &str) -> (r: Option<(u32, u32)>)
    ensures
        r == dep_line(line@),
{
    let template = "Step A must be finished before step B can begin.";
    proof {
        reveal_strlit("Step A must be finished before step B can begin.");
    }
    if line.unicode_len() != 48 {
        return None;
    }
    let mut ok = true;
    let mut k: usize = 0;
    while k < 48
        invariant
            k <= 48,
            line@.len() == 48,
            template@ == dep_template(),
            template@.len() == 48,
            ok <==> (forall|q: int|
                0 <= q < k && q != 5 && q != 36 ==> line@[q] == #[trigger] dep_template()[q]),
        decreases 48 - k,
    {
        if k != 5 && k != 36 {
            if line.get_char(k) != template.get_char(k) {
                ok = false;
            }
        }
        k = k + 1;
    }
    if !ok {
        return None;
    }
    let c_dep = line.get_char(5);
    let c_step = line.get_char(36);
    if c_dep < 'A' || c_dep > 'Z' || c_step < 'A' || c_step > 'Z' {
        return None;
    }
    Some(((c_dep as u8 - 65) as u32, (c_step as u8 - 65) as u32))
}

/// The character for the step with bit index `b`.
pub open spec fn step_char(b: u32) -> char {
    ((b + 65) as u8) as char
}

/// The order contains the letter of step `b` before position `k`.
pub open spec fn placed_before(s: Seq<char>, b: u32, k: int) -> bool {
    exists|k2: int| 0 <= k2 < k && s[k2] == step_char(b)
}

/// Completes the steps one at a time, always taking the
/// alphabetically first step whose dependencies are all complete, and
/// returns the completion order; `Cycle` when no step can be taken.
///
/// The order is a topological order of the dependency masks: its
/// letters are distinct capitals, they are exactly the steps whose
/// bits are set in `steps`, and each letter's dependencies all appear
/// before it.
pub fn compute_order(steps: u32, deps: &Vec<u32>) -> (r: Result<String, StepsError>)
    requires
        deps@.len() == 26,
    ensures
        r matches Ok(s) ==> forall|k: int|
            0 <= k < s@.len() ==> 'A' <= #[trigger] s@[k] <= 'Z' && steps & (1u32 << (((
            s@[k] as int) - 65) as u32)) != 0,
        r matches Ok(s) ==> forall|k1: int, k2: int| 0 <= k1 < k2 < s@.len() ==> s@[k1] != s@[k2],
        r matches Ok(s) ==> forall|b: u32|
            b < 26 && steps & (1u32 << b) != 0 ==> placed_before(s@, b, s@.len() as int),
        r matches Ok(s) ==> forall|k: int, b: u32|
            0 <= k < s@.len() && b < 26 && deps@[(s@[k] as int) - 65] & (1u32 << b) != 0
                ==> placed_before(s@, b, k),
{
    let mut completed: u32 = 0;
    let mut result = String::new();
    proof {
        assert(steps & 0u32 == 0u32 && 0u32 & !steps == 0u32) by (bit_vector);
        assert forall|b: u32| b < 26 implies !(0u32 & (1u32 << b) != 0) by {
            assert(0u32 & (1u32 << b) == 0) by (bit_vector);
        }
        assert(result@.len() == 0);
    }
    while completed != steps
        invariant
            deps@.len() == 26,
            completed & !steps == 0,
            forall|k: int|
                0 <= k < result@.len() ==> 'A' <= #[trigger] result@[k] <= 'Z' && steps & (1u32
                    << (((result@[k] as int) - 65) as u32)) != 0,
            forall|k1: int, k2: int|
                0 <= k1 < k2 < result@.len() ==> result@[k1] != result@[k2],
            forall|b: u32|
                b < 26 ==> ((completed & (1u32 << b) != 0) <==> placed_before(
                    result@,
                    b,
                    result@.len() as int,
                )),
            forall|k: int, b: u32|
                0 <= k < result@.len() && b < 26 && deps@[(result@[k] as int) - 65] & (1u32 << b)
                    != 0 ==> placed_before(result@, b, k),
        decreases steps - completed,
    {
        proof {
            assert(completed & !steps == 0 ==> completed <= steps) by (bit_vector);
        }
        let mut step: u32 = 0;
        let mut found = false;
        let mut s: u32 = 0;
        while s < 26 && !found
            invariant
                s <= 26,
                deps@.len() == 26,
                found ==> step < 26 && (steps & !completed) & (1u32 << step) > 0 && completed
                    & deps@[step as int] == deps@[step as int],
            decreases 26 - s, (if found { 0int } else { 1int }),
        {
            if (steps & !completed) & (1u32 << s) > 0 && completed & deps[s as usize]
                == deps[s as usize] {
                step = s;
                found = true;
            }
            s = s + 1;
        }
        if found {
            let ghost pre = result@;
            let ghost pre_completed = completed;
            let c = (step as u8 + 65) as char;
            push_char(&mut result, c);
            completed = completed | (1u32 << step);
            proof {
                let b = step;
                assert((steps & !pre_completed) & (1u32 << b) > 0 ==> steps & (1u32 << b) != 0
                    && pre_completed & (1u32 << b) == 0) by (bit_vector);
                assert(pre_completed & !steps == 0 && steps & (1u32 << b) != 0 && pre_completed
                    & (1u32 << b) == 0 && b < 26 ==> (pre_completed | (1u32 << b)) & !steps == 0
                    && pre_completed < (pre_completed | (1u32 << b)) && (pre_completed | (1u32
                    << b)) & (1u32 << b) != 0) by (bit_vector);
                assert(completed & !steps == 0 ==> completed <= steps) by (bit_vector);
                assert(c as int == step + 65 && c == step_char(step));
                assert forall|k: int| 0 <= k < result@.len() implies 'A' <= #[trigger] result@[k]
                    <= 'Z' && steps & (1u32 << (((result@[k] as int) - 65) as u32)) != 0 by {
                    if k < pre.len() {
                        assert(result@[k] == pre[k]);
                    }
                }
                assert forall|k1: int, k2: int|
                    0 <= k1 < k2 < result@.len() implies result@[k1] != result@[k2] by {
                    if k2 == result@.len() - 1 {
                        let b1 = ((result@[k1] as int) - 65) as u32;
                        assert(result@[k1] == pre[k1] && pre[k1] == step_char(b1));
                        assert(placed_before(pre, b1, pre.len() as int));
                        assert(pre_completed & (1u32 << b1) != 0);
                        assert(pre_completed & (1u32 << b) == 0);
                        assert(b1 != b);
                        assert(step_char(b1) != step_char(b));
                    }
                }
                assert forall|b2: u32| b2 < 26 implies ((completed & (1u32 << b2) != 0)
                    <==> placed_before(result@, b2, result@.len() as int)) by {
                    if b2 == b {
                        assert(result@[result@.len() - 1] == step_char(b));
                        assert(placed_before(result@, b2, result@.len() as int));
                    } else {
                        assert((pre_completed | (1u32 << b)) & (1u32 << b2) == pre_completed & (
                        1u32 << b2)) by (bit_vector)
                            requires
                                b != b2 && b < 26 && b2 < 26,
                        ;
                        assert(step_char(b2) != step_char(b));
                        if placed_before(result@, b2, result@.len() as int) {
                            let k0 = choose|k: int|
                                0 <= k < result@.len() && result@[k] == step_char(b2);
                            assert(k0 < pre.len() && pre[k0] == step_char(b2));
                            assert(placed_before(pre, b2, pre.len() as int));
                        }
                        if placed_before(pre, b2, pre.len() as int) {
                            let k0 = choose|k: int| 0 <= k < pre.len() && pre[k] == step_char(b2);
                            assert(result@[k0] == step_char(b2));
                            assert(placed_before(result@, b2, result@.len() as int));
                        }
                    }
                }
                assert forall|k: int, b2: u32|
                    0 <= k < result@.len() && b2 < 26 && deps@[(result@[k] as int) - 65] & (1u32
                        << b2) != 0 implies placed_before(result@, b2, k) by {
                    if k < pre.len() {
                        assert(result@[k] == pre[k]);
                        assert(placed_before(pre, b2, k));
                        let k0 = choose|k2: int| 0 <= k2 < k && pre[k2] == step_char(b2);
                        assert(result@[k0] == step_char(b2));
                    } else {
                        assert(result@[k] == step_char(b));
                        assert((result@[k] as int) - 65 == b);
                        assert(pre_completed & deps@[b as int] == deps@[b as int]);
                        assert(pre_completed & (1u32 << b2) != 0) by {
                            let db = deps@[b as int];
                            assert(pre_completed & db == db && db & (1u32 << b2) != 0
                                ==> pre_completed & (1u32 << b2) != 0) by (bit_vector);
                        }
                        assert(placed_before(pre, b2, pre.len() as int));
                        let k0 = choose|k2: int| 0 <= k2 < pre.len() && pre[k2] == step_char(b2);
                        assert(result@[k0] == step_char(b2));
                    }
                }
            }
        } else {
            return Err(StepsError::Cycle);
        }
    }
    proof {
        assert forall|b: u32| b < 26 && steps & (1u32 << b) != 0 implies placed_before(
            result@,
            b,
            result@.len() as int,
        ) by {
            assert(completed & (1u32 << b) != 0);
        }
    }
    Ok(result)
}

/// Runs the crew: each idle worker takes the alphabetically first
/// ready step; a step taken at some tick completes `base_time + 1`
/// plus its letter index ticks later.  Returns the tick at which the
/// last step completes, or the saturated clock if the remaining steps
/// can never be started.
pub fn simulate(steps: u32, deps: &Vec<u32>, num_workers: usize, base_time: usize) -> (r: usize)
    requires
        deps@.len() == 26,
        base_time <= 100_000_000,
{
    let base_time = base_time + 1;
    let mut completed: u32 = 0;
    let mut taken: u32 = 0;
    let mut clock: usize = 0;
    let mut workers: Vec<(u32, usize)> = Vec::new();
    let mut wi: usize = 0;
    while wi < num_workers
        invariant
            wi <= num_workers,
            workers@.len() == wi,
            forall|i: int| 0 <= i < wi ==> (#[trigger] workers@[i]).1 == 0,
        decreases num_workers - wi,
    {
        workers.push((0u32, 0usize));
        wi = wi + 1;
    }
    let cap: usize = usize::MAX - base_time - 26;
    while completed != steps && clock < cap
        invariant
            deps@.len() == 26,
            workers@.len() == num_workers,
            clock <= cap == usize::MAX - base_time - 26,
            base_time <= 100_000_001,
            forall|w: int| 0 <= w < workers@.len() ==> (#[trigger] workers@[w]).1 <= clock + 26
                + base_time,
        decreases cap - clock,
    {
        let mut w: usize = 0;
        let nw = workers.len();
        while w < nw
            invariant
                w <= nw == workers@.len(),
                deps@.len() == 26,
                clock < cap == usize::MAX - base_time - 26,
                base_time <= 100_000_001,
                forall|w2: int| 0 <= w2 < workers@.len() ==> (#[trigger] workers@[w2]).1 <= clock
                    + 26 + base_time,
            decreases nw - w,
        {
            if workers[w].0 == 0 {
                let mut s: u32 = 0;
                let mut found = false;
                let mut step: u32 = 0;
                while s < 26 && !found
                    invariant
                        s <= 26,
                        deps@.len() == 26,
                        found ==> step < 26,
                    decreases 26 - s, (if found { 0int } else { 1int }),
                {
                    if (steps & !taken) & (1u32 << s) > 0 && completed & deps[s as usize]
                        == deps[s as usize] {
                        step = s;
                        found = true;
                    }
                    s = s + 1;
                }
                if found {
                    let task = 1u32 << step;
                    taken = taken | task;
                    workers[w] = (task, clock + step as usize + base_time);
                }
            }
            w = w + 1;
        }
        clock = clock + 1;
        let mut w2: usize = 0;
        while w2 < nw
            invariant
                w2 <= nw == workers@.len(),
                clock <= usize::MAX,
                base_time <= 100_000_001,
                forall|q: int| 0 <= q < workers@.len() ==> (#[trigger] workers@[q]).1 <= clock - 1
                    + 26 + base_time,
            decreases nw - w2,
        {
            if workers[w2].0 != 0 && workers[w2].1 == clock {
                let task = workers[w2].0;
                completed = completed | task;
                workers[w2] = (0u32, workers[w2].1);
            }
            w2 = w2 + 1;
        }
    }
    clock
}

} // verus!
