use vstd::prelude::*;
use crate::json::Json;
use crate::resolve::{report_status_lookup, spec_report_resolve};
use crate::status::{
    resolve, spec_resolve, spec_status_text, status_text, ParsedLog, Status,
};
use crate::text::str_eq;

verus! {

/// One rule's verdict, with a line per offending test saying what was
/// observed.
pub struct RuleOutcome {
    pub has_problem: bool,
    pub examples: Vec<String>,
}

/// The duplicate rule's verdict, its findings grouped per stage log; quiet
/// stages are left out.
pub struct DuplicateOutcome {
    pub has_problem: bool,
    pub per_log: Vec<(String, Vec<String>)>,
}

/// The names of `p2p` that failed in the base log: a test that is supposed
/// to already pass must not be broken before the change.
pub open spec fn spec_c1(p2p: Seq<Seq<char>>, base: ParsedLog) -> Seq<Seq<char>> {
    p2p.filter(|t: Seq<char>| spec_resolve(base, t) == Status::Failed)
}

/// The names of the universe that still fail in the after log: nothing may
/// remain failing once the change is in.
pub open spec fn spec_c2(universe: Seq<Seq<char>>, after: ParsedLog) -> Seq<Seq<char>> {
    universe.filter(|t: Seq<char>| spec_resolve(after, t) == Status::Failed)
}

/// The names of `f2p` that already passed in the before log: a fail-to-pass
/// test must not have been passing prior to the fix.
pub open spec fn spec_c3(f2p: Seq<Seq<char>>, before: ParsedLog) -> Seq<Seq<char>> {
    f2p.filter(|t: Seq<char>| spec_resolve(before, t) == Status::Passed)
}

/// Filters a name list by a predicate over views.
fn filter_by_status(v: &Vec<String>, log: &ParsedLog, want: Status) -> (r: Vec<String>)
    ensures
        r.deep_view() == v.deep_view().filter(|t: Seq<char>| spec_resolve(*log, t) == want),
{
    let ghost pred = |t: Seq<char>| spec_resolve(*log, t) == want;
    let ghost dv = v.deep_view();
    let mut r: Vec<String> = Vec::new();
    proof {
        reveal(Seq::filter);
        assert(dv.take(0) =~~= Seq::<Seq<char>>::empty());
        assert(r.deep_view() =~~= Seq::<Seq<char>>::empty().filter(pred));
    }
    let mut i: usize = 0;
    while i < v.len()
        invariant
            i <= dv.len(),
            dv == v.deep_view(),
            dv.len() == v@.len(),
            pred == (|t: Seq<char>| spec_resolve(*log, t) == want),
            r.deep_view() == dv.take(i as int).filter(pred),
        decreases dv.len() - i,
    {
        proof {
            reveal(Seq::filter);
            assert(dv.take(i + 1).drop_last() =~~= dv.take(i as int));
            assert(dv.take(i + 1).last() == dv[i as int]);
        }
        let st = resolve(log, v[i].as_str());
        proof {
            assert(dv[i as int] == v@[i as int]@);
        }
        if matches!((st, want),
            (Status::Passed, Status::Passed)
            | (Status::Failed, Status::Failed)
            | (Status::Ignored, Status::Ignored)
            | (Status::Missing, Status::Missing)
        ) {
            let ghost r0 = r.deep_view();
            r.push(v[i].clone());
            proof {
                assert(pred(dv[i as int]));
                assert(r.deep_view() =~~= r0.push(dv[i as int]));
            }
        } else {
            proof {
                assert(!pred(dv[i as int]));
            }
        }
        i = i + 1;
    }
    proof {
        assert(dv.take(dv.len() as int) =~~= dv);
    }
    r
}

/// One C4 example line: the test, and its before-stage status.
pub open spec fn spec_c4_entry(t: Seq<char>, before_st: Status) -> Seq<char> {
    t + " (missing in base, "@ + spec_status_text(before_st) + " in before)"@
}

/// The C4 examples: a pass-to-pass test that passed in base is fine; one
/// missing in base is acceptable only if it passed in before.
pub open spec fn spec_c4(
    p2p: Seq<Seq<char>>,
    i: int,
    base: ParsedLog,
    before: ParsedLog,
    acc: Seq<Seq<char>>,
) -> Seq<Seq<char>>
    decreases p2p.len() - i,
    when 0 <= i <= p2p.len()
{
    if i >= p2p.len() {
        acc
    } else {
        let b = spec_resolve(base, p2p[i]);
        let be = spec_resolve(before, p2p[i]);
        let acc2 = if b == Status::Passed {
            acc
        } else if b == Status::Missing && be != Status::Passed {
            acc.push(spec_c4_entry(p2p[i], be))
        } else {
            acc
        };
        spec_c4(p2p, i + 1, base, before, acc2)
    }
}

fn c4_examples(p2p: &Vec<String>, base: &ParsedLog, before: &ParsedLog) -> (r: Vec<String>)
    ensures
        r.deep_view() == spec_c4(p2p.deep_view(), 0, *base, *before, Seq::empty()),
{
    let ghost dv = p2p.deep_view();
    let mut r: Vec<String> = Vec::new();
    proof {
        assert(r.deep_view() =~~= Seq::<Seq<char>>::empty());
    }
    let mut i: usize = 0;
    while i < p2p.len()
        invariant
            i <= dv.len(),
            dv == p2p.deep_view(),
            dv.len() == p2p@.len(),
            spec_c4(dv, 0, *base, *before, Seq::empty()) == spec_c4(
                dv,
                i as int,
                *base,
                *before,
                r.deep_view(),
            ),
        decreases dv.len() - i,
    {
        proof {
            assert(dv[i as int] == p2p@[i as int]@);
        }
        let b = resolve(base, p2p[i].as_str());
        let be = resolve(before, p2p[i].as_str());
        if matches!(b, Status::Passed) {
        } else if matches!(b, Status::Missing) && !matches!(be, Status::Passed) {
            let mut line = p2p[i].clone();
            line.append(" (missing in base, ");
            line.append(status_text(be));
            line.append(" in before)");
            let ghost r0 = r.deep_view();
            let ghost lv = line@;
            r.push(line);
            proof {
                assert(r.deep_view() =~~= r0.push(lv));
            }
        }
        i = i + 1;
    }
    r
}

/// The acceptance partition of the pass-to-pass tests: a test passing in
/// both base and after is set aside; of the rest, one missing in base is
/// rejected unless it passed in before.
pub open spec fn spec_p2p_ignored(p2p: Seq<Seq<char>>, base: ParsedLog, after: ParsedLog) -> Seq<
    Seq<char>,
> {
    p2p.filter(
        |t: Seq<char>|
            spec_resolve(base, t) == Status::Passed && spec_resolve(after, t) == Status::Passed,
    )
}

pub open spec fn spec_p2p_considered(p2p: Seq<Seq<char>>, base: ParsedLog, after: ParsedLog)
    -> Seq<Seq<char>> {
    p2p.filter(
        |t: Seq<char>|
            !(spec_resolve(base, t) == Status::Passed && spec_resolve(after, t)
                == Status::Passed),
    )
}

pub open spec fn spec_p2p_rejected(
    p2p: Seq<Seq<char>>,
    base: ParsedLog,
    before: ParsedLog,
    after: ParsedLog,
) -> Seq<Seq<char>> {
    spec_p2p_considered(p2p, base, after).filter(
        |t: Seq<char>|
            spec_resolve(base, t) == Status::Missing && spec_resolve(before, t)
                != Status::Passed,
    )
}

pub open spec fn spec_p2p_ok(
    p2p: Seq<Seq<char>>,
    base: ParsedLog,
    before: ParsedLog,
    after: ParsedLog,
) -> Seq<Seq<char>> {
    spec_p2p_considered(p2p, base, after).filter(
        |t: Seq<char>|
            !(spec_resolve(base, t) == Status::Missing && spec_resolve(before, t)
                != Status::Passed),
    )
}

/// Filters names on a conjunction of two per-log status tests, with optional
/// negation of the whole condition.
fn filter_two(
    v: &Vec<String>,
    log1: &ParsedLog,
    want1: Status,
    log2: &ParsedLog,
    want2: Status,
    negate: bool,
) -> (r: Vec<String>)
    ensures
        !negate ==> r.deep_view() == v.deep_view().filter(
            |t: Seq<char>| spec_resolve(*log1, t) == want1 && spec_resolve(*log2, t) == want2,
        ),
        negate ==> r.deep_view() == v.deep_view().filter(
            |t: Seq<char>|
                !(spec_resolve(*log1, t) == want1 && spec_resolve(*log2, t) == want2),
        ),
{
    let ghost predp = |t: Seq<char>| spec_resolve(*log1, t) == want1 && spec_resolve(*log2, t)
        == want2;
    let ghost predn = |t: Seq<char>| !(spec_resolve(*log1, t) == want1 && spec_resolve(*log2, t)
        == want2);
    let ghost dv = v.deep_view();
    let mut r: Vec<String> = Vec::new();
    proof {
        reveal(Seq::filter);
        assert(dv.take(0) =~~= Seq::<Seq<char>>::empty());
        assert(r.deep_view() =~~= Seq::<Seq<char>>::empty().filter(predp));
        assert(r.deep_view() =~~= Seq::<Seq<char>>::empty().filter(predn));
    }
    let mut i: usize = 0;
    while i < v.len()
        invariant
            i <= dv.len(),
            dv == v.deep_view(),
            dv.len() == v@.len(),
            predp == (|t: Seq<char>| spec_resolve(*log1, t) == want1 && spec_resolve(*log2, t)
                == want2),
            predn == (|t: Seq<char>| !(spec_resolve(*log1, t) == want1 && spec_resolve(
                *log2,
                t,
            ) == want2)),
            !negate ==> r.deep_view() == dv.take(i as int).filter(predp),
            negate ==> r.deep_view() == dv.take(i as int).filter(predn),
        decreases dv.len() - i,
    {
        proof {
            reveal(Seq::filter);
            assert(dv.take(i + 1).drop_last() =~~= dv.take(i as int));
            assert(dv.take(i + 1).last() == dv[i as int]);
            assert(dv[i as int] == v@[i as int]@);
        }
        let s1 = resolve(log1, v[i].as_str());
        let s2 = resolve(log2, v[i].as_str());
        let cond = status_eq(s1, want1) && status_eq(s2, want2);
        let keep = if negate {
            !cond
        } else {
            cond
        };
        proof {
            assert(cond == predp(dv[i as int]));
            assert(!cond == predn(dv[i as int]));
        }
        if keep {
            let ghost r0 = r.deep_view();
            r.push(v[i].clone());
            proof {
                assert(r.deep_view() =~~= r0.push(dv[i as int]));
            }
        }
        i = i + 1;
    }
    proof {
        assert(dv.take(dv.len() as int) =~~= dv);
    }
    r
}

fn status_eq(a: Status, b: Status) -> (r: bool)
    ensures
        r == (a == b),
{
    matches!((a, b),
        (Status::Passed, Status::Passed)
        | (Status::Failed, Status::Failed)
        | (Status::Ignored, Status::Ignored)
        | (Status::Missing, Status::Missing)
    )
}

/// Partitions an already considered list by the rejection test: a test is
/// rejected when missing in base and not passed in before; the rest is ok.
fn filter_missing_and_before(
    v: Vec<String>,
    base: &ParsedLog,
    before: &ParsedLog,
    keep_ok: bool,
) -> (r: Vec<String>)
    ensures
        !keep_ok ==> r.deep_view() == v.deep_view().filter(
            |t: Seq<char>|
                spec_resolve(*base, t) == Status::Missing && spec_resolve(*before, t)
                    != Status::Passed,
        ),
        keep_ok ==> r.deep_view() == v.deep_view().filter(
            |t: Seq<char>|
                !(spec_resolve(*base, t) == Status::Missing && spec_resolve(*before, t)
                    != Status::Passed),
        ),
{
    let ghost predr = |t: Seq<char>| spec_resolve(*base, t) == Status::Missing && spec_resolve(
        *before,
        t,
    ) != Status::Passed;
    let ghost predo = |t: Seq<char>| !(spec_resolve(*base, t) == Status::Missing && spec_resolve(
        *before,
        t,
    ) != Status::Passed);
    let ghost dv = v.deep_view();
    let mut r: Vec<String> = Vec::new();
    proof {
        reveal(Seq::filter);
        assert(dv.take(0) =~~= Seq::<Seq<char>>::empty());
        assert(r.deep_view() =~~= Seq::<Seq<char>>::empty().filter(predr));
        assert(r.deep_view() =~~= Seq::<Seq<char>>::empty().filter(predo));
    }
    let mut i: usize = 0;
    while i < v.len()
        invariant
            i <= dv.len(),
            dv == v.deep_view(),
            dv.len() == v@.len(),
            predr == (|t: Seq<char>| spec_resolve(*base, t) == Status::Missing && spec_resolve(
                *before,
                t,
            ) != Status::Passed),
            predo == (|t: Seq<char>| !(spec_resolve(*base, t) == Status::Missing && spec_resolve(
                *before,
                t,
            ) != Status::Passed)),
            !keep_ok ==> r.deep_view() == dv.take(i as int).filter(predr),
            keep_ok ==> r.deep_view() == dv.take(i as int).filter(predo),
        decreases dv.len() - i,
    {
        proof {
            reveal(Seq::filter);
            assert(dv.take(i + 1).drop_last() =~~= dv.take(i as int));
            assert(dv.take(i + 1).last() == dv[i as int]);
            assert(dv[i as int] == v@[i as int]@);
        }
        let b = resolve(base, v[i].as_str());
        let be = resolve(before, v[i].as_str());
        let rejected = matches!(b, Status::Missing) && !matches!(be, Status::Passed);
        let keep = if keep_ok {
            !rejected
        } else {
            rejected
        };
        proof {
            assert(rejected == predr(dv[i as int]));
            assert(!rejected == predo(dv[i as int]));
        }
        if keep {
            let ghost r0 = r.deep_view();
            r.push(v[i].clone());
            proof {
                assert(r.deep_view() =~~= r0.push(dv[i as int]));
            }
        }
        i = i + 1;
    }
    proof {
        assert(dv.take(dv.len() as int) =~~= dv);
    }
    r
}

/// One C6 example line.
pub open spec fn spec_c6_entry(t: Seq<char>, report_failed: bool) -> Seq<char> {
    if report_failed {
        t + " (marked as failed in report.json but passing in agent log)"@
    } else {
        t + " (marked as passed in report.json but failing in agent log)"@
    }
}

/// The C6 examples: for every universe test with concrete evidence on both
/// sides, a failed-versus-passed mismatch between the external report and
/// the agent log, in either direction.
pub open spec fn spec_c6(
    universe: Seq<Seq<char>>,
    i: int,
    agent: ParsedLog,
    report: Json,
    acc: Seq<Seq<char>>,
) -> Seq<Seq<char>>
    decreases universe.len() - i,
    when 0 <= i <= universe.len()
{
    if i >= universe.len() {
        acc
    } else {
        let rs = spec_report_resolve(report, universe[i]);
        let ags = spec_resolve(agent, universe[i]);
        let acc2 = if rs == Status::Failed && ags == Status::Passed {
            acc.push(spec_c6_entry(universe[i], true))
        } else if rs == Status::Passed && ags == Status::Failed {
            acc.push(spec_c6_entry(universe[i], false))
        } else {
            acc
        };
        spec_c6(universe, i + 1, agent, report, acc2)
    }
}

fn c6_examples(universe: &Vec<String>, agent: &ParsedLog, report: &Json) -> (r: Vec<String>)
    ensures
        r.deep_view() == spec_c6(universe.deep_view(), 0, *agent, *report, Seq::empty()),
{
    let ghost dv = universe.deep_view();
    let rstats = report_status_lookup(universe, report);
    let mut r: Vec<String> = Vec::new();
    proof {
        assert(r.deep_view() =~~= Seq::<Seq<char>>::empty());
    }
    let mut i: usize = 0;
    while i < universe.len()
        invariant
            i <= dv.len(),
            dv == universe.deep_view(),
            dv.len() == universe@.len(),
            rstats@.len() == universe@.len(),
            forall|k: int| 0 <= k < dv.len() ==> rstats@[k] == spec_report_resolve(
                *report,
                dv[k],
            ),
            spec_c6(dv, 0, *agent, *report, Seq::empty()) == spec_c6(
                dv,
                i as int,
                *agent,
                *report,
                r.deep_view(),
            ),
        decreases dv.len() - i,
    {
        proof {
            assert(dv[i as int] == universe@[i as int]@);
        }
        let rs = rstats[i];
        let ags = resolve(agent, universe[i].as_str());
        if matches!(rs, Status::Failed) && matches!(ags, Status::Passed) {
            let mut line = universe[i].clone();
            line.append(" (marked as failed in report.json but passing in agent log)");
            let ghost r0 = r.deep_view();
            let ghost lv = line@;
            r.push(line);
            proof {
                assert(r.deep_view() =~~= r0.push(lv));
            }
        } else if matches!(rs, Status::Passed) && matches!(ags, Status::Failed) {
            let mut line = universe[i].clone();
            line.append(" (marked as passed in report.json but failing in agent log)");
            let ghost r0 = r.deep_view();
            let ghost lv = line@;
            r.push(line);
            proof {
                assert(r.deep_view() =~~= r0.push(lv));
            }
        }
        i = i + 1;
    }
    r
}

/// The last path segment of a file path.
pub open spec fn spec_rfind_char(s: Seq<char>, c: char, y: int) -> Option<int>
    decreases y,
    when y <= s.len()
{
    if y <= 0 {
        None
    } else if s[y - 1] == c {
        Some(y - 1)
    } else {
        spec_rfind_char(s, c, y - 1)
    }
}

pub open spec fn spec_basename(p: Seq<char>) -> Seq<char> {
    match spec_rfind_char(p, '/', p.len() as int) {
        Some(pos) => p.subrange(pos + 1, p.len() as int),
        None => p,
    }
}

fn basename_of(p: &[char]) -> (r: Vec<char>)
    ensures
        r@ == spec_basename(p@),
{
    let mut y: usize = p.len();
    while y > 0
        invariant
            y <= p@.len(),
            spec_rfind_char(p@, '/', p@.len() as int) == spec_rfind_char(p@, '/', y as int),
        decreases y,
    {
        if p[y - 1] == '/' {
            return crate::text::vec_sub(p, y, p.len());
        }
        y = y - 1;
    }
    crate::text::vec_sub(p, 0, p.len())
}

/// A golden-source diff, by filename: it mentions gold, src or source, and
/// is no test diff.
pub open spec fn spec_is_golden(path: Seq<char>) -> bool {
    let fl = crate::text::spec_lower(spec_basename(path));
    &&& (crate::text::seq_contains(fl, "gold"@) || crate::text::seq_contains(fl, "src"@)
        || crate::text::seq_contains(fl, "source"@))
    &&& !crate::text::seq_contains(fl, "test"@)
}

fn is_golden(path: &str) -> (r: bool)
    ensures
        r == spec_is_golden(path@),
{
    let cs = crate::text::chars_of(path);
    let base = basename_of(cs.as_slice());
    let b = base.as_slice();
    (crate::text::contains_ci(b, crate::text::chars_of("gold").as_slice())
        || crate::text::contains_ci(b, crate::text::chars_of("src").as_slice())
        || crate::text::contains_ci(b, crate::text::chars_of("source").as_slice()))
        && !crate::text::contains_ci(b, crate::text::chars_of("test").as_slice())
}

/// The concatenated test diffs, each closed by a newline.
pub open spec fn spec_test_concat(
    diffs: Seq<(Seq<char>, Seq<char>)>,
    i: int,
    acc: Seq<char>,
) -> Seq<char>
    decreases diffs.len() - i,
    when 0 <= i <= diffs.len()
{
    if i >= diffs.len() {
        acc
    } else if spec_is_golden(diffs[i].0) {
        spec_test_concat(diffs, i + 1, acc)
    } else {
        spec_test_concat(diffs, i + 1, acc + diffs[i].1 + seq!['\n'])
    }
}

/// Line endings normalized: `\r\n` and lone `\r` both become `\n`.
pub open spec fn spec_normalize_nl(s: Seq<char>, i: int, acc: Seq<char>) -> Seq<char>
    decreases s.len() - i,
    when 0 <= i <= s.len()
{
    if i >= s.len() {
        acc
    } else if s[i] == '\r' {
        if i + 1 < s.len() && s[i + 1] == '\n' {
            spec_normalize_nl(s, i + 1, acc)
        } else {
            spec_normalize_nl(s, i + 1, acc.push('\n'))
        }
    } else {
        spec_normalize_nl(s, i + 1, acc.push(s[i]))
    }
}

fn normalize_nl(s: &[char]) -> (r: Vec<char>)
    ensures
        r@ == spec_normalize_nl(s@, 0, Seq::empty()),
{
    let mut acc: Vec<char> = Vec::new();
    proof {
        assert(acc@ =~= Seq::<char>::empty());
    }
    let n = s.len();
    let mut i: usize = 0;
    while i < n
        invariant
            i <= s@.len(),
            n == s@.len(),
            spec_normalize_nl(s@, 0, Seq::empty()) == spec_normalize_nl(s@, i as int, acc@),
        decreases s@.len() - i,
    {
        if s[i] == '\r' {
            if !(i + 1 < n && s[i + 1] == '\n') {
                acc.push('\n');
            }
        } else {
            acc.push(s[i]);
        }
        i = i + 1;
    }
    acc
}

/// The search key of a fail-to-pass test: its last `::`-delimited segment.
pub open spec fn spec_rlast_sep(s: Seq<char>, y: int) -> Option<int>
    decreases y,
    when y <= s.len()
{
    if y < 2 {
        None
    } else if crate::text::match_at(s, "::"@, y - 2) {
        Some(y - 2)
    } else {
        spec_rlast_sep(s, y - 1)
    }
}

pub open spec fn spec_key_of(t: Seq<char>) -> Seq<char> {
    match spec_rlast_sep(t, t.len() as int) {
        Some(pos) => t.subrange(pos + 2, t.len() as int),
        None => t,
    }
}

fn key_of(t: &[char]) -> (r: Vec<char>)
    ensures
        r@ == spec_key_of(t@),
{
    let sep = crate::text::chars_of("::");
    let mut y: usize = t.len();
    while y >= 2
        invariant
            y <= t@.len(),
            sep@ == "::"@,
            spec_rlast_sep(t@, t@.len() as int) == spec_rlast_sep(t@, y as int),
        decreases y,
    {
        if crate::text::eq_at(t, sep.as_slice(), y - 2) {
            proof {
                reveal_strlit("::");
            }
            return crate::text::vec_sub(t, y, t.len());
        }
        proof {
            reveal_strlit("::");
        }
        y = y - 1;
    }
    crate::text::vec_sub(t, 0, t.len())
}

/// Does the normalized test-diff text define the key as an actual test
/// function: a direct `fn KEY(` mention, or a `#[test]` attribute with the
/// function within the following three lines?
pub open spec fn spec_has_test_fn(norm: Seq<char>, key: Seq<char>) -> bool {
    ||| crate::text::seq_contains(norm, "fn "@ + key + "("@)
    ||| crate::text::seq_contains(norm, "fn "@ + key + " ("@)
    ||| ({
        let lines = crate::text::spec_lines(norm);
        exists|i: int, j: int|
            #![trigger lines[i], lines[j]]
            0 <= i < lines.len() && i < j < lines.len() && j < i + 4 && crate::text::spec_trim(
                lines[i],
            ) == "#[test]"@ && (crate::text::match_at(
                crate::text::spec_trim(lines[j]),
                "fn "@ + key + "("@,
                0,
            ) || crate::text::match_at(crate::text::spec_trim(lines[j]), "fn "@ + key + " ("@, 0))
    })
}

fn has_test_fn(norm: &[char], key: &[char]) -> (r: bool)
    ensures
        r == spec_has_test_fn(norm@, key@),
{
    let mut pat1 = crate::text::chars_of("fn ");
    let mut keycopy = crate::text::vec_sub(key, 0, key.len());
    pat1.append(&mut keycopy);
    pat1.push('(');
    proof {
        reveal_strlit("fn ");
        reveal_strlit("(");
        reveal_strlit(" (");
        assert(pat1@ =~= "fn "@ + key@ + "("@);
    }
    let mut pat2 = crate::text::chars_of("fn ");
    let mut keycopy2 = crate::text::vec_sub(key, 0, key.len());
    pat2.append(&mut keycopy2);
    pat2.push(' ');
    pat2.push('(');
    proof {
        reveal_strlit("fn ");
        reveal_strlit("(");
        reveal_strlit(" (");
        assert(pat2@ =~= "fn "@ + key@ + " ("@);
    }
    if crate::text::contains_seq(norm, pat1.as_slice()) || crate::text::contains_seq(
        norm,
        pat2.as_slice(),
    ) {
        return true;
    }
    let lines = crate::text::lines_of(norm);
    let ghost lv = crate::text::spec_lines(norm@);
    let attr = crate::text::chars_of("#[test]");
    let mut i: usize = 0;
    while i < lines.len()
        invariant
            i <= lv.len(),
            lv == lines.deep_view(),
            lv == crate::text::spec_lines(norm@),
            lv.len() == lines@.len(),
            attr@ == "#[test]"@,
            pat1@ == "fn "@ + key@ + "("@,
            pat2@ == "fn "@ + key@ + " ("@,
            forall|a: int, b: int|
                #![trigger lv[a], lv[b]]
                0 <= a < i && a < b < lv.len() && b < a + 4 ==> !(crate::text::spec_trim(lv[a])
                    == "#[test]"@ && (crate::text::match_at(
                    crate::text::spec_trim(lv[b]),
                    "fn "@ + key@ + "("@,
                    0,
                ) || crate::text::match_at(
                    crate::text::spec_trim(lv[b]),
                    "fn "@ + key@ + " ("@,
                    0,
                ))),
        decreases lv.len() - i,
    {
        let li = &lines[i];
        proof {
            assert(li@ == lv[i as int]);
        }
        if crate::text::trimmed_eq(li.as_slice(), attr.as_slice()) {
            let hi = if lines.len() - i > 4 {
                i + 4
            } else {
                lines.len()
            };
            let mut j: usize = i + 1;
            while j < hi
                invariant
                    i < j <= hi <= lv.len(),
                    hi <= i + 4,
                    lv == lines.deep_view(),
                    lv == crate::text::spec_lines(norm@),
                    lv.len() == lines@.len(),
                    crate::text::spec_trim(lv[i as int]) == "#[test]"@,
                    pat1@ == "fn "@ + key@ + "("@,
                    pat2@ == "fn "@ + key@ + " ("@,
                    forall|b: int|
                        #![trigger lv[b]]
                        i < b < j ==> !(crate::text::match_at(
                            crate::text::spec_trim(lv[b]),
                            "fn "@ + key@ + "("@,
                            0,
                        ) || crate::text::match_at(
                            crate::text::spec_trim(lv[b]),
                            "fn "@ + key@ + " ("@,
                            0,
                        )),
                decreases hi - j,
            {
                let lj = &lines[j];
                proof {
                    assert(lj@ == lv[j as int]);
                }
                if crate::text::trimmed_starts_with(lj.as_slice(), pat1.as_slice())
                    || crate::text::trimmed_starts_with(lj.as_slice(), pat2.as_slice()) {
                    proof {
                        assert(crate::text::spec_trim(lv[i as int]) == "#[test]"@);
                        assert(crate::text::match_at(
                            crate::text::spec_trim(lv[j as int]),
                            "fn "@ + key@ + "("@,
                            0,
                        ) || crate::text::match_at(
                            crate::text::spec_trim(lv[j as int]),
                            "fn "@ + key@ + " ("@,
                            0,
                        ));
                        assert(spec_has_test_fn(norm@, key@));
                    }
                    return true;
                }
                j = j + 1;
            }
        }
        i = i + 1;
    }
    proof {
        if spec_has_test_fn(norm@, key@) {
            let (a, b) = choose|a: int, b: int|
                #![trigger lv[a], lv[b]]
                0 <= a < lv.len() && a < b < lv.len() && b < a + 4 && crate::text::spec_trim(
                    lv[a],
                ) == "#[test]"@ && (crate::text::match_at(
                    crate::text::spec_trim(lv[b]),
                    "fn "@ + key@ + "("@,
                    0,
                ) || crate::text::match_at(
                    crate::text::spec_trim(lv[b]),
                    "fn "@ + key@ + " ("@,
                    0,
                ));
            assert(false);
        }
    }
    false
}

/// One C7 example line.
pub open spec fn spec_c7_entry(t: Seq<char>, key: Seq<char>, gname: Seq<char>) -> Seq<char> {
    t + " (found as '"@ + key + "' in "@ + spec_basename(gname)
        + " but not as actual test function in test diffs)"@
}

/// The C7 examples for one golden diff: each fail-to-pass test whose key the
/// golden diff mentions but the test diffs never define as a test function.
pub open spec fn spec_c7_one(
    gname: Seq<char>,
    gcontent: Seq<char>,
    f2p: Seq<Seq<char>>,
    k: int,
    concat: Seq<char>,
    norm: Seq<char>,
    acc: Seq<Seq<char>>,
) -> Seq<Seq<char>>
    decreases f2p.len() - k,
    when 0 <= k <= f2p.len()
{
    if k >= f2p.len() {
        acc
    } else {
        let key = spec_key_of(f2p[k]);
        let acc2 = if crate::text::seq_contains(gcontent, key) {
            let found = if concat.len() > 0 {
                spec_has_test_fn(norm, key)
            } else {
                false
            };
            if found {
                acc
            } else {
                acc.push(spec_c7_entry(f2p[k], key, gname))
            }
        } else {
            acc
        };
        spec_c7_one(gname, gcontent, f2p, k + 1, concat, norm, acc2)
    }
}

/// The C7 examples over all golden diffs, in order.
pub open spec fn spec_c7(
    diffs: Seq<(Seq<char>, Seq<char>)>,
    g: int,
    f2p: Seq<Seq<char>>,
    concat: Seq<char>,
    norm: Seq<char>,
    acc: Seq<Seq<char>>,
) -> Seq<Seq<char>>
    decreases diffs.len() - g,
    when 0 <= g <= diffs.len()
{
    if g >= diffs.len() {
        acc
    } else if spec_is_golden(diffs[g].0) {
        spec_c7(
            diffs,
            g + 1,
            f2p,
            concat,
            norm,
            spec_c7_one(diffs[g].0, diffs[g].1, f2p, 0, concat, norm, acc),
        )
    } else {
        spec_c7(diffs, g + 1, f2p, concat, norm, acc)
    }
}

/// The C7 examples of a deliverable's diff files.
pub fn c7_examples(diffs: &Vec<(String, String)>, f2p: &Vec<String>) -> (r: Vec<String>)
    ensures
        ({
            let dv = crate::resolve::pairs_view(diffs@);
            let concat = spec_test_concat(dv, 0, Seq::empty());
            let norm = spec_normalize_nl(concat, 0, Seq::empty());
            r.deep_view() == spec_c7(dv, 0, f2p.deep_view(), concat, norm, Seq::empty())
        }),
{
    let ghost dv = crate::resolve::pairs_view(diffs@);
    let mut concat: Vec<char> = Vec::new();
    proof {
        assert(concat@ =~= Seq::<char>::empty());
    }
    let mut i: usize = 0;
    while i < diffs.len()
        invariant
            i <= dv.len(),
            dv == crate::resolve::pairs_view(diffs@),
            dv.len() == diffs@.len(),
            spec_test_concat(dv, 0, Seq::empty()) == spec_test_concat(dv, i as int, concat@),
        decreases dv.len() - i,
    {
        proof {
            assert(dv[i as int] == (diffs@[i as int].0@, diffs@[i as int].1@));
        }
        if !is_golden(diffs[i].0.as_str()) {
            let cs = crate::text::chars_of(diffs[i].1.as_str());
            let ghost c0 = concat@;
            crate::extract::extend_chars_pub(&mut concat, cs.as_slice());
            concat.push('\n');
            proof {
                assert(concat@ =~= c0 + dv[i as int].1 + seq!['\n']);
            }
        }
        i = i + 1;
    }
    let ghost concat_s = spec_test_concat(dv, 0, Seq::empty());
    let norm = normalize_nl(concat.as_slice());
    let ghost norm_s = spec_normalize_nl(concat_s, 0, Seq::empty());
    let mut acc: Vec<String> = Vec::new();
    proof {
        assert(acc.deep_view() =~~= Seq::<Seq<char>>::empty());
    }
    let fv = f2p;
    let ghost f2pv = f2p.deep_view();
    let mut g: usize = 0;
    while g < diffs.len()
        invariant
            g <= dv.len(),
            dv == crate::resolve::pairs_view(diffs@),
            dv.len() == diffs@.len(),
            f2pv == fv.deep_view(),
            f2pv.len() == fv@.len(),
            concat@ == concat_s,
            norm@ == norm_s,
            spec_c7(dv, 0, f2pv, concat_s, norm_s, Seq::empty()) == spec_c7(
                dv,
                g as int,
                f2pv,
                concat_s,
                norm_s,
                acc.deep_view(),
            ),
        decreases dv.len() - g,
    {
        proof {
            assert(dv[g as int] == (diffs@[g as int].0@, diffs@[g as int].1@));
        }
        if is_golden(diffs[g].0.as_str()) {
            let gcontent = crate::text::chars_of(diffs[g].1.as_str());
            let gname = crate::text::chars_of(diffs[g].0.as_str());
            let ghost acc0 = acc.deep_view();
            let mut k: usize = 0;
            while k < fv.len()
                invariant
                    k <= f2pv.len(),
                    g < dv.len(),
                    dv == crate::resolve::pairs_view(diffs@),
                    dv.len() == diffs@.len(),
                    f2pv == fv.deep_view(),
                    f2pv.len() == fv@.len(),
                    concat@ == concat_s,
                    norm@ == norm_s,
                    gcontent@ == dv[g as int].1,
                    gname@ == dv[g as int].0,
                    spec_c7(dv, 0, f2pv, concat_s, norm_s, Seq::empty()) == spec_c7(
                        dv,
                        g as int,
                        f2pv,
                        concat_s,
                        norm_s,
                        acc0,
                    ),
                    spec_c7_one(
                        dv[g as int].0,
                        dv[g as int].1,
                        f2pv,
                        0,
                        concat_s,
                        norm_s,
                        acc0,
                    ) == spec_c7_one(
                        dv[g as int].0,
                        dv[g as int].1,
                        f2pv,
                        k as int,
                        concat_s,
                        norm_s,
                        acc.deep_view(),
                    ),
                decreases f2pv.len() - k,
            {
                proof {
                    assert(f2pv[k as int] == fv@[k as int]@);
                }
                let keyv = key_of(crate::text::chars_of(fv[k].as_str()).as_slice());
                if crate::text::contains_seq(gcontent.as_slice(), keyv.as_slice()) {
                    let found = if concat.len() > 0 {
                        has_test_fn(norm.as_slice(), keyv.as_slice())
                    } else {
                        false
                    };
                    if !found {
                        let mut line = fv[k].clone();
                        line.append(" (found as '");
                        let keystr = crate::text::string_from_range(
                            keyv.as_slice(),
                            0,
                            keyv.len(),
                        );
                        line.append(keystr.as_str());
                        line.append("' in ");
                        let bn = basename_of(gname.as_slice());
                        let bnstr = crate::text::string_from_range(bn.as_slice(), 0, bn.len());
                        line.append(bnstr.as_str());
                        line.append(" but not as actual test function in test diffs)");
                        let ghost a0 = acc.deep_view();
                        let ghost lvv = line@;
                        acc.push(line);
                        proof {
                            assert(acc.deep_view() =~~= a0.push(lvv));
                            assert(lvv == spec_c7_entry(
                                f2pv[k as int],
                                spec_key_of(f2pv[k as int]),
                                dv[g as int].0,
                            ));
                        }
                    }
                }
                k = k + 1;
            }
        }
        g = g + 1;
    }
    acc
}



/// At most fifty examples are reported per stage.
pub open spec fn spec_take50(s: Seq<Seq<char>>) -> Seq<Seq<char>> {
    if s.len() <= 50 {
        s
    } else {
        s.take(50)
    }
}

fn take50(v: Vec<String>) -> (r: Vec<String>)
    ensures
        r.deep_view() == spec_take50(v.deep_view()),
{
    if v.len() <= 50 {
        return v;
    }
    let ghost dv = v.deep_view();
    let mut v2 = v;
    v2.truncate(50);
    proof {
        assert(v2.deep_view() =~~= dv.take(50));
    }
    v2
}

/// The view of the per-stage duplicate lists.
pub open spec fn per_log_view(v: Seq<(String, Vec<String>)>) -> Seq<(Seq<char>, Seq<Seq<char>>)> {
    v.map_values(|p: (String, Vec<String>)| (p.0@, p.1.deep_view()))
}

/// The per-stage duplicate findings: every stage log present is scanned
/// independently, stages without findings are left out, and examples are
/// capped at fifty.
pub open spec fn spec_c5_per_log(
    bt: Seq<char>,
    bet: Seq<char>,
    at: Seq<char>,
    agt: Option<Seq<char>>,
) -> Seq<(Seq<char>, Seq<Seq<char>>)> {
    let bd = crate::duplicates::spec_detect_same_file_duplicates(bt);
    let bed = crate::duplicates::spec_detect_same_file_duplicates(bet);
    let ad = crate::duplicates::spec_detect_same_file_duplicates(at);
    (if bd.len() > 0 {
        seq![("base"@, spec_take50(bd))]
    } else {
        Seq::empty()
    }) + (if bed.len() > 0 {
        seq![("before"@, spec_take50(bed))]
    } else {
        Seq::empty()
    }) + (if ad.len() > 0 {
        seq![("after"@, spec_take50(ad))]
    } else {
        Seq::empty()
    }) + (match agt {
        Some(t) => {
            let agd = crate::duplicates::spec_detect_same_file_duplicates(t);
            if agd.len() > 0 {
                seq![("agent"@, spec_take50(agd))]
            } else {
                Seq::empty()
            }
        },
        None => Seq::empty(),
    })
}

/// The view of an optional stage text.
pub open spec fn opt_text_view(t: Option<&str>) -> Option<Seq<char>> {
    match t {
        Some(s) => Some(s@),
        None => None,
    }
}

/// Runs the duplicate analyzer on every stage log present.
pub fn c5_outcome(
    base_text: &str,
    before_text: &str,
    after_text: &str,
    agent_text: Option<&str>,
) -> (r: DuplicateOutcome)
    ensures
        per_log_view(r.per_log@) == spec_c5_per_log(
            base_text@,
            before_text@,
            after_text@,
            opt_text_view(agent_text),
        ),
        r.has_problem == (spec_c5_per_log(
            base_text@,
            before_text@,
            after_text@,
            opt_text_view(agent_text),
        ).len() > 0),
{
    let bd = crate::duplicates::detect_same_file_duplicates(base_text);
    let bed = crate::duplicates::detect_same_file_duplicates(before_text);
    let ad = crate::duplicates::detect_same_file_duplicates(after_text);
    let mut per_log: Vec<(String, Vec<String>)> = Vec::new();
    proof {
        assert(per_log_view(per_log@) =~~= Seq::<(Seq<char>, Seq<Seq<char>>)>::empty());
    }
    let ghost bds = bd.deep_view();
    let ghost beds = bed.deep_view();
    let ghost ads = ad.deep_view();
    if bd.len() > 0 {
        let ghost v0 = per_log_view(per_log@);
        let t = take50(bd);
        per_log.push((String::from_str("base"), t));
        proof {
            assert(per_log_view(per_log@) =~~= v0.push(("base"@, spec_take50(bds))));
        }
    }
    if bed.len() > 0 {
        let ghost v0 = per_log_view(per_log@);
        let t = take50(bed);
        per_log.push((String::from_str("before"), t));
        proof {
            assert(per_log_view(per_log@) =~~= v0.push(("before"@, spec_take50(beds))));
        }
    }
    if ad.len() > 0 {
        let ghost v0 = per_log_view(per_log@);
        let t = take50(ad);
        per_log.push((String::from_str("after"), t));
        proof {
            assert(per_log_view(per_log@) =~~= v0.push(("after"@, spec_take50(ads))));
        }
    }
    match agent_text {
        Some(agt) => {
            let agd = crate::duplicates::detect_same_file_duplicates(agt);
            let ghost agds = agd.deep_view();
            if agd.len() > 0 {
                let ghost v0 = per_log_view(per_log@);
                let t = take50(agd);
                per_log.push((String::from_str("agent"), t));
                proof {
                    assert(per_log_view(per_log@) =~~= v0.push(("agent"@, spec_take50(agds))));
                }
            }
        },
        None => {},
    }
    let has = per_log.len() > 0;
    proof {
        assert(per_log_view(per_log@) =~~= spec_c5_per_log(
            base_text@,
            before_text@,
            after_text@,
            opt_text_view(agent_text),
        ));
        assert(per_log@.len() == per_log_view(per_log@).len());
    }
    DuplicateOutcome { has_problem: has, per_log }
}

/// The status of one test at every stage.
pub struct StageMatrix {
    pub base: Status,
    pub before: Status,
    pub after: Status,
    pub agent: Status,
    pub report: Status,
}

/// Builds the per-test stage matrix for one universe partition.
pub fn build_matrix(
    names: &Vec<String>,
    base: &ParsedLog,
    before: &ParsedLog,
    after: &ParsedLog,
    agent: Option<&ParsedLog>,
    report: Option<&Json>,
) -> (r: Vec<(String, StageMatrix)>)
    ensures
        r@.len() == names@.len(),
        forall|i: int| #![trigger r@[i]] 0 <= i < names@.len() ==> {
            &&& r@[i].0@ == names.deep_view()[i]
            &&& r@[i].1.base == spec_resolve(*base, names.deep_view()[i])
            &&& r@[i].1.before == spec_resolve(*before, names.deep_view()[i])
            &&& r@[i].1.after == spec_resolve(*after, names.deep_view()[i])
            &&& r@[i].1.agent == (match agent {
                Some(a) => spec_resolve(*a, names.deep_view()[i]),
                None => Status::Missing,
            })
            &&& r@[i].1.report == (match report {
                Some(j) => spec_report_resolve(*j, names.deep_view()[i]),
                None => Status::Missing,
            })
        },
{
    let ghost dv = names.deep_view();
    let rep_stats: Option<Vec<Status>> = match report {
        Some(j) => Some(report_status_lookup(names, j)),
        None => None,
    };
    let mut r: Vec<(String, StageMatrix)> = Vec::new();
    let mut i: usize = 0;
    while i < names.len()
        invariant
            i <= dv.len(),
            dv == names.deep_view(),
            dv.len() == names@.len(),
            r@.len() == i,
            (match rep_stats {
                Some(ref rs) => rs@.len() == names@.len() && (match report {
                    Some(j) => forall|k: int| 0 <= k < dv.len() ==> rs@[k]
                        == spec_report_resolve(*j, dv[k]),
                    None => false,
                }),
                None => report is None,
            }),
            forall|k: int| #![trigger r@[k]] 0 <= k < i ==> {
                &&& r@[k].0@ == dv[k]
                &&& r@[k].1.base == spec_resolve(*base, dv[k])
                &&& r@[k].1.before == spec_resolve(*before, dv[k])
                &&& r@[k].1.after == spec_resolve(*after, dv[k])
                &&& r@[k].1.agent == (match agent {
                    Some(a) => spec_resolve(*a, dv[k]),
                    None => Status::Missing,
                })
                &&& r@[k].1.report == (match report {
                    Some(j) => spec_report_resolve(*j, dv[k]),
                    None => Status::Missing,
                })
            },
        decreases dv.len() - i,
    {
        proof {
            assert(dv[i as int] == names@[i as int]@);
        }
        let m = StageMatrix {
            base: resolve(base, names[i].as_str()),
            before: resolve(before, names[i].as_str()),
            after: resolve(after, names[i].as_str()),
            agent: match agent {
                Some(a) => resolve(a, names[i].as_str()),
                None => Status::Missing,
            },
            report: match rep_stats {
                Some(ref rs) => rs[i],
                None => Status::Missing,
            },
        };
        r.push((names[i].clone(), m));
        i = i + 1;
    }
    r
}

/// Per-stage extraction counts for diagnostics.
pub struct StageCounts {
    pub label: String,
    pub passed: usize,
    pub failed: usize,
    pub ignored: usize,
    pub all: usize,
}

fn stage_counts(label: &str, p: &ParsedLog) -> (r: StageCounts)
    ensures
        r.label@ == label@,
        r.passed == p.passed@.len(),
        r.failed == p.failed@.len(),
        r.ignored == p.ignored@.len(),
        r.all == p.all@.len(),
{
    StageCounts {
        label: String::from_str(label),
        passed: p.passed.len(),
        failed: p.failed.len(),
        ignored: p.ignored.len(),
        all: p.all.len(),
    }
}

/// The seven rule verdicts.
pub struct RuleChecks {
    pub c1_failed_in_base: RuleOutcome,
    pub c2_failed_in_after: RuleOutcome,
    pub c3_f2p_passed_in_before: RuleOutcome,
    pub c4_p2p_missing_in_base: RuleOutcome,
    pub c5_duplicates: DuplicateOutcome,
    pub c6_report_agent_mismatch: RuleOutcome,
    pub c7_f2p_in_golden_diff: RuleOutcome,
}

/// The acceptance decision with its partitioned lists.
pub struct RejectionReason {
    pub satisfied: bool,
    pub p2p_ignored: Vec<String>,
    pub p2p_considered: Vec<String>,
    pub p2p_rejected: Vec<String>,
    pub p2p_ok: Vec<String>,
    pub f2p_ignored: Vec<String>,
    pub f2p_considered: Vec<String>,
    pub f2p_rejected: Vec<String>,
    pub f2p_ok: Vec<String>,
}

/// The stage log paths the analysis ran on.
pub struct ReportInputs {
    pub base_log: String,
    pub before_log: String,
    pub after_log: String,
    pub agent_log: String,
}

/// The complete analysis: inputs, universe counts, rule verdicts, the
/// acceptance decision, per-test stage matrices and per-stage extraction
/// counts. Assembled once, never mutated.
pub struct AnalysisReport {
    pub inputs: ReportInputs,
    pub p2p_count: usize,
    pub f2p_count: usize,
    pub rule_checks: RuleChecks,
    pub rejection: RejectionReason,
    pub p2p_analysis: Vec<(String, StageMatrix)>,
    pub f2p_analysis: Vec<(String, StageMatrix)>,
    pub debug_log_counts: Vec<StageCounts>,
}

/// Evaluates the rule battery and the acceptance decision over the parsed
/// stage logs, and assembles the report.
#[verifier::rlimit(60)]
pub fn generate_analysis_result(
    base_parsed: &ParsedLog,
    before_parsed: &ParsedLog,
    after_parsed: &ParsedLog,
    agent_parsed: Option<&ParsedLog>,
    pass_to_pass: &Vec<String>,
    fail_to_pass: &Vec<String>,
    base_path: &str,
    before_path: &str,
    after_path: &str,
    agent_path: Option<&String>,
    report_data: Option<&Json>,
    base_text: &str,
    before_text: &str,
    after_text: &str,
    agent_text: Option<&str>,
    diffs: &Vec<(String, String)>,
) -> (r: AnalysisReport)
    ensures
        ({
            let p2p = pass_to_pass.deep_view();
            let f2p = fail_to_pass.deep_view();
            let uni = p2p + f2p;
            &&& r.inputs.base_log@ == base_path@
            &&& r.inputs.before_log@ == before_path@
            &&& r.inputs.after_log@ == after_path@
            &&& r.inputs.agent_log@ == (match agent_path {
                Some(p) => p@,
                None => Seq::<char>::empty(),
            })
            &&& r.p2p_count == p2p.len()
            &&& r.f2p_count == f2p.len()
            &&& r.rule_checks.c1_failed_in_base.examples.deep_view() == spec_c1(
                p2p,
                *base_parsed,
            )
            &&& r.rule_checks.c1_failed_in_base.has_problem == (spec_c1(p2p, *base_parsed).len()
                > 0)
            &&& r.rule_checks.c2_failed_in_after.examples.deep_view() == spec_c2(
                uni,
                *after_parsed,
            )
            &&& r.rule_checks.c2_failed_in_after.has_problem == (spec_c2(uni, *after_parsed).len()
                > 0)
            &&& r.rule_checks.c3_f2p_passed_in_before.examples.deep_view() == spec_c3(
                f2p,
                *before_parsed,
            )
            &&& r.rule_checks.c3_f2p_passed_in_before.has_problem == (spec_c3(
                f2p,
                *before_parsed,
            ).len() > 0)
            &&& r.rule_checks.c4_p2p_missing_in_base.examples.deep_view() == spec_c4(
                p2p,
                0,
                *base_parsed,
                *before_parsed,
                Seq::empty(),
            )
            &&& r.rule_checks.c4_p2p_missing_in_base.has_problem == (spec_c4(
                p2p,
                0,
                *base_parsed,
                *before_parsed,
                Seq::empty(),
            ).len() > 0)
            &&& per_log_view(r.rule_checks.c5_duplicates.per_log@) == spec_c5_per_log(
                base_text@,
                before_text@,
                after_text@,
                opt_text_view(agent_text),
            )
            &&& r.rule_checks.c5_duplicates.has_problem == (spec_c5_per_log(
                base_text@,
                before_text@,
                after_text@,
                opt_text_view(agent_text),
            ).len() > 0)
            &&& (match (agent_parsed, report_data) {
                (Some(ag), Some(rep)) => {
                    &&& r.rule_checks.c6_report_agent_mismatch.examples.deep_view() == spec_c6(
                        uni,
                        0,
                        *ag,
                        *rep,
                        Seq::empty(),
                    )
                    &&& r.rule_checks.c6_report_agent_mismatch.has_problem == (spec_c6(
                        uni,
                        0,
                        *ag,
                        *rep,
                        Seq::empty(),
                    ).len() > 0)
                },
                _ => {
                    &&& r.rule_checks.c6_report_agent_mismatch.examples.deep_view()
                        == Seq::<Seq<char>>::empty()
                    &&& !r.rule_checks.c6_report_agent_mismatch.has_problem
                },
            })
            &&& ({
                let ddv = crate::resolve::pairs_view(diffs@);
                let concat = spec_test_concat(ddv, 0, Seq::empty());
                let norm = spec_normalize_nl(concat, 0, Seq::empty());
                &&& r.rule_checks.c7_f2p_in_golden_diff.examples.deep_view() == spec_c7(
                    ddv,
                    0,
                    f2p,
                    concat,
                    norm,
                    Seq::empty(),
                )
                &&& r.rule_checks.c7_f2p_in_golden_diff.has_problem == (spec_c7(
                    ddv,
                    0,
                    f2p,
                    concat,
                    norm,
                    Seq::empty(),
                ).len() > 0)
            })
            &&& r.rejection.p2p_ignored.deep_view() == spec_p2p_ignored(
                p2p,
                *base_parsed,
                *after_parsed,
            )
            &&& r.rejection.p2p_considered.deep_view() == spec_p2p_considered(
                p2p,
                *base_parsed,
                *after_parsed,
            )
            &&& r.rejection.p2p_rejected.deep_view() == spec_p2p_rejected(
                p2p,
                *base_parsed,
                *before_parsed,
                *after_parsed,
            )
            &&& r.rejection.p2p_ok.deep_view() == spec_p2p_ok(
                p2p,
                *base_parsed,
                *before_parsed,
                *after_parsed,
            )
            &&& r.rejection.f2p_ignored.deep_view() == f2p.filter(
                |t: Seq<char>| spec_resolve(*after_parsed, t) == Status::Passed,
            )
            &&& r.rejection.f2p_considered.deep_view() == f2p.filter(
                |t: Seq<char>| !(spec_resolve(*after_parsed, t) == Status::Passed),
            )
            &&& r.rejection.f2p_rejected.deep_view() == f2p.filter(
                |t: Seq<char>| spec_resolve(*after_parsed, t) == Status::Failed,
            )
            &&& r.rejection.f2p_ok.deep_view() == f2p.filter(
                |t: Seq<char>| spec_resolve(*after_parsed, t) == Status::Missing,
            )
            &&& r.rejection.satisfied == (spec_p2p_rejected(
                p2p,
                *base_parsed,
                *before_parsed,
                *after_parsed,
            ).len() > 0)
            &&& r.p2p_analysis@.len() == p2p.len()
            &&& r.f2p_analysis@.len() == f2p.len()
            &&& forall|i: int| #![trigger r.p2p_analysis@[i]] 0 <= i < p2p.len() ==> {
                &&& r.p2p_analysis@[i].0@ == p2p[i]
                &&& r.p2p_analysis@[i].1.base == spec_resolve(*base_parsed, p2p[i])
                &&& r.p2p_analysis@[i].1.before == spec_resolve(*before_parsed, p2p[i])
                &&& r.p2p_analysis@[i].1.after == spec_resolve(*after_parsed, p2p[i])
            }
            &&& forall|i: int| #![trigger r.f2p_analysis@[i]] 0 <= i < f2p.len() ==> {
                &&& r.f2p_analysis@[i].0@ == f2p[i]
                &&& r.f2p_analysis@[i].1.base == spec_resolve(*base_parsed, f2p[i])
                &&& r.f2p_analysis@[i].1.before == spec_resolve(*before_parsed, f2p[i])
                &&& r.f2p_analysis@[i].1.after == spec_resolve(*after_parsed, f2p[i])
            }
            &&& r.debug_log_counts@.len() == (if agent_parsed is Some {
                4int
            } else {
                3int
            })
        }),
{
    let mut universe: Vec<String> = Vec::new();
    crate::status::extend_names(&mut universe, pass_to_pass);
    crate::status::extend_names(&mut universe, fail_to_pass);
    proof {
        assert(universe.deep_view() =~~= pass_to_pass.deep_view() + fail_to_pass.deep_view());
    }
    let c1_ex = filter_by_status(pass_to_pass, base_parsed, Status::Failed);
    let c2_ex = filter_by_status(&universe, after_parsed, Status::Failed);
    let c3_ex = filter_by_status(fail_to_pass, before_parsed, Status::Passed);
    let c4_ex = c4_examples(pass_to_pass, base_parsed, before_parsed);
    let c5 = c5_outcome(base_text, before_text, after_text, agent_text);
    let c6 = match (agent_parsed, report_data) {
        (Some(ag), Some(rep)) => {
            let ex = c6_examples(&universe, ag, rep);
            let has = ex.len() > 0;
            proof {
                assert(ex@.len() == ex.deep_view().len());
            }
            RuleOutcome { has_problem: has, examples: ex }
        },
        _ => {
            let ex: Vec<String> = Vec::new();
            proof {
                assert(ex.deep_view() =~~= Seq::<Seq<char>>::empty());
            }
            RuleOutcome { has_problem: false, examples: ex }
        },
    };
    let c7_ex = c7_examples(diffs, fail_to_pass);
    let p2p_ignored = filter_two(
        pass_to_pass,
        base_parsed,
        Status::Passed,
        after_parsed,
        Status::Passed,
        false,
    );
    let p2p_considered = filter_two(
        pass_to_pass,
        base_parsed,
        Status::Passed,
        after_parsed,
        Status::Passed,
        true,
    );
    let p2p_considered2 = filter_two(
        pass_to_pass,
        base_parsed,
        Status::Passed,
        after_parsed,
        Status::Passed,
        true,
    );
    let p2p_considered3 = filter_two(
        pass_to_pass,
        base_parsed,
        Status::Passed,
        after_parsed,
        Status::Passed,
        true,
    );
    let p2p_rejected = filter_missing_and_before(
        p2p_considered2,
        base_parsed,
        before_parsed,
        false,
    );
    let p2p_ok = filter_missing_and_before(p2p_considered3, base_parsed, before_parsed, true);
    let f2p_ignored = filter_by_status(fail_to_pass, after_parsed, Status::Passed);
    let f2p_considered = filter_not_passed(fail_to_pass, after_parsed);
    let f2p_rejected = filter_by_status(fail_to_pass, after_parsed, Status::Failed);
    let f2p_ok = filter_by_status(fail_to_pass, after_parsed, Status::Missing);
    let satisfied = p2p_rejected.len() > 0;
    proof {
        assert(p2p_rejected@.len() == p2p_rejected.deep_view().len());
        assert(c1_ex@.len() == c1_ex.deep_view().len());
        assert(c2_ex@.len() == c2_ex.deep_view().len());
        assert(c3_ex@.len() == c3_ex.deep_view().len());
        assert(c4_ex@.len() == c4_ex.deep_view().len());
        assert(c7_ex@.len() == c7_ex.deep_view().len());
    }
    let c1_has = c1_ex.len() > 0;
    let c2_has = c2_ex.len() > 0;
    let c3_has = c3_ex.len() > 0;
    let c4_has = c4_ex.len() > 0;
    let c7_has = c7_ex.len() > 0;
    let p2p_analysis = build_matrix(
        pass_to_pass,
        base_parsed,
        before_parsed,
        after_parsed,
        agent_parsed,
        report_data,
    );
    let f2p_analysis = build_matrix(
        fail_to_pass,
        base_parsed,
        before_parsed,
        after_parsed,
        agent_parsed,
        report_data,
    );
    let mut debug_log_counts: Vec<StageCounts> = Vec::new();
    debug_log_counts.push(stage_counts("base", base_parsed));
    debug_log_counts.push(stage_counts("before", before_parsed));
    debug_log_counts.push(stage_counts("after", after_parsed));
    match agent_parsed {
        Some(ag) => {
            debug_log_counts.push(stage_counts("agent", ag));
        },
        None => {},
    }
    AnalysisReport {
        inputs: ReportInputs {
            base_log: String::from_str(base_path),
            before_log: String::from_str(before_path),
            after_log: String::from_str(after_path),
            agent_log: match agent_path {
                Some(p) => p.clone(),
                None => String::new(),
            },
        },
        p2p_count: pass_to_pass.len(),
        f2p_count: fail_to_pass.len(),
        rule_checks: RuleChecks {
            c1_failed_in_base: RuleOutcome { has_problem: c1_has, examples: c1_ex },
            c2_failed_in_after: RuleOutcome { has_problem: c2_has, examples: c2_ex },
            c3_f2p_passed_in_before: RuleOutcome { has_problem: c3_has, examples: c3_ex },
            c4_p2p_missing_in_base: RuleOutcome { has_problem: c4_has, examples: c4_ex },
            c5_duplicates: c5,
            c6_report_agent_mismatch: c6,
            c7_f2p_in_golden_diff: RuleOutcome { has_problem: c7_has, examples: c7_ex },
        },
        rejection: RejectionReason {
            satisfied,
            p2p_ignored,
            p2p_considered,
            p2p_rejected,
            p2p_ok,
            f2p_ignored,
            f2p_considered,
            f2p_rejected,
            f2p_ok,
        },
        p2p_analysis,
        f2p_analysis,
        debug_log_counts,
    }
}

/// Filters names whose after-stage status is anything but passed.
fn filter_not_passed(v: &Vec<String>, log: &ParsedLog) -> (r: Vec<String>)
    ensures
        r.deep_view() == v.deep_view().filter(
            |t: Seq<char>| !(spec_resolve(*log, t) == Status::Passed),
        ),
{
    let ghost pred = |t: Seq<char>| !(spec_resolve(*log, t) == Status::Passed);
    let ghost dv = v.deep_view();
    let mut r: Vec<String> = Vec::new();
    proof {
        reveal(Seq::filter);
        assert(dv.take(0) =~~= Seq::<Seq<char>>::empty());
        assert(r.deep_view() =~~= Seq::<Seq<char>>::empty().filter(pred));
    }
    let mut i: usize = 0;
    while i < v.len()
        invariant
            i <= dv.len(),
            dv == v.deep_view(),
            dv.len() == v@.len(),
            pred == (|t: Seq<char>| !(spec_resolve(*log, t) == Status::Passed)),
            r.deep_view() == dv.take(i as int).filter(pred),
        decreases dv.len() - i,
    {
        proof {
            reveal(Seq::filter);
            assert(dv.take(i + 1).drop_last() =~~= dv.take(i as int));
            assert(dv.take(i + 1).last() == dv[i as int]);
            assert(dv[i as int] == v@[i as int]@);
        }
        let st = resolve(log, v[i].as_str());
        if !matches!(st, Status::Passed) {
            let ghost r0 = r.deep_view();
            r.push(v[i].clone());
            proof {
                assert(pred(dv[i as int]));
                assert(r.deep_view() =~~= r0.push(dv[i as int]));
            }
        } else {
            proof {
                assert(!pred(dv[i as int]));
            }
        }
        i = i + 1;
    }
    proof {
        assert(dv.take(dv.len() as int) =~~= dv);
    }
    r
}

} // verus!
