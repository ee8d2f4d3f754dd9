use vstd::prelude::*;
use crate::extract::{line_direct, spec_line_direct, spec_scan5, spec_step5};
use crate::grammar::{
    line_test, outcome_of_word, spec_line_test, spec_test_name, test_name_end, word_outcome,
    StatusWord,
};
use crate::single_line::{compact_at, first_non_ws, spec_compact_at};
use crate::status::{
    into_parsed_log, outcome_names, spec_record, Classification, Outcome, ParsedLog,
};
use crate::text::{
    chars_of, contains_seq, eq_at, find_pat, is_ws, lemma_spec_first_skip, lines_of, match_at,
    seq_contains, spec_find, spec_first, spec_is_ws, spec_lines, spec_lower, spec_trim,
    string_from_range, trim_bounds, trimmed_starts_with, vec_sub,
};

verus! {

/// The name captured by a nextest result line `KW [duration] NAME`: the first
/// case-insensitive occurrence of the keyword, whitespace, a bracketed
/// duration, whitespace, then the name, trimmed.
pub open spec fn spec_nextest_capture(l: Seq<char>, kw: Seq<char>) -> Option<Seq<char>> {
    match spec_find(spec_lower(l), kw) {
        None => None,
        Some(p0) => {
            let after = p0 + kw.len();
            if after < l.len() && spec_is_ws(l[after]) {
                match spec_first(l.len() as int, after, |b: int| !spec_is_ws(l[b])) {
                    None => None,
                    Some(b) => if l[b] == '[' {
                        match spec_first(l.len() as int, b + 1, |c: int| l[c] == ']') {
                            None => None,
                            Some(c) => if c > b + 1 && c + 1 < l.len() && spec_is_ws(l[c + 1]) {
                                let name = spec_trim(l.subrange(c + 1, l.len() as int));
                                if name.len() > 0 {
                                    Some(name)
                                } else {
                                    None
                                }
                            } else {
                                None
                            },
                        }
                    } else {
                        None
                    },
                }
            } else {
                None
            }
        },
    }
}

/// Reads a nextest result line for the given keyword.
pub fn nextest_capture(l: &[char], kw: &[char]) -> (r: Option<String>)
    ensures
        match r {
            Some(name) => spec_nextest_capture(l@, kw@) == Some(name@),
            None => spec_nextest_capture(l@, kw@) is None,
        },
{
    let ll = crate::text::to_lower_vec(l);
    let n = l.len();
    let p0 = match find_pat(ll.as_slice(), kw) {
        Some(p0) => p0,
        None => {
            return None;
        },
    };
    proof {
        assert(p0 + kw@.len() <= n);
    }
    let after = p0 + kw.len();
    if !(after < n && is_ws(l[after])) {
        return None;
    }
    let b = match first_non_ws(l, after) {
        Some(b) => b,
        None => {
            return None;
        },
    };
    if l[b] != '[' {
        return None;
    }
    let ghost pc = |c: int| l@[c] == ']';
    let mut c: usize = b + 1;
    loop
        invariant
            b + 1 <= c <= l@.len(),
            n == l@.len(),
            pc == (|c: int| l@[c] == ']'),
            forall|j: int| b + 1 <= j < c ==> !#[trigger] pc(j),
        ensures
            b + 1 <= c <= l@.len(),
            (if c < l@.len() {
                spec_first(l@.len() as int, b + 1, pc) == Some(c as int)
            } else {
                spec_first(l@.len() as int, b + 1, pc) is None
            }),
        decreases l@.len() - c,
    {
        if c >= n {
            proof {
                lemma_spec_first_skip(l@.len() as int, b + 1, l@.len() as int, pc);
            }
            break;
        }
        if l[c] == ']' {
            proof {
                assert(pc(c as int));
                lemma_spec_first_skip(l@.len() as int, b + 1, c as int, pc);
            }
            break;
        }
        proof {
            assert(pc(c as int) == (l@[c as int] == ']'));
        }
        c = c + 1;
    }
    if c >= n {
        return None;
    }
    if !(c > b + 1 && c + 1 < n && is_ws(l[c + 1])) {
        return None;
    }
    let tail = vec_sub(l, c + 1, n);
    let (a2, b2) = trim_bounds(tail.as_slice());
    if a2 == b2 {
        return None;
    }
    Some(string_from_range(tail.as_slice(), a2, b2))
}

/// Normalizes the name a nextest line carries: known crate families keep
/// their prefix, a `::lib` separator keeps only the test path, and a lone
/// crate token before a `::`-qualified test path is dropped, so that names
/// match the manifest whichever way the runner was invoked.
pub open spec fn spec_normalize_nextest(s: Seq<char>) -> Seq<char> {
    let t = spec_trim(s);
    if match_at(t, "miden-"@, 0) {
        t
    } else if seq_contains(t, "::miden-integration-tests "@) {
        t
    } else if spec_find(t, "::lib "@) is Some {
        let pos = spec_find(t, "::lib "@)->Some_0;
        if 0 <= pos && pos + 6 <= t.len() {
            spec_trim(t.skip(pos + 6))
        } else {
            t
        }
    } else {
        match spec_first(t.len() as int, 0, |i: int| t[i] == ' ') {
            None => t,
            Some(sp) => {
                let crate_part = t.take(sp);
                let test_part = t.skip(sp + 1);
                if !seq_contains(crate_part, "::"@) && seq_contains(test_part, "::"@) {
                    spec_trim(test_part)
                } else {
                    t
                }
            },
        }
    }
}

/// Normalizes a nextest test name.
pub fn extract_test_name_from_nextest_line(full_line: &str) -> (r: String)
    ensures
        r@ == spec_normalize_nextest(full_line@),
{
    let cs = chars_of(full_line);
    let (a, b) = trim_bounds(cs.as_slice());
    let tv = vec_sub(cs.as_slice(), a, b);
    let t = tv.as_slice();
    let ghost ts = spec_trim(full_line@);
    proof {
        assert(t@ == ts);
    }
    let miden = chars_of("miden-");
    if eq_at(t, miden.as_slice(), 0) {
        return string_from_range(t, 0, t.len());
    }
    let integration = chars_of("::miden-integration-tests ");
    if contains_seq(t, integration.as_slice()) {
        return string_from_range(t, 0, t.len());
    }
    let lib_sep = chars_of("::lib ");
    match find_pat(t, lib_sep.as_slice()) {
        Some(pos) => {
            proof {
                assert(pos + 6 <= t@.len()) by {
                    reveal_strlit("::lib ");
                }
            }
            let rest = vec_sub(t, pos + 6, t.len());
            let (a2, b2) = trim_bounds(rest.as_slice());
            proof {
                assert(rest@ =~= ts.skip(pos + 6)) by {
                    reveal_strlit("::lib ");
                }
            }
            return string_from_range(rest.as_slice(), a2, b2);
        },
        None => {},
    }
    let ghost psp = |i: int| ts[i] == ' ';
    let mut sp: usize = 0;
    loop
        invariant
            sp <= t@.len(),
            t@ == ts,
            psp == (|i: int| ts[i] == ' '),
            forall|j: int| 0 <= j < sp ==> !#[trigger] psp(j),
        ensures
            sp <= t@.len(),
            (if sp < t@.len() {
                spec_first(ts.len() as int, 0, psp) == Some(sp as int)
            } else {
                spec_first(ts.len() as int, 0, psp) is None
            }),
        decreases t@.len() - sp,
    {
        if sp >= t.len() {
            proof {
                lemma_spec_first_skip(ts.len() as int, 0, ts.len() as int, psp);
            }
            break;
        }
        if t[sp] == ' ' {
            proof {
                assert(psp(sp as int));
                lemma_spec_first_skip(ts.len() as int, 0, sp as int, psp);
            }
            break;
        }
        proof {
            assert(psp(sp as int) == (ts[sp as int] == ' '));
        }
        sp = sp + 1;
    }
    if sp >= t.len() {
        return string_from_range(t, 0, t.len());
    }
    let crate_part = vec_sub(t, 0, sp);
    let test_part = vec_sub(t, sp + 1, t.len());
    proof {
        assert(crate_part@ =~= ts.take(sp as int));
        assert(test_part@ =~= ts.skip(sp + 1));
    }
    let colons = chars_of("::");
    if !contains_seq(crate_part.as_slice(), colons.as_slice()) && contains_seq(
        test_part.as_slice(),
        colons.as_slice(),
    ) {
        let (a3, b3) = trim_bounds(test_part.as_slice());
        string_from_range(test_part.as_slice(), a3, b3)
    } else {
        string_from_range(t, 0, t.len())
    }
}

/// The first full compact match anywhere in the line.
pub open spec fn spec_first_compact(l: Seq<char>) -> Option<(int, int, StatusWord, int)> {
    match spec_first(l.len() as int, 0, |t: int| spec_compact_at(l, t) is Some) {
        None => None,
        Some(t) => spec_compact_at(l, t),
    }
}

pub fn first_compact(l: &[char]) -> (r: Option<(usize, usize, StatusWord)>)
    ensures
        match r {
            Some((n0, e, w)) => {
                &&& spec_first_compact(l@) matches Some((sn0, se, sw, _)) && sn0 == n0 as int && se
                    == e as int && sw == w
                &&& n0 <= e <= l@.len()
            },
            None => spec_first_compact(l@) is None,
        },
{
    let ghost p = |t: int| spec_compact_at(l@, t) is Some;
    let mut t: usize = 0;
    while t < l.len()
        invariant
            t <= l@.len(),
            p == (|t: int| spec_compact_at(l@, t) is Some),
            forall|j: int| 0 <= j < t ==> !#[trigger] p(j),
        decreases l@.len() - t,
    {
        match compact_at(l, t) {
            Some((n0, e, w, _end)) => {
                proof {
                    assert(p(t as int));
                    lemma_spec_first_skip(l@.len() as int, 0, t as int, p);
                }
                return Some((n0, e, w));
            },
            None => {
                proof {
                    assert(p(t as int) == (spec_compact_at(l@, t as int) is Some));
                }
            },
        }
        t = t + 1;
    }
    proof {
        lemma_spec_first_skip(l@.len() as int, 0, l@.len() as int, p);
    }
    None
}

/// One line of the nextest strategy: `PASS`, `FAIL` and `SKIP`/`IGNORED`
/// lines classify their normalized names; otherwise the direct and compact
/// grammars absorb mixed-format lines; otherwise a diagnostic-opened test
/// line takes the next standalone status.
pub open spec fn spec_step_nextest(m: Map<Seq<char>, Outcome>, lines: Seq<Seq<char>>, i: int)
    -> Map<Seq<char>, Outcome>
    recommends
        0 <= i < lines.len(),
{
    let l = lines[i];
    match spec_nextest_capture(l, "pass"@) {
        Some(nm) => spec_record(m, spec_normalize_nextest(nm), Outcome::Passed),
        None => match spec_nextest_capture(l, "fail"@) {
            Some(nm) => spec_record(m, spec_normalize_nextest(nm), Outcome::Failed),
            None => match spec_nextest_capture(l, "skip"@) {
                Some(nm) => spec_record(m, spec_normalize_nextest(nm), Outcome::Ignored),
                None => match spec_nextest_capture(l, "ignored"@) {
                    Some(nm) => spec_record(m, spec_normalize_nextest(nm), Outcome::Ignored),
                    None => match spec_line_direct(l) {
                        Some((name, w)) => spec_record(m, name, word_outcome(w)),
                        None => match spec_first_compact(l) {
                            Some((n0, e, w, _end)) => spec_record(
                                m,
                                l.subrange(n0, e),
                                word_outcome(w),
                            ),
                            None => spec_step5(m, lines, i),
                        },
                    },
                },
            },
        },
    }
}

pub open spec fn spec_parse_nextest(m: Map<Seq<char>, Outcome>, lines: Seq<Seq<char>>, i: int)
    -> Map<Seq<char>, Outcome>
    decreases lines.len() - i,
    when 0 <= i <= lines.len()
{
    if i >= lines.len() {
        m
    } else {
        spec_parse_nextest(spec_step_nextest(m, lines, i), lines, i + 1)
    }
}

/// Parses a log in the nextest dialect.
pub fn parse_nextest_log(text: &str) -> (r: ParsedLog)
    ensures
        r.wf(),
        r.passed_set() == outcome_names(
            spec_parse_nextest(Map::empty(), spec_lines(text@), 0),
            Outcome::Passed,
        ),
        r.failed_set() == outcome_names(
            spec_parse_nextest(Map::empty(), spec_lines(text@), 0),
            Outcome::Failed,
        ),
        r.ignored_set() == outcome_names(
            spec_parse_nextest(Map::empty(), spec_lines(text@), 0),
            Outcome::Ignored,
        ),
{
    let cs = chars_of(text);
    let lines = lines_of(cs.as_slice());
    let ghost lv = spec_lines(text@);
    let mut cls = Classification::new();
    let pass_kw = chars_of("pass");
    let fail_kw = chars_of("fail");
    let skip_kw = chars_of("skip");
    let ignored_kw = chars_of("ignored");
    let err_pat = chars_of("error:");
    let mut i: usize = 0;
    while i < lines.len()
        invariant
            cls.wf(),
            i <= lv.len(),
            lv == lines.deep_view(),
            lv == spec_lines(text@),
            lv.len() == lines@.len(),
            pass_kw@ == "pass"@,
            fail_kw@ == "fail"@,
            skip_kw@ == "skip"@,
            ignored_kw@ == "ignored"@,
            err_pat@ == "error:"@,
            spec_parse_nextest(Map::empty(), lv, 0) == spec_parse_nextest(
                cls.map_of(),
                lv,
                i as int,
            ),
        decreases lv.len() - i,
    {
        let ghost m_in = cls.map_of();
        let l = &lines[i];
        proof {
            assert(l@ == lv[i as int]);
        }
        if let Some(nm) = nextest_capture(l.as_slice(), pass_kw.as_slice()) {
            let norm = extract_test_name_from_nextest_line(nm.as_str());
            cls.record(norm.as_str(), Outcome::Passed);
        } else if let Some(nm) = nextest_capture(l.as_slice(), fail_kw.as_slice()) {
            let norm = extract_test_name_from_nextest_line(nm.as_str());
            cls.record(norm.as_str(), Outcome::Failed);
        } else if let Some(nm) = nextest_capture(l.as_slice(), skip_kw.as_slice()) {
            let norm = extract_test_name_from_nextest_line(nm.as_str());
            cls.record(norm.as_str(), Outcome::Ignored);
        } else if let Some(nm) = nextest_capture(l.as_slice(), ignored_kw.as_slice()) {
            let norm = extract_test_name_from_nextest_line(nm.as_str());
            cls.record(norm.as_str(), Outcome::Ignored);
        } else if let Some((name, w)) = line_direct(l.as_slice()) {
            cls.record(name.as_str(), outcome_of_word(w));
        } else if let Some((n0, e, w)) = first_compact(l.as_slice()) {
            let name = string_from_range(l.as_slice(), n0, e);
            cls.record(name.as_str(), outcome_of_word(w));
        } else {
            match line_test(l.as_slice()) {
                Some((ns, d, rest)) => {
                    let ne = test_name_end(l.as_slice(), ns, d);
                    let name = string_from_range(l.as_slice(), ns, ne);
                    if cls.get(name.as_str()).is_none() {
                        let tail = vec_sub(l.as_slice(), rest, l.len());
                        let (a, b) = trim_bounds(tail.as_slice());
                        let is_err = trimmed_starts_with(tail.as_slice(), err_pat.as_slice());
                        if is_err || a == b {
                            let hi = if lines.len() - i > 50 {
                                i + 50
                            } else {
                                lines.len()
                            };
                            match crate::nextest::scan5_local(&lines, i + 1, hi) {
                                Some(w) => {
                                    cls.record(name.as_str(), outcome_of_word(w));
                                },
                                None => {},
                            }
                        }
                    }
                },
                None => {},
            }
            proof {
                assert(cls.map_of() == spec_step5(m_in, lv, i as int));
            }
        }
        i = i + 1;
    }
    into_parsed_log(&cls)
}

/// Scans for a standalone status line, stopping at the next test start.
pub fn scan5_local(lines: &Vec<Vec<char>>, j0: usize, hi: usize) -> (r: Option<StatusWord>)
    requires
        j0 <= hi <= lines@.len(),
    ensures
        r == spec_scan5(lines.deep_view(), j0 as int, hi as int),
{
    let ghost lv = lines.deep_view();
    let mut j: usize = j0;
    while j < hi
        invariant
            j0 <= j <= hi <= lv.len(),
            lv == lines.deep_view(),
            lv.len() == lines@.len(),
            spec_scan5(lv, j0 as int, hi as int) == spec_scan5(lv, j as int, hi as int),
        decreases hi - j,
    {
        let l = &lines[j];
        proof {
            assert(l@ == lv[j as int]);
        }
        if line_test(l.as_slice()).is_some() {
            return None;
        }
        match crate::grammar::standalone_status(l.as_slice()) {
            Some(w) => {
                return Some(w);
            },
            None => {},
        }
        j = j + 1;
    }
    None
}

} // verus!
