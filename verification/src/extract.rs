use vstd::prelude::*;
use crate::grammar::{
    diag_context_chars, diag_error_chars, good_test_kw, has_logging_marker, has_panic_evidence,
    spec_test_kw,
    has_status_token, line_test, outcome_of_word, rest_status, spec_has_logging_marker,
    spec_has_status_token, spec_is_diagnostic_error, spec_line_test, spec_panic_evidence,
    spec_rest_status, spec_standalone_status, spec_status_at_end, spec_status_at_start,
    spec_status_in_diagnostic_context, spec_status_word_at, spec_test_name, standalone_status,
    status_at_end, status_at_start, status_word_at, test_name_end, word_chars, word_outcome,
    StatusWord,
};
use crate::status::{into_parsed_log, outcome_names, spec_record, Classification, Outcome, ParsedLog};
use crate::text::{
    chars_of, contains_ci, lemma_spec_first_skip, lines_of, match_at, seq_contains, spec_first,
    spec_is_ws, spec_lines, spec_lower, spec_lower_char, spec_trim, str_eq, string_from_range,
    trimmed_eq, trimmed_eq_ci, trimmed_starts_with, vec_sub,
};

verus! {

/// What a direct test line classifies: `test NAME ... STATUS`, with or
/// without trailing content after the status token.
pub open spec fn spec_line_direct(l: Seq<char>) -> Option<(Seq<char>, StatusWord)> {
    match spec_line_test(l) {
        Some((ns, d, rest)) => match spec_rest_status(l, rest) {
            Some(w) => Some((spec_test_name(l, ns, d), w)),
            None => None,
        },
        None => None,
    }
}

/// First pass of the standard strategy: every line of the exact direct shape
/// records its raw signal, later signals merging by failure precedence.
pub open spec fn spec_pass1(m: Map<Seq<char>, Outcome>, lines: Seq<Seq<char>>, i: int) -> Map<
    Seq<char>,
    Outcome,
>
    decreases lines.len() - i,
    when 0 <= i <= lines.len()
{
    if i >= lines.len() {
        m
    } else {
        let m2 = match spec_line_direct(lines[i]) {
            Some((name, w)) => spec_record(m, name, word_outcome(w)),
            None => m,
        };
        spec_pass1(m2, lines, i + 1)
    }
}

/// Reads one line's direct classification, tying it to `spec_line_direct`.
pub fn line_direct(l: &[char]) -> (r: Option<(String, StatusWord)>)
    ensures
        match r {
            Some((name, w)) => spec_line_direct(l@) == Some((name@, w)),
            None => spec_line_direct(l@) is None,
        },
{
    match line_test(l) {
        Some((ns, d, rest)) => match rest_status(l, rest) {
            Some(w) => {
                let ne = test_name_end(l, ns, d);
                Some((string_from_range(l, ns, ne), w))
            },
            None => None,
        },
        None => None,
    }
}

/// The view of an executable pending list.
pub open spec fn pend_view(v: Seq<(String, usize)>) -> Seq<(Seq<char>, int)> {
    v.map_values(|p: (String, usize)| (p.0@, p.1 as int))
}

/// Enters a pending test, keeping one entry per name with its latest start
/// line.
pub open spec fn spec_upsert(acc: Seq<(Seq<char>, int)>, name: Seq<char>, i: int) -> Seq<
    (Seq<char>, int),
> {
    if exists|k: int| 0 <= k < acc.len() && acc[k].0 == name {
        acc.map_values(
            |p: (Seq<char>, int)|
                if p.0 == name {
                    (name, i)
                } else {
                    p
                },
        )
    } else {
        acc.push((name, i))
    }
}

/// Collects the pending tests of the second pass: test-start lines whose
/// remainder carries no status token at all, and whose name the first pass
/// left unclassified.
pub open spec fn spec_pending(
    m1: Map<Seq<char>, Outcome>,
    lines: Seq<Seq<char>>,
    i: int,
    acc: Seq<(Seq<char>, int)>,
) -> Seq<(Seq<char>, int)>
    decreases lines.len() - i,
    when 0 <= i <= lines.len()
{
    if i >= lines.len() {
        acc
    } else {
        let acc2 = match spec_line_test(lines[i]) {
            Some((ns, d, rest)) => {
                let name = spec_test_name(lines[i], ns, d);
                if m1.contains_key(name) {
                    acc
                } else if spec_has_status_token(
                    lines[i].subrange(rest, lines[i].len() as int),
                ) {
                    acc
                } else {
                    spec_upsert(acc, name, i)
                }
            },
            None => acc,
        };
        spec_pending(m1, lines, i + 1, acc2)
    }
}

/// One entry per name.
pub open spec fn pend_unique(v: Seq<(Seq<char>, int)>) -> bool {
    forall|i: int, j: int| 0 <= i < j < v.len() ==> v[i].0 != v[j].0
}

/// Upserts into the executable pending list.
fn pending_upsert(acc: &mut Vec<(String, usize)>, name: String, i: usize)
    requires
        pend_unique(pend_view(old(acc)@)),
    ensures
        pend_view(final(acc)@) == spec_upsert(pend_view(old(acc)@), name@, i as int),
        pend_unique(pend_view(final(acc)@)),
{
    let ghost before = pend_view(acc@);
    let ghost namev = name@;
    let mut k: usize = 0;
    while k < acc.len()
        invariant
            k <= acc@.len(),
            before == pend_view(acc@),
            before == pend_view(old(acc)@),
            pend_unique(before),
            namev == name@,
            forall|j: int| 0 <= j < k ==> pend_view(acc@)[j].0 != name@,
        decreases acc@.len() - k,
    {
        if str_eq(acc[k].0.as_str(), name.as_str()) {
            proof {
                assert(before[k as int].0 == namev);
                assert(forall|j: int| 0 <= j < before.len() && j != k ==> before[j].0 != namev);
            }
            acc.set(k, (name, i));
            proof {
                assert(pend_view(acc@) =~~= spec_upsert(before, namev, i as int));
                assert(forall|j: int|
                    0 <= j < pend_view(acc@).len() ==> pend_view(acc@)[j].0 == (
                    if before[j].0 == namev {
                        namev
                    } else {
                        before[j].0
                    }));
                assert(pend_unique(pend_view(acc@)));
            }
            return ;
        }
        k = k + 1;
    }
    acc.push((name, i));
    proof {
        assert(pend_view(acc@) =~~= before.push((namev, i as int)));
        assert(!(exists|j: int| 0 <= j < before.len() && before[j].0 == namev));
        assert(forall|j: int| 0 <= j < before.len() ==> pend_view(acc@)[j] == before[j]);
        assert(pend_unique(pend_view(acc@)));
    }
}

/// Collects the pending tests of the second pass.
pub fn collect_pending(cls: &Classification, lines: &Vec<Vec<char>>) -> (r: Vec<(String, usize)>)
    requires
        cls.wf(),
    ensures
        pend_view(r@) == spec_pending(cls.map_of(), lines.deep_view(), 0, Seq::empty()),
        forall|k: int| 0 <= k < pend_view(r@).len() ==> (#[trigger] pend_view(r@)[k].1)
            < lines@.len(),
{
    let ghost lv = lines.deep_view();
    let ghost m1 = cls.map_of();
    let mut acc: Vec<(String, usize)> = Vec::new();
    proof {
        assert(pend_view(acc@) =~= Seq::<(Seq<char>, int)>::empty());
    }
    let mut i: usize = 0;
    while i < lines.len()
        invariant
            cls.wf(),
            m1 == cls.map_of(),
            i <= lv.len(),
            lv == lines.deep_view(),
            lv.len() == lines@.len(),
            spec_pending(m1, lv, 0, Seq::empty()) == spec_pending(m1, lv, i as int, pend_view(acc@)),
            pend_unique(pend_view(acc@)),
            forall|k: int| 0 <= k < pend_view(acc@).len() ==> (#[trigger] pend_view(acc@)[k].1)
                < lines@.len(),
        decreases lv.len() - i,
    {
        let l = &lines[i];
        proof {
            assert(l@ == lv[i as int]);
        }
        match line_test(l.as_slice()) {
            Some((ns, d, rest)) => {
                let ne = test_name_end(l.as_slice(), ns, d);
                let name = string_from_range(l.as_slice(), ns, ne);
                if cls.get(name.as_str()).is_none() {
                    let tail = vec_sub(l.as_slice(), rest, l.len());
                    if !has_status_token(tail.as_slice()) {
                        let ghost prev = pend_view(acc@);
                        let ghost namev = name@;
                        pending_upsert(&mut acc, name, i);
                        proof {
                            let now = pend_view(acc@);
                            assert(forall|k: int|
                                0 <= k < now.len() ==> (#[trigger] now[k].1) < lines@.len()) by {
                                if exists|k: int| 0 <= k < prev.len() && prev[k].0 == namev {
                                    assert(forall|k: int|
                                        0 <= k < now.len() ==> now[k].1 == (
                                        if prev[k].0 == namev {
                                            i as int
                                        } else {
                                            prev[k].1
                                        }));
                                } else {
                                    assert(forall|k: int|
                                        0 <= k < prev.len() ==> now[k] == prev[k]);
                                    assert(now[now.len() - 1].1 == i as int);
                                }
                            }
                        }
                    }
                }
            },
            None => {},
        }
        i = i + 1;
    }
    acc
}

/// A status token closing the line, or else one opening it.
pub open spec fn spec_end_or_start_status(l: Seq<char>) -> Option<StatusWord> {
    match spec_status_at_end(l) {
        Some(w) => Some(w),
        None => spec_status_at_start(l),
    }
}

fn end_or_start_status(l: &[char]) -> (r: Option<StatusWord>)
    ensures
        r == spec_end_or_start_status(l@),
{
    match status_at_end(l) {
        Some(w) => Some(w),
        None => status_at_start(l),
    }
}

/// A found status token survives the diagnostic filters: it is no `error`
/// inside diagnostic phrasing, it does not sit amid a printed value, and a
/// failed-looking token on a logging line needs panic evidence for the very
/// test within the surrounding window.
pub open spec fn spec_filters_pass(
    lines: Seq<Seq<char>>,
    name: Seq<char>,
    start: int,
    j: int,
    w: StatusWord,
    l: Seq<char>,
) -> bool {
    &&& !spec_is_diagnostic_error(word_chars(w), l)
    &&& !spec_status_in_diagnostic_context(word_chars(w), l)
    &&& ((word_outcome(w) == Outcome::Failed && spec_has_logging_marker(l))
        ==> spec_panic_evidence(
        lines,
        name,
        if start >= 100 {
            start - 100
        } else {
            0
        },
        j + 1,
    ))
}

/// One lookahead window of the second pass: from line `j` up to `hi`, find
/// the first acceptable status for the pending test that started at `start`;
/// a later test-start line more than `grace` lines in ends the window.
pub open spec fn spec_scan(
    lines: Seq<Seq<char>>,
    name: Seq<char>,
    start: int,
    j: int,
    hi: int,
    grace: int,
) -> Option<StatusWord>
    decreases hi - j,
    when j <= hi && hi <= lines.len()
{
    if j >= hi {
        None
    } else {
        let l = lines[j];
        match spec_standalone_status(l) {
            Some(w) => Some(w),
            None => match spec_end_or_start_status(l) {
                Some(w) => if spec_filters_pass(lines, name, start, j, w, l) {
                    Some(w)
                } else {
                    spec_scan(lines, name, start, j + 1, hi, grace)
                },
                None => if spec_line_test(l) is Some && j > start + grace {
                    None
                } else {
                    spec_scan(lines, name, start, j + 1, hi, grace)
                },
            },
        }
    }
}

/// The second pass's verdict for one pending test: a narrow window first,
/// then a far wider one for extremely verbose logs.
pub open spec fn spec_lookahead(lines: Seq<Seq<char>>, name: Seq<char>, start: int) -> Option<
    StatusWord,
> {
    let len = lines.len() as int;
    if start < 0 || start >= len {
        None
    } else {
        let hi1 = if start + 200 <= len {
            start + 200
        } else {
            len
        };
        let hi2 = if start + 10000 <= len {
            start + 10000
        } else {
            len
        };
        match spec_scan(lines, name, start, start + 1, hi1, 5) {
            Some(w) => Some(w),
            None => spec_scan(lines, name, start, hi1, hi2, 50),
        }
    }
}

/// Scans one window, tying the result to `spec_scan`.
fn scan_window(
    lines: &Vec<Vec<char>>,
    name: &str,
    start: usize,
    j0: usize,
    hi: usize,
    grace: usize,
) -> (r: Option<StatusWord>)
    requires
        start <= j0 <= hi <= lines@.len(),
    ensures
        r == spec_scan(lines.deep_view(), name@, start as int, j0 as int, hi as int, grace as int),
{
    let ghost lv = lines.deep_view();
    let mut j: usize = j0;
    while j < hi
        invariant
            start <= j0 <= j <= hi <= lv.len(),
            lv == lines.deep_view(),
            lv.len() == lines@.len(),
            spec_scan(lv, name@, start as int, j0 as int, hi as int, grace as int) == spec_scan(
                lv,
                name@,
                start as int,
                j as int,
                hi as int,
                grace as int,
            ),
        decreases hi - j,
    {
        let l = &lines[j];
        proof {
            assert(l@ == lv[j as int]);
        }
        match standalone_status(l.as_slice()) {
            Some(w) => {
                return Some(w);
            },
            None => {},
        }
        match end_or_start_status(l.as_slice()) {
            Some(w) => {
                let mut pass = !diag_error_chars(w, l.as_slice()) && !diag_context_chars(
                    w,
                    l.as_slice(),
                );
                if pass && matches!(outcome_of_word(w), Outcome::Failed) && has_logging_marker(
                    l.as_slice(),
                ) {
                    let lo = if start >= 100 {
                        start - 100
                    } else {
                        0
                    };
                    if !has_panic_evidence(name, lines, lo, j + 1) {
                        pass = false;
                    }
                }
                if pass {
                    return Some(w);
                }
            },
            None => {
                if line_test(l.as_slice()).is_some() && j - start > grace {
                    return None;
                }
            },
        }
        j = j + 1;
    }
    None
}

/// The second pass's verdict for one pending test.
pub fn lookahead(lines: &Vec<Vec<char>>, name: &str, start: usize) -> (r: Option<StatusWord>)
    requires
        start < lines@.len(),
    ensures
        r == spec_lookahead(lines.deep_view(), name@, start as int),
{
    let len = lines.len();
    let hi1 = if len - start > 200 {
        start + 200
    } else {
        len
    };
    let hi2 = if len - start > 10000 {
        start + 10000
    } else {
        len
    };
    match scan_window(lines, name, start, start + 1, hi1, 5) {
        Some(w) => Some(w),
        None => scan_window(lines, name, start, hi1, hi2, 50),
    }
}

/// Second pass of the standard strategy: each pending test takes the verdict
/// its lookahead found, if any.
pub open spec fn spec_pass2(
    m: Map<Seq<char>, Outcome>,
    lines: Seq<Seq<char>>,
    pend: Seq<(Seq<char>, int)>,
    k: int,
) -> Map<Seq<char>, Outcome>
    decreases pend.len() - k,
    when 0 <= k <= pend.len()
{
    if k >= pend.len() {
        m
    } else {
        let m2 = match spec_lookahead(lines, pend[k].0, pend[k].1) {
            Some(w) => spec_record(m, pend[k].0, word_outcome(w)),
            None => m,
        };
        spec_pass2(m2, lines, pend, k + 1)
    }
}

/// Runs the second pass over the pending list.
pub fn run_pass2(cls: &mut Classification, lines: &Vec<Vec<char>>, pend: &Vec<(String, usize)>)
    requires
        old(cls).wf(),
        forall|k: int| 0 <= k < pend_view(pend@).len() ==> (#[trigger] pend_view(pend@)[k].1)
            < lines@.len(),
    ensures
        final(cls).wf(),
        final(cls).map_of() == spec_pass2(
            old(cls).map_of(),
            lines.deep_view(),
            pend_view(pend@),
            0,
        ),
{
    let ghost lv = lines.deep_view();
    let ghost pv = pend_view(pend@);
    let ghost m0 = cls.map_of();
    let mut k: usize = 0;
    while k < pend.len()
        invariant
            cls.wf(),
            k <= pv.len(),
            lv == lines.deep_view(),
            lv.len() == lines@.len(),
            pv == pend_view(pend@),
            pv.len() == pend@.len(),
            forall|j: int| 0 <= j < pv.len() ==> (#[trigger] pv[j].1) < lines@.len(),
            spec_pass2(m0, lv, pv, 0) == spec_pass2(cls.map_of(), lv, pv, k as int),
        decreases pv.len() - k,
    {
        let name = pend[k].0.clone();
        let start = pend[k].1;
        proof {
            assert(pv[k as int].0 == name@);
            assert(pv[k as int].1 == start as int);
        }
        match lookahead(lines, name.as_str(), start) {
            Some(w) => {
                cls.record(name.as_str(), outcome_of_word(w));
            },
            None => {},
        }
        k = k + 1;
    }
}

/// The name opening a test line, if the line is a test start at all.
pub open spec fn spec_start_name(l: Seq<char>) -> Option<Seq<char>> {
    match spec_line_test(l) {
        Some((ns, d, rest)) => Some(spec_test_name(l, ns, d)),
        None => None,
    }
}

/// Reads the name opening a test line.
pub fn start_name(l: &[char]) -> (r: Option<String>)
    ensures
        match r {
            Some(name) => spec_start_name(l@) == Some(name@),
            None => spec_start_name(l@) is None,
        },
{
    match line_test(l) {
        Some((ns, d, _rest)) => {
            let ne = test_name_end(l, ns, d);
            Some(string_from_range(l, ns, ne))
        },
        None => None,
    }
}

/// The nearest test-start line strictly before `i`, not before `lo`.
pub open spec fn spec_back_test_start(lines: Seq<Seq<char>>, i: int, lo: int) -> Option<int>
    decreases i - lo,
    when lo <= i <= lines.len()
{
    if i <= lo {
        None
    } else if spec_line_test(lines[i - 1]) is Some {
        Some(i - 1)
    } else {
        spec_back_test_start(lines, i - 1, lo)
    }
}

/// Third pass of the standard strategy, which repairs an `ok` token that line
/// wrapping split into a lone `o` and a lone `k`: the test-start line the
/// fragments belong to is marked passed, unless it is already classified.
pub open spec fn spec_step3(m: Map<Seq<char>, Outcome>, lines: Seq<Seq<char>>, i: int) -> Map<
    Seq<char>,
    Outcome,
>
    recommends
        0 <= i < lines.len(),
{
    let frag_follows = i + 1 < lines.len() && spec_trim(lines[i + 1]) == "k"@;
    let m1 = if spec_trim(lines[i]) == "o"@ && frag_follows {
        let lo = if i >= 10 {
            i - 10
        } else {
            0
        };
        match spec_back_test_start(lines, i, lo) {
            Some(j) => match spec_start_name(lines[j]) {
                Some(name) => crate::status::spec_record_soft(m, name, Outcome::Passed),
                None => m,
            },
            None => m,
        }
    } else {
        m
    };
    match spec_line_test(lines[i]) {
        Some((ns, d, rest)) => {
            let tail = lines[i].subrange(rest, lines[i].len() as int);
            if spec_lower(spec_trim(tail)) == "o"@ && frag_follows {
                crate::status::spec_record_soft(
                    m1,
                    spec_test_name(lines[i], ns, d),
                    Outcome::Passed,
                )
            } else {
                m1
            }
        },
        None => m1,
    }
}

pub open spec fn spec_pass3(m: Map<Seq<char>, Outcome>, lines: Seq<Seq<char>>, i: int) -> Map<
    Seq<char>,
    Outcome,
>
    decreases lines.len() - i,
    when 0 <= i <= lines.len()
{
    if i >= lines.len() {
        m
    } else {
        spec_pass3(spec_step3(m, lines, i), lines, i + 1)
    }
}

/// Finds the nearest test-start line in `[lo, i)`.
fn back_test_start(lines: &Vec<Vec<char>>, i: usize, lo: usize) -> (r: Option<usize>)
    requires
        lo <= i <= lines@.len(),
    ensures
        match r {
            Some(j) => spec_back_test_start(lines.deep_view(), i as int, lo as int) == Some(
                j as int,
            ) && lo <= j < i,
            None => spec_back_test_start(lines.deep_view(), i as int, lo as int) is None,
        },
{
    let ghost lv = lines.deep_view();
    let mut j: usize = i;
    while j > lo
        invariant
            lo <= j <= i <= lv.len(),
            lv == lines.deep_view(),
            lv.len() == lines@.len(),
            spec_back_test_start(lv, i as int, lo as int) == spec_back_test_start(
                lv,
                j as int,
                lo as int,
            ),
        decreases j,
    {
        let l = &lines[j - 1];
        proof {
            assert(l@ == lv[j - 1]);
        }
        if line_test(l.as_slice()).is_some() {
            return Some(j - 1);
        }
        j = j - 1;
    }
    None
}

/// Runs the third pass over all lines.
pub fn run_pass3(cls: &mut Classification, lines: &Vec<Vec<char>>)
    requires
        old(cls).wf(),
    ensures
        final(cls).wf(),
        final(cls).map_of() == spec_pass3(old(cls).map_of(), lines.deep_view(), 0),
{
    let ghost lv = lines.deep_view();
    let ghost m0 = cls.map_of();
    let o_pat = chars_of("o");
    let k_pat = chars_of("k");
    let mut i: usize = 0;
    while i < lines.len()
        invariant
            cls.wf(),
            i <= lv.len(),
            lv == lines.deep_view(),
            lv.len() == lines@.len(),
            o_pat@ == "o"@,
            k_pat@ == "k"@,
            spec_pass3(m0, lv, 0) == spec_pass3(cls.map_of(), lv, i as int),
        decreases lv.len() - i,
    {
        let ghost m_in = cls.map_of();
        let l = &lines[i];
        proof {
            assert(l@ == lv[i as int]);
        }
        let frag_follows = i + 1 < lines.len() && {
            let nx = &lines[i + 1];
            proof {
                assert(nx@ == lv[i + 1]);
            }
            trimmed_eq(nx.as_slice(), k_pat.as_slice())
        };
        if trimmed_eq(l.as_slice(), o_pat.as_slice()) && frag_follows {
            let lo = if i >= 10 {
                i - 10
            } else {
                0
            };
            match back_test_start(lines, i, lo) {
                Some(j) => {
                    let bl = &lines[j];
                    proof {
                        assert(bl@ == lv[j as int]);
                    }
                    match start_name(bl.as_slice()) {
                        Some(name) => {
                            cls.record_if_absent(name.as_str(), Outcome::Passed);
                        },
                        None => {},
                    }
                },
                None => {},
            }
        }
        match line_test(l.as_slice()) {
            Some((ns, d, rest)) => {
                let tail = vec_sub(l.as_slice(), rest, l.len());
                if trimmed_eq_ci(tail.as_slice(), o_pat.as_slice()) && frag_follows {
                    let ne = test_name_end(l.as_slice(), ns, d);
                    let name = string_from_range(l.as_slice(), ns, ne);
                    cls.record_if_absent(name.as_str(), Outcome::Passed);
                }
            },
            None => {},
        }
        proof {
            assert(cls.map_of() == spec_step3(m_in, lv, i as int));
        }
        i = i + 1;
    }
}

/// The standalone verdict the fifth pass accepts for a test whose line ends
/// in diagnostics: scanning stops at the next test-start line.
pub open spec fn spec_scan5(lines: Seq<Seq<char>>, j: int, hi: int) -> Option<StatusWord>
    decreases hi - j,
    when j <= hi && hi <= lines.len()
{
    if j >= hi {
        None
    } else if spec_line_test(lines[j]) is Some {
        None
    } else {
        match spec_standalone_status(lines[j]) {
            Some(w) => Some(w),
            None => spec_scan5(lines, j + 1, hi),
        }
    }
}

/// Fifth pass of the standard strategy: a test line whose remainder is empty
/// or opens with `error:` takes the next standalone status line as verdict.
pub open spec fn spec_step5(m: Map<Seq<char>, Outcome>, lines: Seq<Seq<char>>, i: int) -> Map<
    Seq<char>,
    Outcome,
>
    recommends
        0 <= i < lines.len(),
{
    match spec_line_test(lines[i]) {
        Some((ns, d, rest)) => {
            let name = spec_test_name(lines[i], ns, d);
            if m.contains_key(name) {
                m
            } else {
                let tt = spec_trim(lines[i].subrange(rest, lines[i].len() as int));
                if match_at(tt, "error:"@, 0) || tt.len() == 0 {
                    let hi = if i + 50 <= lines.len() {
                        i + 50
                    } else {
                        lines.len() as int
                    };
                    match spec_scan5(lines, i + 1, hi) {
                        Some(w) => spec_record(m, name, word_outcome(w)),
                        None => m,
                    }
                } else {
                    m
                }
            }
        },
        None => m,
    }
}

pub open spec fn spec_pass5(m: Map<Seq<char>, Outcome>, lines: Seq<Seq<char>>, i: int) -> Map<
    Seq<char>,
    Outcome,
>
    decreases lines.len() - i,
    when 0 <= i <= lines.len()
{
    if i >= lines.len() {
        m
    } else {
        spec_pass5(spec_step5(m, lines, i), lines, i + 1)
    }
}

fn scan5(lines: &Vec<Vec<char>>, j0: usize, hi: usize) -> (r: Option<StatusWord>)
    requires
        j0 <= hi <= lines@.len(),
    ensures
        r == spec_scan5(lines.deep_view(), j0 as int, hi as int),
{
    let ghost lv = lines.deep_view();
    let mut j: usize = j0;
    while j < hi
        invariant
            j0 <= j <= hi <= lv.len(),
            lv == lines.deep_view(),
            lv.len() == lines@.len(),
            spec_scan5(lv, j0 as int, hi as int) == spec_scan5(lv, j as int, hi as int),
        decreases hi - j,
    {
        let l = &lines[j];
        proof {
            assert(l@ == lv[j as int]);
        }
        if line_test(l.as_slice()).is_some() {
            return None;
        }
        match standalone_status(l.as_slice()) {
            Some(w) => {
                return Some(w);
            },
            None => {},
        }
        j = j + 1;
    }
    None
}

/// Runs the fifth pass over all lines.
pub fn run_pass5(cls: &mut Classification, lines: &Vec<Vec<char>>)
    requires
        old(cls).wf(),
    ensures
        final(cls).wf(),
        final(cls).map_of() == spec_pass5(old(cls).map_of(), lines.deep_view(), 0),
{
    let ghost lv = lines.deep_view();
    let ghost m0 = cls.map_of();
    let err_pat = chars_of("error:");
    let mut i: usize = 0;
    while i < lines.len()
        invariant
            cls.wf(),
            i <= lv.len(),
            lv == lines.deep_view(),
            lv.len() == lines@.len(),
            err_pat@ == "error:"@,
            spec_pass5(m0, lv, 0) == spec_pass5(cls.map_of(), lv, i as int),
        decreases lv.len() - i,
    {
        let ghost m_in = cls.map_of();
        let l = &lines[i];
        proof {
            assert(l@ == lv[i as int]);
        }
        match line_test(l.as_slice()) {
            Some((ns, d, rest)) => {
                let ne = test_name_end(l.as_slice(), ns, d);
                let name = string_from_range(l.as_slice(), ns, ne);
                if cls.get(name.as_str()).is_none() {
                    let tail = vec_sub(l.as_slice(), rest, l.len());
                    let (a, b) = crate::text::trim_bounds(tail.as_slice());
                    let is_err = trimmed_starts_with(tail.as_slice(), err_pat.as_slice());
                    if is_err || a == b {
                        let hi = if lines.len() - i > 50 {
                            i + 50
                        } else {
                            lines.len()
                        };
                        match scan5(lines, i + 1, hi) {
                            Some(w) => {
                                cls.record(name.as_str(), outcome_of_word(w));
                            },
                            None => {},
                        }
                    }
                }
            },
            None => {},
        }
        proof {
            assert(cls.map_of() == spec_step5(m_in, lv, i as int));
        }
        i = i + 1;
    }
}

/// Where the fourth pass's block for a test start at `i` ends: after the
/// first later test-start line past a five-line grace period, or after a
/// hundred lines, whichever comes first.
pub open spec fn spec_stop4(lines: Seq<Seq<char>>, i: int) -> int
    recommends
        0 <= i < lines.len(),
{
    let n = if i + 100 <= lines.len() {
        i + 100
    } else {
        lines.len() as int
    };
    if i + 6 > n {
        n
    } else {
        match spec_first(n, i + 6, |j: int| spec_line_test(lines[j]) is Some) {
            Some(j) => j + 1,
            None => n,
        }
    }
}

/// The fourth pass's search text: the block's lines, each closed by a
/// newline.
pub open spec fn spec_block(acc: Seq<char>, lines: Seq<Seq<char>>, j: int, stop: int) -> Seq<char>
    decreases stop - j,
    when j <= stop <= lines.len()
{
    if j >= stop {
        acc
    } else {
        spec_block(acc + lines[j] + seq!['\n'], lines, j + 1, stop)
    }
}

/// The surroundings of an `error` token inside a block read like diagnostic
/// phrasing.
pub open spec fn spec_error_context(b: Seq<char>, k: int) -> bool
    recommends
        0 <= k <= b.len(),
{
    let lo = if k >= 50 {
        k - 50
    } else {
        0
    };
    let hi = if k + 50 <= b.len() {
        k + 50
    } else {
        b.len() as int
    };
    let ctx = spec_lower(b.subrange(lo, hi));
    ||| seq_contains(ctx, "error:"@)
    ||| seq_contains(ctx, "panic"@)
    ||| seq_contains(ctx, "custom"@)
    ||| seq_contains(ctx, "called `result::unwrap()"@)
    ||| seq_contains(ctx, "thread"@)
    ||| seq_contains(ctx, "kind:"@)
}

/// The last status token of the block that an `error`-context filter lets
/// stand, scanning positions below `k`.
pub open spec fn spec_last_status4(b: Seq<char>, k: int) -> Option<StatusWord>
    decreases k,
    when 0 <= k <= b.len()
{
    if k <= 0 {
        None
    } else {
        match spec_status_word_at(b, k - 1) {
            Some(w) => if w is Error && spec_error_context(b, k - 1) {
                spec_last_status4(b, k - 1)
            } else {
                Some(w)
            },
            None => spec_last_status4(b, k - 1),
        }
    }
}

/// Fourth pass of the standard strategy: a still-unclassified test start
/// takes the last acceptable status token of its following block.
pub open spec fn spec_step4(m: Map<Seq<char>, Outcome>, lines: Seq<Seq<char>>, i: int) -> Map<
    Seq<char>,
    Outcome,
>
    recommends
        0 <= i < lines.len(),
{
    match spec_start_name(lines[i]) {
        None => m,
        Some(name) => if m.contains_key(name) {
            m
        } else {
            let b = spec_block(Seq::empty(), lines, i, spec_stop4(lines, i));
            match spec_last_status4(b, b.len() as int) {
                Some(w) => spec_record(m, name, word_outcome(w)),
                None => m,
            }
        },
    }
}

pub open spec fn spec_pass4(m: Map<Seq<char>, Outcome>, lines: Seq<Seq<char>>, i: int) -> Map<
    Seq<char>,
    Outcome,
>
    decreases lines.len() - i,
    when 0 <= i <= lines.len()
{
    if i >= lines.len() {
        m
    } else {
        spec_pass4(spec_step4(m, lines, i), lines, i + 1)
    }
}

fn stop4(lines: &Vec<Vec<char>>, i: usize) -> (r: usize)
    requires
        i < lines@.len(),
    ensures
        r == spec_stop4(lines.deep_view(), i as int),
        i <= r <= lines@.len(),
{
    let ghost lv = lines.deep_view();
    let n = if lines.len() - i > 100 {
        i + 100
    } else {
        lines.len()
    };
    if n - i < 6 {
        return n;
    }
    let ghost p = |j: int| spec_line_test(lv[j]) is Some;
    let mut j: usize = i + 6;
    loop
        invariant
            i + 6 <= j <= n <= lv.len(),
            lv == lines.deep_view(),
            lv.len() == lines@.len(),
            n == (if i + 100 <= lv.len() {
                i + 100
            } else {
                lv.len() as int
            }),
            p == (|j: int| spec_line_test(lv[j]) is Some),
            forall|k: int| i + 6 <= k < j ==> !#[trigger] p(k),
        ensures
            i + 6 <= j <= n,
            spec_first(n as int, i + 6, p) == (if j < n {
                Some(j as int)
            } else {
                None::<int>
            }),
        decreases n - j,
    {
        if j >= n {
            proof {
                lemma_spec_first_skip(n as int, i + 6, n as int, p);
            }
            break;
        }
        let l = &lines[j];
        proof {
            assert(l@ == lv[j as int]);
        }
        if line_test(l.as_slice()).is_some() {
            proof {
                assert(p(j as int));
                lemma_spec_first_skip(n as int, i + 6, j as int, p);
            }
            break;
        }
        proof {
            assert(p(j as int) == (spec_line_test(lv[j as int]) is Some));
        }
        j = j + 1;
    }
    if j < n {
        j + 1
    } else {
        n
    }
}

pub fn extend_chars_pub(dst: &mut Vec<char>, src: &[char])
    ensures
        final(dst)@ == old(dst)@ + src@,
{
    let mut i: usize = 0;
    while i < src.len()
        invariant
            i <= src@.len(),
            dst@ == old(dst)@ + src@.take(i as int),
        decreases src@.len() - i,
    {
        dst.push(src[i]);
        proof {
            assert(dst@ =~= old(dst)@ + src@.take(i + 1));
        }
        i = i + 1;
    }
    proof {
        assert(old(dst)@ + src@.take(src@.len() as int) =~= old(dst)@ + src@);
    }
}

fn build_block(lines: &Vec<Vec<char>>, i: usize, stop: usize) -> (b: Vec<char>)
    requires
        i <= stop <= lines@.len(),
    ensures
        b@ == spec_block(Seq::empty(), lines.deep_view(), i as int, stop as int),
{
    let ghost lv = lines.deep_view();
    let mut b: Vec<char> = Vec::new();
    proof {
        assert(b@ =~= Seq::<char>::empty());
    }
    let mut j: usize = i;
    while j < stop
        invariant
            i <= j <= stop <= lv.len(),
            lv == lines.deep_view(),
            lv.len() == lines@.len(),
            spec_block(Seq::empty(), lv, i as int, stop as int) == spec_block(
                b@,
                lv,
                j as int,
                stop as int,
            ),
        decreases stop - j,
    {
        let l = &lines[j];
        proof {
            assert(l@ == lv[j as int]);
        }
        let ghost b0 = b@;
        extend_chars_pub(&mut b, l.as_slice());
        b.push('\n');
        proof {
            assert(b@ =~= b0 + lv[j as int] + seq!['\n']);
        }
        j = j + 1;
    }
    b
}

fn error_context(b: &[char], k: usize) -> (r: bool)
    requires
        k <= b@.len(),
    ensures
        r == spec_error_context(b@, k as int),
{
    let lo = if k >= 50 {
        k - 50
    } else {
        0
    };
    let hi = if b.len() - k > 50 {
        k + 50
    } else {
        b.len()
    };
    let ctx = vec_sub(b, lo, hi);
    contains_ci(ctx.as_slice(), chars_of("error:").as_slice()) || contains_ci(
        ctx.as_slice(),
        chars_of("panic").as_slice(),
    ) || contains_ci(ctx.as_slice(), chars_of("custom").as_slice()) || contains_ci(
        ctx.as_slice(),
        chars_of("called `result::unwrap()").as_slice(),
    ) || contains_ci(ctx.as_slice(), chars_of("thread").as_slice()) || contains_ci(
        ctx.as_slice(),
        chars_of("kind:").as_slice(),
    )
}

pub fn last_status4_pub(b: &[char]) -> (r: Option<StatusWord>)
    ensures
        r == spec_last_status4(b@, b@.len() as int),
{
    let mut k: usize = b.len();
    while k > 0
        invariant
            k <= b@.len(),
            spec_last_status4(b@, b@.len() as int) == spec_last_status4(b@, k as int),
        decreases k,
    {
        match status_word_at(b, k - 1) {
            Some(w) => {
                if matches!(w, StatusWord::Error) && error_context(b, k - 1) {
                } else {
                    return Some(w);
                }
            },
            None => {},
        }
        k = k - 1;
    }
    None
}

/// Runs the fourth pass over all lines.
pub fn run_pass4(cls: &mut Classification, lines: &Vec<Vec<char>>)
    requires
        old(cls).wf(),
    ensures
        final(cls).wf(),
        final(cls).map_of() == spec_pass4(old(cls).map_of(), lines.deep_view(), 0),
{
    let ghost lv = lines.deep_view();
    let ghost m0 = cls.map_of();
    let mut i: usize = 0;
    while i < lines.len()
        invariant
            cls.wf(),
            i <= lv.len(),
            lv == lines.deep_view(),
            lv.len() == lines@.len(),
            spec_pass4(m0, lv, 0) == spec_pass4(cls.map_of(), lv, i as int),
        decreases lv.len() - i,
    {
        let ghost m_in = cls.map_of();
        let l = &lines[i];
        proof {
            assert(l@ == lv[i as int]);
        }
        match start_name(l.as_slice()) {
            Some(name) => {
                if cls.get(name.as_str()).is_none() {
                    let stop = stop4(lines, i);
                    let b = build_block(lines, i, stop);
                    match last_status4_pub(b.as_slice()) {
                        Some(w) => {
                            cls.record(name.as_str(), outcome_of_word(w));
                        },
                        None => {},
                    }
                }
            },
            None => {},
        }
        proof {
            assert(cls.map_of() == spec_step4(m_in, lv, i as int));
        }
        i = i + 1;
    }
}

/// A line of the failures block: exactly four leading spaces, then the
/// failed test's name.
pub open spec fn spec_failure_line_name(l: Seq<char>) -> Option<Seq<char>> {
    if l.len() > 4 && l[0] == ' ' && l[1] == ' ' && l[2] == ' ' && l[3] == ' ' && l[4] != ' '
        && spec_trim(l).len() > 0 {
        Some(spec_trim(l))
    } else {
        None
    }
}

/// The `failures:` block scan: after a `failures:` banner, each four-space
/// indented line names a failed test, until a blank line, a `----` separator,
/// an `error:` line or a `test result:` line ends the block.
pub open spec fn spec_failures(
    m: Map<Seq<char>, Outcome>,
    lines: Seq<Seq<char>>,
    i: int,
    collecting: bool,
) -> Map<Seq<char>, Outcome>
    decreases lines.len() - i,
    when 0 <= i <= lines.len()
{
    if i >= lines.len() {
        m
    } else {
        let tr = spec_trim(lines[i]);
        if !collecting {
            spec_failures(m, lines, i + 1, tr == "failures:"@)
        } else if tr.len() == 0 || match_at(tr, "----"@, 0) || match_at(tr, "error:"@, 0)
            || match_at(tr, "test result:"@, 0) {
            spec_failures(m, lines, i + 1, false)
        } else {
            match spec_failure_line_name(lines[i]) {
                Some(name) => spec_failures(
                    spec_record(m, name, Outcome::Failed),
                    lines,
                    i + 1,
                    true,
                ),
                None => spec_failures(m, lines, i + 1, false),
            }
        }
    }
}

/// Runs the failures-block scan over all lines.
pub fn run_failures(cls: &mut Classification, lines: &Vec<Vec<char>>)
    requires
        old(cls).wf(),
    ensures
        final(cls).wf(),
        final(cls).map_of() == spec_failures(old(cls).map_of(), lines.deep_view(), 0, false),
{
    let ghost lv = lines.deep_view();
    let ghost m0 = cls.map_of();
    let banner = chars_of("failures:");
    let dashes = chars_of("----");
    let err_pat = chars_of("error:");
    let result_pat = chars_of("test result:");
    let mut collecting = false;
    let mut i: usize = 0;
    while i < lines.len()
        invariant
            cls.wf(),
            i <= lv.len(),
            lv == lines.deep_view(),
            lv.len() == lines@.len(),
            banner@ == "failures:"@,
            dashes@ == "----"@,
            err_pat@ == "error:"@,
            result_pat@ == "test result:"@,
            spec_failures(m0, lv, 0, false) == spec_failures(
                cls.map_of(),
                lv,
                i as int,
                collecting,
            ),
        decreases lv.len() - i,
    {
        let l = &lines[i];
        proof {
            assert(l@ == lv[i as int]);
        }
        let (a, b) = crate::text::trim_bounds(l.as_slice());
        if !collecting {
            collecting = trimmed_eq(l.as_slice(), banner.as_slice());
        } else if a == b || trimmed_starts_with(l.as_slice(), dashes.as_slice())
            || trimmed_starts_with(l.as_slice(), err_pat.as_slice()) || trimmed_starts_with(
            l.as_slice(),
            result_pat.as_slice(),
        ) {
            collecting = false;
        } else {
            if l.len() > 4 && l[0] == ' ' && l[1] == ' ' && l[2] == ' ' && l[3] == ' ' && l[4]
                != ' ' && b > a {
                let name = string_from_range(l.as_slice(), a, b);
                cls.record(name.as_str(), Outcome::Failed);
            } else {
                collecting = false;
            }
        }
        i = i + 1;
    }
}

/// Runs the first pass over all lines.
pub fn run_pass1(cls: &mut Classification, lines: &Vec<Vec<char>>)
    requires
        old(cls).wf(),
    ensures
        final(cls).wf(),
        final(cls).map_of() == spec_pass1(old(cls).map_of(), lines.deep_view(), 0),
{
    let ghost lv = lines.deep_view();
    let ghost m0 = cls.map_of();
    let mut i: usize = 0;
    while i < lines.len()
        invariant
            cls.wf(),
            i <= lv.len(),
            lv == lines.deep_view(),
            lv.len() == lines@.len(),
            spec_pass1(m0, lv, 0) == spec_pass1(cls.map_of(), lv, i as int),
        decreases lv.len() - i,
    {
        let l = &lines[i];
        proof {
            assert(l@ == lv[i as int]);
        }
        match line_direct(l.as_slice()) {
            Some((name, w)) => {
                cls.record(name.as_str(), outcome_of_word(w));
            },
            None => {},
        }
        i = i + 1;
    }
}


/// The complete classification the standard strategy extracts from the lines
/// of a log: five ordered passes, later ones only filling gaps left by
/// earlier ones, and the `failures:` summary block read last.
pub open spec fn spec_parse_standard(lines: Seq<Seq<char>>) -> Map<Seq<char>, Outcome> {
    let m1 = spec_pass1(Map::empty(), lines, 0);
    let pend = spec_pending(m1, lines, 0, Seq::empty());
    let m2 = spec_pass2(m1, lines, pend, 0);
    let m3 = spec_pass3(m2, lines, 0);
    let m4 = spec_pass4(m3, lines, 0);
    let m5 = spec_pass5(m4, lines, 0);
    spec_failures(m5, lines, 0, false)
}

/// Parses a log in the standard multi-line dialect: each test of the log
/// lands in exactly the set that the staged extraction assigns it.
pub fn parse_rust_log_standard(text: &str) -> (r: ParsedLog)
    ensures
        r.wf(),
        r.passed_set() == outcome_names(
            spec_parse_standard(spec_lines(text@)),
            Outcome::Passed,
        ),
        r.failed_set() == outcome_names(
            spec_parse_standard(spec_lines(text@)),
            Outcome::Failed,
        ),
        r.ignored_set() == outcome_names(
            spec_parse_standard(spec_lines(text@)),
            Outcome::Ignored,
        ),
{
    let cs = chars_of(text);
    let lines = lines_of(cs.as_slice());
    let mut cls = Classification::new();
    run_pass1(&mut cls, &lines);
    let pend = collect_pending(&cls, &lines);
    run_pass2(&mut cls, &lines, &pend);
    run_pass3(&mut cls, &lines);
    run_pass4(&mut cls, &lines);
    run_pass5(&mut cls, &lines);
    run_failures(&mut cls, &lines);
    into_parsed_log(&cls)
}


/// The status token a clean reconstruction writes for an outcome.
pub open spec fn spec_outcome_token(oc: Outcome) -> Seq<char> {
    match oc {
        Outcome::Passed => "ok"@,
        Outcome::Failed => "FAILED"@,
        Outcome::Ignored => "ignored"@,
    }
}

/// One line of a clean reconstruction: `test NAME ... TOKEN`.
pub open spec fn spec_render_line(name: Seq<char>, oc: Outcome) -> Seq<char> {
    "test "@ + name + " ... "@ + spec_outcome_token(oc)
}

/// A name a clean reconstruction can carry: non-empty and free of
/// whitespace.
pub open spec fn spec_clean_name(name: Seq<char>) -> bool {
    name.len() > 0 && forall|i: int| 0 <= i < name.len() ==> !spec_is_ws(#[trigger] name[i])
}

/// Re-running the standard extractor on one line of its own clean
/// reconstruction reads back exactly the name and the classification the
/// line was written from: the direct pass is the identity on clean lines.
pub proof fn lemma_clean_line_reparses(name: Seq<char>, oc: Outcome)
    requires
        spec_clean_name(name),
    ensures
        spec_line_direct(spec_render_line(name, oc)) matches Some((n2, w)) && n2 == name
            && word_outcome(w) == oc,
        spec_line_test(spec_render_line(name, oc)) == Some(
            (5int, name.len() as int + 6, name.len() as int + 9),
        ),
{
    reveal_strlit("test ");
    reveal_strlit("test");
    reveal_strlit(" ... ");
    reveal_strlit("...");
    reveal_strlit("ok");
    reveal_strlit("FAILED");
    reveal_strlit("ignored");
    reveal_strlit("error");
    reveal_strlit("failed");
    let l = spec_render_line(name, oc);
    let nl = name.len() as int;
    let tok = spec_outcome_token(oc);
    let wl = tok.len() as int;
    assert(tok.len() > 0) by {
        match oc {
            Outcome::Passed => assert(tok.len() == 2),
            Outcome::Failed => assert(tok.len() == 6),
            Outcome::Ignored => assert(tok.len() == 7),
        }
    }
    assert(l.len() == 10 + nl + wl);
    assert forall|x: int| 0 <= x < 5 implies l[x] == " ... "@[x - 5 - nl + 5] || true by {}
    assert(l[0] == 't' && l[1] == 'e' && l[2] == 's' && l[3] == 't' && l[4] == ' ');
    assert(forall|x: int| 5 <= x < 5 + nl ==> l[x] == name[x - 5]);
    assert(forall|x: int| 5 + nl <= x < 10 + nl ==> l[x] == " ... "@[x - 5 - nl]);
    assert(l[5 + nl] == ' ' && l[6 + nl] == '.' && l[7 + nl] == '.' && l[8 + nl] == '.' && l[9
        + nl] == ' ');
    assert(forall|x: int| 10 + nl <= x < l.len() ==> l[x] == tok[x - 10 - nl]);
    let ll = spec_lower(l);
    assert(ll.len() == l.len());
    // the keyword opens the line
    assert(good_test_kw(l, 0)) by {
        assert(ll.subrange(0, 4) =~= "test"@) by {
            assert(spec_lower_char('t') == 't' && spec_lower_char('e') == 'e'
                && spec_lower_char('s') == 's');
        }
        assert(spec_is_ws(l[4]));
    }
    assert(spec_test_kw(l) == Some(0int));
    // the name opens right after the keyword's blank
    assert(!spec_is_ws(l[5])) by {
        assert(l[5] == name[0]);
    }
    assert(spec_first(l.len() as int, 5int, |k: int| !spec_is_ws(l[k])) == Some(5int)) by {
        let p = |k: int| !spec_is_ws(l[k]);
        assert(p(5));
    }
    // the separator is the first dot run preceded by a blank
    let d = 6 + nl;
    let pd = |x: int| crate::text::match_at(l, "..."@, x) && spec_is_ws(l[x - 1]);
    assert forall|j: int| 6 <= j < d implies !#[trigger] pd(j) by {
        assert(!spec_is_ws(l[j - 1])) by {
            assert(l[j - 1] == name[j - 6]);
        }
    }
    assert(pd(d)) by {
        assert(l.subrange(d, d + 3) =~= "..."@);
        assert(spec_is_ws(l[d - 1]));
    }
    assert(spec_first(l.len() as int, 6int, pd) == Some(d)) by {
        lemma_spec_first_skip(l.len() as int, 6int, d, pd);
    }
    assert(spec_line_test(l) == Some((5int, d, d + 3)));
    // the name is read back exactly
    assert(spec_test_name(l, 5int, d) == name) by {
        let sub = l.subrange(5int, d);
        assert(sub =~= name + seq![' ']);
        assert(spec_is_ws(sub.last()));
        assert(sub.drop_last() =~= name);
        assert(!spec_is_ws(name.last())) by {
            assert(!spec_is_ws(name[nl - 1]));
        }
        assert(crate::text::spec_trim_end(sub) == crate::text::spec_trim_end(name));
        assert(crate::text::spec_trim_end(name) == name);
    }
    // the status token follows the separator's blank
    let rest = d + 3;
    assert(rest < l.len() && spec_is_ws(l[rest]));
    let k = rest + 1;
    let pk = |x: int| !spec_is_ws(l[x]);
    assert(!pk(rest));
    assert(pk(k)) by {
        assert(l[k] == tok[0]);
        match oc {
            Outcome::Passed => assert(tok[0] == 'o'),
            Outcome::Failed => assert(tok[0] == 'F'),
            Outcome::Ignored => assert(tok[0] == 'i'),
        }
    }
    assert(spec_first(l.len() as int, rest, pk) == Some(k)) by {
        lemma_spec_first_skip(l.len() as int, rest, k, pk);
    }
    assert(k + wl == l.len());
    // the token is the one the line was written from
    match oc {
        Outcome::Passed => {
            assert(crate::grammar::word_at(l, k, crate::grammar::StatusWord::Okay)) by {
                assert(ll.subrange(k, k + 2) =~= "ok"@) by {
                    assert(l[k] == 'o' && l[k + 1] == 'k');
                    assert(spec_lower_char('o') == 'o' && spec_lower_char('k') == 'k');
                }
            }
            assert(crate::grammar::head_word_at(l, k) == Some(crate::grammar::StatusWord::Okay))
                by {
                crate::grammar::lemma_word_chars_len();
                assert(crate::grammar::ws_or_end(l, k + 2));
            }
        },
        Outcome::Failed => {
            crate::grammar::lemma_word_chars_len();
            assert(!crate::grammar::word_at(l, k, crate::grammar::StatusWord::Okay)) by {
                assert(ll[k] == spec_lower_char(l[k]));
                assert(l[k] == 'F');
                assert(spec_lower_char('F') == 'f');
                if crate::grammar::word_at(l, k, crate::grammar::StatusWord::Okay) {
                    assert(ll.subrange(k, k + 2)[0] == "ok"@[0]);
                }
            }
            assert(crate::grammar::word_at(l, k, crate::grammar::StatusWord::Failed)) by {
                assert(ll.subrange(k, k + 6) =~= "failed"@) by {
                    assert(l[k] == 'F' && l[k + 1] == 'A' && l[k + 2] == 'I' && l[k + 3] == 'L'
                        && l[k + 4] == 'E' && l[k + 5] == 'D');
                    assert(spec_lower_char('F') == 'f' && spec_lower_char('A') == 'a'
                        && spec_lower_char('I') == 'i' && spec_lower_char('L') == 'l'
                        && spec_lower_char('E') == 'e' && spec_lower_char('D') == 'd');
                }
            }
            assert(crate::grammar::head_word_at(l, k) == Some(
                crate::grammar::StatusWord::Failed,
            )) by {
                assert(crate::grammar::ws_or_end(l, k + 6));
            }
        },
        Outcome::Ignored => {
            crate::grammar::lemma_word_chars_len();
            assert(ll[k] == spec_lower_char(l[k]));
            assert(l[k] == 'i');
            assert(!crate::grammar::word_at(l, k, crate::grammar::StatusWord::Okay)) by {
                if crate::grammar::word_at(l, k, crate::grammar::StatusWord::Okay) {
                    assert(ll.subrange(k, k + 2)[0] == "ok"@[0]);
                }
            }
            assert(!crate::grammar::word_at(l, k, crate::grammar::StatusWord::Failed)) by {
                if crate::grammar::word_at(l, k, crate::grammar::StatusWord::Failed) {
                    assert(ll.subrange(k, k + 6)[0] == "failed"@[0]);
                }
            }
            assert(crate::grammar::word_at(l, k, crate::grammar::StatusWord::Ignored)) by {
                assert(ll.subrange(k, k + 7) =~= "ignored"@) by {
                    assert(l[k] == 'i' && l[k + 1] == 'g' && l[k + 2] == 'n' && l[k + 3] == 'o'
                        && l[k + 4] == 'r' && l[k + 5] == 'e' && l[k + 6] == 'd');
                    assert(spec_lower_char('i') == 'i' && spec_lower_char('g') == 'g'
                        && spec_lower_char('n') == 'n' && spec_lower_char('o') == 'o'
                        && spec_lower_char('r') == 'r' && spec_lower_char('e') == 'e'
                        && spec_lower_char('d') == 'd');
                }
            }
            assert(crate::grammar::head_word_at(l, k) == Some(
                crate::grammar::StatusWord::Ignored,
            )) by {
                assert(crate::grammar::ws_or_end(l, k + 7));
            }
        },
    }
    assert(spec_rest_status(l, rest) is Some);
    assert(word_outcome(spec_rest_status(l, rest)->Some_0) == oc);
}


/// The clean reconstruction of a classification: one direct line per test.
pub open spec fn spec_render(entries: Seq<(Seq<char>, Outcome)>) -> Seq<char>
    decreases entries.len(),
{
    if entries.len() == 0 {
        Seq::empty()
    } else {
        spec_render_line(entries[0].0, entries[0].1) + seq!['\n'] + spec_render(
            entries.drop_first(),
        )
    }
}

/// A classification a clean reconstruction can be written from: each name
/// clean, no name repeated.
pub open spec fn spec_clean_entries(entries: Seq<(Seq<char>, Outcome)>) -> bool {
    &&& forall|k: int| 0 <= k < entries.len() ==> spec_clean_name((#[trigger] entries[k]).0)
    &&& forall|a: int, b: int| 0 <= a < b < entries.len() ==> entries[a].0 != entries[b].0
}

proof fn lemma_render_line_chars(name: Seq<char>, oc: Outcome)
    requires
        spec_clean_name(name),
    ensures
        spec_render_line(name, oc).len() > 0,
        forall|x: int|
            0 <= x < spec_render_line(name, oc).len() ==> #[trigger] spec_render_line(name, oc)[x]
                != '\n',
        spec_render_line(name, oc).last() != '\r',
{
    reveal_strlit("test ");
    reveal_strlit(" ... ");
    reveal_strlit("ok");
    reveal_strlit("FAILED");
    reveal_strlit("ignored");
    let l = spec_render_line(name, oc);
    let nl = name.len() as int;
    let tok = spec_outcome_token(oc);
    assert(tok.len() > 0 && tok.last() != '\r' && (forall|x: int|
        0 <= x < tok.len() ==> #[trigger] tok[x] != '\n')) by {
        match oc {
            Outcome::Passed => {
                assert(tok[0] == 'o' && tok[1] == 'k');
            },
            Outcome::Failed => {
                assert(tok[0] == 'F' && tok[1] == 'A' && tok[2] == 'I' && tok[3] == 'L' && tok[4]
                    == 'E' && tok[5] == 'D');
            },
            Outcome::Ignored => {
                assert(tok[0] == 'i' && tok[1] == 'g' && tok[2] == 'n' && tok[3] == 'o' && tok[4]
                    == 'r' && tok[5] == 'e' && tok[6] == 'd');
            },
        }
    }
    assert forall|x: int| 0 <= x < l.len() implies #[trigger] l[x] != '\n' by {
        if x < 5 {
            assert(l[x] == "test "@[x]);
        } else if x < 5 + nl {
            assert(l[x] == name[x - 5]);
            assert(!spec_is_ws(name[x - 5]));
        } else if x < 10 + nl {
            assert(l[x] == " ... "@[x - 5 - nl]);
        } else {
            assert(l[x] == tok[x - 10 - nl]);
        }
    }
    assert(l.last() == tok.last());
}

proof fn lemma_split_render(entries: Seq<(Seq<char>, Outcome)>)
    requires
        spec_clean_entries(entries),
    ensures
        crate::text::spec_split(spec_render(entries)) == entries.map_values(
            |e: (Seq<char>, Outcome)| spec_render_line(e.0, e.1),
        ) + seq![Seq::<char>::empty()],
    decreases entries.len(),
{
    if entries.len() == 0 {
        assert(crate::text::spec_split(Seq::<char>::empty()) =~~= Seq::<Seq<char>>::empty()
            + seq![Seq::<char>::empty()]);
        assert(entries.map_values(|e: (Seq<char>, Outcome)| spec_render_line(e.0, e.1)) =~~= Seq::<
            Seq<char>,
        >::empty());
    } else {
        let line0 = spec_render_line(entries[0].0, entries[0].1);
        lemma_render_line_chars(entries[0].0, entries[0].1);
        let rest = entries.drop_first();
        assert(spec_clean_entries(rest)) by {
            assert(forall|k: int| 0 <= k < rest.len() ==> rest[k] == entries[k + 1]);
        }
        lemma_split_render(rest);
        crate::text::lemma_split_line(line0, spec_render(rest));
        assert(crate::text::spec_split(spec_render(entries)) == seq![line0]
            + crate::text::spec_split(spec_render(rest)));
        assert(crate::text::spec_split(spec_render(entries)) =~~= entries.map_values(
            |e: (Seq<char>, Outcome)| spec_render_line(e.0, e.1),
        ) + seq![Seq::<char>::empty()]);
    }
}

proof fn lemma_lines_render(entries: Seq<(Seq<char>, Outcome)>)
    requires
        spec_clean_entries(entries),
    ensures
        spec_lines(spec_render(entries)) == entries.map_values(
            |e: (Seq<char>, Outcome)| spec_render_line(e.0, e.1),
        ),
{
    lemma_split_render(entries);
    let mapped = entries.map_values(|e: (Seq<char>, Outcome)| spec_render_line(e.0, e.1));
    let raw = crate::text::spec_split(spec_render(entries));
    assert(raw.last() == Seq::<char>::empty());
    assert(raw.drop_last() =~~= mapped);
    assert forall|k: int| 0 <= k < mapped.len() implies crate::text::spec_strip_cr(
        #[trigger] mapped[k],
    ) == mapped[k] by {
        lemma_render_line_chars(entries[k].0, entries[k].1);
    }
    assert(spec_lines(spec_render(entries)) =~~= mapped);
}

/// The classification the clean reconstruction encodes.
pub open spec fn spec_entries_fold(
    m: Map<Seq<char>, Outcome>,
    entries: Seq<(Seq<char>, Outcome)>,
    i: int,
) -> Map<Seq<char>, Outcome>
    decreases entries.len() - i,
    when 0 <= i <= entries.len()
{
    if i >= entries.len() {
        m
    } else {
        spec_entries_fold(spec_record(m, entries[i].0, entries[i].1), entries, i + 1)
    }
}

proof fn lemma_pass1_is_fold(
    m: Map<Seq<char>, Outcome>,
    entries: Seq<(Seq<char>, Outcome)>,
    lines: Seq<Seq<char>>,
    i: int,
)
    requires
        spec_clean_entries(entries),
        lines == entries.map_values(|e: (Seq<char>, Outcome)| spec_render_line(e.0, e.1)),
        0 <= i <= entries.len(),
    ensures
        spec_pass1(m, lines, i) == spec_entries_fold(m, entries, i),
    decreases entries.len() - i,
{
    if i < entries.len() {
        lemma_clean_line_reparses(entries[i].0, entries[i].1);
        assert(lines[i] == spec_render_line(entries[i].0, entries[i].1));
        let m2 = spec_record(m, entries[i].0, entries[i].1);
        assert(spec_line_direct(lines[i]) matches Some((n2, w)) && n2 == entries[i].0
            && word_outcome(w) == entries[i].1);
        lemma_pass1_is_fold(m2, entries, lines, i + 1);
    }
}

proof fn lemma_fold_points(
    m: Map<Seq<char>, Outcome>,
    entries: Seq<(Seq<char>, Outcome)>,
    i: int,
)
    requires
        spec_clean_entries(entries),
        0 <= i <= entries.len(),
        forall|k: int| i <= k < entries.len() ==> !m.contains_key((#[trigger] entries[k]).0),
    ensures
        forall|k: int|
            i <= k < entries.len() ==> spec_entries_fold(m, entries, i).contains_key(
                (#[trigger] entries[k]).0,
            ) && spec_entries_fold(m, entries, i)[entries[k].0] == entries[k].1,
        forall|n: Seq<char>|
            #![trigger spec_entries_fold(m, entries, i).contains_key(n)]
            !(exists|k: int| i <= k < entries.len() && (#[trigger] entries[k]).0 == n) ==> (
            spec_entries_fold(m, entries, i).contains_key(n) == m.contains_key(n) && (
            m.contains_key(n) ==> spec_entries_fold(m, entries, i)[n] == m[n])),
    decreases entries.len() - i,
{
    if i < entries.len() {
        let e0 = entries[i].0;
        let m2 = spec_record(m, entries[i].0, entries[i].1);
        assert(m2 == m.insert(entries[i].0, entries[i].1));
        assert(forall|k: int|
            i + 1 <= k < entries.len() ==> !m2.contains_key((#[trigger] entries[k]).0));
        lemma_fold_points(m2, entries, i + 1);
        let f = spec_entries_fold(m, entries, i);
        assert(f == spec_entries_fold(m2, entries, i + 1));
        assert(!(exists|k2: int|
            i + 1 <= k2 < entries.len() && (#[trigger] entries[k2]).0 == e0));
        assert forall|k: int|
            i <= k < entries.len() implies f.contains_key((#[trigger] entries[k]).0)
            && f[entries[k].0] == entries[k].1 by {
            if k == i {
                assert(spec_entries_fold(m2, entries, i + 1).contains_key(e0)
                    == m2.contains_key(e0));
                assert(m2.contains_key(e0) ==> spec_entries_fold(m2, entries, i + 1)[e0]
                    == m2[e0]);
            }
        }
        assert forall|n: Seq<char>|
            !(exists|k: int|
                i <= k < entries.len() && (#[trigger] entries[k]).0 == n) implies (f.contains_key(
            n,
        ) == m.contains_key(n) && (m.contains_key(n) ==> f[n] == m[n])) by {
            assert(e0 != n) by {
                if e0 == n {
                    assert(i <= i < entries.len() && entries[i].0 == n);
                }
            }
            assert(!(exists|k: int|
                i + 1 <= k < entries.len() && (#[trigger] entries[k]).0 == n)) by {
                if exists|k: int| i + 1 <= k < entries.len() && (#[trigger] entries[k]).0 == n {
                    let k = choose|k: int|
                        i + 1 <= k < entries.len() && (#[trigger] entries[k]).0 == n;
                    assert(i <= k < entries.len() && entries[k].0 == n);
                }
            }
            assert(spec_entries_fold(m2, entries, i + 1).contains_key(n) == m2.contains_key(
                n,
            ));
            assert(m2.contains_key(n) ==> spec_entries_fold(m2, entries, i + 1)[n] == m2[n]);
            assert(m2.contains_key(n) == m.contains_key(n));
        }
    }
}

proof fn lemma_clean_line_shape(name: Seq<char>, oc: Outcome)
    requires
        spec_clean_name(name),
    ensures
        spec_trim(spec_render_line(name, oc)) != "o"@,
        spec_trim(spec_render_line(name, oc)) != "k"@,
        spec_trim(spec_render_line(name, oc)) != "failures:"@,
        spec_line_test(spec_render_line(name, oc)) is Some,
        spec_test_name(
            spec_render_line(name, oc),
            spec_line_test(spec_render_line(name, oc))->Some_0.0,
            spec_line_test(spec_render_line(name, oc))->Some_0.1,
        ) == name,
        ({
            let l = spec_render_line(name, oc);
            let rest = spec_line_test(l)->Some_0.2;
            spec_lower(spec_trim(l.subrange(rest, l.len() as int))) != "o"@
        }),
{
    reveal_strlit("test ");
    reveal_strlit(" ... ");
    reveal_strlit("o");
    reveal_strlit("k");
    reveal_strlit("failures:");
    reveal_strlit("ok");
    reveal_strlit("FAILED");
    reveal_strlit("ignored");
    lemma_clean_line_reparses(name, oc);
    let l = spec_render_line(name, oc);
    let nl = name.len() as int;
    let tok = spec_outcome_token(oc);
    assert(l.len() == 10 + nl + tok.len());
    assert(forall|x: int| 5 + nl <= x < 10 + nl ==> l[x] == " ... "@[x - 5 - nl]);
    assert(forall|x: int| 10 + nl <= x < l.len() ==> l[x] == tok[x - 10 - nl]);
    assert(l[0] == 't') by {
        assert(l[0] == "test "@[0]);
    }
    assert(crate::text::spec_trim_start(l) == l);
    crate::text::lemma_trim_end_first(l);
    assert(spec_trim(l)[0] == 't');
    assert(spec_trim(l).len() >= 1);
    let rest = spec_line_test(l)->Some_0.2;
    assert(rest == 9 + nl);
    let tail = l.subrange(rest, l.len() as int);
    assert(l[9 + nl] == ' ') by {
        assert(l[9 + nl] == " ... "@[4]);
    }
    assert(tail =~= seq![' '] + tok);
    assert(tail.drop_first() =~= tok);
    assert(spec_is_ws(tail[0]));
    assert(crate::text::spec_trim_start(tail) == crate::text::spec_trim_start(tok));
    assert(tok.len() > 0 && !spec_is_ws(tok[0]) && !spec_is_ws(tok.last())) by {
        match oc {
            Outcome::Passed => {
                assert(tok[0] == 'o' && tok.last() == 'k');
            },
            Outcome::Failed => {
                assert(tok[0] == 'F' && tok.last() == 'D');
            },
            Outcome::Ignored => {
                assert(tok[0] == 'i' && tok.last() == 'd');
            },
        }
    }
    assert(crate::text::spec_trim_start(tok) == tok);
    assert(crate::text::spec_trim_end(tok) == tok);
    assert(spec_trim(tail) == tok);
    assert(spec_lower(tok).len() == tok.len());
    assert(spec_lower(tok) != "o"@) by {
        match oc {
            Outcome::Passed => assert(tok.len() == 2),
            Outcome::Failed => assert(tok.len() == 6),
            Outcome::Ignored => assert(tok.len() == 7),
        }
    }
}

proof fn lemma_pending_empty(
    m1: Map<Seq<char>, Outcome>,
    entries: Seq<(Seq<char>, Outcome)>,
    lines: Seq<Seq<char>>,
    i: int,
    acc: Seq<(Seq<char>, int)>,
)
    requires
        spec_clean_entries(entries),
        lines == entries.map_values(|e: (Seq<char>, Outcome)| spec_render_line(e.0, e.1)),
        0 <= i <= lines.len(),
        forall|k: int| 0 <= k < entries.len() ==> m1.contains_key((#[trigger] entries[k]).0),
    ensures
        spec_pending(m1, lines, i, acc) == acc,
    decreases lines.len() - i,
{
    if i < lines.len() {
        lemma_clean_line_shape(entries[i].0, entries[i].1);
        lemma_pending_empty(m1, entries, lines, i + 1, acc);
    }
}

proof fn lemma_pass3_noop(
    m: Map<Seq<char>, Outcome>,
    entries: Seq<(Seq<char>, Outcome)>,
    lines: Seq<Seq<char>>,
    i: int,
)
    requires
        spec_clean_entries(entries),
        lines == entries.map_values(|e: (Seq<char>, Outcome)| spec_render_line(e.0, e.1)),
        0 <= i <= lines.len(),
    ensures
        spec_pass3(m, lines, i) == m,
    decreases lines.len() - i,
{
    if i < lines.len() {
        lemma_clean_line_shape(entries[i].0, entries[i].1);
        if i + 1 < lines.len() {
            lemma_clean_line_shape(entries[i + 1].0, entries[i + 1].1);
        }
        assert(spec_step3(m, lines, i) == m);
        lemma_pass3_noop(m, entries, lines, i + 1);
    }
}

proof fn lemma_pass4_noop(
    m: Map<Seq<char>, Outcome>,
    entries: Seq<(Seq<char>, Outcome)>,
    lines: Seq<Seq<char>>,
    i: int,
)
    requires
        spec_clean_entries(entries),
        lines == entries.map_values(|e: (Seq<char>, Outcome)| spec_render_line(e.0, e.1)),
        0 <= i <= lines.len(),
        forall|k: int| 0 <= k < entries.len() ==> m.contains_key((#[trigger] entries[k]).0),
    ensures
        spec_pass4(m, lines, i) == m,
    decreases lines.len() - i,
{
    if i < lines.len() {
        lemma_clean_line_shape(entries[i].0, entries[i].1);
        assert(spec_step4(m, lines, i) == m);
        lemma_pass4_noop(m, entries, lines, i + 1);
    }
}

proof fn lemma_pass5_noop(
    m: Map<Seq<char>, Outcome>,
    entries: Seq<(Seq<char>, Outcome)>,
    lines: Seq<Seq<char>>,
    i: int,
)
    requires
        spec_clean_entries(entries),
        lines == entries.map_values(|e: (Seq<char>, Outcome)| spec_render_line(e.0, e.1)),
        0 <= i <= lines.len(),
        forall|k: int| 0 <= k < entries.len() ==> m.contains_key((#[trigger] entries[k]).0),
    ensures
        spec_pass5(m, lines, i) == m,
    decreases lines.len() - i,
{
    if i < lines.len() {
        lemma_clean_line_shape(entries[i].0, entries[i].1);
        assert(spec_step5(m, lines, i) == m);
        lemma_pass5_noop(m, entries, lines, i + 1);
    }
}

proof fn lemma_failures_noop(
    m: Map<Seq<char>, Outcome>,
    entries: Seq<(Seq<char>, Outcome)>,
    lines: Seq<Seq<char>>,
    i: int,
)
    requires
        spec_clean_entries(entries),
        lines == entries.map_values(|e: (Seq<char>, Outcome)| spec_render_line(e.0, e.1)),
        0 <= i <= lines.len(),
    ensures
        spec_failures(m, lines, i, false) == m,
    decreases lines.len() - i,
{
    if i < lines.len() {
        lemma_clean_line_shape(entries[i].0, entries[i].1);
        lemma_failures_noop(m, entries, lines, i + 1);
    }
}

/// Re-running the standard extractor on its own clean reconstruction yields
/// the same classification: every reconstructed test reads back with exactly
/// the outcome it was written from, and nothing else is classified.
pub proof fn lemma_standard_extractor_idempotent(entries: Seq<(Seq<char>, Outcome)>)
    requires
        spec_clean_entries(entries),
    ensures
        ({
            let m = spec_parse_standard(spec_lines(spec_render(entries)));
            &&& forall|k: int|
                0 <= k < entries.len() ==> m.contains_key((#[trigger] entries[k]).0)
                    && m[entries[k].0] == entries[k].1
            &&& forall|n: Seq<char>|
                #[trigger] m.contains_key(n) ==> exists|k: int|
                    0 <= k < entries.len() && (#[trigger] entries[k]).0 == n
        }),
{
    lemma_lines_render(entries);
    let lines0 = entries.map_values(|e: (Seq<char>, Outcome)| spec_render_line(e.0, e.1));
    let text = spec_render(entries);
    assert(spec_lines(text) == lines0);
    let m0 = Map::<Seq<char>, Outcome>::empty();
    lemma_pass1_is_fold(m0, entries, lines0, 0);
    let m1 = spec_pass1(m0, lines0, 0);
    assert(forall|k: int| 0 <= k < entries.len() ==> !m0.contains_key((#[trigger] entries[k]).0));
    lemma_fold_points(m0, entries, 0);
    assert(m1 == spec_entries_fold(m0, entries, 0));
    assert forall|k: int|
        0 <= k < entries.len() implies m1.contains_key((#[trigger] entries[k]).0)
        && m1[entries[k].0] == entries[k].1 by {
        assert(spec_entries_fold(m0, entries, 0).contains_key(entries[k].0)
            && spec_entries_fold(m0, entries, 0)[entries[k].0] == entries[k].1);
    }
    lemma_pending_empty(m1, entries, lines0, 0, Seq::empty());
    assert(spec_pass2(m1, lines0, Seq::empty(), 0) == m1);
    lemma_pass3_noop(m1, entries, lines0, 0);
    lemma_pass4_noop(m1, entries, lines0, 0);
    lemma_pass5_noop(m1, entries, lines0, 0);
    lemma_failures_noop(m1, entries, lines0, 0);
    assert forall|n: Seq<char>| #[trigger] m1.contains_key(n) implies exists|k: int|
        0 <= k < entries.len() && (#[trigger] entries[k]).0 == n by {
        if !(exists|k: int| 0 <= k < entries.len() && (#[trigger] entries[k]).0 == n) {
            assert(spec_entries_fold(m0, entries, 0).contains_key(n) == m0.contains_key(n));
            assert(m1.contains_key(n) == m0.contains_key(n));
        }
    }
}

} // verus!
