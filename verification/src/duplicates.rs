use vstd::prelude::*;
use crate::grammar::StatusWord;
use crate::nextest::first_compact;
use crate::single_line::{first_non_ws, spec_ui_line, ui_line};
use crate::text::{
    chars_of, contains_ci, eq_at_ci, is_ws, lemma_spec_first_skip, match_at, seq_contains,
    spec_decimal, spec_find, spec_first, spec_is_ws, spec_lower, spec_split, spec_trim,
    split_lines, str_eq, string_from_range, to_lower_vec, trim_bounds, usize_to_string, vec_sub,
};

verus! {

/// An extension that marks the end of a source-file path in a banner.
pub open spec fn spec_ext_end(l: Seq<char>, y: int) -> bool {
    ||| (y >= 3 && match_at(spec_lower(l), ".rs"@, y - 3))
    ||| (y >= 6 && match_at(spec_lower(l), ".fixed"@, y - 6))
}

fn ext_end(l: &[char], y: usize) -> (r: bool)
    requires
        y <= l@.len(),
    ensures
        r == spec_ext_end(l@, y as int),
{
    let rs = chars_of(".rs");
    let fixed = chars_of(".fixed");
    (y >= 3 && eq_at_ci(l, rs.as_slice(), y - 3)) || (y >= 6 && eq_at_ci(
        l,
        fixed.as_slice(),
        y - 6,
    ))
}

/// The last position up to `y` where a path extension ends, if any.
pub open spec fn spec_rlast_ext(l: Seq<char>, lo: int, y: int) -> Option<int>
    decreases y - lo,
    when lo <= y
{
    if y <= lo {
        None
    } else if spec_ext_end(l, y) {
        Some(y)
    } else {
        spec_rlast_ext(l, lo, y - 1)
    }
}

fn rlast_ext(l: &[char], lo: usize, y0: usize) -> (r: Option<usize>)
    requires
        lo <= y0 <= l@.len(),
    ensures
        match r {
            Some(y) => spec_rlast_ext(l@, lo as int, y0 as int) == Some(y as int) && lo < y <= y0,
            None => spec_rlast_ext(l@, lo as int, y0 as int) is None,
        },
{
    let mut y: usize = y0;
    while y > lo
        invariant
            lo <= y <= y0 <= l@.len(),
            spec_rlast_ext(l@, lo as int, y0 as int) == spec_rlast_ext(l@, lo as int, y as int),
        decreases y,
    {
        if ext_end(l, y) {
            return Some(y);
        }
        y = y - 1;
    }
    None
}

/// A `Running <path>.rs (` banner: the path token after the keyword carries a
/// source extension and a parenthesis follows it.
pub open spec fn spec_boundary_running(l: Seq<char>) -> Option<Seq<char>> {
    match spec_find(spec_lower(l), "running"@) {
        None => None,
        Some(r0) => {
            let a = r0 + 7;
            if a < l.len() && spec_is_ws(l[a]) {
                match spec_first(l.len() as int, a, |k: int| !spec_is_ws(l[k])) {
                    None => None,
                    Some(tok0) => {
                        let te = match spec_first(
                            l.len() as int,
                            tok0,
                            |k: int| spec_is_ws(l[k]) || l[k] == '(',
                        ) {
                            Some(x) => x,
                            None => l.len() as int,
                        };
                        if spec_ext_end(l, te) && te > tok0 {
                            match spec_first(l.len() as int, te, |k: int| !spec_is_ws(l[k])) {
                                Some(f) => if l[f] == '(' {
                                    Some(l.subrange(tok0, te))
                                } else {
                                    None
                                },
                                None => None,
                            }
                        } else {
                            None
                        }
                    },
                }
            } else {
                None
            }
        },
    }
}

/// A `=== Running <path>` banner: the capture runs to the last source
/// extension on the line.
pub open spec fn spec_boundary_eq_running(l: Seq<char>) -> Option<Seq<char>> {
    match spec_find(l, "==="@) {
        None => None,
        Some(e3) => match spec_first(
            l.len() as int,
            e3 + 3,
            |k: int| match_at(spec_lower(l), "running"@, k),
        ) {
            None => None,
            Some(r0) => {
                let a = r0 + 7;
                if a < l.len() && spec_is_ws(l[a]) {
                    match spec_first(l.len() as int, a, |k: int| !spec_is_ws(l[k])) {
                        None => None,
                        Some(tok0) => match spec_rlast_ext(l, tok0 + 1, l.len() as int) {
                            Some(y) => Some(l.subrange(tok0, y)),
                            None => None,
                        },
                    }
                } else {
                    None
                }
            },
        },
    }
}

/// A decimal digit.
pub open spec fn spec_is_digit(c: char) -> bool {
    '0' <= c && c <= '9'
}

/// The head of a passing per-file summary line: `test result:`, then `ok.`,
/// then a pass count, then `passed`, blanks between the tokens.
pub open spec fn spec_result_banner_head(l: Seq<char>) -> bool {
    let ll = spec_lower(l);
    match spec_find(ll, "test result:"@) {
        None => false,
        Some(p) => {
            let e = p + "test result:"@.len();
            if e < l.len() && spec_is_ws(l[e]) {
                match spec_first(l.len() as int, e, |k: int| !spec_is_ws(l[k])) {
                    None => false,
                    Some(k1) => {
                        if match_at(ll, "ok."@, k1) {
                            let e2 = k1 + "ok."@.len();
                            if e2 < l.len() && spec_is_ws(l[e2]) {
                                match spec_first(l.len() as int, e2, |k: int| !spec_is_ws(l[k])) {
                                    None => false,
                                    Some(k2) => {
                                        if spec_is_digit(l[k2]) {
                                            let k3 = match spec_first(
                                                l.len() as int,
                                                k2,
                                                |k: int| !spec_is_digit(l[k]),
                                            ) {
                                                Some(x) => x,
                                                None => l.len() as int,
                                            };
                                            if k3 < l.len() && spec_is_ws(l[k3]) {
                                                match spec_first(
                                                    l.len() as int,
                                                    k3,
                                                    |k: int| !spec_is_ws(l[k]),
                                                ) {
                                                    None => false,
                                                    Some(k4) => match_at(ll, "passed"@, k4),
                                                }
                                            } else {
                                                false
                                            }
                                        } else {
                                            false
                                        }
                                    },
                                }
                            } else {
                                false
                            }
                        } else {
                            false
                        }
                    },
                }
            } else {
                false
            }
        },
    }
}

/// A passing per-file summary line: `test result: ok.` with a pass count,
/// the capture after the last `for` running to the last source extension.
pub open spec fn spec_boundary_result(l: Seq<char>) -> Option<Seq<char>> {
    if spec_result_banner_head(l) {
        match spec_rlast_for(l, l.len() as int) {
            None => None,
            Some(fe) => match spec_first(l.len() as int, fe, |k: int| !spec_is_ws(l[k])) {
                None => None,
                Some(tok0) => match spec_rlast_ext(l, tok0 + 1, l.len() as int) {
                    Some(y) => Some(l.subrange(tok0, y)),
                    None => None,
                },
            },
        }
    } else {
        None
    }
}

/// Checks the head of a passing summary line.
fn result_banner_head(l: &[char]) -> (r: bool)
    ensures
        r == spec_result_banner_head(l@),
{
    let n = l.len();
    let ll = to_lower_vec(l);
    let pat = chars_of("test result:");
    let p = match crate::text::find_pat(ll.as_slice(), pat.as_slice()) {
        Some(p) => p,
        None => {
            return false;
        },
    };
    proof {
        assert(p + pat@.len() <= n);
    }
    let e = p + pat.len();
    if !(e < n && is_ws(l[e])) {
        return false;
    }
    let k1 = match first_non_ws(l, e) {
        Some(k1) => k1,
        None => {
            return false;
        },
    };
    let okpat = chars_of("ok.");
    if !eq_at_ci(l, okpat.as_slice(), k1) {
        return false;
    }
    proof {
        assert(spec_lower(l@).len() == l@.len());
        assert(k1 + okpat@.len() <= n);
    }
    let e2 = k1 + okpat.len();
    if !(e2 < n && is_ws(l[e2])) {
        return false;
    }
    let k2 = match first_non_ws(l, e2) {
        Some(k2) => k2,
        None => {
            return false;
        },
    };
    if !('0' <= l[k2] && l[k2] <= '9') {
        return false;
    }
    let ghost pd = |k: int| !spec_is_digit(l@[k]);
    let mut k3: usize = k2;
    loop
        invariant
            k2 <= k3 <= l@.len(),
            n == l@.len(),
            pd == (|k: int| !spec_is_digit(l@[k])),
            forall|j: int| k2 <= j < k3 ==> !#[trigger] pd(j),
        ensures
            k2 <= k3 <= l@.len(),
            k3 as int == (match spec_first(l@.len() as int, k2 as int, pd) {
                Some(x) => x,
                None => l@.len() as int,
            }),
        decreases l@.len() - k3,
    {
        if k3 >= n {
            proof {
                lemma_spec_first_skip(l@.len() as int, k2 as int, l@.len() as int, pd);
            }
            break;
        }
        if !('0' <= l[k3] && l[k3] <= '9') {
            proof {
                assert(pd(k3 as int));
                lemma_spec_first_skip(l@.len() as int, k2 as int, k3 as int, pd);
            }
            break;
        }
        proof {
            assert(pd(k3 as int) == !spec_is_digit(l@[k3 as int]));
        }
        k3 = k3 + 1;
    }
    if !(k3 < n && is_ws(l[k3])) {
        return false;
    }
    let k4 = match first_non_ws(l, k3) {
        Some(k4) => k4,
        None => {
            return false;
        },
    };
    eq_at_ci(l, chars_of("passed").as_slice(), k4)
}

/// The end of the last ` for ` on the line, if any.
pub open spec fn spec_rlast_for(l: Seq<char>, y: int) -> Option<int>
    decreases y,
    when y <= l.len()
{
    if y < 5 {
        None
    } else if match_at(spec_lower(l), " for "@, y - 5) {
        Some(y)
    } else {
        spec_rlast_for(l, y - 1)
    }
}

fn rlast_for(l: &[char]) -> (r: Option<usize>)
    ensures
        match r {
            Some(y) => spec_rlast_for(l@, l@.len() as int) == Some(y as int) && 5 <= y <= l@.len(),
            None => spec_rlast_for(l@, l@.len() as int) is None,
        },
{
    let pat = chars_of(" for ");
    let mut y: usize = l.len();
    while y >= 5
        invariant
            y <= l@.len(),
            pat@ == " for "@,
            spec_rlast_for(l@, l@.len() as int) == spec_rlast_for(l@, y as int),
        decreases y,
    {
        if eq_at_ci(l, pat.as_slice(), y - 5) {
            proof {
                reveal_strlit(" for ");
            }
            return Some(y);
        }
        proof {
            reveal_strlit(" for ");
        }
        y = y - 1;
    }
    None
}

/// Which file-boundary banner the line carries, if any.
pub open spec fn spec_detect_file_boundary(l: Seq<char>) -> Option<Seq<char>> {
    match spec_boundary_running(l) {
        Some(f) => Some(f),
        None => match spec_boundary_eq_running(l) {
            Some(f) => Some(f),
            None => spec_boundary_result(l),
        },
    }
}

fn boundary_running(l: &[char]) -> (r: Option<String>)
    ensures
        match r {
            Some(f) => spec_boundary_running(l@) == Some(f@),
            None => spec_boundary_running(l@) is None,
        },
{
    let n = l.len();
    let ll = to_lower_vec(l);
    let running = chars_of("running");
    let r0 = match crate::text::find_pat(ll.as_slice(), running.as_slice()) {
        Some(r0) => r0,
        None => {
            return None;
        },
    };
    proof {
        reveal_strlit("running");
        assert(r0 + 7 <= n);
    }
    let a = r0 + 7;
    if !(a < l.len() && is_ws(l[a])) {
        return None;
    }
    let tok0 = match first_non_ws(l, a) {
        Some(x) => x,
        None => {
            return None;
        },
    };
    let ghost pt = |k: int| spec_is_ws(l@[k]) || l@[k] == '(';
    let n = l.len();
    let mut te: usize = tok0;
    loop
        invariant
            tok0 <= te <= l@.len(),
            n == l@.len(),
            pt == (|k: int| spec_is_ws(l@[k]) || l@[k] == '('),
            forall|j: int| tok0 <= j < te ==> !#[trigger] pt(j),
        ensures
            tok0 <= te <= l@.len(),
            te == (match spec_first(l@.len() as int, tok0 as int, pt) {
                Some(x) => x,
                None => l@.len() as int,
            }),
        decreases l@.len() - te,
    {
        if te >= n {
            proof {
                lemma_spec_first_skip(l@.len() as int, tok0 as int, l@.len() as int, pt);
            }
            break;
        }
        if is_ws(l[te]) || l[te] == '(' {
            proof {
                assert(pt(te as int));
                lemma_spec_first_skip(l@.len() as int, tok0 as int, te as int, pt);
            }
            break;
        }
        proof {
            assert(pt(te as int) == (spec_is_ws(l@[te as int]) || l@[te as int] == '('));
        }
        te = te + 1;
    }
    if !(ext_end(l, te) && te > tok0) {
        return None;
    }
    match first_non_ws(l, te) {
        Some(f) => {
            if l[f] == '(' {
                Some(string_from_range(l, tok0, te))
            } else {
                None
            }
        },
        None => None,
    }
}

fn boundary_eq_running(l: &[char]) -> (r: Option<String>)
    ensures
        match r {
            Some(f) => spec_boundary_eq_running(l@) == Some(f@),
            None => spec_boundary_eq_running(l@) is None,
        },
{
    let eqs = chars_of("===");
    let e3 = match crate::text::find_pat(l, eqs.as_slice()) {
        Some(x) => x,
        None => {
            return None;
        },
    };
    proof {
        reveal_strlit("===");
        assert(e3 + 3 <= l@.len());
    }
    let running = chars_of("running");
    let ghost pr = |k: int| match_at(spec_lower(l@), "running"@, k);
    let n = l.len();
    let mut r0: usize = e3 + 3;
    loop
        invariant
            e3 + 3 <= r0 <= l@.len(),
            n == l@.len(),
            running@ == "running"@,
            pr == (|k: int| match_at(spec_lower(l@), "running"@, k)),
            forall|j: int| e3 + 3 <= j < r0 ==> !#[trigger] pr(j),
        ensures
            e3 + 3 <= r0 <= l@.len(),
            (if r0 < l@.len() {
                spec_first(l@.len() as int, e3 + 3, pr) == Some(r0 as int) && match_at(
                    spec_lower(l@),
                    "running"@,
                    r0 as int,
                )
            } else {
                spec_first(l@.len() as int, e3 + 3, pr) is None
            }),
        decreases l@.len() - r0,
    {
        if r0 >= n {
            proof {
                lemma_spec_first_skip(l@.len() as int, e3 + 3, l@.len() as int, pr);
            }
            break;
        }
        if eq_at_ci(l, running.as_slice(), r0) {
            proof {
                assert(pr(r0 as int));
                lemma_spec_first_skip(l@.len() as int, e3 + 3, r0 as int, pr);
            }
            break;
        }
        proof {
            assert(pr(r0 as int) == match_at(spec_lower(l@), "running"@, r0 as int));
        }
        r0 = r0 + 1;
    }
    if r0 >= n {
        return None;
    }
    proof {
        reveal_strlit("running");
        assert(r0 + 7 <= l@.len());
    }
    let a = r0 + 7;
    if !(a < n && is_ws(l[a])) {
        return None;
    }
    let tok0 = match first_non_ws(l, a) {
        Some(x) => x,
        None => {
            return None;
        },
    };
    match rlast_ext(l, tok0 + 1, n) {
        Some(y) => Some(string_from_range(l, tok0, y)),
        None => None,
    }
}

fn boundary_result(l: &[char]) -> (r: Option<String>)
    ensures
        match r {
            Some(f) => spec_boundary_result(l@) == Some(f@),
            None => spec_boundary_result(l@) is None,
        },
{
    if !result_banner_head(l) {
        return None;
    }
    let n = l.len();
    let fe = match rlast_for(l) {
        Some(x) => x,
        None => {
            return None;
        },
    };
    let tok0 = match first_non_ws(l, fe) {
        Some(x) => x,
        None => {
            return None;
        },
    };
    proof {
        assert(tok0 < n);
    }
    match rlast_ext(l, tok0 + 1, n) {
        Some(y) => Some(string_from_range(l, tok0, y)),
        None => None,
    }
}

/// Detects a file-boundary banner, which sets the file context occurrences
/// are attributed to.
pub fn detect_file_boundary(line: &str) -> (r: Option<String>)
    ensures
        match r {
            Some(f) => spec_detect_file_boundary(line@) == Some(f@),
            None => spec_detect_file_boundary(line@) is None,
        },
{
    let cs = chars_of(line);
    let l = cs.as_slice();
    match boundary_running(l) {
        Some(f) => Some(f),
        None => match boundary_eq_running(l) {
            Some(f) => Some(f),
            None => boundary_result(l),
        },
    }
}

/// The test mention a line carries for the duplicate analyzer: the first
/// compact match, or else a UI-test result line.
pub open spec fn spec_extract_test_info(l: Seq<char>) -> Option<(Seq<char>, StatusWord)> {
    match crate::nextest::spec_first_compact(l) {
        Some((n0, e, w, _end)) => Some((l.subrange(n0, e), w)),
        None => spec_ui_line(l),
    }
}

/// Reads the test mention a line carries, if any.
pub fn extract_test_info_enhanced(line: &str) -> (r: Option<(String, StatusWord)>)
    ensures
        match r {
            Some((name, w)) => spec_extract_test_info(line@) == Some((name@, w)),
            None => spec_extract_test_info(line@) is None,
        },
{
    let cs = chars_of(line);
    let l = cs.as_slice();
    match first_compact(l) {
        Some((n0, e, w)) => Some((string_from_range(l, n0, e), w)),
        None => ui_line(l),
    }
}


/// One located mention of a test inside one log: name, reported status, line
/// number, and a short window of adjacent lines for context comparison.
pub struct Occur {
    pub test_name: String,
    pub status: StatusWord,
    pub line_no: usize,
    pub context_before: Vec<String>,
    pub context_after: Vec<String>,
}

/// Lines joined by single spaces.
pub open spec fn spec_join_sp(ss: Seq<Seq<char>>) -> Seq<char>
    decreases ss.len(),
{
    if ss.len() == 0 {
        Seq::empty()
    } else if ss.len() == 1 {
        ss[0]
    } else {
        spec_join_sp(ss.drop_last()) + " "@ + ss.last()
    }
}

fn join_sp(v: &Vec<String>) -> (r: String)
    ensures
        r@ == spec_join_sp(v.deep_view()),
{
    let ghost dv = v.deep_view();
    if v.len() == 0 {
        let r = String::new();
        proof {
            assert(r@ =~= spec_join_sp(dv));
        }
        return r;
    }
    let mut r = v[0].clone();
    proof {
        assert(dv.take(1).len() == 1);
        assert(dv.take(1)[0] == dv[0]);
    }
    let mut i: usize = 1;
    while i < v.len()
        invariant
            1 <= i <= dv.len(),
            dv == v.deep_view(),
            dv.len() == v@.len(),
            r@ == spec_join_sp(dv.take(i as int)),
        decreases dv.len() - i,
    {
        r.append(" ");
        r.append(v[i].as_str());
        proof {
            assert(dv.take(i + 1).drop_last() =~= dv.take(i as int));
            assert(dv.take(i + 1).last() == dv[i as int]);
            assert(dv.take(i + 1).len() == i + 1 >= 2);
        }
        i = i + 1;
    }
    proof {
        assert(dv.take(dv.len() as int) =~= dv);
    }
    r
}

/// The comparison context of an occurrence: the joined lines before and
/// after, trimmed.
pub open spec fn spec_occ_ctx(o: Occur) -> Seq<char> {
    spec_trim(
        spec_join_sp(o.context_before.deep_view()) + spec_join_sp(o.context_after.deep_view()),
    )
}

fn occ_ctx(o: &Occur) -> (r: String)
    ensures
        r@ == spec_occ_ctx(*o),
{
    let mut c = join_sp(&o.context_before);
    let ja = join_sp(&o.context_after);
    c.append(ja.as_str());
    let cs = chars_of(c.as_str());
    let (a, b) = trim_bounds(cs.as_slice());
    string_from_range(cs.as_slice(), a, b)
}

/// The view of an occurrence the duplicate rules judge: name, status, line
/// number, comparison context.
pub open spec fn occ_view(o: Occur) -> (Seq<char>, StatusWord, int, Seq<char>) {
    (o.test_name@, o.status, o.line_no as int, spec_occ_ctx(o))
}

/// A repeated test name is a true duplicate if two mentions sit within ten
/// lines of one another, or the mentions contradict one another (both an ok
/// and a failed-looking status), or every mention carries the same non-empty
/// context block.
pub open spec fn spec_dup(vs: Seq<(Seq<char>, StatusWord, int, Seq<char>)>) -> bool {
    &&& vs.len() > 1
    &&& ({
        ||| (exists|i: int, j: int|
            #![trigger vs[i], vs[j]]
            0 <= i < vs.len() && 0 <= j < vs.len() && i != j && vs[i].2 - vs[j].2 < 10 && vs[j].2
                - vs[i].2 < 10)
        ||| ((exists|i: int|
            0 <= i < vs.len() && ((#[trigger] vs[i]).1 is Failed || vs[i].1 is Error)) && (
        exists|i: int| 0 <= i < vs.len() && (#[trigger] vs[i]).1 is Okay))
        ||| ((forall|i: int| 0 <= i < vs.len() ==> (#[trigger] vs[i]).3 == vs[0].3) && vs[0].3.len()
            > 0)
    })
}

/// Is this group of same-name occurrences a true duplicate?
pub open spec fn spec_is_true_duplicate(occs: Seq<Occur>) -> bool {
    spec_dup(occs.map_values(|o: Occur| occ_view(o)))
}

/// Judges a group of occurrences of one test name.
pub fn is_true_duplicate(occ: &Vec<Occur>) -> (r: bool)
    ensures
        r == spec_is_true_duplicate(occ@),
{
    let ghost vs = occ@.map_values(|o: Occur| occ_view(o));
    proof {
        assert(vs.len() == occ@.len());
    }
    if occ.len() <= 1 {
        return false;
    }
    let n = occ.len();
    let mut i: usize = 0;
    while i < n
        invariant
            i <= n == occ@.len(),
            vs == occ@.map_values(|o: Occur| occ_view(o)),
            forall|a: int, b: int|
                #![trigger vs[a], vs[b]]
                0 <= a < b < occ@.len() && a < i ==> !(vs[a].2 - vs[b].2 < 10 && vs[b].2 - vs[a].2
                    < 10),
        decreases n - i,
    {
        let mut j: usize = i + 1;
        while j < n
            invariant
                i < n == occ@.len(),
                i + 1 <= j <= n,
                vs == occ@.map_values(|o: Occur| occ_view(o)),
                forall|b: int|
                    #![trigger vs[b]]
                    i < b < j ==> !(vs[i as int].2 - vs[b].2 < 10 && vs[b].2 - vs[i as int].2
                        < 10),
            decreases n - j,
        {
            let a = occ[i].line_no;
            let b = occ[j].line_no;
            let gap = if a > b {
                a - b
            } else {
                b - a
            };
            proof {
                assert(vs[i as int].2 == occ@[i as int].line_no as int);
                assert(vs[j as int].2 == occ@[j as int].line_no as int);
            }
            if gap < 10 {
                return true;
            }
            j = j + 1;
        }
        i = i + 1;
    }
    proof {
        assert forall|a: int, b: int|
            #![trigger vs[a], vs[b]]
            0 <= a < vs.len() && 0 <= b < vs.len() && a != b implies !(vs[a].2 - vs[b].2 < 10
            && vs[b].2 - vs[a].2 < 10) by {
            if a < b {
            } else {
            }
        }
    }
    let mut has_fail = false;
    let mut has_ok = false;
    let mut i: usize = 0;
    while i < n
        invariant
            i <= n == occ@.len(),
            vs == occ@.map_values(|o: Occur| occ_view(o)),
            has_fail == exists|a: int|
                0 <= a < i && ((#[trigger] vs[a]).1 is Failed || vs[a].1 is Error),
            has_ok == exists|a: int| 0 <= a < i && (#[trigger] vs[a]).1 is Okay,
        decreases n - i,
    {
        proof {
            assert(vs[i as int].1 == occ@[i as int].status);
        }
        if matches!(occ[i].status, StatusWord::Failed) || matches!(
            occ[i].status,
            StatusWord::Error,
        ) {
            has_fail = true;
            proof {
                assert((vs[i as int].1 is Failed || vs[i as int].1 is Error));
            }
        }
        if matches!(occ[i].status, StatusWord::Okay) {
            has_ok = true;
            proof {
                assert(vs[i as int].1 is Okay);
            }
        }
        i = i + 1;
    }
    if has_fail && has_ok {
        return true;
    }
    let ctx0 = occ_ctx(&occ[0]);
    proof {
        assert(vs[0].3 == spec_occ_ctx(occ@[0]));
    }
    let mut all_eq = true;
    let mut i: usize = 1;
    while i < n
        invariant
            1 <= i <= n == occ@.len(),
            vs == occ@.map_values(|o: Occur| occ_view(o)),
            ctx0@ == vs[0].3,
            all_eq == forall|a: int| 0 <= a < i ==> (#[trigger] vs[a]).3 == vs[0].3,
        decreases n - i,
    {
        let c = occ_ctx(&occ[i]);
        proof {
            assert(vs[i as int].3 == spec_occ_ctx(occ@[i as int]));
        }
        if !str_eq(c.as_str(), ctx0.as_str()) {
            all_eq = false;
        }
        i = i + 1;
    }
    if all_eq && ctx0.as_str().unicode_len() > 0 {
        return true;
    }
    false
}


/// The view of one collected occurrence, with the file it is attributed to.
pub open spec fn coll_view(p: (String, Occur)) -> (Seq<char>, Seq<char>, StatusWord, int, Seq<
    char,
>) {
    (p.0@, p.1.test_name@, p.1.status, p.1.line_no as int, spec_occ_ctx(p.1))
}

/// Collects every occurrence of the raw text, each attributed to the most
/// recent file-boundary banner (`unknown` before the first).
pub open spec fn spec_collect(
    lines: Seq<Seq<char>>,
    i: int,
    cur: Seq<char>,
    acc: Seq<(Seq<char>, Seq<char>, StatusWord, int, Seq<char>)>,
) -> Seq<(Seq<char>, Seq<char>, StatusWord, int, Seq<char>)>
    decreases lines.len() - i,
    when 0 <= i <= lines.len()
{
    if i >= lines.len() {
        acc
    } else {
        match spec_detect_file_boundary(lines[i]) {
            Some(f) => spec_collect(lines, i + 1, f, acc),
            None => match spec_extract_test_info(lines[i]) {
                Some((name, st)) => {
                    let before = if i >= 2 {
                        lines.subrange(i - 2, i)
                    } else {
                        Seq::empty()
                    };
                    let after = if i + 1 < lines.len() {
                        lines.subrange(
                            i + 1,
                            if i + 3 <= lines.len() {
                                i + 3
                            } else {
                                lines.len() as int
                            },
                        )
                    } else {
                        Seq::empty()
                    };
                    let ctx = spec_trim(spec_join_sp(before) + spec_join_sp(after));
                    spec_collect(lines, i + 1, cur, acc.push((cur, name, st, i, ctx)))
                },
                None => spec_collect(lines, i + 1, cur, acc),
            },
        }
    }
}

/// Copies a slice of lines as strings.
fn lines_to_strings(lines: &Vec<Vec<char>>, a: usize, b: usize) -> (r: Vec<String>)
    requires
        a <= b <= lines@.len(),
    ensures
        r.deep_view() == lines.deep_view().subrange(a as int, b as int),
{
    let ghost lv = lines.deep_view();
    let mut r: Vec<String> = Vec::new();
    let mut i: usize = a;
    while i < b
        invariant
            a <= i <= b <= lv.len(),
            lv == lines.deep_view(),
            lv.len() == lines@.len(),
            r.deep_view() == lv.subrange(a as int, i as int),
        decreases b - i,
    {
        let l = &lines[i];
        proof {
            assert(l@ == lv[i as int]);
        }
        let ghost dv0 = r.deep_view();
        let s = string_from_range(l.as_slice(), 0, l.len());
        let ghost sv = s@;
        r.push(s);
        proof {
            assert(r.deep_view() =~~= dv0.push(sv));
            assert(r.deep_view() =~~= lv.subrange(a as int, i + 1));
        }
        i = i + 1;
    }
    r
}

fn collect_occurrences(lines: &Vec<Vec<char>>) -> (r: Vec<(String, Occur)>)
    ensures
        r@.map_values(|p: (String, Occur)| coll_view(p)) == spec_collect(
            lines.deep_view(),
            0,
            "unknown"@,
            Seq::empty(),
        ),
{
    let ghost lv = lines.deep_view();
    let mut cur: String = String::from_str("unknown");
    let mut acc: Vec<(String, Occur)> = Vec::new();
    proof {
        assert(acc@.map_values(|p: (String, Occur)| coll_view(p)) =~~= Seq::<(
            Seq<char>,
            Seq<char>,
            StatusWord,
            int,
            Seq<char>,
        )>::empty());
    }
    let mut i: usize = 0;
    while i < lines.len()
        invariant
            i <= lv.len(),
            lv == lines.deep_view(),
            lv.len() == lines@.len(),
            spec_collect(lv, 0, "unknown"@, Seq::empty()) == spec_collect(
                lv,
                i as int,
                cur@,
                acc@.map_values(|p: (String, Occur)| coll_view(p)),
            ),
        decreases lv.len() - i,
    {
        let l = &lines[i];
        proof {
            assert(l@ == lv[i as int]);
        }
        let line_str = string_from_range(l.as_slice(), 0, l.len());
        proof {
            assert(line_str@ =~= l@);
        }
        match detect_file_boundary(line_str.as_str()) {
            Some(f) => {
                cur = f;
            },
            None => {
                match extract_test_info_enhanced(line_str.as_str()) {
                    Some((name, st)) => {
                        let before = if i >= 2 {
                            lines_to_strings(lines, i - 2, i)
                        } else {
                            Vec::new()
                        };
                        let after = if i + 1 < lines.len() {
                            let hi = if lines.len() - i > 3 {
                                i + 3
                            } else {
                                lines.len()
                            };
                            lines_to_strings(lines, i + 1, hi)
                        } else {
                            Vec::new()
                        };
                        let o = Occur {
                            test_name: name,
                            status: st,
                            line_no: i,
                            context_before: before,
                            context_after: after,
                        };
                        let ghost acc0 = acc@.map_values(|p: (String, Occur)| coll_view(p));
                        proof {
                            let before_s = if i >= 2 {
                                lv.subrange(i - 2, i as int)
                            } else {
                                Seq::<Seq<char>>::empty()
                            };
                            let after_s = if i + 1 < lv.len() {
                                lv.subrange(
                                    i + 1,
                                    if i + 3 <= lv.len() {
                                        i + 3
                                    } else {
                                        lv.len() as int
                                    },
                                )
                            } else {
                                Seq::<Seq<char>>::empty()
                            };
                            assert(o.context_before.deep_view() =~~= before_s);
                            assert(o.context_after.deep_view() =~~= after_s);
                            assert(spec_occ_ctx(o) == spec_trim(
                                spec_join_sp(before_s) + spec_join_sp(after_s),
                            ));
                        }
                        let ghost entry = (cur@, o.test_name@, o.status, i as int, spec_occ_ctx(o));
                        let file = cur.clone();
                        acc.push((file, o));
                        proof {
                            assert(acc@.map_values(|p: (String, Occur)| coll_view(p)) =~~=
                                acc0.push(entry));
                        }
                    },
                    None => {},
                }
            },
        }
        i = i + 1;
    }
    acc
}

/// One `line N` place marker.
pub open spec fn spec_place(o: (Seq<char>, StatusWord, int, Seq<char>)) -> Seq<char> {
    "line "@ + spec_decimal(o.2)
}

/// The place markers of a group, joined by commas.
pub open spec fn spec_places(group: Seq<(Seq<char>, StatusWord, int, Seq<char>)>) -> Seq<char>
    decreases group.len(),
{
    if group.len() == 0 {
        Seq::empty()
    } else if group.len() == 1 {
        spec_place(group[0])
    } else {
        spec_places(group.drop_last()) + ", "@ + spec_place(group.last())
    }
}

/// One formatted duplicate report line.
pub open spec fn spec_format_dup(
    f: Seq<char>,
    nm: Seq<char>,
    group: Seq<(Seq<char>, StatusWord, int, Seq<char>)>,
) -> Seq<char> {
    nm + " (appears "@ + spec_decimal(group.len() as int) + " times in "@ + f + ": "@
        + spec_places(group) + ")"@
}

/// The view of a collected occurrence without its file.
pub open spec fn drop_file(o: (Seq<char>, Seq<char>, StatusWord, int, Seq<char>)) -> (
    Seq<char>,
    StatusWord,
    int,
    Seq<char>,
) {
    (o.1, o.2, o.3, o.4)
}

/// Walks the collected occurrences; the first mention of each `(file, name)`
/// pair gathers its group, and true duplicates are reported.
pub open spec fn spec_dup_out(
    occs: Seq<(Seq<char>, Seq<char>, StatusWord, int, Seq<char>)>,
    k: int,
    acc: Seq<Seq<char>>,
) -> Seq<Seq<char>>
    decreases occs.len() - k,
    when 0 <= k <= occs.len()
{
    if k >= occs.len() {
        acc
    } else {
        let f = occs[k].0;
        let nm = occs[k].1;
        if exists|j: int| 0 <= j < k && (#[trigger] occs[j]).0 == f && occs[j].1 == nm {
            spec_dup_out(occs, k + 1, acc)
        } else {
            let group = occs.filter(
                |o: (Seq<char>, Seq<char>, StatusWord, int, Seq<char>)| o.0 == f && o.1 == nm,
            );
            let g4 = group.map_values(
                |o: (Seq<char>, Seq<char>, StatusWord, int, Seq<char>)| drop_file(o),
            );
            if g4.len() > 1 && spec_dup(g4) {
                spec_dup_out(occs, k + 1, acc.push(spec_format_dup(f, nm, g4)))
            } else {
                spec_dup_out(occs, k + 1, acc)
            }
        }
    }
}

/// The duplicate report of one raw log text.
pub open spec fn spec_detect_same_file_duplicates(raw: Seq<char>) -> Seq<Seq<char>> {
    if raw.len() == 0 {
        Seq::empty()
    } else {
        spec_dup_out(
            spec_collect(spec_split(raw), 0, "unknown"@, Seq::empty()),
            0,
            Seq::empty(),
        )
    }
}

fn clone_strings(v: &Vec<String>) -> (r: Vec<String>)
    ensures
        r.deep_view() == v.deep_view(),
{
    let mut r: Vec<String> = Vec::new();
    let mut i: usize = 0;
    while i < v.len()
        invariant
            i <= v@.len(),
            r.deep_view() == v.deep_view().take(i as int),
        decreases v@.len() - i,
    {
        let ghost dv0 = r.deep_view();
        r.push(v[i].clone());
        proof {
            assert(r.deep_view() =~~= dv0.push(v.deep_view()[i as int]));
            assert(r.deep_view() =~~= v.deep_view().take(i + 1));
        }
        i = i + 1;
    }
    proof {
        assert(v.deep_view().take(v.deep_view().len() as int) =~~= v.deep_view());
    }
    r
}

fn clone_occur(o: &Occur) -> (r: Occur)
    ensures
        r.test_name@ == o.test_name@,
        r.status == o.status,
        r.line_no == o.line_no,
        spec_occ_ctx(r) == spec_occ_ctx(*o),
{
    Occur {
        test_name: o.test_name.clone(),
        status: o.status,
        line_no: o.line_no,
        context_before: clone_strings(&o.context_before),
        context_after: clone_strings(&o.context_after),
    }
}

/// Scans one log's raw text for repeated test-name mentions within one file
/// context and reports the true duplicates, each with its places.
#[verifier::rlimit(60)]
pub fn detect_same_file_duplicates(raw_content: &str) -> (r: Vec<String>)
    ensures
        r.deep_view() == spec_detect_same_file_duplicates(raw_content@),
{
    let cs = chars_of(raw_content);
    if cs.len() == 0 {
        let r: Vec<String> = Vec::new();
        proof {
            assert(r.deep_view() =~~= Seq::<Seq<char>>::empty());
        }
        return r;
    }
    let lines = split_lines(cs.as_slice());
    let occs = collect_occurrences(&lines);
    let ghost ov = occs@.map_values(|p: (String, Occur)| coll_view(p));
    let mut out: Vec<String> = Vec::new();
    proof {
        assert(out.deep_view() =~~= Seq::<Seq<char>>::empty());
    }
    let mut k: usize = 0;
    while k < occs.len()
        invariant
            k <= occs@.len(),
            ov == occs@.map_values(|p: (String, Occur)| coll_view(p)),
            ov.len() == occs@.len(),
            spec_dup_out(ov, 0, Seq::empty()) == spec_dup_out(ov, k as int, out.deep_view()),
        decreases occs@.len() - k,
    {
        let f = &occs[k].0;
        let nm = &occs[k].1.test_name;
        proof {
            assert(ov[k as int].0 == f@);
            assert(ov[k as int].1 == nm@);
        }
        let ghost out0 = out.deep_view();
        let ghost pred = |o: (Seq<char>, Seq<char>, StatusWord, int, Seq<char>)| o.0
            == ov[k as int].0 && o.1 == ov[k as int].1;
        let mut seen = false;
        let mut j: usize = 0;
        while j < k
            invariant
                j <= k < occs@.len(),
                ov == occs@.map_values(|p: (String, Occur)| coll_view(p)),
                ov.len() == occs@.len(),
                f@ == ov[k as int].0,
                nm@ == ov[k as int].1,
                seen == exists|a: int|
                    0 <= a < j && (#[trigger] ov[a]).0 == f@ && ov[a].1 == nm@,
            decreases k - j,
        {
            proof {
                assert(ov[j as int].0 == occs@[j as int].0@);
                assert(ov[j as int].1 == occs@[j as int].1.test_name@);
            }
            if str_eq(occs[j].0.as_str(), f.as_str()) && str_eq(
                occs[j].1.test_name.as_str(),
                nm.as_str(),
            ) {
                seen = true;
                proof {
                    assert(ov[j as int].0 == f@ && ov[j as int].1 == nm@);
                }
            }
            j = j + 1;
        }
        if !seen {
            let mut group: Vec<Occur> = Vec::new();
            let mut m: usize = 0;
            proof {
                reveal(Seq::filter);
                assert(Seq::<(Seq<char>, Seq<char>, StatusWord, int, Seq<char>)>::empty().filter(
                    pred,
                ) =~~= Seq::<(Seq<char>, Seq<char>, StatusWord, int, Seq<char>)>::empty());
                assert(ov.take(0) =~~= Seq::<(
                    Seq<char>,
                    Seq<char>,
                    StatusWord,
                    int,
                    Seq<char>,
                )>::empty());
                assert(group@.map_values(|o: Occur| occ_view(o)) =~~= Seq::<(
                    Seq<char>,
                    StatusWord,
                    int,
                    Seq<char>,
                )>::empty());
            }
            while m < occs.len()
                invariant
                    m <= occs@.len(),
                    k < occs@.len(),
                    ov == occs@.map_values(|p: (String, Occur)| coll_view(p)),
                    ov.len() == occs@.len(),
                    f@ == ov[k as int].0,
                    nm@ == ov[k as int].1,
                    pred == (|o: (Seq<char>, Seq<char>, StatusWord, int, Seq<char>)| o.0
                        == ov[k as int].0 && o.1 == ov[k as int].1),
                    group@.map_values(|o: Occur| occ_view(o)) == ov.take(m as int).filter(
                        pred,
                    ).map_values(
                        |o: (Seq<char>, Seq<char>, StatusWord, int, Seq<char>)| drop_file(o),
                    ),
                    group@.len() == ov.take(m as int).filter(pred).len(),
                decreases occs@.len() - m,
            {
                proof {
                    reveal(Seq::filter);
                    assert(ov[m as int].0 == occs@[m as int].0@);
                    assert(ov[m as int].1 == occs@[m as int].1.test_name@);
                    assert(ov.take(m + 1).drop_last() =~~= ov.take(m as int));
                    assert(ov.take(m + 1).last() == ov[m as int]);
                }
                if str_eq(occs[m].0.as_str(), f.as_str()) && str_eq(
                    occs[m].1.test_name.as_str(),
                    nm.as_str(),
                ) {
                    let ghost g0 = group@.map_values(|o: Occur| occ_view(o));
                    let oc = clone_occur(&occs[m].1);
                    let ghost ocv = occ_view(oc);
                    group.push(oc);
                    proof {
                        reveal(Seq::filter);
                        assert(pred(ov[m as int]));
                        assert(ocv == drop_file(ov[m as int]));
                        assert(group@.map_values(|o: Occur| occ_view(o)) =~~= g0.push(ocv));
                        assert(ov.take(m + 1).filter(pred) =~~= ov.take(m as int).filter(
                            pred,
                        ).push(ov[m as int]));
                        assert(ov.take(m + 1).filter(pred).map_values(
                            |o: (Seq<char>, Seq<char>, StatusWord, int, Seq<char>)| drop_file(o),
                        ) =~~= ov.take(m as int).filter(pred).map_values(
                            |o: (Seq<char>, Seq<char>, StatusWord, int, Seq<char>)| drop_file(o),
                        ).push(drop_file(ov[m as int])));
                    }
                } else {
                    proof {
                        reveal(Seq::filter);
                        assert(!pred(ov[m as int]));
                        assert(ov.take(m + 1).filter(pred) =~~= ov.take(m as int).filter(pred));
                    }
                }
                m = m + 1;
            }
            proof {
                assert(ov.take(ov.len() as int) =~~= ov);
            }
            let ghost g4 = ov.filter(pred).map_values(
                |o: (Seq<char>, Seq<char>, StatusWord, int, Seq<char>)| drop_file(o),
            );
            proof {
                assert(group@.map_values(|o: Occur| occ_view(o)) == g4);
                assert(group@.len() == g4.len()) by {
                    assert(group@.map_values(|o: Occur| occ_view(o)).len() == group@.len());
                }
            }
            if group.len() > 1 && is_true_duplicate(&group) {
                let line = format_dup(f, nm, &group);
                proof {
                    assert(line@ == spec_format_dup(f@, nm@, g4));
                }
                let ghost outdv = out.deep_view();
                let ghost linev = line@;
                out.push(line);
                proof {
                    assert(out.deep_view() =~~= outdv.push(linev));
                }
            }
        }
        proof {
            let fk = ov[k as int].0;
            let nmk = ov[k as int].1;
            if !seen {
                let sp = |o: (Seq<char>, Seq<char>, StatusWord, int, Seq<char>)| o.0 == fk && o.1
                    == nmk;
                assert(pred =~= sp);
                assert(ov.filter(pred) == ov.filter(sp));
            }
            assert(spec_dup_out(ov, k as int, out0) == spec_dup_out(ov, k + 1, out.deep_view()));
        }
        k = k + 1;
    }
    out
}

/// Formats one duplicate report line.
fn format_dup(f: &String, nm: &String, group: &Vec<Occur>) -> (r: String)
    requires
        group@.len() > 0,
    ensures
        r@ == spec_format_dup(f@, nm@, group@.map_values(|o: Occur| occ_view(o))),
{
    let ghost gv = group@.map_values(|o: Occur| occ_view(o));
    let mut r = nm.clone();
    r.append(" (appears ");
    let count = usize_to_string(group.len());
    r.append(count.as_str());
    r.append(" times in ");
    r.append(f.as_str());
    r.append(": ");
    let mut places = String::new();
    let mut i: usize = 0;
    proof {
        assert(places@ =~= Seq::<char>::empty());
        assert(gv.take(0) =~~= Seq::<(Seq<char>, StatusWord, int, Seq<char>)>::empty());
    }
    while i < group.len()
        invariant
            i <= group@.len(),
            gv == group@.map_values(|o: Occur| occ_view(o)),
            gv.len() == group@.len(),
            places@ == spec_places(gv.take(i as int)),
        decreases group@.len() - i,
    {
        if i > 0 {
            places.append(", ");
        }
        places.append("line ");
        let num = usize_to_string(group[i].line_no);
        places.append(num.as_str());
        proof {
            assert(gv[i as int].2 == group@[i as int].line_no as int);
            assert(gv.take(i + 1).drop_last() =~~= gv.take(i as int));
            assert(gv.take(i + 1).last() == gv[i as int]);
            if i == 0 {
                assert(gv.take(1).len() == 1);
                assert(spec_places(gv.take(1)) == spec_place(gv.take(1)[0]));
                assert(gv.take(1)[0] == gv[0]);
            } else {
                assert(gv.take(i + 1).len() >= 2);
            }
        }
        i = i + 1;
    }
    proof {
        assert(gv.take(gv.len() as int) =~~= gv);
    }
    r.append(places.as_str());
    r.append(")");
    r
}

} // verus!
