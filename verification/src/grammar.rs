use vstd::prelude::*;
use crate::status::Outcome;
use crate::text::{
    chars_of, contains_ci, contains_seq, eq_at, eq_at_ci, find_pat, is_word_char, is_ws,
    lemma_lower_subrange, lemma_spec_first_skip, lemma_trim_end_take, match_at, seq_contains,
    spec_find, spec_first, spec_is_word, spec_is_ws, spec_lower, spec_trim, spec_trim_end, str_eq,
    to_lower_vec, trimmed_eq_ci, vec_sub,
};

verus! {

/// One of the four status tokens the log grammar recognizes. `error` is kept
/// apart from `failed` because the diagnostic-context filters treat the two
/// words differently, though both classify a test as failed.
#[derive(Clone, Copy, PartialEq, Eq, Structural, Debug)]
pub enum StatusWord {
    Okay,
    Failed,
    Ignored,
    Error,
}

/// The token's spelling, lower-case.
pub open spec fn word_chars(w: StatusWord) -> Seq<char> {
    match w {
        StatusWord::Okay => "ok"@,
        StatusWord::Failed => "failed"@,
        StatusWord::Ignored => "ignored"@,
        StatusWord::Error => "error"@,
    }
}

/// The classification a status token stands for: `error` is normalized to
/// failed.
pub open spec fn word_outcome(w: StatusWord) -> Outcome {
    match w {
        StatusWord::Okay => Outcome::Passed,
        StatusWord::Failed => Outcome::Failed,
        StatusWord::Ignored => Outcome::Ignored,
        StatusWord::Error => Outcome::Failed,
    }
}

pub fn outcome_of_word(w: StatusWord) -> (r: Outcome)
    ensures
        r == word_outcome(w),
{
    match w {
        StatusWord::Okay => Outcome::Passed,
        StatusWord::Failed => Outcome::Failed,
        StatusWord::Ignored => Outcome::Ignored,
        StatusWord::Error => Outcome::Failed,
    }
}

fn word_pattern(w: StatusWord) -> (r: Vec<char>)
    ensures
        r@ == word_chars(w),
{
    match w {
        StatusWord::Okay => chars_of("ok"),
        StatusWord::Failed => chars_of("failed"),
        StatusWord::Ignored => chars_of("ignored"),
        StatusWord::Error => chars_of("error"),
    }
}

/// The status word `w` occurs at position `k` of the lower-cased line.
pub open spec fn word_at(l: Seq<char>, k: int, w: StatusWord) -> bool {
    match_at(spec_lower(l), word_chars(w), k)
}

/// No word character immediately before position `k`.
pub open spec fn boundary_before(l: Seq<char>, k: int) -> bool {
    k == 0 || !spec_is_word(l[k - 1])
}

/// No word character at position `e`.
pub open spec fn boundary_after(l: Seq<char>, e: int) -> bool {
    e == l.len() || !spec_is_word(l[e])
}

/// A status token at position `k` with word boundaries on both sides. The
/// four tokens start with distinct letters, so at most one can match.
pub open spec fn spec_status_word_at(l: Seq<char>, k: int) -> Option<StatusWord> {
    if word_at(l, k, StatusWord::Okay) && boundary_before(l, k) && boundary_after(
        l,
        k + word_chars(StatusWord::Okay).len(),
    ) {
        Some(StatusWord::Okay)
    } else if word_at(l, k, StatusWord::Failed) && boundary_before(l, k) && boundary_after(
        l,
        k + word_chars(StatusWord::Failed).len(),
    ) {
        Some(StatusWord::Failed)
    } else if word_at(l, k, StatusWord::Ignored) && boundary_before(l, k) && boundary_after(
        l,
        k + word_chars(StatusWord::Ignored).len(),
    ) {
        Some(StatusWord::Ignored)
    } else if word_at(l, k, StatusWord::Error) && boundary_before(l, k) && boundary_after(
        l,
        k + word_chars(StatusWord::Error).len(),
    ) {
        Some(StatusWord::Error)
    } else {
        None
    }
}

/// The four token spellings are known in full; in particular none is empty.
pub proof fn lemma_word_chars_len()
    ensures
        word_chars(StatusWord::Okay).len() == 2,
        word_chars(StatusWord::Failed).len() == 6,
        word_chars(StatusWord::Ignored).len() == 7,
        word_chars(StatusWord::Error).len() == 5,
{
    reveal_strlit("ok");
    reveal_strlit("failed");
    reveal_strlit("ignored");
    reveal_strlit("error");
}

fn check_word_at(l: &[char], k: usize, w: StatusWord) -> (r: bool)
    ensures
        r == {
            &&& word_at(l@, k as int, w)
            &&& boundary_before(l@, k as int)
            &&& boundary_after(l@, k + word_chars(w).len())
        },
{
    let pat = word_pattern(w);
    if !eq_at_ci(l, pat.as_slice(), k) {
        return false;
    }
    if k > 0 && is_word_char(l[k - 1]) {
        return false;
    }
    let e = k + pat.len();
    if e < l.len() && is_word_char(l[e]) {
        return false;
    }
    proof {
        assert(spec_lower(l@).len() == l@.len());
        assert(e != l@.len() ==> e < l@.len());
    }
    true
}

/// The status token standing at position `k` of the line, if any.
pub fn status_word_at(l: &[char], k: usize) -> (r: Option<StatusWord>)
    ensures
        r == spec_status_word_at(l@, k as int),
{
    if check_word_at(l, k, StatusWord::Okay) {
        Some(StatusWord::Okay)
    } else if check_word_at(l, k, StatusWord::Failed) {
        Some(StatusWord::Failed)
    } else if check_word_at(l, k, StatusWord::Ignored) {
        Some(StatusWord::Ignored)
    } else if check_word_at(l, k, StatusWord::Error) {
        Some(StatusWord::Error)
    } else {
        None
    }
}

/// Does some position of the line carry a status token?
pub open spec fn spec_has_status_token(l: Seq<char>) -> bool {
    exists|k: int| spec_status_word_at(l, k) is Some
}

pub fn has_status_token(l: &[char]) -> (r: bool)
    ensures
        r == spec_has_status_token(l@),
{
    let mut k: usize = 0;
    while k < l.len()
        invariant
            k <= l@.len(),
            forall|j: int| 0 <= j < k ==> spec_status_word_at(l@, j) is None,
        decreases l@.len() - k,
    {
        if status_word_at(l, k).is_some() {
            return true;
        }
        k = k + 1;
    }
    proof {
        assert(spec_lower(l@).len() == l@.len());
        if spec_has_status_token(l@) {
            lemma_word_chars_len();
            let j = choose|j: int| spec_status_word_at(l@, j) is Some;
            assert(0 <= j < l@.len());
        }
    }
    false
}

/// A line that is one status token and nothing else, whitespace aside.
pub open spec fn spec_standalone_status(l: Seq<char>) -> Option<StatusWord> {
    let t = spec_lower(spec_trim(l));
    if t == "ok"@ {
        Some(StatusWord::Okay)
    } else if t == "failed"@ {
        Some(StatusWord::Failed)
    } else if t == "ignored"@ {
        Some(StatusWord::Ignored)
    } else if t == "error"@ {
        Some(StatusWord::Error)
    } else {
        None
    }
}

pub fn standalone_status(l: &[char]) -> (r: Option<StatusWord>)
    ensures
        r == spec_standalone_status(l@),
{
    let ok = chars_of("ok");
    let failed = chars_of("failed");
    let ignored = chars_of("ignored");
    let error = chars_of("error");
    if trimmed_eq_ci(l, ok.as_slice()) {
        Some(StatusWord::Okay)
    } else if trimmed_eq_ci(l, failed.as_slice()) {
        Some(StatusWord::Failed)
    } else if trimmed_eq_ci(l, ignored.as_slice()) {
        Some(StatusWord::Ignored)
    } else if trimmed_eq_ci(l, error.as_slice()) {
        Some(StatusWord::Error)
    } else {
        None
    }
}

/// `w` stands at the very end of the line once trailing whitespace is
/// dropped, with a word boundary before it.
pub open spec fn end_word(t: Seq<char>, w: StatusWord) -> bool {
    let wc = word_chars(w);
    &&& t.len() >= wc.len()
    &&& match_at(spec_lower(t), wc, t.len() - wc.len())
    &&& boundary_before(t, t.len() - wc.len())
}

/// The status token closing the line (trailing whitespace aside), if any.
pub open spec fn spec_status_at_end(l: Seq<char>) -> Option<StatusWord> {
    let t = spec_trim_end(l);
    if end_word(t, StatusWord::Okay) {
        Some(StatusWord::Okay)
    } else if end_word(t, StatusWord::Failed) {
        Some(StatusWord::Failed)
    } else if end_word(t, StatusWord::Ignored) {
        Some(StatusWord::Ignored)
    } else if end_word(t, StatusWord::Error) {
        Some(StatusWord::Error)
    } else {
        None
    }
}

fn check_end_word(l: &[char], b: usize, w: StatusWord) -> (r: bool)
    requires
        b <= l@.len(),
        spec_trim_end(l@) == l@.take(b as int),
    ensures
        r == end_word(spec_trim_end(l@), w),
{
    let pat = word_pattern(w);
    let ghost t = spec_trim_end(l@);
    if b < pat.len() {
        return false;
    }
    let k = b - pat.len();
    let r1 = eq_at_ci(l, pat.as_slice(), k);
    proof {
        lemma_lower_subrange(l@, k as int, b as int);
        assert(l@.take(b as int).subrange(k as int, k + pat@.len()) =~= l@.subrange(
            k as int,
            b as int,
        ));
        lemma_lower_subrange(l@.take(b as int), k as int, b as int);
        assert(spec_lower(t).subrange(k as int, k + pat@.len()) == spec_lower(
            l@.subrange(k as int, b as int),
        ));
        assert(spec_lower(l@).subrange(k as int, k + pat@.len()) =~= spec_lower(
            l@,
        ).subrange(k as int, b as int));
        assert(spec_lower(l@).subrange(k as int, b as int) =~= spec_lower(
            l@.subrange(k as int, b as int),
        )) by {
            lemma_lower_subrange(l@, k as int, b as int);
        }
    }
    if !r1 {
        proof {
            if end_word(t, w) {
                assert(match_at(spec_lower(t), word_chars(w), k as int));
                assert(spec_lower(t).subrange(k as int, k + pat@.len()) == pat@);
            }
        }
        return false;
    }
    let r2 = if k == 0 {
        true
    } else {
        !is_word_char(l[k - 1])
    };
    proof {
        if k > 0 {
            assert(t[k - 1] == l@[k - 1]);
        }
        assert(match_at(spec_lower(t), pat@, k as int)) by {
            assert(spec_lower(t).subrange(k as int, k + pat@.len()) == spec_lower(
                l@,
            ).subrange(k as int, k + pat@.len()));
        }
    }
    r2
}

/// Computes the end of the line once trailing whitespace is dropped.
fn trim_end_bound(l: &[char]) -> (b: usize)
    ensures
        b <= l@.len(),
        spec_trim_end(l@) == l@.take(b as int),
{
    let mut b = l.len();
    while b > 0 && is_ws(l[b - 1])
        invariant
            b <= l@.len(),
            forall|k: int| b <= k < l@.len() ==> spec_is_ws(l@[k]),
        decreases b,
    {
        b = b - 1;
    }
    proof {
        lemma_trim_end_take(l@, b as int);
    }
    b
}

pub fn status_at_end(l: &[char]) -> (r: Option<StatusWord>)
    ensures
        r == spec_status_at_end(l@),
{
    let b = trim_end_bound(l);
    if check_end_word(l, b, StatusWord::Okay) {
        Some(StatusWord::Okay)
    } else if check_end_word(l, b, StatusWord::Failed) {
        Some(StatusWord::Failed)
    } else if check_end_word(l, b, StatusWord::Ignored) {
        Some(StatusWord::Ignored)
    } else if check_end_word(l, b, StatusWord::Error) {
        Some(StatusWord::Error)
    } else {
        None
    }
}

/// The status token opening the line, with a word boundary after it, if any.
pub open spec fn spec_status_at_start(l: Seq<char>) -> Option<StatusWord> {
    if word_at(l, 0, StatusWord::Okay) && boundary_after(l, word_chars(StatusWord::Okay).len() as int) {
        Some(StatusWord::Okay)
    } else if word_at(l, 0, StatusWord::Failed) && boundary_after(
        l,
        word_chars(StatusWord::Failed).len() as int,
    ) {
        Some(StatusWord::Failed)
    } else if word_at(l, 0, StatusWord::Ignored) && boundary_after(
        l,
        word_chars(StatusWord::Ignored).len() as int,
    ) {
        Some(StatusWord::Ignored)
    } else if word_at(l, 0, StatusWord::Error) && boundary_after(
        l,
        word_chars(StatusWord::Error).len() as int,
    ) {
        Some(StatusWord::Error)
    } else {
        None
    }
}

fn check_start_word(l: &[char], w: StatusWord) -> (r: bool)
    ensures
        r == (word_at(l@, 0, w) && boundary_after(l@, word_chars(w).len() as int)),
{
    let pat = word_pattern(w);
    if !eq_at_ci(l, pat.as_slice(), 0) {
        return false;
    }
    let e = pat.len();
    if e < l.len() && is_word_char(l[e]) {
        return false;
    }
    proof {
        assert(spec_lower(l@).len() == l@.len());
        assert(e != l@.len() ==> e < l@.len());
    }
    true
}

pub fn status_at_start(l: &[char]) -> (r: Option<StatusWord>)
    ensures
        r == spec_status_at_start(l@),
{
    if check_start_word(l, StatusWord::Okay) {
        Some(StatusWord::Okay)
    } else if check_start_word(l, StatusWord::Failed) {
        Some(StatusWord::Failed)
    } else if check_start_word(l, StatusWord::Ignored) {
        Some(StatusWord::Ignored)
    } else if check_start_word(l, StatusWord::Error) {
        Some(StatusWord::Error)
    } else {
        None
    }
}

/// The `test` keyword opens a test line at `t`: it is there case-insensitively,
/// no word character precedes it, and whitespace follows it.
pub open spec fn good_test_kw(l: Seq<char>, t: int) -> bool {
    &&& match_at(spec_lower(l), "test"@, t)
    &&& (t == 0 || !spec_is_word(l[t - 1]))
    &&& t + 4 < l.len() && spec_is_ws(l[t + 4])
}

/// The first position where a `test` keyword opens a test line.
pub open spec fn spec_test_kw(l: Seq<char>) -> Option<int> {
    spec_first(l.len() as int, 0, |t: int| good_test_kw(l, t))
}

/// Decomposes a test line `test NAME ... REST` into the name start, the
/// position of the `...` separator, and the start of the remainder: the name
/// begins at the first non-blank after the keyword and the separator is the
/// first `...` preceded by whitespace.
pub open spec fn spec_line_test(l: Seq<char>) -> Option<(int, int, int)> {
    match spec_test_kw(l) {
        None => None,
        Some(t) => match spec_first(l.len() as int, t + 5, |k: int| !spec_is_ws(l[k])) {
            None => None,
            Some(ns) => match spec_first(
                l.len() as int,
                ns + 1,
                |d: int| match_at(l, "..."@, d) && spec_is_ws(l[d - 1]),
            ) {
                None => None,
                Some(d) => Some((ns, d, d + 3)),
            },
        },
    }
}

/// The test name of a decomposed test line: the characters between the name
/// start and the separator, trailing whitespace dropped.
pub open spec fn spec_test_name(l: Seq<char>, ns: int, d: int) -> Seq<char>
    recommends
        0 <= ns <= d <= l.len(),
{
    spec_trim_end(l.subrange(ns, d))
}

/// Finds the opening `test` keyword of a line, if any.
fn find_test_kw(l: &[char]) -> (r: Option<usize>)
    ensures
        match r {
            Some(t) => spec_test_kw(l@) == Some(t as int) && good_test_kw(l@, t as int),
            None => spec_test_kw(l@) is None,
        },
{
    let pat = chars_of("test");
    let ghost p = |t: int| good_test_kw(l@, t);
    let mut t: usize = 0;
    while t < l.len()
        invariant
            t <= l@.len(),
            pat@ == "test"@,
            p == (|t: int| good_test_kw(l@, t)),
            forall|k: int| 0 <= k < t ==> !#[trigger] p(k),
        decreases l@.len() - t,
    {
        let here = eq_at_ci(l, pat.as_slice(), t) && (t == 0 || !is_word_char(l[t - 1])) && l.len()
            - t > 4 && is_ws(l[t + 4]);
        proof {
            assert(here == good_test_kw(l@, t as int)) by {
                assert((l@.len() - t > 4) == (t + 4 < l@.len()));
            }
            assert(p(t as int) == good_test_kw(l@, t as int));
        }
        if here {
            proof {
                lemma_spec_first_skip(l@.len() as int, 0, t as int, p);
            }
            return Some(t);
        }
        t = t + 1;
    }
    proof {
        lemma_spec_first_skip(l@.len() as int, 0, l@.len() as int, p);
    }
    None
}

/// Decomposes a test line, tying the result to `spec_line_test`.
pub fn line_test(l: &[char]) -> (r: Option<(usize, usize, usize)>)
    ensures
        match r {
            Some((ns, d, rest)) => {
                &&& spec_line_test(l@) == Some((ns as int, d as int, rest as int))
                &&& ns < d
                &&& d + 3 == rest <= l@.len()
                &&& !spec_is_ws(l@[ns as int])
            },
            None => spec_line_test(l@) is None,
        },
{
    let t = match find_test_kw(l) {
        Some(t) => t,
        None => {
            return None;
        },
    };
    let n = l.len();
    proof {
        assert(t + 4 < n);
    }
    let ghost pns = |k: int| !spec_is_ws(l@[k]);
    let mut ns: usize = t + 5;
    loop
        invariant
            t + 5 <= ns <= l@.len(),
            t + 4 < l@.len(),
            n == l@.len(),
            spec_test_kw(l@) == Some(t as int),
            good_test_kw(l@, t as int),
            pns == (|k: int| !spec_is_ws(l@[k])),
            forall|k: int| t + 5 <= k < ns ==> !#[trigger] pns(k),
        ensures
            t + 5 <= ns < l@.len(),
            spec_first(l@.len() as int, t + 5, pns) == Some(ns as int),
            !spec_is_ws(l@[ns as int]),
        decreases l@.len() - ns,
    {
        if ns >= n {
            proof {
                lemma_spec_first_skip(l@.len() as int, t + 5, l@.len() as int, pns);
            }
            return None;
        }
        if !is_ws(l[ns]) {
            proof {
                assert(pns(ns as int));
                lemma_spec_first_skip(l@.len() as int, t + 5, ns as int, pns);
            }
            break;
        }
        proof {
            assert(pns(ns as int) == !spec_is_ws(l@[ns as int]));
        }
        ns = ns + 1;
    }
    proof {
        assert(spec_first(l@.len() as int, t + 5, |k: int| !spec_is_ws(l@[k])) == Some(
            ns as int,
        ));
    }
    let dots = chars_of("...");
    let ghost pd = |d: int| match_at(l@, "..."@, d) && spec_is_ws(l@[d - 1]);
    let mut d: usize = ns + 1;
    loop
        invariant
            ns + 1 <= d <= l@.len(),
            ns < l@.len(),
            n == l@.len(),
            dots@ == "..."@,
            spec_test_kw(l@) == Some(t as int),
            spec_first(l@.len() as int, t + 5, |k: int| !spec_is_ws(l@[k])) == Some(ns as int),
            !spec_is_ws(l@[ns as int]),
            pd == (|d: int| match_at(l@, "..."@, d) && spec_is_ws(l@[d - 1])),
            forall|k: int| ns + 1 <= k < d ==> !#[trigger] pd(k),
        ensures
            ns + 1 <= d <= l@.len(),
            spec_first(l@.len() as int, ns + 1, pd) == Some(d as int),
            match_at(l@, "..."@, d as int),
        decreases l@.len() - d,
    {
        if d >= n {
            proof {
                lemma_spec_first_skip(l@.len() as int, ns + 1, l@.len() as int, pd);
            }
            return None;
        }
        if eq_at(l, dots.as_slice(), d) && is_ws(l[d - 1]) {
            proof {
                assert(pd(d as int));
                lemma_spec_first_skip(l@.len() as int, ns + 1, d as int, pd);
            }
            break;
        }
        proof {
            assert(pd(d as int) == (match_at(l@, "..."@, d as int) && spec_is_ws(
                l@[d - 1],
            )));
        }
        d = d + 1;
    }
    proof {
        assert(spec_first(
            l@.len() as int,
            ns + 1,
            |d: int| match_at(l@, "..."@, d) && spec_is_ws(l@[d - 1]),
        ) == Some(d as int));
        reveal_strlit("...");
    }
    Some((ns, d, d + 3))
}

/// Computes the end of the name: trailing whitespace before the separator is
/// dropped.
pub fn test_name_end(l: &[char], ns: usize, d: usize) -> (ne: usize)
    requires
        ns < d <= l@.len(),
        !spec_is_ws(l@[ns as int]),
    ensures
        ns < ne <= d,
        l@.subrange(ns as int, ne as int) == spec_test_name(l@, ns as int, d as int),
{
    let mut ne: usize = d;
    while ne > ns + 1 && is_ws(l[ne - 1])
        invariant
            ns < ne <= d <= l@.len(),
            forall|k: int| ne <= k < d ==> spec_is_ws(l@[k]),
        decreases ne,
    {
        ne = ne - 1;
    }
    proof {
        let sub = l@.subrange(ns as int, d as int);
        if ne == ns + 1 {
            assert(!spec_is_ws(sub[0]));
        } else {
            assert(!spec_is_ws(sub[ne - ns - 1]));
        }
        lemma_trim_end_take(sub, ne - ns);
        assert(sub.take(ne - ns) =~= l@.subrange(ns as int, ne as int));
    }
    ne
}

/// Whitespace or the end of the line at position `e`.
pub open spec fn ws_or_end(l: Seq<char>, e: int) -> bool {
    e == l.len() || spec_is_ws(l[e])
}

/// A status token standing at `k` and followed by whitespace or the end of
/// the line, as the remainder of a direct test line demands.
pub open spec fn head_word_at(l: Seq<char>, k: int) -> Option<StatusWord> {
    if word_at(l, k, StatusWord::Okay) && ws_or_end(l, k + word_chars(StatusWord::Okay).len()) {
        Some(StatusWord::Okay)
    } else if word_at(l, k, StatusWord::Failed) && ws_or_end(
        l,
        k + word_chars(StatusWord::Failed).len(),
    ) {
        Some(StatusWord::Failed)
    } else if word_at(l, k, StatusWord::Ignored) && ws_or_end(
        l,
        k + word_chars(StatusWord::Ignored).len(),
    ) {
        Some(StatusWord::Ignored)
    } else if word_at(l, k, StatusWord::Error) && ws_or_end(
        l,
        k + word_chars(StatusWord::Error).len(),
    ) {
        Some(StatusWord::Error)
    } else {
        None
    }
}

/// The remainder of a test line names a status directly when at least one
/// whitespace character follows the separator and then a status token comes,
/// closed by whitespace or the line's end.
pub open spec fn spec_rest_status(l: Seq<char>, rest: int) -> Option<StatusWord> {
    if 0 <= rest < l.len() && spec_is_ws(l[rest]) {
        match spec_first(l.len() as int, rest, |k: int| !spec_is_ws(l[k])) {
            None => None,
            Some(k) => head_word_at(l, k),
        }
    } else {
        None
    }
}

fn check_head_word(l: &[char], k: usize, w: StatusWord) -> (r: bool)
    ensures
        r == (word_at(l@, k as int, w) && ws_or_end(l@, k + word_chars(w).len())),
{
    let pat = word_pattern(w);
    let n = l.len();
    if !eq_at_ci(l, pat.as_slice(), k) {
        return false;
    }
    proof {
        assert(spec_lower(l@).len() == l@.len());
        assert(k + pat@.len() <= n);
    }
    let e = k + pat.len();
    proof {
        assert(e != l@.len() ==> e < l@.len());
    }
    e == n || is_ws(l[e])
}

fn head_word(l: &[char], k: usize) -> (r: Option<StatusWord>)
    ensures
        r == head_word_at(l@, k as int),
{
    if check_head_word(l, k, StatusWord::Okay) {
        Some(StatusWord::Okay)
    } else if check_head_word(l, k, StatusWord::Failed) {
        Some(StatusWord::Failed)
    } else if check_head_word(l, k, StatusWord::Ignored) {
        Some(StatusWord::Ignored)
    } else if check_head_word(l, k, StatusWord::Error) {
        Some(StatusWord::Error)
    } else {
        None
    }
}

/// Reads the status that the remainder of a test line names directly, if any.
pub fn rest_status(l: &[char], rest: usize) -> (r: Option<StatusWord>)
    requires
        rest <= l@.len(),
    ensures
        r == spec_rest_status(l@, rest as int),
{
    let n = l.len();
    if rest >= n || !is_ws(l[rest]) {
        return None;
    }
    let ghost p = |k: int| !spec_is_ws(l@[k]);
    let mut k: usize = rest;
    loop
        invariant
            rest <= k <= l@.len(),
            n == l@.len(),
            rest < l@.len() && spec_is_ws(l@[rest as int]),
            p == (|k: int| !spec_is_ws(l@[k])),
            forall|j: int| rest <= j < k ==> !#[trigger] p(j),
        ensures
            rest <= k < l@.len(),
            spec_first(l@.len() as int, rest as int, p) == Some(k as int),
        decreases l@.len() - k,
    {
        if k >= n {
            proof {
                lemma_spec_first_skip(l@.len() as int, rest as int, l@.len() as int, p);
            }
            return None;
        }
        if !is_ws(l[k]) {
            proof {
                assert(p(k as int));
                lemma_spec_first_skip(l@.len() as int, rest as int, k as int, p);
            }
            break;
        }
        proof {
            assert(p(k as int) == !spec_is_ws(l@[k as int]));
        }
        k = k + 1;
    }
    proof {
        assert(spec_first(l@.len() as int, rest as int, |k: int| !spec_is_ws(l@[k])) == Some(
            k as int,
        ));
    }
    head_word(l, k)
}

/// An `error` status token sitting in a line that reads like a diagnostic
/// message is evidence of a panic payload, not a verdict.
pub open spec fn spec_is_diagnostic_error(status: Seq<char>, line: Seq<char>) -> bool {
    &&& status == "error"@
    &&& {
        let ll = spec_lower(line);
        ||| seq_contains(ll, "error:"@)
        ||| seq_contains(ll, "panic"@)
        ||| seq_contains(ll, "custom"@)
        ||| seq_contains(ll, "called `result::unwrap()"@)
        ||| seq_contains(ll, "thread"@)
        ||| seq_contains(ll, "kind:"@)
    }
}

/// Is an `error` token on this line part of clear diagnostic phrasing rather
/// than a test verdict?
pub fn is_diagnostic_error(status: &str, line: &str) -> (r: bool)
    ensures
        r == spec_is_diagnostic_error(status@, line@),
{
    if !str_eq(status, "error") {
        return false;
    }
    let lc = chars_of(line);
    let l = lc.as_slice();
    contains_ci(l, chars_of("error:").as_slice()) || contains_ci(l, chars_of("panic").as_slice())
        || contains_ci(l, chars_of("custom").as_slice()) || contains_ci(
        l,
        chars_of("called `result::unwrap()").as_slice(),
    ) || contains_ci(l, chars_of("thread").as_slice()) || contains_ci(
        l,
        chars_of("kind:").as_slice(),
    )
}

/// A status token whose first occurrence in the line sits between diagnostic
/// phrasing (an `error:`/`panic` before it, a `value:`/`kind:` after it) is
/// part of a printed value, not a verdict.
pub open spec fn spec_status_in_diagnostic_context(status: Seq<char>, line: Seq<char>) -> bool {
    let ll = spec_lower(line);
    match spec_find(ll, status) {
        Some(pos) => {
            let before = ll.take(pos);
            let after = ll.skip(pos + status.len());
            ||| seq_contains(before, "error:"@)
            ||| seq_contains(before, "panic"@)
            ||| seq_contains(after, "value:"@)
            ||| seq_contains(after, "kind:"@)
        },
        None => false,
    }
}

/// Does the status word appear only inside diagnostic phrasing on this line?
pub fn is_status_in_diagnostic_context(status: &str, line: &str) -> (r: bool)
    ensures
        r == spec_status_in_diagnostic_context(status@, line@),
{
    let st = chars_of(status);
    let lc = chars_of(line);
    let ll = to_lower_vec(lc.as_slice());
    match find_pat(ll.as_slice(), st.as_slice()) {
        Some(pos) => {
            let n = ll.len();
            proof {
                assert(pos + st@.len() <= n);
            }
            let before = vec_sub(ll.as_slice(), 0, pos);
            let after = vec_sub(ll.as_slice(), pos + st.len(), n);
            proof {
                assert(before@ =~= spec_lower(line@).take(pos as int));
                assert(after@ =~= spec_lower(line@).skip(pos + status@.len()));
            }
            contains_seq(before.as_slice(), chars_of("error:").as_slice()) || contains_seq(
                before.as_slice(),
                chars_of("panic").as_slice(),
            ) || contains_seq(after.as_slice(), chars_of("value:").as_slice()) || contains_seq(
                after.as_slice(),
                chars_of("kind:").as_slice(),
            )
        },
        None => false,
    }
}

/// The token's spelling, as a string slice.
pub fn word_text(w: StatusWord) -> (r: &'static str)
    ensures
        r@ == word_chars(w),
{
    match w {
        StatusWord::Okay => "ok",
        StatusWord::Failed => "failed",
        StatusWord::Ignored => "ignored",
        StatusWord::Error => "error",
    }
}

/// As `is_diagnostic_error`, for a status token and a line held as
/// characters.
pub fn diag_error_chars(w: StatusWord, l: &[char]) -> (r: bool)
    ensures
        r == spec_is_diagnostic_error(word_chars(w), l@),
{
    if !matches!(w, StatusWord::Error) {
        proof {
            assert(word_chars(w) != "error"@) by {
                lemma_word_chars_len();
                reveal_strlit("error");
                assert("error"@.len() == 5);
                if w is Okay {
                    assert(word_chars(w).len() == 2);
                } else if w is Failed {
                    assert(word_chars(w).len() == 6);
                } else {
                    assert(word_chars(w).len() == 7);
                }
            }
        }
        return false;
    }
    contains_ci(l, chars_of("error:").as_slice()) || contains_ci(l, chars_of("panic").as_slice())
        || contains_ci(l, chars_of("custom").as_slice()) || contains_ci(
        l,
        chars_of("called `result::unwrap()").as_slice(),
    ) || contains_ci(l, chars_of("thread").as_slice()) || contains_ci(
        l,
        chars_of("kind:").as_slice(),
    )
}

/// As `is_status_in_diagnostic_context`, for a status token and a line held
/// as characters.
pub fn diag_context_chars(w: StatusWord, l: &[char]) -> (r: bool)
    ensures
        r == spec_status_in_diagnostic_context(word_chars(w), l@),
{
    let st = chars_of(word_text(w));
    let ll = to_lower_vec(l);
    match find_pat(ll.as_slice(), st.as_slice()) {
        Some(pos) => {
            let n = ll.len();
            proof {
                assert(pos + st@.len() <= n);
            }
            let before = vec_sub(ll.as_slice(), 0, pos);
            let after = vec_sub(ll.as_slice(), pos + st.len(), n);
            proof {
                assert(before@ =~= spec_lower(l@).take(pos as int));
                assert(after@ =~= spec_lower(l@).skip(pos + word_chars(w).len()));
            }
            contains_seq(before.as_slice(), chars_of("error:").as_slice()) || contains_seq(
                before.as_slice(),
                chars_of("panic").as_slice(),
            ) || contains_seq(after.as_slice(), chars_of("value:").as_slice()) || contains_seq(
                after.as_slice(),
                chars_of("kind:").as_slice(),
            )
        },
        None => false,
    }
}

/// Markers of interleaved logging output: a failed-looking token on such a
/// line is distrusted unless a panic for the very test is in evidence.
pub open spec fn spec_has_logging_marker(line: Seq<char>) -> bool {
    let ll = spec_lower(line);
    ||| seq_contains(ll, "logging at"@)
    ||| seq_contains(ll, "debug:"@)
    ||| seq_contains(ll, "trace:"@)
    ||| seq_contains(ll, "info:"@)
    ||| seq_contains(ll, "warn:"@)
}

pub fn has_logging_marker(line: &[char]) -> (r: bool)
    ensures
        r == spec_has_logging_marker(line@),
{
    contains_ci(line, chars_of("logging at").as_slice()) || contains_ci(
        line,
        chars_of("debug:").as_slice(),
    ) || contains_ci(line, chars_of("trace:").as_slice()) || contains_ci(
        line,
        chars_of("info:").as_slice(),
    ) || contains_ci(line, chars_of("warn:").as_slice())
}

/// The text a panicking test leaves in a log: `thread '<name>'`. The name is
/// matched case-insensitively, deliberately: the surrounding line is
/// lower-cased before searching, and a mixed-case test name must still count
/// as panic evidence for itself.
pub open spec fn spec_panic_needle(name: Seq<char>) -> Seq<char> {
    "thread '"@ + spec_lower(name) + "'"@
}

/// Is there, in `lines[lo..hi]`, a panic attributed to this very test?
pub open spec fn spec_panic_evidence(
    lines: Seq<Seq<char>>,
    name: Seq<char>,
    lo: int,
    hi: int,
) -> bool {
    exists|j: int|
        lo <= j < hi && 0 <= j < lines.len() && seq_contains(
            spec_lower(lines[j]),
            spec_panic_needle(name),
        ) && seq_contains(spec_lower(lines[j]), "panicked at"@)
}

/// Scans a window of lines for a panic naming this test; the name is
/// matched case-insensitively (see `spec_panic_needle`).
pub fn has_panic_evidence(test_name: &str, lines: &Vec<Vec<char>>, lo: usize, hi: usize) -> (r:
    bool)
    requires
        hi <= lines@.len(),
    ensures
        r == spec_panic_evidence(lines.deep_view(), test_name@, lo as int, hi as int),
{
    let mut needle = chars_of("thread '");
    let mut namelow = to_lower_vec(chars_of(test_name).as_slice());
    needle.append(&mut namelow);
    needle.push('\'');
    proof {
        reveal_strlit("'");
        assert(needle@ =~= spec_panic_needle(test_name@));
    }
    let panicked = chars_of("panicked at");
    let mut j: usize = lo;
    while j < hi
        invariant
            hi <= lines@.len(),
            lo <= j,
            needle@ == spec_panic_needle(test_name@),
            panicked@ == "panicked at"@,
            forall|k: int|
                lo <= k < j ==> !(seq_contains(
                    spec_lower(lines.deep_view()[k]),
                    spec_panic_needle(test_name@),
                ) && seq_contains(spec_lower(lines.deep_view()[k]), "panicked at"@)),
        decreases hi - j,
    {
        let line = &lines[j];
        proof {
            assert(line@ == lines.deep_view()[j as int]);
        }
        if contains_ci(line.as_slice(), needle.as_slice()) && contains_ci(
            line.as_slice(),
            panicked.as_slice(),
        ) {
            return true;
        }
        j = j + 1;
    }
    false
}

} // verus!
