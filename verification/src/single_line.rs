use vstd::prelude::*;
use crate::grammar::{
    good_test_kw, spec_has_logging_marker, spec_panic_needle, spec_status_at_start,
    has_logging_marker, status_at_start, word_at, word_chars, word_outcome, outcome_of_word,
    StatusWord,
};
use crate::status::{
    into_parsed_log, outcome_names, spec_record, Classification, Outcome, ParsedLog,
};
use crate::text::{
    chars_of, contains_ci, eq_at_ci, is_ws, lemma_spec_first_skip, lines_of, match_at,
    seq_contains, spec_first, spec_is_ws, spec_lines, spec_lower, spec_trim, string_from_range,
    to_lower_vec, vec_sub,
};
use crate::extract::{spec_last_status4, last_status4_pub, spec_line_direct, line_direct};

verus! {

/// A compact test start inside unanchored text: the `test` keyword, a
/// non-blank name, then a run of at least two dots, whitespace allowed in
/// between. Yields the name bounds and the end of the dot run.
pub open spec fn spec_compact_start(s: Seq<char>, t: int) -> Option<(int, int, int)> {
    if !good_test_kw(s, t) {
        None
    } else {
        match spec_first(s.len() as int, t + 5, |k: int| !spec_is_ws(s[k])) {
            None => None,
            Some(n0) => match spec_first(
                s.len() as int,
                n0,
                |e: int| spec_is_ws(s[e]) || (s[e] == '.' && e + 1 < s.len() && s[e + 1] == '.'),
            ) {
                None => None,
                Some(e) => if e == n0 {
                    None
                } else {
                    match spec_first(s.len() as int, e, |p: int| !spec_is_ws(s[p])) {
                        None => None,
                        Some(p) => if p + 1 < s.len() && s[p] == '.' && s[p + 1] == '.' {
                            let q = match spec_first(s.len() as int, p, |x: int| s[x] != '.') {
                                Some(x) => x,
                                None => s.len() as int,
                            };
                            Some((n0, e, q))
                        } else {
                            None
                        },
                    }
                },
            },
        }
    }
}

/// A full compact match: a compact start whose dot run is followed, after
/// optional whitespace, by a status token. Yields the name bounds, the token
/// and the position right after it.
pub open spec fn spec_compact_at(s: Seq<char>, t: int) -> Option<(int, int, StatusWord, int)> {
    match spec_compact_start(s, t) {
        None => None,
        Some((n0, e, q)) => match spec_first(s.len() as int, q, |k: int| !spec_is_ws(s[k])) {
            None => None,
            Some(k) => {
                if word_at(s, k, StatusWord::Okay) {
                    Some((n0, e, StatusWord::Okay, k + word_chars(StatusWord::Okay).len()))
                } else if word_at(s, k, StatusWord::Failed) {
                    Some((n0, e, StatusWord::Failed, k + word_chars(StatusWord::Failed).len()))
                } else if word_at(s, k, StatusWord::Ignored) {
                    Some((n0, e, StatusWord::Ignored, k + word_chars(StatusWord::Ignored).len()))
                } else if word_at(s, k, StatusWord::Error) {
                    Some((n0, e, StatusWord::Error, k + word_chars(StatusWord::Error).len()))
                } else {
                    None
                }
            },
        },
    }
}

/// Scans for the first index at or after `from` where `p` does not hold of
/// the character; tied to `spec_first` over the given predicate.
pub fn first_non_ws(s: &[char], from: usize) -> (r: Option<usize>)
    requires
        from <= s@.len(),
    ensures
        match r {
            Some(k) => from <= k < s@.len() && spec_first(
                s@.len() as int,
                from as int,
                |k: int| !spec_is_ws(s@[k]),
            ) == Some(k as int) && !spec_is_ws(s@[k as int]),
            None => spec_first(s@.len() as int, from as int, |k: int| !spec_is_ws(s@[k])) is None,
        },
{
    let ghost p = |k: int| !spec_is_ws(s@[k]);
    let mut k: usize = from;
    while k < s.len()
        invariant
            from <= k <= s@.len(),
            p == (|k: int| !spec_is_ws(s@[k])),
            forall|j: int| from <= j < k ==> !#[trigger] p(j),
        decreases s@.len() - k,
    {
        if !is_ws(s[k]) {
            proof {
                assert(p(k as int));
                lemma_spec_first_skip(s@.len() as int, from as int, k as int, p);
            }
            return Some(k);
        }
        proof {
            assert(p(k as int) == !spec_is_ws(s@[k as int]));
        }
        k = k + 1;
    }
    proof {
        lemma_spec_first_skip(s@.len() as int, from as int, s@.len() as int, p);
    }
    None
}

/// Reads a compact test start at position `t`.
pub fn compact_start(s: &[char], t: usize) -> (r: Option<(usize, usize, usize)>)
    ensures
        match r {
            Some((n0, e, q)) => {
                &&& spec_compact_start(s@, t as int) == Some((n0 as int, e as int, q as int))
                &&& t < n0 < e <= q <= s@.len()
            },
            None => spec_compact_start(s@, t as int) is None,
        },
{
    let kw = chars_of("test");
    let n = s.len();
    let good = eq_at_ci(s, kw.as_slice(), t) && (t == 0 || !crate::text::is_word_char(
        s[t - 1],
    )) && n - t > 4 && is_ws(s[t + 4]);
    proof {
        assert(good == good_test_kw(s@, t as int)) by {
            assert((n - t > 4) == (t + 4 < s@.len()));
        }
    }
    if !good {
        return None;
    }
    let n0 = match first_non_ws(s, t + 5) {
        Some(k) => k,
        None => {
            return None;
        },
    };
    let ghost pe = |e: int| spec_is_ws(s@[e]) || (s@[e] == '.' && e + 1 < s@.len() && s@[e + 1]
        == '.');
    let mut e: usize = n0;
    loop
        invariant
            n0 <= e <= s@.len(),
            n == s@.len(),
            t + 5 <= n0,
            good_test_kw(s@, t as int),
            spec_first(s@.len() as int, t + 5, |k: int| !spec_is_ws(s@[k])) == Some(n0 as int),
            pe == (|e: int| spec_is_ws(s@[e]) || (s@[e] == '.' && e + 1 < s@.len() && s@[e + 1]
                == '.')),
            forall|j: int| n0 <= j < e ==> !#[trigger] pe(j),
        ensures
            n0 <= e < s@.len(),
            spec_first(s@.len() as int, n0 as int, pe) == Some(e as int),
        decreases s@.len() - e,
    {
        if e >= n {
            proof {
                lemma_spec_first_skip(s@.len() as int, n0 as int, s@.len() as int, pe);
            }
            return None;
        }
        if is_ws(s[e]) || (s[e] == '.' && e + 1 < n && s[e + 1] == '.') {
            proof {
                assert(pe(e as int));
                lemma_spec_first_skip(s@.len() as int, n0 as int, e as int, pe);
            }
            break;
        }
        proof {
            assert(pe(e as int) == (spec_is_ws(s@[e as int]) || (s@[e as int] == '.' && e + 1
                < s@.len() && s@[e + 1] == '.')));
        }
        e = e + 1;
    }
    proof {
        assert(spec_first(
            s@.len() as int,
            n0 as int,
            |e: int| spec_is_ws(s@[e]) || (s@[e] == '.' && e + 1 < s@.len() && s@[e + 1] == '.'),
        ) == Some(e as int));
    }
    if e == n0 {
        return None;
    }
    let p = match first_non_ws(s, e) {
        Some(k) => k,
        None => {
            return None;
        },
    };
    if !(p + 1 < n && s[p] == '.' && s[p + 1] == '.') {
        return None;
    }
    let ghost pq = |x: int| s@[x] != '.';
    let mut q: usize = p;
    loop
        invariant
            p <= q <= s@.len(),
            n == s@.len(),
            pq == (|x: int| s@[x] != '.'),
            forall|j: int| p <= j < q ==> !#[trigger] pq(j),
        ensures
            p <= q <= s@.len(),
            (if q < s@.len() {
                spec_first(s@.len() as int, p as int, pq) == Some(q as int)
            } else {
                spec_first(s@.len() as int, p as int, pq) is None
            }),
        decreases s@.len() - q,
    {
        if q >= n {
            proof {
                lemma_spec_first_skip(s@.len() as int, p as int, s@.len() as int, pq);
            }
            break;
        }
        if s[q] != '.' {
            proof {
                assert(pq(q as int));
                lemma_spec_first_skip(s@.len() as int, p as int, q as int, pq);
            }
            break;
        }
        proof {
            assert(pq(q as int) == (s@[q as int] != '.'));
        }
        q = q + 1;
    }
    Some((n0, e, q))
}

pub fn plain_word(s: &[char], k: usize, w: StatusWord) -> (r: bool)
    ensures
        r == word_at(s@, k as int, w),
{
    let pat = match w {
        StatusWord::Okay => chars_of("ok"),
        StatusWord::Failed => chars_of("failed"),
        StatusWord::Ignored => chars_of("ignored"),
        StatusWord::Error => chars_of("error"),
    };
    eq_at_ci(s, pat.as_slice(), k)
}

/// Reads a full compact match at position `t`.
pub fn compact_at(s: &[char], t: usize) -> (r: Option<(usize, usize, StatusWord, usize)>)
    ensures
        match r {
            Some((n0, e, w, end)) => {
                &&& spec_compact_at(s@, t as int) == Some((n0 as int, e as int, w, end as int))
                &&& t < n0 < e < end <= s@.len()
            },
            None => spec_compact_at(s@, t as int) is None,
        },
{
    let n = s.len();
    let (n0, e, q) = match compact_start(s, t) {
        Some(x) => x,
        None => {
            return None;
        },
    };
    let k = match first_non_ws(s, q) {
        Some(k) => k,
        None => {
            return None;
        },
    };
    proof {
        crate::grammar::lemma_word_chars_len();
        assert(crate::text::spec_lower(s@).len() == s@.len());
    }
    if plain_word(s, k, StatusWord::Okay) {
        Some((n0, e, StatusWord::Okay, k + 2))
    } else if plain_word(s, k, StatusWord::Failed) {
        Some((n0, e, StatusWord::Failed, k + 6))
    } else if plain_word(s, k, StatusWord::Ignored) {
        Some((n0, e, StatusWord::Ignored, k + 7))
    } else if plain_word(s, k, StatusWord::Error) {
        Some((n0, e, StatusWord::Error, k + 5))
    } else {
        None
    }
}


/// One of the file extensions a path-shaped UI-test name may carry.
pub open spec fn spec_ui_ext_at(l: Seq<char>, e: int) -> bool {
    ||| (e >= 3 && match_at(spec_lower(l), ".rs"@, e - 3))
    ||| (e >= 6 && match_at(spec_lower(l), ".fixed"@, e - 6))
    ||| (e >= 5 && match_at(spec_lower(l), ".toml"@, e - 5))
    ||| (e >= 4 && match_at(spec_lower(l), ".txt"@, e - 4))
    ||| (e >= 3 && match_at(spec_lower(l), ".md"@, e - 3))
}

/// A path-based UI-test result line: a path with a known extension opens the
/// line, then ` ... `, then a status token, then nothing but whitespace.
pub open spec fn spec_ui_line(l: Seq<char>) -> Option<(Seq<char>, StatusWord)> {
    if l.len() == 0 || spec_is_ws(l[0]) {
        None
    } else {
        let e = match spec_first(l.len() as int, 0, |k: int| spec_is_ws(l[k])) {
            Some(e) => e,
            None => l.len() as int,
        };
        if !spec_ui_ext_at(l, e) || e >= l.len() {
            None
        } else {
            match spec_first(l.len() as int, e, |d: int| !spec_is_ws(l[d])) {
                None => None,
                Some(d) => {
                    if match_at(l, "..."@, d) && d + 3 < l.len() && spec_is_ws(l[d + 3]) {
                        match spec_first(l.len() as int, d + 3, |k: int| !spec_is_ws(l[k])) {
                            None => None,
                            Some(k) => {
                                let w = if word_at(l, k, StatusWord::Okay) {
                                    Some(StatusWord::Okay)
                                } else if word_at(l, k, StatusWord::Failed) {
                                    Some(StatusWord::Failed)
                                } else if word_at(l, k, StatusWord::Ignored) {
                                    Some(StatusWord::Ignored)
                                } else if word_at(l, k, StatusWord::Error) {
                                    Some(StatusWord::Error)
                                } else {
                                    None
                                };
                                match w {
                                    Some(w) => {
                                        let wl = word_chars(w).len() as int;
                                        if spec_first(
                                            l.len() as int,
                                            k + wl,
                                            |x: int| !spec_is_ws(l[x]),
                                        ) is None && k + wl <= l.len() {
                                            Some((l.subrange(0, e), w))
                                        } else {
                                            None
                                        }
                                    },
                                    None => None,
                                }
                            },
                        }
                    } else {
                        None
                    }
                },
            }
        }
    }
}

fn check_ui_ext(l: &[char], e: usize) -> (r: bool)
    requires
        e <= l@.len(),
    ensures
        r == spec_ui_ext_at(l@, e as int),
{
    let rs = chars_of(".rs");
    let fixed = chars_of(".fixed");
    let toml = chars_of(".toml");
    let txt = chars_of(".txt");
    let md = chars_of(".md");
    (e >= 3 && eq_at_ci(l, rs.as_slice(), e - 3)) || (e >= 6 && eq_at_ci(
        l,
        fixed.as_slice(),
        e - 6,
    )) || (e >= 5 && eq_at_ci(l, toml.as_slice(), e - 5)) || (e >= 4 && eq_at_ci(
        l,
        txt.as_slice(),
        e - 4,
    )) || (e >= 3 && eq_at_ci(l, md.as_slice(), e - 3))
}

fn first_ws(l: &[char], from: usize) -> (r: usize)
    requires
        from <= l@.len(),
    ensures
        from <= r <= l@.len(),
        r == (match spec_first(l@.len() as int, from as int, |k: int| spec_is_ws(l@[k])) {
            Some(e) => e,
            None => l@.len() as int,
        }),
{
    let ghost p = |k: int| spec_is_ws(l@[k]);
    let mut k: usize = from;
    while k < l.len()
        invariant
            from <= k <= l@.len(),
            p == (|k: int| spec_is_ws(l@[k])),
            forall|j: int| from <= j < k ==> !#[trigger] p(j),
        decreases l@.len() - k,
    {
        if is_ws(l[k]) {
            proof {
                assert(p(k as int));
                lemma_spec_first_skip(l@.len() as int, from as int, k as int, p);
            }
            return k;
        }
        proof {
            assert(p(k as int) == spec_is_ws(l@[k as int]));
        }
        k = k + 1;
    }
    proof {
        lemma_spec_first_skip(l@.len() as int, from as int, l@.len() as int, p);
    }
    l.len()
}

/// Reads a UI-test result line.
pub fn ui_line(l: &[char]) -> (r: Option<(String, StatusWord)>)
    ensures
        match r {
            Some((name, w)) => spec_ui_line(l@) == Some((name@, w)),
            None => spec_ui_line(l@) is None,
        },
{
    proof {
        assert(spec_lower(l@).len() == l@.len());
        crate::grammar::lemma_word_chars_len();
    }
    if l.len() == 0 || is_ws(l[0]) {
        return None;
    }
    let e = first_ws(l, 0);
    if !check_ui_ext(l, e) || e >= l.len() {
        return None;
    }
    let d = match first_non_ws(l, e) {
        Some(d) => d,
        None => {
            return None;
        },
    };
    let dots = chars_of("...");
    proof {
        reveal_strlit("...");
    }
    if !(crate::text::eq_at(l, dots.as_slice(), d) && l.len() - d > 3 && is_ws(l[d + 3])) {
        return None;
    }
    let k = match first_non_ws(l, d + 3) {
        Some(k) => k,
        None => {
            return None;
        },
    };
    let w = if plain_word(l, k, StatusWord::Okay) {
        StatusWord::Okay
    } else if plain_word(l, k, StatusWord::Failed) {
        StatusWord::Failed
    } else if plain_word(l, k, StatusWord::Ignored) {
        StatusWord::Ignored
    } else if plain_word(l, k, StatusWord::Error) {
        StatusWord::Error
    } else {
        return None;
    };
    let wl = match w {
        StatusWord::Okay => 2,
        StatusWord::Failed => 6,
        StatusWord::Ignored => 7,
        StatusWord::Error => 5,
    };
    match first_non_ws(l, k + wl) {
        Some(_) => None,
        None => Some((string_from_range(l, 0, e), w)),
    }
}

/// Does the window hold a panic attributed to this very test?
pub open spec fn spec_window_panic(window: Seq<char>, name: Seq<char>) -> bool {
    &&& seq_contains(spec_lower(window), spec_panic_needle(name))
    &&& seq_contains(spec_lower(window), "panicked at"@)
}

fn window_panic(window: &[char], name: &str) -> (r: bool)
    ensures
        r == spec_window_panic(window@, name@),
{
    let mut needle = chars_of("thread '");
    let mut namelow = to_lower_vec(chars_of(name).as_slice());
    needle.append(&mut namelow);
    needle.push('\'');
    proof {
        reveal_strlit("'");
        assert(needle@ =~= spec_panic_needle(name@));
    }
    contains_ci(window, needle.as_slice()) && contains_ci(
        window,
        chars_of("panicked at").as_slice(),
    )
}

/// The last line of the window that opens with a status token the
/// logging-marker rule lets stand.
pub open spec fn spec_last_start_line(
    wl: Seq<Seq<char>>,
    window: Seq<char>,
    name: Seq<char>,
    j: int,
) -> Option<StatusWord>
    decreases j,
    when 0 <= j <= wl.len()
{
    if j <= 0 {
        None
    } else {
        match spec_status_at_start(wl[j - 1]) {
            Some(w) => if word_outcome(w) == Outcome::Failed && spec_has_logging_marker(
                wl[j - 1],
            ) {
                if spec_window_panic(window, name) {
                    Some(w)
                } else {
                    spec_last_start_line(wl, window, name, j - 1)
                }
            } else {
                Some(w)
            },
            None => spec_last_start_line(wl, window, name, j - 1),
        }
    }
}

/// The verdict the harder-cases pass reads out of one window: the last
/// qualifying line-opening status, or else the last free-standing status
/// token that the error-context filter lets stand.
pub open spec fn spec_window_status(window: Seq<char>, name: Seq<char>) -> Option<StatusWord> {
    let wl = spec_lines(window);
    match spec_last_start_line(wl, window, name, wl.len() as int) {
        Some(w) => Some(w),
        None => spec_last_status4(window, window.len() as int),
    }
}

fn window_status(window: &[char], name: &str) -> (r: Option<StatusWord>)
    ensures
        r == spec_window_status(window@, name@),
{
    let wlines = lines_of(window);
    let ghost wl = spec_lines(window@);
    let panics = window_panic(window, name);
    let mut j: usize = wlines.len();
    proof {
        assert(wlines.deep_view() == wl);
        assert(wlines@.len() == wl.len());
    }
    while j > 0
        invariant
            j <= wl.len(),
            wl == spec_lines(window@),
            wlines.deep_view() == wl,
            wlines@.len() == wl.len(),
            panics == spec_window_panic(window@, name@),
            spec_last_start_line(wl, window@, name@, wl.len() as int) == spec_last_start_line(
                wl,
                window@,
                name@,
                j as int,
            ),
        decreases j,
    {
        let line = &wlines[j - 1];
        proof {
            assert(line@ == wl[j - 1]);
        }
        match status_at_start(line.as_slice()) {
            Some(w) => {
                if matches!(outcome_of_word(w), Outcome::Failed) && has_logging_marker(
                    line.as_slice(),
                ) {
                    if panics {
                        proof {
                            assert(spec_last_start_line(wl, window@, name@, j as int) == Some(
                                w,
                            ));
                        }
                        return Some(w);
                    }
                } else {
                    proof {
                        assert(spec_last_start_line(wl, window@, name@, j as int) == Some(w));
                    }
                    return Some(w);
                }
            },
            None => {},
        }
        j = j - 1;
    }
    last_status4_pub(window)
}

/// First sub-pass of the single-line strategy: every full compact match in
/// the text records its signal.
pub open spec fn spec_passa(m: Map<Seq<char>, Outcome>, s: Seq<char>, pos: int) -> Map<
    Seq<char>,
    Outcome,
>
    decreases s.len() - pos,
    when 0 <= pos <= s.len()
{
    match spec_first(s.len() as int, pos, |t: int| spec_compact_at(s, t) is Some) {
        None => m,
        Some(t) => {
            let (n0, e, w, end) = spec_compact_at(s, t)->Some_0;
            if pos < end <= s.len() {
                spec_passa(spec_record(m, s.subrange(n0, e), word_outcome(w)), s, end)
            } else {
                m
            }
        },
    }
}

/// Per-line sub-passes of the single-line strategy: the direct line grammar,
/// then the UI-test line grammar.
pub open spec fn spec_pass_lines(m: Map<Seq<char>, Outcome>, lines: Seq<Seq<char>>, i: int) -> Map<
    Seq<char>,
    Outcome,
>
    decreases lines.len() - i,
    when 0 <= i <= lines.len()
{
    if i >= lines.len() {
        m
    } else {
        let m1 = match spec_line_direct(lines[i]) {
            Some((name, w)) => spec_record(m, name, word_outcome(w)),
            None => m,
        };
        let m2 = match spec_ui_line(lines[i]) {
            Some((name, w)) => spec_record(m1, name, word_outcome(w)),
            None => m1,
        };
        spec_pass_lines(m2, lines, i + 1)
    }
}

/// Last sub-pass of the single-line strategy: each compact test start that is
/// still unclassified searches the window up to the next compact start (or a
/// thousand characters) for its verdict.
pub open spec fn spec_passe(m: Map<Seq<char>, Outcome>, s: Seq<char>, pos: int) -> Map<
    Seq<char>,
    Outcome,
>
    decreases s.len() - pos,
    when 0 <= pos <= s.len()
{
    match spec_first(s.len() as int, pos, |t: int| spec_compact_start(s, t) is Some) {
        None => m,
        Some(t) => {
            let (n0, e, q) = spec_compact_start(s, t)->Some_0;
            if pos < q <= s.len() && n0 <= e <= q {
                let name = s.subrange(n0, e);
                let m2 = if m.contains_key(name) {
                    m
                } else {
                    let hi = match spec_first(
                        s.len() as int,
                        q,
                        |t2: int| spec_compact_start(s, t2) is Some,
                    ) {
                        Some(t2) => t2,
                        None => if q + 1000 <= s.len() {
                            q + 1000
                        } else {
                            s.len() as int
                        },
                    };
                    match spec_window_status(s.subrange(q, hi), name) {
                        Some(w) => spec_record(m, name, word_outcome(w)),
                        None => m,
                    }
                };
                spec_passe(m2, s, q)
            } else {
                m
            }
        },
    }
}

/// Finds the first compact match at or after `pos`.
fn next_compact_at(s: &[char], pos: usize) -> (r: Option<(usize, usize, usize, StatusWord, usize)>)
    requires
        pos <= s@.len(),
    ensures
        match r {
            Some((t, n0, e, w, end)) => {
                &&& spec_first(s@.len() as int, pos as int, |t: int| spec_compact_at(s@, t) is Some)
                    == Some(t as int)
                &&& spec_compact_at(s@, t as int) == Some((n0 as int, e as int, w, end as int))
                &&& pos <= t < n0 < e < end <= s@.len()
            },
            None => spec_first(
                s@.len() as int,
                pos as int,
                |t: int| spec_compact_at(s@, t) is Some,
            ) is None,
        },
{
    let ghost p = |t: int| spec_compact_at(s@, t) is Some;
    let mut t: usize = pos;
    while t < s.len()
        invariant
            pos <= t <= s@.len(),
            p == (|t: int| spec_compact_at(s@, t) is Some),
            forall|j: int| pos <= j < t ==> !#[trigger] p(j),
        decreases s@.len() - t,
    {
        match compact_at(s, t) {
            Some((n0, e, w, end)) => {
                proof {
                    assert(p(t as int));
                    lemma_spec_first_skip(s@.len() as int, pos as int, t as int, p);
                }
                return Some((t, n0, e, w, end));
            },
            None => {
                proof {
                    assert(p(t as int) == (spec_compact_at(s@, t as int) is Some));
                }
            },
        }
        t = t + 1;
    }
    proof {
        lemma_spec_first_skip(s@.len() as int, pos as int, s@.len() as int, p);
    }
    None
}

/// Finds the first compact start at or after `pos`.
fn next_compact_start(s: &[char], pos: usize) -> (r: Option<(usize, usize, usize, usize)>)
    requires
        pos <= s@.len(),
    ensures
        match r {
            Some((t, n0, e, q)) => {
                &&& spec_first(
                    s@.len() as int,
                    pos as int,
                    |t: int| spec_compact_start(s@, t) is Some,
                ) == Some(t as int)
                &&& spec_compact_start(s@, t as int) == Some((n0 as int, e as int, q as int))
                &&& pos <= t < n0 < e <= q <= s@.len()
            },
            None => spec_first(
                s@.len() as int,
                pos as int,
                |t: int| spec_compact_start(s@, t) is Some,
            ) is None,
        },
{
    let ghost p = |t: int| spec_compact_start(s@, t) is Some;
    let mut t: usize = pos;
    while t < s.len()
        invariant
            pos <= t <= s@.len(),
            p == (|t: int| spec_compact_start(s@, t) is Some),
            forall|j: int| pos <= j < t ==> !#[trigger] p(j),
        decreases s@.len() - t,
    {
        match compact_start(s, t) {
            Some((n0, e, q)) => {
                proof {
                    assert(p(t as int));
                    lemma_spec_first_skip(s@.len() as int, pos as int, t as int, p);
                }
                return Some((t, n0, e, q));
            },
            None => {
                proof {
                    assert(p(t as int) == (spec_compact_start(s@, t as int) is Some));
                }
            },
        }
        t = t + 1;
    }
    proof {
        lemma_spec_first_skip(s@.len() as int, pos as int, s@.len() as int, p);
    }
    None
}

/// Runs the compact-match sub-pass.
fn run_passa(cls: &mut Classification, s: &[char])
    requires
        old(cls).wf(),
    ensures
        final(cls).wf(),
        final(cls).map_of() == spec_passa(old(cls).map_of(), s@, 0),
{
    let ghost m0 = cls.map_of();
    let mut pos: usize = 0;
    loop
        invariant
            pos <= s@.len(),
            cls.wf(),
            m0 == old(cls).map_of(),
            spec_passa(m0, s@, 0) == spec_passa(cls.map_of(), s@, pos as int),
        decreases s@.len() - pos,
    {
        match next_compact_at(s, pos) {
            Some((_t, n0, e, w, end)) => {
                let name = string_from_range(s, n0, e);
                cls.record(name.as_str(), outcome_of_word(w));
                pos = end;
            },
            None => {
                return ;
            },
        }
    }
}

/// Runs the per-line sub-passes.
fn run_pass_lines(cls: &mut Classification, lines: &Vec<Vec<char>>)
    requires
        old(cls).wf(),
    ensures
        final(cls).wf(),
        final(cls).map_of() == spec_pass_lines(old(cls).map_of(), lines.deep_view(), 0),
{
    let ghost lv = lines.deep_view();
    let ghost m0 = cls.map_of();
    let mut i: usize = 0;
    while i < lines.len()
        invariant
            cls.wf(),
            i <= lv.len(),
            lv == lines.deep_view(),
            lv.len() == lines@.len(),
            spec_pass_lines(m0, lv, 0) == spec_pass_lines(cls.map_of(), lv, i as int),
        decreases lv.len() - i,
    {
        let l = &lines[i];
        proof {
            assert(l@ == lv[i as int]);
        }
        match line_direct(l.as_slice()) {
            Some((name, w)) => {
                cls.record(name.as_str(), outcome_of_word(w));
            },
            None => {},
        }
        match ui_line(l.as_slice()) {
            Some((name, w)) => {
                cls.record(name.as_str(), outcome_of_word(w));
            },
            None => {},
        }
        i = i + 1;
    }
}

/// Runs the harder-cases sub-pass.
fn run_passe(cls: &mut Classification, s: &[char])
    requires
        old(cls).wf(),
    ensures
        final(cls).wf(),
        final(cls).map_of() == spec_passe(old(cls).map_of(), s@, 0),
{
    let ghost m0 = cls.map_of();
    let mut pos: usize = 0;
    loop
        invariant
            pos <= s@.len(),
            cls.wf(),
            m0 == old(cls).map_of(),
            spec_passe(m0, s@, 0) == spec_passe(cls.map_of(), s@, pos as int),
        decreases s@.len() - pos,
    {
        match next_compact_start(s, pos) {
            Some((_t, n0, e, q)) => {
                let name = string_from_range(s, n0, e);
                if cls.get(name.as_str()).is_none() {
                    let hi = match next_compact_start(s, q) {
                        Some((t2, _, _, _)) => t2,
                        None => {
                            if s.len() - q > 1000 {
                                q + 1000
                            } else {
                                s.len()
                            }
                        },
                    };
                    let window = vec_sub(s, q, hi);
                    match window_status(window.as_slice(), name.as_str()) {
                        Some(w) => {
                            cls.record(name.as_str(), outcome_of_word(w));
                        },
                        None => {},
                    }
                }
                pos = q;
            },
            None => {
                return ;
            },
        }
    }
}

/// Strips ANSI escape sequences: an escape followed by `[` consumes a control
/// sequence through its final byte; any other escape consumes one more
/// character.
pub open spec fn spec_strip_ansi_from(s: Seq<char>, i: int, acc: Seq<char>) -> Seq<char>
    decreases s.len() - i,
    when 0 <= i <= s.len()
{
    if i >= s.len() {
        acc
    } else if s[i] == '\u{1b}' {
        if i + 1 < s.len() && s[i + 1] == '[' {
            match spec_first(s.len() as int, i + 2, |k: int| '@' <= s[k] && s[k] <= '~') {
                Some(k) => {
                    let k2 = if i + 2 <= k < s.len() {
                        k
                    } else {
                        i + 2
                    };
                    spec_strip_ansi_from(s, k2 + 1, acc)
                },
                None => acc,
            }
        } else if i + 1 < s.len() {
            spec_strip_ansi_from(s, i + 2, acc)
        } else {
            acc
        }
    } else {
        spec_strip_ansi_from(s, i + 1, acc.push(s[i]))
    }
}

/// The text with its ANSI escape sequences removed.
pub open spec fn spec_strip_ansi(s: Seq<char>) -> Seq<char> {
    spec_strip_ansi_from(s, 0, Seq::empty())
}

/// Strips ANSI escape sequences from a character sequence.
pub fn strip_ansi_chars(s: &[char]) -> (r: Vec<char>)
    ensures
        r@ == spec_strip_ansi(s@),
{
    let mut acc: Vec<char> = Vec::new();
    proof {
        assert(acc@ =~= Seq::<char>::empty());
    }
    let n = s.len();
    let mut i: usize = 0;
    loop
        invariant
            i <= s@.len(),
            n == s@.len(),
            spec_strip_ansi(s@) == spec_strip_ansi_from(s@, i as int, acc@),
        decreases s@.len() - i,
    {
        if i >= n {
            return acc;
        }
        if s[i] == '\u{1b}' {
            if i + 1 < n && s[i + 1] == '[' {
                let ghost p = |k: int| '@' <= s@[k] && s@[k] <= '~';
                let mut k: usize = i + 2;
                loop
                    invariant
                        i + 2 <= k <= s@.len(),
                        n == s@.len(),
                        p == (|k: int| '@' <= s@[k] && s@[k] <= '~'),
                        forall|j: int| i + 2 <= j < k ==> !#[trigger] p(j),
                    ensures
                        i + 2 <= k <= s@.len(),
                        (if k < s@.len() {
                            spec_first(s@.len() as int, i + 2, p) == Some(k as int)
                        } else {
                            spec_first(s@.len() as int, i + 2, p) is None
                        }),
                    decreases s@.len() - k,
                {
                    if k >= n {
                        proof {
                            lemma_spec_first_skip(s@.len() as int, i + 2, s@.len() as int, p);
                        }
                        break;
                    }
                    if '@' <= s[k] && s[k] <= '~' {
                        proof {
                            assert(p(k as int));
                            lemma_spec_first_skip(s@.len() as int, i + 2, k as int, p);
                        }
                        break;
                    }
                    proof {
                        assert(p(k as int) == ('@' <= s@[k as int] && s@[k as int] <= '~'));
                    }
                    k = k + 1;
                }
                if k >= n {
                    return acc;
                }
                i = k + 1;
            } else if i + 1 < n {
                i = i + 2;
            } else {
                return acc;
            }
        } else {
            acc.push(s[i]);
            i = i + 1;
        }
    }
}

/// Strips ANSI escape sequences from log text.
pub fn strip_ansi_color_codes(s: &str) -> (r: String)
    ensures
        r@ == spec_strip_ansi(s@),
{
    let cs = chars_of(s);
    let stripped = strip_ansi_chars(cs.as_slice());
    string_from_range(stripped.as_slice(), 0, stripped.len())
}

/// The complete classification the single-line strategy extracts from the
/// ANSI-stripped text.
pub open spec fn spec_parse_single(clean: Seq<char>) -> Map<Seq<char>, Outcome> {
    let m1 = spec_passa(Map::empty(), clean, 0);
    let m2 = spec_pass_lines(m1, spec_lines(clean), 0);
    spec_passe(m2, clean, 0)
}

/// Parses a log in the compressed or ANSI-colored dialect.
pub fn parse_rust_log_single_line(text: &str) -> (r: ParsedLog)
    ensures
        r.wf(),
        r.passed_set() == outcome_names(
            spec_parse_single(spec_strip_ansi(text@)),
            Outcome::Passed,
        ),
        r.failed_set() == outcome_names(
            spec_parse_single(spec_strip_ansi(text@)),
            Outcome::Failed,
        ),
        r.ignored_set() == outcome_names(
            spec_parse_single(spec_strip_ansi(text@)),
            Outcome::Ignored,
        ),
{
    let cs = chars_of(text);
    let clean = strip_ansi_chars(cs.as_slice());
    let lines = lines_of(clean.as_slice());
    let mut cls = Classification::new();
    run_passa(&mut cls, clean.as_slice());
    run_pass_lines(&mut cls, &lines);
    run_passe(&mut cls, clean.as_slice());
    into_parsed_log(&cls)
}

} // verus!
