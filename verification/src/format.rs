use vstd::prelude::*;
use crate::extract::{parse_rust_log_standard, spec_parse_standard};
use crate::nextest::{nextest_capture, parse_nextest_log, spec_nextest_capture, spec_parse_nextest};
use crate::single_line::{
    compact_at, parse_rust_log_single_line, spec_compact_at, spec_parse_single, spec_strip_ansi,
    spec_ui_line, ui_line,
};
use crate::status::{outcome_names, spec_record, Classification, Outcome, ParsedLog};
use crate::text::{
    chars_of, contains_ci, contains_seq, lemma_spec_first_skip, lines_of, seq_contains,
    spec_first, spec_lines, spec_lower, str_eq, string_from_range, vec_sub,
};

verus! {

/// The three extraction strategies a raw log can call for.
#[derive(Clone, Copy, PartialEq, Eq, Structural, Debug)]
pub enum LogFormat {
    Nextest,
    SingleLineAnsi,
    Standard,
}

/// An ANSI escape introducer somewhere in the text.
pub open spec fn spec_has_ansi(s: Seq<char>) -> bool {
    exists|i: int|
        0 <= i && i + 1 < s.len() && #[trigger] s[i] == '\u{1b}' && '@' <= s[i + 1] && s[i + 1]
            <= '_'
}

fn has_ansi(s: &[char]) -> (r: bool)
    ensures
        r == spec_has_ansi(s@),
{
    let n = s.len();
    if n == 0 {
        return false;
    }
    let mut i: usize = 0;
    while i < n - 1
        invariant
            n == s@.len(),
            n >= 1,
            i <= s@.len(),
            forall|j: int|
                0 <= j < i ==> !(j + 1 < s@.len() && #[trigger] s@[j] == '\u{1b}' && '@' <= s@[j
                    + 1] && s@[j + 1] <= '_'),
        decreases s@.len() - i,
    {
        if s[i] == '\u{1b}' && '@' <= s[i + 1] && s[i + 1] <= '_' {
            return true;
        }
        i = i + 1;
    }
    false
}

/// How many full compact matches the text holds.
pub open spec fn spec_count_compact(s: Seq<char>, pos: int) -> nat
    decreases s.len() - pos,
    when 0 <= pos <= s.len()
{
    match spec_first(s.len() as int, pos, |t: int| spec_compact_at(s, t) is Some) {
        None => 0,
        Some(t) => {
            let end = spec_compact_at(s, t)->Some_0.3;
            if pos < end <= s.len() {
                1 + spec_count_compact(s, end)
            } else {
                1
            }
        },
    }
}

fn count_compact(s: &[char]) -> (r: usize)
    ensures
        r == spec_count_compact(s@, 0),
{
    let mut count: usize = 0;
    let mut pos: usize = 0;
    loop
        invariant
            pos <= s@.len(),
            count <= pos,
            count + spec_count_compact(s@, pos as int) == spec_count_compact(s@, 0),
        decreases s@.len() - pos,
    {
        let ghost p = |t: int| spec_compact_at(s@, t) is Some;
        let mut t: usize = pos;
        let mut found: Option<usize> = None;
        while t < s.len() && found.is_none()
            invariant
                pos <= t <= s@.len(),
                p == (|t: int| spec_compact_at(s@, t) is Some),
                match found {
                    Some(fe) => {
                        &&& (match spec_first(s@.len() as int, pos as int, p) {
                            Some(ft) => spec_compact_at(s@, ft) matches Some((_, _, _, se)) && se
                                == fe as int && pos < fe <= s@.len(),
                            None => false,
                        })
                    },
                    None => forall|j: int| pos <= j < t ==> !#[trigger] p(j),
                },
            decreases s@.len() - t + (if found.is_none() {
                1int
            } else {
                0int
            }),
        {
            match compact_at(s, t) {
                Some((_n0, _e, _w, end)) => {
                    proof {
                        assert(p(t as int));
                        lemma_spec_first_skip(s@.len() as int, pos as int, t as int, p);
                    }
                    found = Some(end);
                },
                None => {
                    proof {
                        assert(p(t as int) == (spec_compact_at(s@, t as int) is Some));
                    }
                    t = t + 1;
                },
            }
        }
        match found {
            Some(end) => {
                count = count + 1;
                pos = end;
            },
            None => {
                proof {
                    lemma_spec_first_skip(s@.len() as int, pos as int, s@.len() as int, p);
                }
                return count;
            },
        }
    }
}

/// How many lines are path-based UI-test results.
pub open spec fn spec_count_ui(lines: Seq<Seq<char>>, i: int) -> nat
    decreases lines.len() - i,
    when 0 <= i <= lines.len()
{
    if i >= lines.len() {
        0
    } else {
        (if spec_ui_line(lines[i]) is Some {
            1nat
        } else {
            0nat
        }) + spec_count_ui(lines, i + 1)
    }
}

/// How many lines have the nextest result shape.
pub open spec fn spec_is_nextest_line(l: Seq<char>) -> bool {
    ||| spec_nextest_capture(l, "pass"@) is Some
    ||| spec_nextest_capture(l, "fail"@) is Some
    ||| spec_nextest_capture(l, "skip"@) is Some
    ||| spec_nextest_capture(l, "ignored"@) is Some
}

pub open spec fn spec_count_nextest(lines: Seq<Seq<char>>, i: int) -> nat
    decreases lines.len() - i,
    when 0 <= i <= lines.len()
{
    if i >= lines.len() {
        0
    } else {
        (if spec_is_nextest_line(lines[i]) {
            1nat
        } else {
            0nat
        }) + spec_count_nextest(lines, i + 1)
    }
}

/// The text reads like compressed or ANSI-colored output: very few physical
/// lines carrying many compact results, ANSI escapes, or many path-based
/// UI-test result lines.
pub open spec fn spec_looks_single(s: Seq<char>) -> bool {
    ||| (spec_lines(s).len() <= 3 && spec_count_compact(s, 0) > 5)
    ||| spec_has_ansi(s)
    ||| spec_count_ui(spec_lines(s), 0) > 10
}

/// Does the text call for the compressed/ANSI strategy?
pub fn looks_single_line_like(text: &str) -> (r: bool)
    ensures
        r == spec_looks_single(text@),
{
    let cs = chars_of(text);
    let lines = lines_of(cs.as_slice());
    let ghost lv = spec_lines(text@);
    if has_ansi(cs.as_slice()) {
        return true;
    }
    if lines.len() <= 3 && count_compact(cs.as_slice()) > 5 {
        return true;
    }
    let mut ui: usize = 0;
    let mut i: usize = 0;
    while i < lines.len()
        invariant
            i <= lv.len(),
            ui <= i,
            lv == lines.deep_view(),
            lv.len() == lines@.len(),
            ui + spec_count_ui(lv, i as int) == spec_count_ui(lv, 0),
        decreases lv.len() - i,
    {
        let l = &lines[i];
        proof {
            assert(l@ == lv[i as int]);
        }
        if ui_line(l.as_slice()).is_some() {
            ui = ui + 1;
        }
        i = i + 1;
    }
    ui > 10
}

/// The text reads like nextest output: marker strings, many nextest-shaped
/// result lines, a mix of nextest and traditional lines, or the invoking
/// command itself.
pub open spec fn spec_looks_nextest(s: Seq<char>) -> bool {
    let ls = spec_lower(s);
    ||| seq_contains(ls, "nextest run id"@)
    ||| seq_contains(ls, "nextest run"@)
    ||| seq_contains(ls, "starting tests across"@)
    ||| seq_contains(ls, "pass ["@)
    ||| seq_contains(ls, "fail ["@)
    ||| seq_contains(ls, "start             "@)
    ||| spec_count_nextest(spec_lines(s), 0) > 5
    ||| (seq_contains(s, "PASS ["@) && seq_contains(s, "test "@) && seq_contains(s, "... ok"@))
    ||| seq_contains(s, "cargo nextest run"@)
}

/// Does the text call for the nextest strategy?
pub fn looks_nextest_format(text: &str) -> (r: bool)
    ensures
        r == spec_looks_nextest(text@),
{
    let cs = chars_of(text);
    let s = cs.as_slice();
    if contains_ci(s, chars_of("nextest run id").as_slice()) || contains_ci(
        s,
        chars_of("nextest run").as_slice(),
    ) || contains_ci(s, chars_of("starting tests across").as_slice()) || contains_ci(
        s,
        chars_of("pass [").as_slice(),
    ) || contains_ci(s, chars_of("fail [").as_slice()) || contains_ci(
        s,
        chars_of("start             ").as_slice(),
    ) {
        return true;
    }
    if contains_seq(s, chars_of("PASS [").as_slice()) && contains_seq(
        s,
        chars_of("test ").as_slice(),
    ) && contains_seq(s, chars_of("... ok").as_slice()) {
        return true;
    }
    if contains_seq(s, chars_of("cargo nextest run").as_slice()) {
        return true;
    }
    let lines = lines_of(s);
    let ghost lv = spec_lines(text@);
    let pass_kw = chars_of("pass");
    let fail_kw = chars_of("fail");
    let skip_kw = chars_of("skip");
    let ignored_kw = chars_of("ignored");
    let mut cnt: usize = 0;
    let mut i: usize = 0;
    while i < lines.len()
        invariant
            i <= lv.len(),
            cnt <= i,
            lv == lines.deep_view(),
            lv.len() == lines@.len(),
            pass_kw@ == "pass"@,
            fail_kw@ == "fail"@,
            skip_kw@ == "skip"@,
            ignored_kw@ == "ignored"@,
            cnt + spec_count_nextest(lv, i as int) == spec_count_nextest(lv, 0),
        decreases lv.len() - i,
    {
        let l = &lines[i];
        proof {
            assert(l@ == lv[i as int]);
        }
        if nextest_capture(l.as_slice(), pass_kw.as_slice()).is_some() || nextest_capture(
            l.as_slice(),
            fail_kw.as_slice(),
        ).is_some() || nextest_capture(l.as_slice(), skip_kw.as_slice()).is_some()
            || nextest_capture(l.as_slice(), ignored_kw.as_slice()).is_some() {
            cnt = cnt + 1;
        }
        i = i + 1;
    }
    cnt > 5
}

/// Which extraction strategy the raw text calls for: nextest detection runs
/// first, because nextest output can itself carry ANSI codes or traditional
/// test lines.
pub open spec fn spec_classify(s: Seq<char>) -> LogFormat {
    if spec_looks_nextest(s) {
        LogFormat::Nextest
    } else if spec_looks_single(s) {
        LogFormat::SingleLineAnsi
    } else {
        LogFormat::Standard
    }
}

pub fn classify_log_format(text: &str) -> (r: LogFormat)
    ensures
        r == spec_classify(text@),
{
    if looks_nextest_format(text) {
        LogFormat::Nextest
    } else if looks_single_line_like(text) {
        LogFormat::SingleLineAnsi
    } else {
        LogFormat::Standard
    }
}

/// The classification the selected strategy extracts from the raw text.
pub open spec fn spec_parse_log(s: Seq<char>) -> Map<Seq<char>, Outcome> {
    match spec_classify(s) {
        LogFormat::Nextest => spec_parse_nextest(Map::empty(), spec_lines(s), 0),
        LogFormat::SingleLineAnsi => spec_parse_single(spec_strip_ansi(s)),
        LogFormat::Standard => spec_parse_standard(spec_lines(s)),
    }
}

/// Parses one raw log, selecting the extraction strategy by format.
pub fn parse_rust_log(text: &str) -> (r: ParsedLog)
    ensures
        r.wf(),
        r.passed_set() == outcome_names(spec_parse_log(text@), Outcome::Passed),
        r.failed_set() == outcome_names(spec_parse_log(text@), Outcome::Failed),
        r.ignored_set() == outcome_names(spec_parse_log(text@), Outcome::Ignored),
{
    if looks_nextest_format(text) {
        parse_nextest_log(text)
    } else if looks_single_line_like(text) {
        parse_rust_log_single_line(text)
    } else {
        parse_rust_log_standard(text)
    }
}

/// The outcome a textual status names for the alternative analyzer's merge:
/// `ok` passes, `failed` and `error` fail, `ignored` is skipped.
pub open spec fn spec_status_of_text(status: Seq<char>) -> Option<Outcome> {
    if status == "ok"@ {
        Some(Outcome::Passed)
    } else if status == "failed"@ || status == "error"@ {
        Some(Outcome::Failed)
    } else if status == "ignored"@ {
        Some(Outcome::Ignored)
    } else {
        None
    }
}

/// Records one textual status signal for a test into a classification.
/// Repeated signals for one test merge by failure precedence rather than
/// landing in separate sets, which keeps the three classification sets
/// disjoint; no per-test tally of signals is kept.
pub fn process_test_status(status: &str, test_name: &str, cls: &mut Classification)
    requires
        old(cls).wf(),
    ensures
        final(cls).wf(),
        final(cls).map_of() == (match spec_status_of_text(status@) {
            Some(o) => spec_record(old(cls).map_of(), test_name@, o),
            None => old(cls).map_of(),
        }),
{
    if str_eq(status, "ok") {
        cls.record(test_name, Outcome::Passed);
    } else if str_eq(status, "failed") || str_eq(status, "error") {
        cls.record(test_name, Outcome::Failed);
    } else if str_eq(status, "ignored") {
        cls.record(test_name, Outcome::Ignored);
    }
}

/// The last newline strictly before position `b` and at or after `a`, if any.
pub open spec fn spec_rfind_nl(s: Seq<char>, a: int, b: int) -> Option<int>
    decreases b - a,
    when 0 <= a && b <= s.len()
{
    if b <= a {
        None
    } else if s[b - 1] == '\n' {
        Some(b - 1)
    } else {
        spec_rfind_nl(s, a, b - 1)
    }
}

fn rfind_nl(s: &[char], a: usize, b: usize) -> (r: Option<usize>)
    requires
        a <= b <= s@.len(),
    ensures
        match r {
            Some(nl) => spec_rfind_nl(s@, a as int, b as int) == Some(nl as int) && a <= nl < b,
            None => spec_rfind_nl(s@, a as int, b as int) is None,
        },
{
    let mut k: usize = b;
    while k > a
        invariant
            a <= k <= b <= s@.len(),
            spec_rfind_nl(s@, a as int, b as int) == spec_rfind_nl(s@, a as int, k as int),
        decreases k,
    {
        if s[k - 1] == '\n' {
            return Some(k - 1);
        }
        k = k - 1;
    }
    None
}

/// Splits log text into chunks of at most `size` characters, preferring to
/// cut just after a newline in the last quarter of a chunk, then anywhere in
/// the chunk, and only as a last resort mid-line.
pub open spec fn spec_chunks_from(
    acc: Seq<Seq<char>>,
    s: Seq<char>,
    start: int,
    size: int,
) -> Seq<Seq<char>>
    decreases s.len() - start,
    when 0 <= start <= s.len() && size >= 1
{
    if start >= s.len() {
        acc
    } else {
        let pe = start + size;
        let end = if pe >= s.len() {
            s.len() as int
        } else {
            let ss = start + (size * 3 / 4);
            match spec_rfind_nl(s, ss, pe) {
                Some(nl) => nl + 1,
                None => match spec_rfind_nl(s, start, pe) {
                    Some(nl) => nl + 1,
                    None => pe,
                },
            }
        };
        let end2 = if start < end <= s.len() {
            end
        } else {
            if start + 1 <= s.len() {
                start + 1
            } else {
                s.len() as int
            }
        };
        spec_chunks_from(acc.push(s.subrange(start, end2)), s, end2, size)
    }
}

/// The chunking of a log for the alternative analyzer: text at most `size`
/// long stays one chunk.
pub open spec fn spec_chunk_log(s: Seq<char>, size: int) -> Seq<Seq<char>> {
    if s.len() <= size {
        seq![s]
    } else {
        spec_chunks_from(Seq::empty(), s, 0, size)
    }
}

/// Splits log content into chunks of at most `chunk_size` characters, cut at
/// newlines where possible.
pub fn chunk_log_content(log_content: &str, chunk_size: usize) -> (r: Vec<String>)
    requires
        chunk_size >= 1,
        3 * chunk_size <= usize::MAX,
    ensures
        r.deep_view() == spec_chunk_log(log_content@, chunk_size as int),
{
    let cs = chars_of(log_content);
    let s = cs.as_slice();
    let n = s.len();
    if n <= chunk_size {
        let mut r: Vec<String> = Vec::new();
        r.push(string_from_range(s, 0, n));
        proof {
            assert(r.deep_view() =~~= seq![log_content@]);
            assert(log_content@.subrange(0, n as int) =~= log_content@);
        }
        return r;
    }
    let mut r: Vec<String> = Vec::new();
    proof {
        assert(r.deep_view() =~~= Seq::<Seq<char>>::empty());
    }
    let mut start: usize = 0;
    loop
        invariant
            start <= s@.len(),
            n == s@.len(),
            chunk_size >= 1,
            3 * chunk_size <= usize::MAX,
            s@.len() > chunk_size,
            s@ == log_content@,
            spec_chunks_from(Seq::empty(), s@, 0, chunk_size as int) == spec_chunks_from(
                r.deep_view(),
                s@,
                start as int,
                chunk_size as int,
            ),
        decreases s@.len() - start,
    {
        if start >= n {
            return r;
        }
        let end = if n - start <= chunk_size {
            n
        } else {
            let pe = start + chunk_size;
            let ss = start + chunk_size * 3 / 4;
            let ss2 = if ss > pe {
                pe
            } else {
                ss
            };
            proof {
                assert(chunk_size * 3 / 4 <= chunk_size) by (nonlinear_arith)
                    requires
                        chunk_size >= 1,
                ;
                assert(ss2 == start + (chunk_size * 3 / 4));
            }
            match rfind_nl(s, ss2, pe) {
                Some(nl) => nl + 1,
                None => match rfind_nl(s, start, pe) {
                    Some(nl) => nl + 1,
                    None => pe,
                },
            }
        };
        proof {
            assert(start < end <= s@.len());
        }
        let ghost dv0 = r.deep_view();
        let chunk = string_from_range(s, start, end);
        let ghost chv = chunk@;
        r.push(chunk);
        proof {
            assert(r.deep_view() =~~= dv0.push(chv));
        }
        start = end;
    }
}

} // verus!
