use vstd::prelude::*;

verus! {

/// ASCII lower-casing of a single character; non-ASCII characters and
/// characters outside `A..Z` are left unchanged.
pub open spec fn spec_lower_char(c: char) -> char {
    if 'A' <= c && c <= 'Z' {
        (((c as u8) + 32) as char)
    } else {
        c
    }
}

pub fn lower_char(c: char) -> (r: char)
    ensures
        r == spec_lower_char(c),
{
    if 'A' <= c && c <= 'Z' {
        ((c as u8) + 32) as char
    } else {
        c
    }
}

/// Whitespace as the log grammar understands it.
pub open spec fn spec_is_ws(c: char) -> bool {
    c == ' ' || c == '\t' || c == '\r' || c == '\n'
}

pub fn is_ws(c: char) -> (r: bool)
    ensures
        r == spec_is_ws(c),
{
    c == ' ' || c == '\t' || c == '\r' || c == '\n'
}

/// The characters of a string, as a vector indexable in constant time.
pub fn chars_of(s: &str) -> (r: Vec<char>)
    ensures
        r@ == s@,
{
    let n = s.unicode_len();
    let mut r: Vec<char> = Vec::new();
    let mut i: usize = 0;
    while i < n
        invariant
            n == s@.len(),
            i <= n,
            r@ == s@.take(i as int),
        decreases n - i,
    {
        r.push(s.get_char(i));
        proof {
            assert(r@ =~= s@.take(i + 1));
        }
        i = i + 1;
    }
    proof {
        assert(s@.take(n as int) =~= s@);
    }
    r
}

/// ASCII lower-casing of a whole character sequence.
pub open spec fn spec_lower(s: Seq<char>) -> Seq<char> {
    s.map_values(|c: char| spec_lower_char(c))
}

/// The characters of `s`, lower-cased.
pub fn to_lower_vec(s: &[char]) -> (r: Vec<char>)
    ensures
        r@ == spec_lower(s@),
{
    let mut r: Vec<char> = Vec::new();
    let mut i: usize = 0;
    while i < s.len()
        invariant
            i <= s@.len(),
            r@ == spec_lower(s@.take(i as int)),
        decreases s@.len() - i,
    {
        r.push(lower_char(s[i]));
        proof {
            assert(r@ =~= spec_lower(s@.take(i + 1)));
        }
        i = i + 1;
    }
    proof {
        assert(s@.take(s@.len() as int) =~= s@);
    }
    r
}

/// `pat` occurs in `s` starting at index `i`.
pub open spec fn match_at(s: Seq<char>, pat: Seq<char>, i: int) -> bool {
    &&& 0 <= i
    &&& i + pat.len() <= s.len()
    &&& s.subrange(i, i + pat.len()) == pat
}

/// `pat` occurs somewhere in `s`.
pub open spec fn seq_contains(s: Seq<char>, pat: Seq<char>) -> bool {
    exists|i: int| match_at(s, pat, i)
}

/// Does `pat` occur in `s` at exactly position `i`?
pub fn eq_at(s: &[char], pat: &[char], i: usize) -> (r: bool)
    ensures
        r == match_at(s@, pat@, i as int),
{
    if i > s.len() || pat.len() > s.len() - i {
        return false;
    }
    let mut j: usize = 0;
    while j < pat.len()
        invariant
            i + pat@.len() <= s@.len() <= usize::MAX,
            j <= pat@.len(),
            forall|k: int| 0 <= k < j ==> s@[i + k] == pat@[k],
        decreases pat@.len() - j,
    {
        if s[i + j] != pat[j] {
            assert(s@.subrange(i as int, i + pat@.len())[j as int] != pat@[j as int]);
            return false;
        }
        j = j + 1;
    }
    proof {
        assert(s@.subrange(i as int, i + pat@.len()) =~= pat@);
    }
    true
}

/// Does the lower-cased `s` hold `pat` at exactly position `i`?
pub fn eq_at_ci(s: &[char], pat: &[char], i: usize) -> (r: bool)
    ensures
        r == match_at(spec_lower(s@), pat@, i as int),
{
    if i > s.len() || pat.len() > s.len() - i {
        return false;
    }
    let mut j: usize = 0;
    while j < pat.len()
        invariant
            i + pat@.len() <= s@.len() <= usize::MAX,
            j <= pat@.len(),
            forall|k: int| 0 <= k < j ==> spec_lower(s@)[i + k] == pat@[k],
        decreases pat@.len() - j,
    {
        if lower_char(s[i + j]) != pat[j] {
            assert(spec_lower(s@).subrange(i as int, i + pat@.len())[j as int] != pat@[j as int]);
            return false;
        }
        j = j + 1;
    }
    proof {
        assert(spec_lower(s@).subrange(i as int, i + pat@.len()) =~= pat@);
    }
    true
}

/// The least position at or after `from` where `pat` occurs in `s`, if any.
pub fn find_from(s: &[char], pat: &[char], from: usize) -> (r: Option<usize>)
    ensures
        match r {
            Some(i) => {
                &&& from <= i
                &&& match_at(s@, pat@, i as int)
                &&& forall|j: int| from <= j < i ==> !match_at(s@, pat@, j)
            },
            None => forall|j: int| from <= j ==> !match_at(s@, pat@, j),
        },
{
    if pat.len() == 0 {
        if from <= s.len() {
            proof {
                assert(s@.subrange(from as int, from as int) =~= pat@);
            }
            return Some(from);
        } else {
            return None;
        }
    }
    let mut i: usize = from;
    while i < s.len()
        invariant
            from <= i,
            pat@.len() > 0,
            forall|j: int| from <= j < i ==> !match_at(s@, pat@, j),
        decreases s@.len() - i,
    {
        if eq_at(s, pat, i) {
            return Some(i);
        }
        i = i + 1;
    }
    None
}

/// The least position at or after `from` where `pat` occurs in the
/// lower-cased `s`, if any.
pub fn find_from_ci(s: &[char], pat: &[char], from: usize) -> (r: Option<usize>)
    ensures
        match r {
            Some(i) => {
                &&& from <= i
                &&& match_at(spec_lower(s@), pat@, i as int)
                &&& forall|j: int| from <= j < i ==> !match_at(spec_lower(s@), pat@, j)
            },
            None => forall|j: int| from <= j ==> !match_at(spec_lower(s@), pat@, j),
        },
{
    proof {
        assert(spec_lower(s@).len() == s@.len());
    }
    if pat.len() == 0 {
        if from <= s.len() {
            proof {
                assert(spec_lower(s@).subrange(from as int, from as int) =~= pat@);
            }
            return Some(from);
        } else {
            return None;
        }
    }
    let mut i: usize = from;
    while i < s.len()
        invariant
            from <= i,
            pat@.len() > 0,
            spec_lower(s@).len() == s@.len(),
            forall|j: int| from <= j < i ==> !match_at(spec_lower(s@), pat@, j),
        decreases s@.len() - i,
    {
        if eq_at_ci(s, pat, i) {
            return Some(i);
        }
        i = i + 1;
    }
    None
}

/// Does `pat` occur anywhere in `s`?
pub fn contains_seq(s: &[char], pat: &[char]) -> (r: bool)
    ensures
        r == seq_contains(s@, pat@),
{
    match find_from(s, pat, 0) {
        Some(_) => true,
        None => false,
    }
}

/// Does `pat` occur anywhere in the lower-cased `s`?
pub fn contains_ci(s: &[char], pat: &[char]) -> (r: bool)
    ensures
        r == seq_contains(spec_lower(s@), pat@),
{
    match find_from_ci(s, pat, 0) {
        Some(_) => true,
        None => false,
    }
}

/// The least index in `[i, n)` satisfying `p`, if any. Scanning loops are
/// proved against this by `lemma_spec_first_skip`.
pub open spec fn spec_first(n: int, i: int, p: spec_fn(int) -> bool) -> Option<int>
    decreases n - i,
    when i <= n
{
    if i >= n {
        None
    } else if p(i) {
        Some(i)
    } else {
        spec_first(n, i + 1, p)
    }
}

pub proof fn lemma_spec_first_skip(n: int, i: int, j: int, p: spec_fn(int) -> bool)
    requires
        i <= j <= n,
        forall|k: int| i <= k < j ==> !#[trigger] p(k),
    ensures
        spec_first(n, i, p) == spec_first(n, j, p),
    decreases j - i,
{
    if i < j {
        assert(!p(i));
        lemma_spec_first_skip(n, i + 1, j, p);
    }
}

/// The least position where `pat` occurs in `s`, if any.
pub open spec fn spec_find(s: Seq<char>, pat: Seq<char>) -> Option<int> {
    if pat.len() > s.len() {
        None
    } else {
        spec_first(s.len() - pat.len() + 1, 0, |i: int| match_at(s, pat, i))
    }
}

/// The least occurrence of `pat` in `s`, tied to `spec_find`.
pub fn find_pat(s: &[char], pat: &[char]) -> (r: Option<usize>)
    ensures
        match r {
            Some(i) => spec_find(s@, pat@) == Some(i as int) && match_at(s@, pat@, i as int),
            None => spec_find(s@, pat@) is None,
        },
{
    let r = find_from(s, pat, 0);
    proof {
        if pat@.len() <= s@.len() {
            let n = s@.len() - pat@.len() + 1;
            let p = |i: int| match_at(s@, pat@, i);
            match r {
                Some(i) => {
                    assert(i + pat@.len() <= s@.len());
                    lemma_spec_first_skip(n, 0, i as int, p);
                    assert(p(i as int));
                },
                None => {
                    lemma_spec_first_skip(n, 0, n, p);
                },
            }
        }
    }
    r
}

/// Word characters, as the word boundary of the test-line grammar counts
/// them: letters, digits and underscore.
pub open spec fn spec_is_word(c: char) -> bool {
    ('a' <= c && c <= 'z') || ('A' <= c && c <= 'Z') || ('0' <= c && c <= '9') || c == '_'
}

pub fn is_word_char(c: char) -> (r: bool)
    ensures
        r == spec_is_word(c),
{
    ('a' <= c && c <= 'z') || ('A' <= c && c <= 'Z') || ('0' <= c && c <= '9') || c == '_'
}

/// A fresh vector holding `s[from..to]`.
pub fn vec_sub(s: &[char], from: usize, to: usize) -> (r: Vec<char>)
    requires
        from <= to <= s@.len(),
    ensures
        r@ == s@.subrange(from as int, to as int),
{
    let mut r: Vec<char> = Vec::new();
    let mut i: usize = from;
    while i < to
        invariant
            from <= i <= to <= s@.len(),
            r@ == s@.subrange(from as int, i as int),
        decreases to - i,
    {
        r.push(s[i]);
        proof {
            assert(r@ =~= s@.subrange(from as int, i + 1));
        }
        i = i + 1;
    }
    r
}

/// `s` with leading whitespace removed.
pub open spec fn spec_trim_start(s: Seq<char>) -> Seq<char>
    decreases s.len(),
{
    if s.len() > 0 && spec_is_ws(s[0]) {
        spec_trim_start(s.drop_first())
    } else {
        s
    }
}

/// `s` with trailing whitespace removed.
pub open spec fn spec_trim_end(s: Seq<char>) -> Seq<char>
    decreases s.len(),
{
    if s.len() > 0 && spec_is_ws(s.last()) {
        spec_trim_end(s.drop_last())
    } else {
        s
    }
}

/// `s` with whitespace removed at both ends.
pub open spec fn spec_trim(s: Seq<char>) -> Seq<char> {
    spec_trim_end(spec_trim_start(s))
}

proof fn lemma_trim_start_skip(s: Seq<char>, a: int)
    requires
        0 <= a <= s.len(),
        forall|k: int| 0 <= k < a ==> spec_is_ws(s[k]),
        a == s.len() || !spec_is_ws(s[a]),
    ensures
        spec_trim_start(s) == s.skip(a),
    decreases a,
{
    if a == 0 {
        assert(s.skip(0) =~= s);
    } else {
        assert(spec_is_ws(s[0]));
        lemma_trim_start_skip(s.drop_first(), a - 1);
        assert(s.drop_first().skip(a - 1) =~= s.skip(a));
    }
}

pub proof fn lemma_trim_end_take(s: Seq<char>, b: int)
    requires
        0 <= b <= s.len(),
        forall|k: int| b <= k < s.len() ==> spec_is_ws(s[k]),
        b == 0 || !spec_is_ws(s[b - 1]),
    ensures
        spec_trim_end(s) == s.take(b),
    decreases s.len() - b,
{
    if b == s.len() {
        assert(s.take(b) =~= s);
    } else {
        assert(spec_is_ws(s.last()));
        lemma_trim_end_take(s.drop_last(), b);
        assert(s.drop_last().take(b) =~= s.take(b));
    }
}

/// The bounds of the trimmed middle of `s`: `s[a..b]` equals `s` with
/// whitespace removed at both ends.
pub fn trim_bounds(s: &[char]) -> (r: (usize, usize))
    ensures
        r.0 <= r.1 <= s@.len(),
        spec_trim(s@) == s@.subrange(r.0 as int, r.1 as int),
{
    let mut a: usize = 0;
    while a < s.len() && is_ws(s[a])
        invariant
            a <= s@.len(),
            forall|k: int| 0 <= k < a ==> spec_is_ws(s@[k]),
        decreases s@.len() - a,
    {
        a = a + 1;
    }
    proof {
        lemma_trim_start_skip(s@, a as int);
    }
    if a == s.len() {
        proof {
            assert(s@.skip(a as int).len() == 0);
            assert(spec_trim_end(s@.skip(a as int)) == s@.skip(a as int));
            assert(s@.skip(a as int) =~= s@.subrange(a as int, a as int));
        }
        return (a, a);
    }
    let mut b: usize = s.len();
    while b > a && is_ws(s[b - 1])
        invariant
            a <= b <= s@.len(),
            forall|k: int| b <= k < s@.len() ==> spec_is_ws(s@[k]),
        decreases b,
    {
        b = b - 1;
    }
    proof {
        let t = s@.skip(a as int);
        lemma_trim_end_take(t, b - a);
        assert(t.take(b - a) =~= s@.subrange(a as int, b as int));
    }
    (a, b)
}

/// Is the trimmed `s` exactly `pat`?
pub fn trimmed_eq(s: &[char], pat: &[char]) -> (r: bool)
    ensures
        r == (spec_trim(s@) == pat@),
{
    let (a, b) = trim_bounds(s);
    if b - a != pat.len() {
        return false;
    }
    let r = eq_at(s, pat, a);
    proof {
        if r {
            assert(s@.subrange(a as int, a + pat@.len()) == pat@);
        } else {
            assert(spec_trim(s@).len() == pat@.len());
            if spec_trim(s@) == pat@ {
                assert(s@.subrange(a as int, a + pat@.len()) == pat@);
            }
        }
    }
    r
}

pub proof fn lemma_lower_subrange(s: Seq<char>, a: int, b: int)
    requires
        0 <= a <= b <= s.len(),
    ensures
        spec_lower(s.subrange(a, b)) == spec_lower(s).subrange(a, b),
{
    assert(spec_lower(s.subrange(a, b)) =~= spec_lower(s).subrange(a, b));
}

/// Is the trimmed `s`, lower-cased, exactly `pat`?
pub fn trimmed_eq_ci(s: &[char], pat: &[char]) -> (r: bool)
    ensures
        r == (spec_lower(spec_trim(s@)) == pat@),
{
    let (a, b) = trim_bounds(s);
    if b - a != pat.len() {
        proof {
            assert(spec_lower(spec_trim(s@)).len() == spec_trim(s@).len());
        }
        return false;
    }
    let r = eq_at_ci(s, pat, a);
    proof {
        lemma_lower_subrange(s@, a as int, b as int);
        assert(spec_lower(s@).subrange(a as int, a + pat@.len()) == spec_lower(s@).subrange(
            a as int,
            b as int,
        ));
    }
    r
}

/// Does the trimmed `s` begin with `pat`?
pub fn trimmed_starts_with(s: &[char], pat: &[char]) -> (r: bool)
    ensures
        r == match_at(spec_trim(s@), pat@, 0),
{
    let (a, b) = trim_bounds(s);
    if pat.len() > b - a {
        return false;
    }
    let r = eq_at(s, pat, a);
    proof {
        assert(spec_trim(s@).subrange(0, pat@.len() as int) =~= s@.subrange(
            a as int,
            a + pat@.len(),
        ));
    }
    r
}

/// The segments of `s[i..]` delimited by `'\n'`; a text with `k` newlines has
/// `k + 1` segments, empty ones included.
pub open spec fn spec_split_from(s: Seq<char>, i: int) -> Seq<Seq<char>>
    decreases s.len() - i,
    when 0 <= i <= s.len()
{
    if i >= s.len() {
        seq![Seq::<char>::empty()]
    } else if s[i] == '\n' {
        seq![Seq::<char>::empty()] + spec_split_from(s, i + 1)
    } else {
        let r = spec_split_from(s, i + 1);
        seq![seq![s[i]] + r[0]] + r.drop_first()
    }
}

/// The `'\n'`-delimited segments of the whole of `s`.
pub open spec fn spec_split(s: Seq<char>) -> Seq<Seq<char>> {
    spec_split_from(s, 0)
}

pub proof fn lemma_split_from_len(s: Seq<char>, i: int)
    requires
        0 <= i <= s.len(),
    ensures
        spec_split_from(s, i).len() >= 1,
    decreases s.len() - i,
{
    if i < s.len() {
        lemma_split_from_len(s, i + 1);
    }
}

/// An unfinished first segment `cur` glued onto the front of the remaining
/// segments `r`.
pub open spec fn spec_glue(cur: Seq<char>, r: Seq<Seq<char>>) -> Seq<Seq<char>>
    recommends
        r.len() >= 1,
{
    seq![cur + r[0]] + r.drop_first()
}

/// Splits `s` at every `'\n'`, keeping empty segments.
pub fn split_lines(s: &[char]) -> (r: Vec<Vec<char>>)
    ensures
        r.deep_view() == spec_split(s@),
{
    let mut done: Vec<Vec<char>> = Vec::new();
    let mut cur: Vec<char> = Vec::new();
    let mut i: usize = 0;
    proof {
        lemma_split_from_len(s@, 0);
    }
    while i < s.len()
        invariant
            i <= s@.len(),
            spec_split_from(s@, i as int).len() >= 1,
            spec_split(s@) == done.deep_view() + spec_glue(cur@, spec_split_from(s@, i as int)),
        decreases s@.len() - i,
    {
        proof {
            lemma_split_from_len(s@, i + 1);
        }
        let ghost rest = spec_split_from(s@, i + 1);
        let ghost cur0 = cur@;
        let ghost done0 = done.deep_view();
        if s[i] == '\n' {
            done.push(cur);
            cur = Vec::new();
            proof {
                assert(spec_split_from(s@, i as int) =~~= seq![Seq::<char>::empty()] + rest);
                assert(spec_glue(cur0, seq![Seq::<char>::empty()] + rest) =~~= seq![cur0]
                    + spec_glue(Seq::<char>::empty(), rest));
                assert(done.deep_view() =~~= done0 + seq![cur0]);
                assert(done0 + (seq![cur0] + spec_glue(cur@, rest)) =~~= (done0 + seq![cur0])
                    + spec_glue(cur@, rest));
            }
        } else {
            let c = s[i];
            cur.push(c);
            proof {
                assert(spec_split_from(s@, i as int) =~~= spec_glue(seq![s@[i as int]], rest));
                assert(spec_glue(cur0, spec_glue(seq![s@[i as int]], rest)) =~~= spec_glue(
                    cur@,
                    rest,
                ));
            }
        }
        i = i + 1;
    }
    let ghost done0 = done.deep_view();
    let ghost cur0 = cur@;
    done.push(cur);
    proof {
        assert(spec_split_from(s@, i as int) =~= seq![Seq::<char>::empty()]);
        assert(spec_glue(cur0, seq![Seq::<char>::empty()]) =~~= seq![cur0]);
        assert(done.deep_view() =~~= done0 + seq![cur0]);
    }
    done
}

/// One line as `str::lines` yields it: a final `'\r'` is dropped.
pub open spec fn spec_strip_cr(l: Seq<char>) -> Seq<char> {
    if l.len() > 0 && l.last() == '\r' {
        l.drop_last()
    } else {
        l
    }
}

/// The lines of `s`, as `str::lines` yields them: split at `'\n'`, one
/// trailing empty segment dropped, and a final `'\r'` stripped from each.
pub open spec fn spec_lines(s: Seq<char>) -> Seq<Seq<char>> {
    let raw = spec_split(s);
    let kept = if raw.last().len() == 0 {
        raw.drop_last()
    } else {
        raw
    };
    kept.map_values(|l: Seq<char>| spec_strip_cr(l))
}

/// Splits `s` into lines, `str::lines`-style.
pub fn lines_of(s: &[char]) -> (r: Vec<Vec<char>>)
    ensures
        r.deep_view() == spec_lines(s@),
{
    let raw = split_lines(s);
    let ghost rawv = raw.deep_view();
    proof {
        lemma_split_from_len(s@, 0);
    }
    let n = if raw[raw.len() - 1].len() == 0 {
        raw.len() - 1
    } else {
        raw.len()
    };
    let ghost kept = if rawv.last().len() == 0 {
        rawv.drop_last()
    } else {
        rawv
    };
    proof {
        assert(kept =~~= rawv.take(n as int));
    }
    let mut r: Vec<Vec<char>> = Vec::new();
    let mut i: usize = 0;
    while i < n
        invariant
            i <= n <= raw@.len(),
            rawv == raw.deep_view(),
            rawv.len() == raw@.len(),
            r.deep_view() == rawv.take(n as int).map_values(
                |l: Seq<char>| spec_strip_cr(l),
            ).take(i as int),
        decreases n - i,
    {
        let line = &raw[i];
        proof {
            assert(line@ == rawv[i as int]);
        }
        let stripped = if line.len() > 0 && line[line.len() - 1] == '\r' {
            vec_sub(line.as_slice(), 0, line.len() - 1)
        } else {
            vec_sub(line.as_slice(), 0, line.len())
        };
        proof {
            assert(stripped@ =~= spec_strip_cr(rawv[i as int]));
        }
        let ghost old_dv = r.deep_view();
        let ghost strippedv = stripped@;
        r.push(stripped);
        proof {
            assert(r.deep_view() =~~= old_dv.push(strippedv));
            assert(r.deep_view() =~~= rawv.take(n as int).map_values(
                |l: Seq<char>| spec_strip_cr(l),
            ).take(i + 1));
        }
        i = i + 1;
    }
    proof {
        let m = rawv.take(n as int).map_values(|l: Seq<char>| spec_strip_cr(l));
        assert(m.take(n as int) =~~= m);
    }
    r
}

/// The decimal digit character for `d`.
pub open spec fn spec_digit(d: int) -> char
    recommends
        0 <= d <= 9,
{
    (((d + 48) as u8) as char)
}

/// The decimal rendering of the natural number `n`, most significant digit
/// first and without leading zeros.
pub open spec fn spec_decimal(n: int) -> Seq<char>
    decreases n,
    when n >= 0
{
    if n < 10 {
        seq![spec_digit(n)]
    } else {
        spec_decimal(n / 10).push(spec_digit(n % 10))
    }
}

/// Renders `n` in decimal.
pub fn usize_to_string(n: usize) -> (r: String)
    ensures
        r@ == spec_decimal(n as int),
    decreases n,
{
    if n < 10 {
        let mut s = String::new();
        push_char(&mut s, (((n % 10) as u8) + 48) as char);
        proof {
            assert(s@ =~= seq![spec_digit(n as int)]);
        }
        s
    } else {
        let mut s = usize_to_string(n / 10);
        push_char(&mut s, (((n % 10) as u8) + 48) as char);
        s
    }
}

/// Character-exact equality of two string slices.
pub fn str_eq(a: &str, b: &str) -> (r: bool)
    ensures
        r == (a@ == b@),
{
    let n = a.unicode_len();
    if n != b.unicode_len() {
        return false;
    }
    let mut i: usize = 0;
    while i < n
        invariant
            n == a@.len() == b@.len(),
            i <= n,
            forall|k: int| 0 <= k < i ==> a@[k] == b@[k],
        decreases n - i,
    {
        if a.get_char(i) != b.get_char(i) {
            return false;
        }
        i = i + 1;
    }
    proof {
        assert(a@ =~= b@);
    }
    true
}

/// Relies on std's `String::push`: appends exactly the given character.
#[verifier::external_body]
fn push_char(s: &mut String, c: char)
    ensures
        final(s)@ == old(s)@.push(c),
{
    s.push(c);
}

/// A `String` holding exactly the characters `cs[from..to]`.
pub fn string_from_range(cs: &[char], from: usize, to: usize) -> (r: String)
    requires
        from <= to <= cs@.len(),
    ensures
        r@ == cs@.subrange(from as int, to as int),
{
    let mut r = String::new();
    let mut i: usize = from;
    while i < to
        invariant
            from <= i <= to <= cs@.len(),
            r@ == cs@.subrange(from as int, i as int),
        decreases to - i,
    {
        push_char(&mut r, cs[i]);
        proof {
            assert(r@ =~= cs@.subrange(from as int, i + 1));
        }
        i = i + 1;
    }
    r
}


pub proof fn lemma_split_shift(x: Seq<char>, y: Seq<char>, j: int)
    requires
        0 <= j <= y.len(),
    ensures
        spec_split_from(x + y, x.len() + j) == spec_split_from(y, j),
    decreases y.len() - j,
{
    if j < y.len() {
        assert((x + y)[x.len() + j] == y[j]);
        lemma_split_shift(x, y, j + 1);
    }
}

/// Splitting text that opens with a newline-free segment peels that segment
/// off.
pub proof fn lemma_split_line(u: Seq<char>, v: Seq<char>)
    requires
        forall|i: int| 0 <= i < u.len() ==> #[trigger] u[i] != '\n',
    ensures
        spec_split(u + seq!['\n'] + v) == seq![u] + spec_split(v),
    decreases u.len(),
{
    let w = u + seq!['\n'] + v;
    if u.len() == 0 {
        assert(w[0] == '\n');
        assert(w =~= seq!['\n'] + v);
        lemma_split_shift(seq!['\n'], v, 0);
        assert(spec_split_from(w, 1) == spec_split_from(v, 0));
        assert(spec_split(w) =~~= seq![u] + spec_split(v));
    } else {
        assert(w[0] == u[0]);
        assert(w[0] != '\n');
        let w2 = u.drop_first() + seq!['\n'] + v;
        assert(w =~= seq![u[0]] + w2);
        lemma_split_shift(seq![u[0]], w2, 0);
        assert(spec_split_from(w, 1) == spec_split_from(w2, 0));
        assert(forall|i: int|
            0 <= i < u.drop_first().len() ==> #[trigger] u.drop_first()[i] != '\n');
        lemma_split_line(u.drop_first(), v);
        let r = spec_split(w2);
        assert(r == seq![u.drop_first()] + spec_split(v));
        assert(r.len() >= 1) by {
            lemma_split_from_len(w2, 0);
        }
        assert(r[0] == u.drop_first());
        assert(spec_split(w) == seq![seq![u[0]] + r[0]] + r.drop_first());
        assert(seq![u[0]] + u.drop_first() =~= u);
        assert(r.drop_first() =~= spec_split(v));
        assert(spec_split(w) =~~= seq![u] + spec_split(v));
    }
}

/// Trimming at the end keeps a non-blank opening character in place.
pub proof fn lemma_trim_end_first(s: Seq<char>)
    requires
        s.len() > 0,
        !spec_is_ws(s[0]),
    ensures
        spec_trim_end(s).len() >= 1,
        spec_trim_end(s)[0] == s[0],
    decreases s.len(),
{
    if s.len() > 0 && spec_is_ws(s.last()) {
        assert(s.len() >= 2);
        assert(s.drop_last()[0] == s[0]);
        lemma_trim_end_first(s.drop_last());
    }
}

} // verus!
