use vstd::prelude::*;
use crate::text::{
    chars_of, contains_seq, eq_at, lines_of, match_at, seq_contains, spec_lines, str_eq,
    string_from_range, vec_sub,
};

verus! {

/// One located match of a search term inside a log, with a five-line context
/// window on each side.
pub struct SearchResult {
    pub line_number: usize,
    pub line_content: String,
    pub context_before: Vec<String>,
    pub context_after: Vec<String>,
}

/// The search matches of the four stage logs.
pub struct LogSearchResults {
    pub base_results: Vec<SearchResult>,
    pub before_results: Vec<SearchResult>,
    pub after_results: Vec<SearchResult>,
    pub agent_results: Vec<SearchResult>,
}

/// The end of the last ` - ` separator of a test name, if any.
pub open spec fn spec_rlast_dash(s: Seq<char>, y: int) -> Option<int>
    decreases y,
    when y <= s.len()
{
    if y < 3 {
        None
    } else if match_at(s, " - "@, y - 3) {
        Some(y)
    } else {
        spec_rlast_dash(s, y - 1)
    }
}

/// The terms a log is searched with: the full test name, and, where the name
/// holds a ` - ` separator, its final segment too.
pub open spec fn spec_search_terms(name: Seq<char>) -> Seq<Seq<char>> {
    match spec_rlast_dash(name, name.len() as int) {
        Some(y) => seq![name, name.subrange(y, name.len() as int)],
        None => seq![name],
    }
}

/// Computes the search terms for a test name.
pub fn get_search_terms(test_name: &str) -> (r: Vec<String>)
    ensures
        r.deep_view() == spec_search_terms(test_name@),
{
    let cs = chars_of(test_name);
    let t = cs.as_slice();
    let sep = chars_of(" - ");
    let mut y: usize = t.len();
    while y >= 3
        invariant
            y <= t@.len(),
            sep@ == " - "@,
            t@ == test_name@,
            spec_rlast_dash(t@, t@.len() as int) == spec_rlast_dash(t@, y as int),
        decreases y,
    {
        if eq_at(t, sep.as_slice(), y - 3) {
            proof {
                reveal_strlit(" - ");
            }
            let mut r: Vec<String> = Vec::new();
            r.push(string_from_range(t, 0, t.len()));
            r.push(string_from_range(t, y, t.len()));
            proof {
                assert(t@.subrange(0, t@.len() as int) =~= test_name@);
                assert(r.deep_view() =~~= spec_search_terms(test_name@));
            }
            return r;
        }
        proof {
            reveal_strlit(" - ");
        }
        y = y - 1;
    }
    let mut r: Vec<String> = Vec::new();
    r.push(string_from_range(t, 0, t.len()));
    proof {
        assert(t@.subrange(0, t@.len() as int) =~= test_name@);
        assert(r.deep_view() =~~= spec_search_terms(test_name@));
    }
    r
}

/// Does the line hold any of the terms?
pub open spec fn spec_line_matches(l: Seq<char>, terms: Seq<Seq<char>>) -> bool {
    exists|k: int| 0 <= k < terms.len() && seq_contains(l, #[trigger] terms[k])
}

/// The view of one search result.
pub open spec fn result_view(r: SearchResult) -> (int, Seq<char>, Seq<Seq<char>>, Seq<Seq<char>>) {
    (r.line_number as int, r.line_content@, r.context_before.deep_view(),
    r.context_after.deep_view())
}

/// The matches of a log's lines against the terms: each matching line with
/// its one-based number and up to five lines of context on each side.
pub open spec fn spec_search(
    lines: Seq<Seq<char>>,
    terms: Seq<Seq<char>>,
    i: int,
    acc: Seq<(int, Seq<char>, Seq<Seq<char>>, Seq<Seq<char>>)>,
) -> Seq<(int, Seq<char>, Seq<Seq<char>>, Seq<Seq<char>>)>
    decreases lines.len() - i,
    when 0 <= i <= lines.len()
{
    if i >= lines.len() {
        acc
    } else {
        let acc2 = if spec_line_matches(lines[i], terms) {
            let lo = if i >= 5 {
                i - 5
            } else {
                0
            };
            let hi = if i + 6 <= lines.len() {
                i + 6
            } else {
                lines.len() as int
            };
            acc.push(
                (i + 1, lines[i], lines.subrange(lo, i), lines.subrange(i + 1, hi)),
            )
        } else {
            acc
        };
        spec_search(lines, terms, i + 1, acc2)
    }
}

fn lines_to_strings(lines: &Vec<Vec<char>>, a: usize, b: usize) -> (r: Vec<String>)
    requires
        a <= b <= lines@.len(),
    ensures
        r.deep_view() == lines.deep_view().subrange(a as int, b as int),
{
    let ghost lv = lines.deep_view();
    let mut r: Vec<String> = Vec::new();
    let mut i: usize = a;
    while i < b
        invariant
            a <= i <= b <= lv.len(),
            lv == lines.deep_view(),
            lv.len() == lines@.len(),
            r.deep_view() == lv.subrange(a as int, i as int),
        decreases b - i,
    {
        let l = &lines[i];
        proof {
            assert(l@ == lv[i as int]);
        }
        let ghost dv0 = r.deep_view();
        let s = string_from_range(l.as_slice(), 0, l.len());
        let ghost sv = s@;
        r.push(s);
        proof {
            assert(r.deep_view() =~~= dv0.push(sv));
            assert(r.deep_view() =~~= lv.subrange(a as int, i + 1));
        }
        i = i + 1;
    }
    r
}

/// Searches one log's text for a test, yielding each matching line with its
/// context window.
pub fn search_in_log_text(content: &str, test_name: &str) -> (r: Vec<SearchResult>)
    ensures
        r@.map_values(|x: SearchResult| result_view(x)) == spec_search(
            spec_lines(content@),
            spec_search_terms(test_name@),
            0,
            Seq::empty(),
        ),
{
    let cs = chars_of(content);
    let lines = lines_of(cs.as_slice());
    let ghost lv = spec_lines(content@);
    let terms = get_search_terms(test_name);
    let ghost tv = spec_search_terms(test_name@);
    let mut r: Vec<SearchResult> = Vec::new();
    proof {
        assert(r@.map_values(|x: SearchResult| result_view(x)) =~~= Seq::<(
            int,
            Seq<char>,
            Seq<Seq<char>>,
            Seq<Seq<char>>,
        )>::empty());
    }
    let mut i: usize = 0;
    while i < lines.len()
        invariant
            i <= lv.len(),
            lv == lines.deep_view(),
            lv.len() == lines@.len(),
            tv == terms.deep_view(),
            tv.len() == terms@.len(),
            spec_search(lv, tv, 0, Seq::empty()) == spec_search(
                lv,
                tv,
                i as int,
                r@.map_values(|x: SearchResult| result_view(x)),
            ),
        decreases lv.len() - i,
    {
        let l = &lines[i];
        proof {
            assert(l@ == lv[i as int]);
        }
        let mut found = false;
        let mut k: usize = 0;
        while k < terms.len()
            invariant
                k <= tv.len(),
                tv == terms.deep_view(),
                tv.len() == terms@.len(),
                l@ == lv[i as int],
                i < lv.len(),
                found == exists|a: int| 0 <= a < k && seq_contains(lv[i as int], #[trigger] tv[a]),
            decreases tv.len() - k,
        {
            proof {
                assert(tv[k as int] == terms@[k as int]@);
            }
            let term = chars_of(terms[k].as_str());
            if contains_seq(l.as_slice(), term.as_slice()) {
                found = true;
                proof {
                    assert(seq_contains(lv[i as int], tv[k as int]));
                }
            }
            k = k + 1;
        }
        if found {
            let lo = if i >= 5 {
                i - 5
            } else {
                0
            };
            let hi = if lines.len() - i > 6 {
                i + 6
            } else {
                lines.len()
            };
            let before = lines_to_strings(&lines, lo, i);
            let after = lines_to_strings(&lines, i + 1, hi);
            let sr = SearchResult {
                line_number: i + 1,
                line_content: string_from_range(l.as_slice(), 0, l.len()),
                context_before: before,
                context_after: after,
            };
            let ghost rv0 = r@.map_values(|x: SearchResult| result_view(x));
            let ghost srv = result_view(sr);
            r.push(sr);
            proof {
                assert(r@.map_values(|x: SearchResult| result_view(x)) =~~= rv0.push(srv));
                assert(srv.1 =~= lv[i as int]);
            }
        }
        i = i + 1;
    }
    r
}

} // verus!
