use vstd::prelude::*;
use crate::json::{json_get, spec_get, Json};
use crate::resolve::spec_push_texts;
use crate::text::{chars_of, contains_ci, seq_contains, spec_lower};

verus! {

/// The manifest's two test-name partitions.
pub struct TestLists {
    pub fail_to_pass: Vec<String>,
    pub pass_to_pass: Vec<String>,
}

/// The outcome of one alternative-analysis run.
pub struct AnalysisResult {
    pub status: String,
    pub message: String,
    pub analysis_files: Option<Vec<String>>,
}

/// The strings of the array a manifest holds under `key`; an absent or
/// malformed entry yields the empty list.
pub open spec fn spec_string_list(j: Json, key: Seq<char>) -> Seq<Seq<char>> {
    match spec_get(j, key) {
        Some(Json::Arr(xs)) => spec_push_texts(xs@, 0, Seq::empty()),
        _ => Seq::empty(),
    }
}

fn string_list(j: &Json, key: &str) -> (r: Vec<String>)
    ensures
        r.deep_view() == spec_string_list(*j, key@),
{
    let mut r: Vec<String> = Vec::new();
    proof {
        assert(r.deep_view() =~~= Seq::<Seq<char>>::empty());
    }
    match json_get(j, key) {
        Some(Json::Arr(xs)) => {
            let ghost xv = xs@;
            let mut i: usize = 0;
            while i < xs.len()
                invariant
                    i <= xv.len(),
                    xv == xs@,
                    spec_push_texts(xv, 0, Seq::empty()) == spec_push_texts(
                        xv,
                        i as int,
                        r.deep_view(),
                    ),
                decreases xv.len() - i,
            {
                match &xs[i] {
                    Json::Text(s) => {
                        let ghost dv = r.deep_view();
                        r.push(s.clone());
                        proof {
                            assert(r.deep_view() =~~= dv.push(xv[i as int]->Text_0@));
                        }
                    },
                    _ => {},
                }
                i = i + 1;
            }
            r
        },
        _ => r,
    }
}

/// Reads the two test-name partitions out of a parsed manifest.
pub fn test_lists_from_json(main_json: &Json) -> (r: TestLists)
    ensures
        r.fail_to_pass.deep_view() == spec_string_list(*main_json, "fail_to_pass"@),
        r.pass_to_pass.deep_view() == spec_string_list(*main_json, "pass_to_pass"@),
{
    TestLists {
        fail_to_pass: string_list(main_json, "fail_to_pass"),
        pass_to_pass: string_list(main_json, "pass_to_pass"),
    }
}

/// The first path whose lower-cased text holds the needle, if any.
pub open spec fn spec_find_path(paths: Seq<Seq<char>>, needle: Seq<char>, i: int) -> Option<
    Seq<char>,
>
    decreases paths.len() - i,
    when 0 <= i <= paths.len()
{
    if i >= paths.len() {
        None
    } else if seq_contains(spec_lower(paths[i]), needle) {
        Some(paths[i])
    } else {
        spec_find_path(paths, needle, i + 1)
    }
}

/// Finds the first path mentioning the needle, case-insensitively.
pub fn find_path_containing(paths: &Vec<String>, needle: &str) -> (r: Option<String>)
    ensures
        match r {
            Some(p) => spec_find_path(paths.deep_view(), needle@, 0) == Some(p@),
            None => spec_find_path(paths.deep_view(), needle@, 0) is None,
        },
{
    let ghost dv = paths.deep_view();
    let pat = chars_of(needle);
    let mut i: usize = 0;
    while i < paths.len()
        invariant
            i <= dv.len(),
            dv == paths.deep_view(),
            dv.len() == paths@.len(),
            pat@ == needle@,
            spec_find_path(dv, needle@, 0) == spec_find_path(dv, needle@, i as int),
        decreases dv.len() - i,
    {
        proof {
            assert(dv[i as int] == paths@[i as int]@);
        }
        let cs = chars_of(paths[i].as_str());
        if contains_ci(cs.as_slice(), pat.as_slice()) {
            return Some(paths[i].clone());
        }
        i = i + 1;
    }
    None
}

/// The first path mentioning either needle, case-insensitively: how the
/// manifest and the agent log are found among the deliverable's files.
pub open spec fn spec_find_path_either(
    paths: Seq<Seq<char>>,
    n1: Seq<char>,
    n2: Seq<char>,
    i: int,
) -> Option<Seq<char>>
    decreases paths.len() - i,
    when 0 <= i <= paths.len()
{
    if i >= paths.len() {
        None
    } else if seq_contains(spec_lower(paths[i]), n1) || seq_contains(spec_lower(paths[i]), n2) {
        Some(paths[i])
    } else {
        spec_find_path_either(paths, n1, n2, i + 1)
    }
}

pub fn find_path_containing_either(paths: &Vec<String>, n1: &str, n2: &str) -> (r: Option<String>)
    ensures
        match r {
            Some(p) => spec_find_path_either(paths.deep_view(), n1@, n2@, 0) == Some(p@),
            None => spec_find_path_either(paths.deep_view(), n1@, n2@, 0) is None,
        },
{
    let ghost dv = paths.deep_view();
    let p1 = chars_of(n1);
    let p2 = chars_of(n2);
    let mut i: usize = 0;
    while i < paths.len()
        invariant
            i <= dv.len(),
            dv == paths.deep_view(),
            dv.len() == paths@.len(),
            p1@ == n1@,
            p2@ == n2@,
            spec_find_path_either(dv, n1@, n2@, 0) == spec_find_path_either(
                dv,
                n1@,
                n2@,
                i as int,
            ),
        decreases dv.len() - i,
    {
        proof {
            assert(dv[i as int] == paths@[i as int]@);
        }
        let cs = chars_of(paths[i].as_str());
        if contains_ci(cs.as_slice(), p1.as_slice()) || contains_ci(cs.as_slice(), p2.as_slice()) {
            return Some(paths[i].clone());
        }
        i = i + 1;
    }
    None
}

} // verus!
