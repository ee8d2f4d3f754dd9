use vstd::prelude::*;
use crate::json::{json_get, spec_get, Json};
use crate::status::Status;
use crate::text::{
    chars_of, lemma_spec_first_skip, spec_first, spec_lower, str_eq, string_from_range,
    to_lower_vec,
};

verus! {

/// One test's status as the alternative analyzer reports it, with the
/// universe partition it belongs to.
pub struct TestStatus {
    pub test_name: String,
    pub status: String,
    pub kind: String,
}

/// One test as an external report lists it.
pub struct TestItem {
    pub test_name: String,
    pub status: String,
    pub occurences: u32,
}

/// Does a textual status mean failed (`Some(true)`), passed (`Some(false)`),
/// or neither?
pub open spec fn spec_classify_status(st: Seq<char>) -> Option<bool> {
    let ls = spec_lower(st);
    if ls == "failed"@ || ls == "fail"@ {
        Some(true)
    } else if ls == "passed"@ || ls == "pass"@ || ls == "success"@ {
        Some(false)
    } else {
        None
    }
}

fn classify_status(st: &str) -> (r: Option<bool>)
    ensures
        r == spec_classify_status(st@),
{
    let cs = chars_of(st);
    let ls = to_lower_vec(cs.as_slice());
    let lstr = string_from_range(ls.as_slice(), 0, ls.len());
    proof {
        assert(lstr@ =~= spec_lower(st@));
    }
    if str_eq(lstr.as_str(), "failed") || str_eq(lstr.as_str(), "fail") {
        Some(true)
    } else if str_eq(lstr.as_str(), "passed") || str_eq(lstr.as_str(), "pass") || str_eq(
        lstr.as_str(),
        "success",
    ) {
        Some(false)
    } else {
        None
    }
}

/// Folds a `results`-style array: each item names a test and a status.
pub open spec fn spec_items_sets(
    items: Seq<Json>,
    i: int,
    acc: (Seq<Seq<char>>, Seq<Seq<char>>),
) -> (Seq<Seq<char>>, Seq<Seq<char>>)
    decreases items.len() - i,
    when 0 <= i <= items.len()
{
    if i >= items.len() {
        acc
    } else {
        let acc2 = match (spec_get(items[i], "test_name"@), spec_get(items[i], "status"@)) {
            (Some(Json::Text(n)), Some(Json::Text(s))) => match spec_classify_status(s@) {
                Some(true) => (acc.0.push(n@), acc.1),
                Some(false) => (acc.0, acc.1.push(n@)),
                None => acc,
            },
            _ => acc,
        };
        spec_items_sets(items, i + 1, acc2)
    }
}

/// Folds a `tests` object: each entry maps a test name to a record with a
/// status.
pub open spec fn spec_tests_obj_sets(
    es: Seq<(String, Json)>,
    i: int,
    acc: (Seq<Seq<char>>, Seq<Seq<char>>),
) -> (Seq<Seq<char>>, Seq<Seq<char>>)
    decreases es.len() - i,
    when 0 <= i <= es.len()
{
    if i >= es.len() {
        acc
    } else {
        let acc2 = match spec_get(es[i].1, "status"@) {
            Some(Json::Text(s)) => match spec_classify_status(s@) {
                Some(true) => (acc.0.push(es[i].0@), acc.1),
                Some(false) => (acc.0, acc.1.push(es[i].0@)),
                None => acc,
            },
            _ => acc,
        };
        spec_tests_obj_sets(es, i + 1, acc2)
    }
}

/// The categories of the first entry carrying a `tests_status` object, if
/// any.
pub open spec fn spec_find_swe(es: Seq<(String, Json)>, i: int) -> Option<Seq<(String, Json)>>
    decreases es.len() - i,
    when 0 <= i <= es.len()
{
    if i >= es.len() {
        None
    } else {
        match spec_get(es[i].1, "tests_status"@) {
            Some(Json::Obj(cats)) => Some(cats@),
            _ => spec_find_swe(es, i + 1),
        }
    }
}

/// Pushes every string of an array.
pub open spec fn spec_push_texts(xs: Seq<Json>, j: int, acc: Seq<Seq<char>>) -> Seq<Seq<char>>
    decreases xs.len() - j,
    when 0 <= j <= xs.len()
{
    if j >= xs.len() {
        acc
    } else {
        let acc2 = match xs[j] {
            Json::Text(s) => acc.push(s@),
            _ => acc,
        };
        spec_push_texts(xs, j + 1, acc2)
    }
}

/// Folds the category records of a `tests_status` object: `failure` arrays
/// feed the failed set, `success` arrays the passed set.
pub open spec fn spec_swe_sets(
    cats: Seq<(String, Json)>,
    i: int,
    acc: (Seq<Seq<char>>, Seq<Seq<char>>),
) -> (Seq<Seq<char>>, Seq<Seq<char>>)
    decreases cats.len() - i,
    when 0 <= i <= cats.len()
{
    if i >= cats.len() {
        acc
    } else {
        let f2 = match spec_get(cats[i].1, "failure"@) {
            Some(Json::Arr(xs)) => spec_push_texts(xs@, 0, acc.0),
            _ => acc.0,
        };
        let p2 = match spec_get(cats[i].1, "success"@) {
            Some(Json::Arr(xs)) => spec_push_texts(xs@, 0, acc.1),
            _ => acc.1,
        };
        spec_swe_sets(cats, i + 1, (f2, p2))
    }
}

/// Folds a direct `name: status` mapping object.
pub open spec fn spec_direct_sets(
    es: Seq<(String, Json)>,
    i: int,
    acc: (Seq<Seq<char>>, Seq<Seq<char>>),
) -> (Seq<Seq<char>>, Seq<Seq<char>>)
    decreases es.len() - i,
    when 0 <= i <= es.len()
{
    if i >= es.len() {
        acc
    } else {
        let acc2 = match es[i].1 {
            Json::Text(s) => match spec_classify_status(s@) {
                Some(true) => (acc.0.push(es[i].0@), acc.1),
                Some(false) => (acc.0, acc.1.push(es[i].0@)),
                None => acc,
            },
            _ => acc,
        };
        spec_direct_sets(es, i + 1, acc2)
    }
}

/// The failed and passed test names an external report carries, whichever of
/// the recognized shapes it uses: a `results` or `test_results` array, a
/// `tests` object, a nested `tests_status` shape, or a direct mapping.
pub open spec fn spec_report_sets(j: Json) -> (Seq<Seq<char>>, Seq<Seq<char>>) {
    let empty = (Seq::<Seq<char>>::empty(), Seq::<Seq<char>>::empty());
    match spec_get(j, "results"@) {
        Some(Json::Arr(items)) => spec_items_sets(items@, 0, empty),
        _ => match spec_get(j, "test_results"@) {
            Some(Json::Arr(items)) => spec_items_sets(items@, 0, empty),
            _ => match spec_get(j, "tests"@) {
                Some(Json::Obj(tes)) => spec_tests_obj_sets(tes@, 0, empty),
                _ => match j {
                    Json::Obj(es) => match spec_find_swe(es@, 0) {
                        Some(cats) => spec_swe_sets(cats, 0, empty),
                        None => spec_direct_sets(es@, 0, empty),
                    },
                    _ => empty,
                },
            },
        },
    }
}

fn push_text_items(xs: &Vec<Json>, acc: &mut Vec<String>)
    ensures
        final(acc).deep_view() == spec_push_texts(xs@, 0, old(acc).deep_view()),
{
    let ghost a0 = acc.deep_view();
    let mut j: usize = 0;
    while j < xs.len()
        invariant
            j <= xs@.len(),
            spec_push_texts(xs@, 0, a0) == spec_push_texts(xs@, j as int, acc.deep_view()),
        decreases xs@.len() - j,
    {
        match &xs[j] {
            Json::Text(s) => {
                let ghost dv = acc.deep_view();
                acc.push(s.clone());
                proof {
                    assert(acc.deep_view() =~~= dv.push(xs@[j as int]->Text_0@));
                }
            },
            _ => {},
        }
        j = j + 1;
    }
}

/// Extracts the failed and passed name lists of an external report.
pub fn report_sets(j: &Json) -> (r: (Vec<String>, Vec<String>))
    ensures
        r.0.deep_view() == spec_report_sets(*j).0,
        r.1.deep_view() == spec_report_sets(*j).1,
{
    let mut failed: Vec<String> = Vec::new();
    let mut passed: Vec<String> = Vec::new();
    proof {
        assert(failed.deep_view() =~~= Seq::<Seq<char>>::empty());
        assert(passed.deep_view() =~~= Seq::<Seq<char>>::empty());
    }
    if let Some(Json::Arr(items)) = json_get(j, "results") {
        items_fold(items, &mut failed, &mut passed);
        return (failed, passed);
    }
    if let Some(Json::Arr(items)) = json_get(j, "test_results") {
        items_fold(items, &mut failed, &mut passed);
        return (failed, passed);
    }
    if let Some(Json::Obj(tes)) = json_get(j, "tests") {
        tests_obj_fold(tes, &mut failed, &mut passed);
        return (failed, passed);
    }
    match j {
        Json::Obj(es) => {
            let mut i: usize = 0;
            while i < es.len()
                invariant
                    i <= es@.len(),
                    failed.deep_view() =~~= Seq::<Seq<char>>::empty(),
                    passed.deep_view() =~~= Seq::<Seq<char>>::empty(),
                    spec_find_swe(es@, 0) == spec_find_swe(es@, i as int),
                    spec_report_sets(*j) == (match spec_find_swe(es@, 0) {
                        Some(cats) => spec_swe_sets(
                            cats,
                            0,
                            (Seq::<Seq<char>>::empty(), Seq::<Seq<char>>::empty()),
                        ),
                        None => spec_direct_sets(
                            es@,
                            0,
                            (Seq::<Seq<char>>::empty(), Seq::<Seq<char>>::empty()),
                        ),
                    }),
                decreases es@.len() - i,
            {
                if let Some(Json::Obj(cats)) = json_get(&es[i].1, "tests_status") {
                    swe_fold(cats, &mut failed, &mut passed);
                    return (failed, passed);
                }
                proof {
                    assert(!(spec_get(es@[i as int].1, "tests_status"@) matches Some(
                        Json::Obj(_),
                    )));
                }
                i = i + 1;
            }
            direct_fold(es, &mut failed, &mut passed);
            return (failed, passed);
        },
        _ => {},
    }
    (failed, passed)
}

fn items_fold(items: &Vec<Json>, failed: &mut Vec<String>, passed: &mut Vec<String>)
    ensures
        (final(failed).deep_view(), final(passed).deep_view()) == spec_items_sets(
            items@,
            0,
            (old(failed).deep_view(), old(passed).deep_view()),
        ),
{
    let ghost a0 = (failed.deep_view(), passed.deep_view());
    let mut i: usize = 0;
    while i < items.len()
        invariant
            i <= items@.len(),
            spec_items_sets(items@, 0, a0) == spec_items_sets(
                items@,
                i as int,
                (failed.deep_view(), passed.deep_view()),
            ),
        decreases items@.len() - i,
    {
        let item = &items[i];
        let name_j = json_get(item, "test_name");
        let status_j = json_get(item, "status");
        match (name_j, status_j) {
            (Some(Json::Text(n)), Some(Json::Text(s))) => {
                match classify_status(s.as_str()) {
                    Some(true) => {
                        let ghost dv = failed.deep_view();
                        failed.push(n.clone());
                        proof {
                            assert(failed.deep_view() =~~= dv.push(n@));
                        }
                    },
                    Some(false) => {
                        let ghost dv = passed.deep_view();
                        passed.push(n.clone());
                        proof {
                            assert(passed.deep_view() =~~= dv.push(n@));
                        }
                    },
                    None => {},
                }
            },
            _ => {},
        }
        i = i + 1;
    }
}

fn tests_obj_fold(es: &Vec<(String, Json)>, failed: &mut Vec<String>, passed: &mut Vec<String>)
    ensures
        (final(failed).deep_view(), final(passed).deep_view()) == spec_tests_obj_sets(
            es@,
            0,
            (old(failed).deep_view(), old(passed).deep_view()),
        ),
{
    let ghost a0 = (failed.deep_view(), passed.deep_view());
    let mut i: usize = 0;
    while i < es.len()
        invariant
            i <= es@.len(),
            spec_tests_obj_sets(es@, 0, a0) == spec_tests_obj_sets(
                es@,
                i as int,
                (failed.deep_view(), passed.deep_view()),
            ),
        decreases es@.len() - i,
    {
        match json_get(&es[i].1, "status") {
            Some(Json::Text(s)) => {
                match classify_status(s.as_str()) {
                    Some(true) => {
                        let ghost dv = failed.deep_view();
                        failed.push(es[i].0.clone());
                        proof {
                            assert(failed.deep_view() =~~= dv.push(es@[i as int].0@));
                        }
                    },
                    Some(false) => {
                        let ghost dv = passed.deep_view();
                        passed.push(es[i].0.clone());
                        proof {
                            assert(passed.deep_view() =~~= dv.push(es@[i as int].0@));
                        }
                    },
                    None => {},
                }
            },
            _ => {},
        }
        i = i + 1;
    }
}

fn swe_fold(cats: &Vec<(String, Json)>, failed: &mut Vec<String>, passed: &mut Vec<String>)
    ensures
        (final(failed).deep_view(), final(passed).deep_view()) == spec_swe_sets(
            cats@,
            0,
            (old(failed).deep_view(), old(passed).deep_view()),
        ),
{
    let ghost a0 = (failed.deep_view(), passed.deep_view());
    let mut i: usize = 0;
    while i < cats.len()
        invariant
            i <= cats@.len(),
            spec_swe_sets(cats@, 0, a0) == spec_swe_sets(
                cats@,
                i as int,
                (failed.deep_view(), passed.deep_view()),
            ),
        decreases cats@.len() - i,
    {
        match json_get(&cats[i].1, "failure") {
            Some(Json::Arr(xs)) => {
                push_text_items(xs, failed);
            },
            _ => {},
        }
        match json_get(&cats[i].1, "success") {
            Some(Json::Arr(xs)) => {
                push_text_items(xs, passed);
            },
            _ => {},
        }
        i = i + 1;
    }
}

fn direct_fold(es: &Vec<(String, Json)>, failed: &mut Vec<String>, passed: &mut Vec<String>)
    ensures
        (final(failed).deep_view(), final(passed).deep_view()) == spec_direct_sets(
            es@,
            0,
            (old(failed).deep_view(), old(passed).deep_view()),
        ),
{
    let ghost a0 = (failed.deep_view(), passed.deep_view());
    let mut i: usize = 0;
    while i < es.len()
        invariant
            i <= es@.len(),
            spec_direct_sets(es@, 0, a0) == spec_direct_sets(
                es@,
                i as int,
                (failed.deep_view(), passed.deep_view()),
            ),
        decreases es@.len() - i,
    {
        match &es[i].1 {
            Json::Text(s) => {
                match classify_status(s.as_str()) {
                    Some(true) => {
                        let ghost dv = failed.deep_view();
                        failed.push(es[i].0.clone());
                        proof {
                            assert(failed.deep_view() =~~= dv.push(es@[i as int].0@));
                        }
                    },
                    Some(false) => {
                        let ghost dv = passed.deep_view();
                        passed.push(es[i].0.clone());
                        proof {
                            assert(passed.deep_view() =~~= dv.push(es@[i as int].0@));
                        }
                    },
                    None => {},
                }
            },
            _ => {},
        }
        i = i + 1;
    }
}

/// The status an external report resolves a name to: failed evidence first,
/// then passed, else missing.
pub open spec fn spec_report_resolve(j: Json, n: Seq<char>) -> Status {
    let (f, p) = spec_report_sets(j);
    if f.contains(n) {
        Status::Failed
    } else if p.contains(n) {
        Status::Passed
    } else {
        Status::Missing
    }
}

fn names_contain(v: &Vec<String>, name: &str) -> (r: bool)
    ensures
        r == v.deep_view().contains(name@),
{
    let mut i: usize = 0;
    while i < v.len()
        invariant
            i <= v@.len(),
            forall|k: int| 0 <= k < i ==> v.deep_view()[k] != name@,
        decreases v@.len() - i,
    {
        if str_eq(v[i].as_str(), name) {
            assert(v.deep_view()[i as int] == name@);
            return true;
        }
        i = i + 1;
    }
    false
}

/// Resolves every universe name against an external report, in order.
pub fn report_status_lookup(names: &Vec<String>, report_data: &Json) -> (r: Vec<Status>)
    ensures
        r@.len() == names@.len(),
        forall|i: int| 0 <= i < names@.len() ==> r@[i] == spec_report_resolve(
            *report_data,
            names.deep_view()[i],
        ),
{
    let (failed, passed) = report_sets(report_data);
    let mut r: Vec<Status> = Vec::new();
    let mut i: usize = 0;
    while i < names.len()
        invariant
            i <= names@.len(),
            r@.len() == i,
            failed.deep_view() == spec_report_sets(*report_data).0,
            passed.deep_view() == spec_report_sets(*report_data).1,
            forall|k: int| 0 <= k < i ==> r@[k] == spec_report_resolve(
                *report_data,
                names.deep_view()[k],
            ),
        decreases names@.len() - i,
    {
        let st = if names_contain(&failed, names[i].as_str()) {
            Status::Failed
        } else if names_contain(&passed, names[i].as_str()) {
            Status::Passed
        } else {
            Status::Missing
        };
        r.push(st);
        i = i + 1;
    }
    r
}

/// The status two chunk verdicts for one test merge to: `failed` beats
/// `passed`, any concrete status beats `non_existing`, identical repeats are
/// idempotent, and an unrecognized newer verdict otherwise wins.
pub open spec fn spec_combine(old_st: Seq<char>, new_st: Seq<char>) -> Seq<char> {
    if (old_st == "failed"@ && new_st == "passed"@) || (old_st == "passed"@ && new_st
        == "failed"@) {
        "failed"@
    } else if old_st == "non_existing"@ {
        new_st
    } else if new_st == "non_existing"@ {
        old_st
    } else if old_st == new_st {
        old_st
    } else {
        new_st
    }
}

/// Chunk merge resolves conflicts in favor of failure, in either order, and
/// a concrete status always survives a `non_existing` verdict.
pub proof fn lemma_merge_conflict_resolution(s: Seq<char>)
    ensures
        spec_combine("failed"@, "passed"@) == "failed"@,
        spec_combine("passed"@, "failed"@) == "failed"@,
        spec_combine("non_existing"@, s) == s,
        spec_combine(s, "non_existing"@) == s,
        spec_combine(s, s) == s,
{
    reveal_strlit("failed");
    reveal_strlit("passed");
    reveal_strlit("non_existing");
}

fn combine(old_st: &str, new_st: &str) -> (r: String)
    ensures
        r@ == spec_combine(old_st@, new_st@),
{
    if (str_eq(old_st, "failed") && str_eq(new_st, "passed")) || (str_eq(old_st, "passed")
        && str_eq(new_st, "failed")) {
        String::from_str("failed")
    } else if str_eq(old_st, "non_existing") {
        String::from_str(new_st)
    } else if str_eq(new_st, "non_existing") {
        String::from_str(old_st)
    } else if str_eq(old_st, new_st) {
        String::from_str(old_st)
    } else {
        String::from_str(new_st)
    }
}

/// Character-lexicographic order on names: the order merged results are
/// reported in. It agrees with byte order on the UTF-8 encodings.
pub open spec fn spec_str_le(a: Seq<char>, b: Seq<char>) -> bool
    decreases a.len(),
{
    if a.len() == 0 {
        true
    } else if b.len() == 0 {
        false
    } else if a[0] != b[0] {
        a[0] < b[0]
    } else {
        spec_str_le(a.drop_first(), b.drop_first())
    }
}

pub proof fn lemma_str_le_total(a: Seq<char>, b: Seq<char>)
    ensures
        spec_str_le(a, b) || spec_str_le(b, a),
    decreases a.len(),
{
    if a.len() > 0 && b.len() > 0 && a[0] == b[0] {
        lemma_str_le_total(a.drop_first(), b.drop_first());
    }
}

pub proof fn lemma_str_le_trans(a: Seq<char>, b: Seq<char>, c: Seq<char>)
    requires
        spec_str_le(a, b),
        spec_str_le(b, c),
    ensures
        spec_str_le(a, c),
    decreases a.len(),
{
    if a.len() > 0 && b.len() > 0 && c.len() > 0 && a[0] == b[0] && b[0] == c[0] {
        lemma_str_le_trans(a.drop_first(), b.drop_first(), c.drop_first());
    }
}

proof fn lemma_str_le_skip(a: Seq<char>, b: Seq<char>, i: int)
    requires
        0 <= i <= a.len(),
        i <= b.len(),
        forall|k: int| 0 <= k < i ==> a[k] == b[k],
    ensures
        spec_str_le(a, b) == spec_str_le(a.skip(i), b.skip(i)),
    decreases i,
{
    if i > 0 {
        assert(a.len() > 0 && b.len() > 0 && a[0] == b[0]);
        lemma_str_le_skip(a.drop_first(), b.drop_first(), i - 1);
        assert(a.drop_first().skip(i - 1) =~= a.skip(i));
        assert(b.drop_first().skip(i - 1) =~= b.skip(i));
    } else {
        assert(a.skip(0) =~= a);
        assert(b.skip(0) =~= b);
    }
}

/// Compares two names in the reporting order.
pub fn str_le(a: &str, b: &str) -> (r: bool)
    ensures
        r == spec_str_le(a@, b@),
{
    let av = chars_of(a);
    let bv = chars_of(b);
    let an = av.len();
    let bn = bv.len();
    let m = if an < bn {
        an
    } else {
        bn
    };
    let mut i: usize = 0;
    while i < m
        invariant
            i <= m,
            m <= a@.len(),
            m <= b@.len(),
            av@ == a@,
            bv@ == b@,
            forall|k: int| 0 <= k < i ==> a@[k] == b@[k],
        decreases m - i,
    {
        if av[i] != bv[i] {
            proof {
                lemma_str_le_skip(a@, b@, i as int);
                assert(a@.skip(i as int)[0] == a@[i as int]);
                assert(b@.skip(i as int)[0] == b@[i as int]);
            }
            return av[i] < bv[i];
        }
        i = i + 1;
    }
    proof {
        lemma_str_le_skip(a@, b@, m as int);
        if a@.len() <= b@.len() {
            assert(a@.skip(m as int).len() == 0);
        } else {
            assert(b@.skip(m as int).len() == 0);
            assert(a@.skip(m as int).len() > 0);
        }
    }
    an <= bn
}

/// The pair list is ascending by name.
pub open spec fn pairs_sorted(v: Seq<(Seq<char>, Seq<char>)>) -> bool {
    forall|x: int, y: int|
        #![trigger v[x], v[y]]
        0 <= x < y < v.len() ==> spec_str_le(v[x].0, v[y].0)
}

/// Where a fresh name belongs in an ascending pair list: before the first
/// entry that does not precede it.
pub open spec fn spec_lower_bound(acc: Seq<(Seq<char>, Seq<char>)>, name: Seq<char>) -> int {
    match spec_first(
        acc.len() as int,
        0,
        |j: int| !spec_str_le(acc[j].0, name),
    ) {
        Some(j) => j,
        None => acc.len() as int,
    }
}

/// The merged map after one chunk entry lands: a fresh name enters at its
/// place in name order, a known name combines with what is already held.
pub open spec fn spec_merge_entry(
    acc: Seq<(Seq<char>, Seq<char>)>,
    name: Seq<char>,
    st: Seq<char>,
) -> Seq<(Seq<char>, Seq<char>)> {
    if exists|k: int| 0 <= k < acc.len() && (#[trigger] acc[k]).0 == name {
        acc.map_values(
            |p: (Seq<char>, Seq<char>)|
                if p.0 == name {
                    (name, spec_combine(p.1, st))
                } else {
                    p
                },
        )
    } else {
        acc.insert(spec_lower_bound(acc, name), (name, st))
    }
}

/// Folds one chunk's entries into the merged map.
pub open spec fn spec_merge_chunk(
    entries: Seq<(Seq<char>, Seq<char>)>,
    j: int,
    acc: Seq<(Seq<char>, Seq<char>)>,
) -> Seq<(Seq<char>, Seq<char>)>
    decreases entries.len() - j,
    when 0 <= j <= entries.len()
{
    if j >= entries.len() {
        acc
    } else {
        spec_merge_chunk(entries, j + 1, spec_merge_entry(acc, entries[j].0, entries[j].1))
    }
}

/// Folds every chunk, in order.
pub open spec fn spec_merge_chunks(
    chunks: Seq<Seq<(Seq<char>, Seq<char>)>>,
    i: int,
    acc: Seq<(Seq<char>, Seq<char>)>,
) -> Seq<(Seq<char>, Seq<char>)>
    decreases chunks.len() - i,
    when 0 <= i <= chunks.len()
{
    if i >= chunks.len() {
        acc
    } else {
        spec_merge_chunks(chunks, i + 1, spec_merge_chunk(chunks[i], 0, acc))
    }
}

/// One name per entry.
pub open spec fn merged_unique(v: Seq<(Seq<char>, Seq<char>)>) -> bool {
    forall|i: int, j: int| 0 <= i < j < v.len() ==> v[i].0 != v[j].0
}

pub open spec fn pairs_view(v: Seq<(String, String)>) -> Seq<(Seq<char>, Seq<char>)> {
    v.map_values(|p: (String, String)| (p.0@, p.1@))
}

fn merge_entry(acc: &mut Vec<(String, String)>, name: &str, st: &str)
    requires
        merged_unique(pairs_view(old(acc)@)),
        pairs_sorted(pairs_view(old(acc)@)),
    ensures
        pairs_view(final(acc)@) == spec_merge_entry(pairs_view(old(acc)@), name@, st@),
        merged_unique(pairs_view(final(acc)@)),
        pairs_sorted(pairs_view(final(acc)@)),
{
    let ghost before = pairs_view(acc@);
    let ghost namev = name@;
    let mut k: usize = 0;
    while k < acc.len()
        invariant
            k <= acc@.len(),
            before == pairs_view(acc@),
            before == pairs_view(old(acc)@),
            merged_unique(before),
            pairs_sorted(before),
            namev == name@,
            forall|j: int| 0 <= j < k ==> pairs_view(acc@)[j].0 != name@,
        decreases acc@.len() - k,
    {
        if str_eq(acc[k].0.as_str(), name) {
            proof {
                assert(before[k as int].0 == namev);
                assert(forall|j: int|
                    0 <= j < before.len() && j != k ==> (#[trigger] before[j]).0 != namev);
            }
            let merged = combine(acc[k].1.as_str(), st);
            let nm = String::from_str(name);
            acc.set(k, (nm, merged));
            proof {
                assert(pairs_view(acc@) =~~= spec_merge_entry(before, namev, st@));
                assert(forall|j: int|
                    0 <= j < pairs_view(acc@).len() ==> (#[trigger] pairs_view(acc@)[j]).0 == (
                    if before[j].0 == namev {
                        namev
                    } else {
                        before[j].0
                    }));
                assert(merged_unique(pairs_view(acc@)));
                assert(forall|j: int|
                    0 <= j < pairs_view(acc@).len() ==> (#[trigger] pairs_view(acc@)[j]).0
                        == before[j].0);
                assert(pairs_sorted(pairs_view(acc@)));
            }
            return ;
        }
        k = k + 1;
    }
    let ghost p = |j: int| !spec_str_le(before[j].0, namev);
    let mut pos: usize = 0;
    loop
        invariant
            pos <= acc@.len(),
            before == pairs_view(acc@),
            before == pairs_view(old(acc)@),
            merged_unique(before),
            pairs_sorted(before),
            namev == name@,
            forall|j: int| 0 <= j < before.len() ==> (#[trigger] before[j]).0 != namev,
            p == (|j: int| !spec_str_le(before[j].0, namev)),
            forall|j: int| 0 <= j < pos ==> !#[trigger] p(j),
            forall|j: int| 0 <= j < pos ==> spec_str_le((#[trigger] before[j]).0, namev),
        ensures
            pos <= before.len(),
            spec_lower_bound(before, namev) == pos as int,
            forall|j: int| 0 <= j < pos ==> spec_str_le((#[trigger] before[j]).0, namev),
            pos < before.len() ==> spec_str_le(namev, before[pos as int].0),
        decreases acc@.len() - pos,
    {
        if pos >= acc.len() {
            proof {
                lemma_spec_first_skip(before.len() as int, 0, before.len() as int, p);
            }
            break;
        }
        proof {
            assert(before[pos as int].0 == acc@[pos as int].0@);
        }
        if !str_le(acc[pos].0.as_str(), name) {
            proof {
                assert(p(pos as int));
                lemma_spec_first_skip(before.len() as int, 0, pos as int, p);
                lemma_str_le_total(before[pos as int].0, namev);
            }
            break;
        }
        proof {
            assert(p(pos as int) == !spec_str_le(before[pos as int].0, namev));
        }
        pos = pos + 1;
    }
    let ghost jpos = pos as int;
    acc.insert(pos, (String::from_str(name), String::from_str(st)));
    proof {
        let after = pairs_view(acc@);
        assert(after =~~= before.insert(jpos, (namev, st@)));
        assert(after == spec_merge_entry(before, namev, st@));
        assert forall|x: int, y: int|
            #![trigger after[x], after[y]]
            0 <= x < y < after.len() implies after[x].0 != after[y].0 && spec_str_le(
            after[x].0,
            after[y].0,
        ) by {
            if x < jpos && y < jpos {
                assert(after[x] == before[x] && after[y] == before[y]);
            } else if x < jpos && y == jpos {
                assert(after[x] == before[x]);
                assert(spec_str_le(before[x].0, namev));
            } else if x < jpos && y > jpos {
                assert(after[x] == before[x] && after[y] == before[y - 1]);
            } else if x == jpos {
                assert(after[y] == before[y - 1]);
                assert(y - 1 >= jpos);
                if y - 1 == jpos {
                    assert(spec_str_le(namev, before[jpos].0));
                } else {
                    assert(spec_str_le(namev, before[jpos].0));
                    assert(spec_str_le(before[jpos].0, before[y - 1].0));
                    lemma_str_le_trans(namev, before[jpos].0, before[y - 1].0);
                }
            } else {
                assert(after[x] == before[x - 1] && after[y] == before[y - 1]);
            }
        }
        assert(merged_unique(after));
        assert(pairs_sorted(after));
    }
}

/// The partition a name belongs to, looked up among `(kind, name)` pairs;
/// `unknown` where the manifest does not list it.
pub open spec fn spec_kind_of(all: Seq<(Seq<char>, Seq<char>)>, i: int, name: Seq<char>) -> Seq<
    char,
>
    decreases all.len() - i,
    when 0 <= i <= all.len()
{
    if i >= all.len() {
        "unknown"@
    } else if all[i].1 == name {
        all[i].0
    } else {
        spec_kind_of(all, i + 1, name)
    }
}

fn kind_of(all: &Vec<(String, String)>, name: &str) -> (r: String)
    ensures
        r@ == spec_kind_of(pairs_view(all@), 0, name@),
{
    let ghost av = pairs_view(all@);
    let mut i: usize = 0;
    while i < all.len()
        invariant
            i <= all@.len(),
            av == pairs_view(all@),
            av.len() == all@.len(),
            spec_kind_of(av, 0, name@) == spec_kind_of(av, i as int, name@),
        decreases all@.len() - i,
    {
        proof {
            assert(av[i as int].1 == all@[i as int].1@);
            assert(av[i as int].0 == all@[i as int].0@);
        }
        if str_eq(all[i].1.as_str(), name) {
            return all[i].0.clone();
        }
        i = i + 1;
    }
    String::from_str("unknown")
}

/// The view of a merged result list.
pub open spec fn results_view(v: Seq<TestStatus>) -> Seq<(Seq<char>, Seq<char>, Seq<char>)> {
    v.map_values(|t: TestStatus| (t.test_name@, t.status@, t.kind@))
}

/// Merges per-chunk verdict lists into one result per test, resolving
/// conflicts by `spec_combine` and attaching each test's partition from the
/// `(kind, name)` manifest pairs; the tests are reported ascending by name.
pub fn merge_chunk_results(
    chunk_results: &Vec<Vec<(String, String)>>,
    all_tests: &Vec<(String, String)>,
) -> (r: Vec<TestStatus>)
    ensures
        ({
            let merged = spec_merge_chunks(
                chunk_results.deep_view(),
                0,
                Seq::<(Seq<char>, Seq<char>)>::empty(),
            );
            &&& results_view(r@).len() == merged.len()
            &&& forall|i: int| 0 <= i < merged.len() ==> results_view(r@)[i] == (
                (#[trigger] merged[i]).0,
                merged[i].1,
                spec_kind_of(pairs_view(all_tests@), 0, merged[i].0),
            )
            &&& (forall|x: int, y: int|
                #![trigger results_view(r@)[x], results_view(r@)[y]]
                0 <= x < y < merged.len() ==> spec_str_le(
                    results_view(r@)[x].0,
                    results_view(r@)[y].0,
                ))
        }),
{
    let mut acc: Vec<(String, String)> = Vec::new();
    proof {
        assert(pairs_view(acc@) =~~= Seq::<(Seq<char>, Seq<char>)>::empty());
    }
    let ghost cv = chunk_results.deep_view();
    let mut i: usize = 0;
    while i < chunk_results.len()
        invariant
            i <= cv.len(),
            cv == chunk_results.deep_view(),
            cv.len() == chunk_results@.len(),
            merged_unique(pairs_view(acc@)),
            pairs_sorted(pairs_view(acc@)),
            spec_merge_chunks(cv, 0, Seq::empty()) == spec_merge_chunks(
                cv,
                i as int,
                pairs_view(acc@),
            ),
        decreases cv.len() - i,
    {
        let chunk = &chunk_results[i];
        let ghost chv = cv[i as int];
        let ghost accv0 = pairs_view(acc@);
        proof {
            assert(chunk.deep_view() == chv);
        }
        let mut j: usize = 0;
        while j < chunk.len()
            invariant
                j <= chv.len(),
                chv == chunk.deep_view(),
                chv.len() == chunk@.len(),
                merged_unique(pairs_view(acc@)),
                pairs_sorted(pairs_view(acc@)),
                spec_merge_chunk(chv, 0, accv0) == spec_merge_chunk(
                    chv,
                    j as int,
                    pairs_view(acc@),
                ),
            decreases chv.len() - j,
        {
            proof {
                assert(chv[j as int] == (chunk@[j as int].0@, chunk@[j as int].1@));
            }
            merge_entry(&mut acc, chunk[j].0.as_str(), chunk[j].1.as_str());
            j = j + 1;
        }
        i = i + 1;
    }
    let ghost merged = spec_merge_chunks(cv, 0, Seq::empty());
    let mut r: Vec<TestStatus> = Vec::new();
    let mut m: usize = 0;
    while m < acc.len()
        invariant
            m <= acc@.len(),
            merged == pairs_view(acc@),
            merged.len() == acc@.len(),
            pairs_sorted(merged),
            results_view(r@).len() == m,
            forall|k: int| 0 <= k < m ==> results_view(r@)[k] == (
                (#[trigger] merged[k]).0,
                merged[k].1,
                spec_kind_of(pairs_view(all_tests@), 0, merged[k].0),
            ),
        decreases acc@.len() - m,
    {
        let kind = kind_of(all_tests, acc[m].0.as_str());
        let ts = TestStatus {
            test_name: acc[m].0.clone(),
            status: acc[m].1.clone(),
            kind,
        };
        let ghost rv0 = results_view(r@);
        let ghost tsv = (ts.test_name@, ts.status@, ts.kind@);
        r.push(ts);
        proof {
            assert(results_view(r@) =~~= rv0.push(tsv));
            assert(merged[m as int] == (acc@[m as int].0@, acc@[m as int].1@));
        }
        m = m + 1;
    }
    proof {
        assert forall|x: int, y: int|
            #![trigger results_view(r@)[x], results_view(r@)[y]]
            0 <= x < y < merged.len() implies spec_str_le(
            results_view(r@)[x].0,
            results_view(r@)[y].0,
        ) by {
            assert(results_view(r@)[x].0 == merged[x].0);
            assert(results_view(r@)[y].0 == merged[y].0);
            assert(spec_str_le(merged[x].0, merged[y].0));
        }
    }
    r
}
} // verus!
