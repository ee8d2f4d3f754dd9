use vstd::prelude::*;
use crate::text::str_eq;

verus! {

/// The behavior categories the end-to-end cases are grouped into.
#[derive(Clone, Copy, PartialEq, Eq, Structural, Debug)]
pub enum TestCategory {
    NoViolations,
    F2PViolations,
    P2PViolations,
    SrcDiffViolations,
    MultipleViolations,
}

/// The category of each end-to-end case.
pub open spec fn spec_categories() -> Seq<(usize, TestCategory)> {
    seq![
        (3usize, TestCategory::NoViolations),
        (4usize, TestCategory::NoViolations),
        (5usize, TestCategory::NoViolations),
        (6usize, TestCategory::NoViolations),
        (7usize, TestCategory::NoViolations),
        (8usize, TestCategory::NoViolations),
        (10usize, TestCategory::NoViolations),
        (12usize, TestCategory::NoViolations),
        (15usize, TestCategory::NoViolations),
        (1usize, TestCategory::F2PViolations),
        (2usize, TestCategory::F2PViolations),
        (11usize, TestCategory::F2PViolations),
        (9usize, TestCategory::SrcDiffViolations),
        (14usize, TestCategory::P2PViolations),
        (13usize, TestCategory::MultipleViolations),
    ]
}

/// The category mapping of the end-to-end cases.
pub fn get_test_categories() -> (r: Vec<(usize, TestCategory)>)
    ensures
        r@ == spec_categories(),
{
    let mut r: Vec<(usize, TestCategory)> = Vec::new();
    r.push((3, TestCategory::NoViolations));
    r.push((4, TestCategory::NoViolations));
    r.push((5, TestCategory::NoViolations));
    r.push((6, TestCategory::NoViolations));
    r.push((7, TestCategory::NoViolations));
    r.push((8, TestCategory::NoViolations));
    r.push((10, TestCategory::NoViolations));
    r.push((12, TestCategory::NoViolations));
    r.push((15, TestCategory::NoViolations));
    r.push((1, TestCategory::F2PViolations));
    r.push((2, TestCategory::F2PViolations));
    r.push((11, TestCategory::F2PViolations));
    r.push((9, TestCategory::SrcDiffViolations));
    r.push((14, TestCategory::P2PViolations));
    r.push((13, TestCategory::MultipleViolations));
    proof {
        assert(r@ =~= spec_categories());
    }
    r
}

/// The category a case is mapped to, if any.
pub open spec fn spec_category_of(cs: Seq<(usize, TestCategory)>, id: int, i: int) -> Option<
    TestCategory,
>
    decreases cs.len() - i,
    when 0 <= i <= cs.len()
{
    if i >= cs.len() {
        None
    } else if cs[i].0 == id {
        Some(cs[i].1)
    } else {
        spec_category_of(cs, id, i + 1)
    }
}

/// Looks a case's category up.
pub fn category_of(categories: &Vec<(usize, TestCategory)>, id: usize) -> (r: Option<TestCategory>)
    ensures
        r == spec_category_of(categories@, id as int, 0),
{
    let mut i: usize = 0;
    while i < categories.len()
        invariant
            i <= categories@.len(),
            spec_category_of(categories@, id as int, 0) == spec_category_of(
                categories@,
                id as int,
                i as int,
            ),
        decreases categories@.len() - i,
    {
        if categories[i].0 == id {
            return Some(categories[i].1);
        }
        i = i + 1;
    }
    None
}

fn category_eq(a: TestCategory, b: TestCategory) -> (r: bool)
    ensures
        r == (a == b),
{
    matches!((a, b),
        (TestCategory::NoViolations, TestCategory::NoViolations)
        | (TestCategory::F2PViolations, TestCategory::F2PViolations)
        | (TestCategory::P2PViolations, TestCategory::P2PViolations)
        | (TestCategory::SrcDiffViolations, TestCategory::SrcDiffViolations)
        | (TestCategory::MultipleViolations, TestCategory::MultipleViolations)
    )
}

/// The cases of one category, in mapping order.
pub fn get_test_ids_by_category(category: TestCategory) -> (r: Vec<usize>)
    ensures
        r@ == spec_categories().filter(|p: (usize, TestCategory)| p.1 == category).map_values(
            |p: (usize, TestCategory)| p.0,
        ),
{
    let ghost pred = |p: (usize, TestCategory)| p.1 == category;
    let cs = get_test_categories();
    let ghost cv = cs@;
    let mut r: Vec<usize> = Vec::new();
    proof {
        reveal(Seq::filter);
        assert(cv.take(0) =~= Seq::<(usize, TestCategory)>::empty());
        assert(r@ =~= cv.take(0).filter(pred).map_values(|p: (usize, TestCategory)| p.0));
    }
    let mut i: usize = 0;
    while i < cs.len()
        invariant
            i <= cv.len(),
            cv == cs@,
            cv == spec_categories(),
            pred == (|p: (usize, TestCategory)| p.1 == category),
            r@ == cv.take(i as int).filter(pred).map_values(|p: (usize, TestCategory)| p.0),
        decreases cv.len() - i,
    {
        proof {
            reveal(Seq::filter);
            assert(cv.take(i + 1).drop_last() =~= cv.take(i as int));
            assert(cv.take(i + 1).last() == cv[i as int]);
        }
        if category_eq(cs[i].1, category) {
            r.push(cs[i].0);
            proof {
                assert(pred(cv[i as int]));
                assert(r@ =~= cv.take(i + 1).filter(pred).map_values(
                    |p: (usize, TestCategory)| p.0,
                ));
            }
        } else {
            proof {
                assert(!pred(cv[i as int]));
            }
        }
        i = i + 1;
    }
    proof {
        assert(cv.take(cv.len() as int) =~= cv);
    }
    r
}

/// The order the cases run in: the quiet ones first, the involved ones last.
pub open spec fn spec_execution_order() -> Seq<usize> {
    seq![
        3usize,
        4usize,
        5usize,
        6usize,
        7usize,
        8usize,
        10usize,
        12usize,
        15usize,
        1usize,
        2usize,
        11usize,
        9usize,
        14usize,
        13usize,
    ]
}

/// The priority order of the end-to-end cases.
pub fn get_test_execution_order() -> (r: Vec<usize>)
    ensures
        r@ == spec_execution_order(),
{
    let mut r: Vec<usize> = Vec::new();
    r.push(3);
    r.push(4);
    r.push(5);
    r.push(6);
    r.push(7);
    r.push(8);
    r.push(10);
    r.push(12);
    r.push(15);
    r.push(1);
    r.push(2);
    r.push(11);
    r.push(9);
    r.push(14);
    r.push(13);
    proof {
        assert(r@ =~= spec_execution_order());
    }
    r
}

/// How a run selects and sequences its cases.
pub enum ExecutionStrategy {
    All,
    ByCategory(TestCategory),
    ByIds(Vec<usize>),
    Sequential,
    FailFast,
}

impl ExecutionStrategy {
    /// The cases this strategy runs, in order.
    pub fn get_test_ids(&self) -> (r: Vec<usize>)
        ensures
            r@ == (match self {
                ExecutionStrategy::ByCategory(c) => spec_categories().filter(
                    |p: (usize, TestCategory)| p.1 == c,
                ).map_values(|p: (usize, TestCategory)| p.0),
                ExecutionStrategy::ByIds(ids) => ids@,
                _ => spec_execution_order(),
            }),
    {
        match self {
            ExecutionStrategy::ByCategory(c) => get_test_ids_by_category(*c),
            ExecutionStrategy::ByIds(ids) => {
                let mut r: Vec<usize> = Vec::new();
                let mut i: usize = 0;
                while i < ids.len()
                    invariant
                        i <= ids@.len(),
                        r@ == ids@.take(i as int),
                    decreases ids@.len() - i,
                {
                    r.push(ids[i]);
                    proof {
                        assert(r@ =~= ids@.take(i + 1));
                    }
                    i = i + 1;
                }
                proof {
                    assert(ids@.take(ids@.len() as int) =~= ids@);
                }
                r
            },
            _ => get_test_execution_order(),
        }
    }

    /// Only the fail-fast strategy stops at the first failure.
    pub fn should_fail_fast(&self) -> (r: bool)
        ensures
            r == (self is FailFast),
    {
        matches!(self, ExecutionStrategy::FailFast)
    }
}

/// The numeric value of a decimal digit.
pub open spec fn spec_digit_val(c: char) -> Option<int> {
    if '0' <= c && c <= '9' {
        Some(c as int - 48)
    } else {
        None
    }
}

/// The value of an all-digit string.
pub open spec fn spec_parse_val(s: Seq<char>, i: int, acc: int) -> Option<int>
    decreases s.len() - i,
    when 0 <= i <= s.len()
{
    if i >= s.len() {
        Some(acc)
    } else {
        match spec_digit_val(s[i]) {
            Some(d) => spec_parse_val(s, i + 1, acc * 10 + d),
            None => None,
        }
    }
}

pub open spec fn spec_parse_usize(s: Seq<char>) -> Option<int> {
    if s.len() == 0 {
        None
    } else {
        spec_parse_val(s, 0, 0)
    }
}

/// Parses a decimal case number; values beyond the machine's range are
/// refused.
pub fn parse_usize(s: &str) -> (r: Option<usize>)
    ensures
        match r {
            Some(n) => spec_parse_usize(s@) == Some(n as int),
            None => spec_parse_usize(s@) is None || (spec_parse_usize(s@) matches Some(v) && v
                > usize::MAX),
        },
{
    let cs = crate::text::chars_of(s);
    let t = cs.as_slice();
    if t.len() == 0 {
        return None;
    }
    let mut acc: usize = 0;
    let mut i: usize = 0;
    while i < t.len()
        invariant
            i <= t@.len(),
            t@ == s@,
            t@.len() > 0,
            spec_parse_val(t@, 0, 0) == spec_parse_val(t@, i as int, acc as int),
        decreases t@.len() - i,
    {
        let c = t[i];
        if !('0' <= c && c <= '9') {
            return None;
        }
        let d = (c as u8) - 48;
        if acc > (usize::MAX - (d as usize)) / 10 {
            proof {
                assert(spec_digit_val(t@[i as int]) == Some(d as int));
                assert(acc * 10 + d > usize::MAX) by (nonlinear_arith)
                    requires
                        acc > (usize::MAX - (d as usize)) / 10,
                        0 <= d <= 9,
                        d <= usize::MAX,
                ;
                lemma_parse_val_grows(t@, i + 1, acc * 10 + d);
                assert(spec_parse_val(t@, i as int, acc as int) == spec_parse_val(
                    t@,
                    i + 1,
                    acc * 10 + d,
                ));
            }
            return None;
        }
        acc = acc * 10 + (d as usize);
        i = i + 1;
    }
    Some(acc)
}

proof fn lemma_parse_val_grows(s: Seq<char>, i: int, acc: int)
    requires
        0 <= i <= s.len(),
        acc >= 0,
    ensures
        spec_parse_val(s, i, acc) matches Some(v) ==> v >= acc,
    decreases s.len() - i,
{
    if i < s.len() {
        match spec_digit_val(s[i]) {
            Some(d) => {
                lemma_parse_val_grows(s, i + 1, acc * 10 + d);
            },
            None => {},
        }
    }
}

/// Reads the strategy the command line asks for: a named selector, or a
/// plain list of case numbers, or everything.
pub fn parse_strategy_from_args(args: &Vec<String>) -> (r: ExecutionStrategy)
    ensures
        args@.len() == 0 ==> r is All,
        args@.len() > 0 && args.deep_view()[0] == "--no-violations"@ ==> r == ExecutionStrategy::ByCategory(
            TestCategory::NoViolations,
        ),
        args@.len() > 0 && args.deep_view()[0] == "--f2p-violations"@ ==> r == ExecutionStrategy::ByCategory(
            TestCategory::F2PViolations,
        ),
        args@.len() > 0 && args.deep_view()[0] == "--p2p-violations"@ ==> r == ExecutionStrategy::ByCategory(
            TestCategory::P2PViolations,
        ),
        args@.len() > 0 && args.deep_view()[0] == "--src-diff"@ ==> r == ExecutionStrategy::ByCategory(
            TestCategory::SrcDiffViolations,
        ),
        args@.len() > 0 && args.deep_view()[0] == "--multiple"@ ==> r == ExecutionStrategy::ByCategory(
            TestCategory::MultipleViolations,
        ),
        args@.len() > 0 && args.deep_view()[0] == "--fail-fast"@ ==> r is FailFast,
        args@.len() > 0 && args.deep_view()[0] == "--sequential"@ ==> r is Sequential,
        (r is ByIds) ==> (r->ByIds_0)@.len() > 0,
{
    proof {
        reveal_strlit("--no-violations");
        reveal_strlit("--f2p-violations");
        reveal_strlit("--p2p-violations");
        reveal_strlit("--src-diff");
        reveal_strlit("--multiple");
        reveal_strlit("--fail-fast");
        reveal_strlit("--sequential");
        assert("--f2p-violations"@ != "--p2p-violations"@) by {
            assert("--f2p-violations"@[2] == 'f');
            assert("--p2p-violations"@[2] == 'p');
        }
        assert("--src-diff"@ != "--multiple"@) by {
            assert("--src-diff"@[2] == 's');
            assert("--multiple"@[2] == 'm');
        }
    }
    if args.len() == 0 {
        return ExecutionStrategy::All;
    }
    proof {
        assert(args.deep_view()[0] == args@[0]@);
    }
    if str_eq(args[0].as_str(), "--no-violations") {
        return ExecutionStrategy::ByCategory(TestCategory::NoViolations);
    }
    if str_eq(args[0].as_str(), "--f2p-violations") {
        return ExecutionStrategy::ByCategory(TestCategory::F2PViolations);
    }
    if str_eq(args[0].as_str(), "--p2p-violations") {
        return ExecutionStrategy::ByCategory(TestCategory::P2PViolations);
    }
    if str_eq(args[0].as_str(), "--src-diff") {
        return ExecutionStrategy::ByCategory(TestCategory::SrcDiffViolations);
    }
    if str_eq(args[0].as_str(), "--multiple") {
        return ExecutionStrategy::ByCategory(TestCategory::MultipleViolations);
    }
    if str_eq(args[0].as_str(), "--fail-fast") {
        return ExecutionStrategy::FailFast;
    }
    if str_eq(args[0].as_str(), "--sequential") {
        return ExecutionStrategy::Sequential;
    }
    let mut ids: Vec<usize> = Vec::new();
    let mut i: usize = 0;
    while i < args.len()
        decreases args@.len() - i,
    {
        match parse_usize(args[i].as_str()) {
            Some(n) => {
                ids.push(n);
            },
            None => {},
        }
        i = i + 1;
    }
    if ids.len() == 0 {
        ExecutionStrategy::All
    } else {
        ExecutionStrategy::ByIds(ids)
    }
}

} // verus!
