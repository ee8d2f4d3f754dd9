use vstd::prelude::*;
use crate::text::str_eq;

verus! {

/// Classification of one test inside one parsed log.
#[derive(Clone, Copy, PartialEq, Eq, Structural, Debug)]
pub enum Outcome {
    Passed,
    Failed,
    Ignored,
}

/// The status of one test of the universe at one stage, after resolution
/// against a parsed log: as `Outcome`, plus `Missing` when the log holds no
/// evidence of the test at all.
#[derive(Clone, Copy, PartialEq, Eq, Structural, Debug)]
pub enum Status {
    Passed,
    Failed,
    Ignored,
    Missing,
}

/// The stronger of two raw signals for the same test: a failure signal always
/// wins over a pass signal, and both win over an ignore signal, so a real
/// failure is never shadowed by an incidental "ok"-looking token.
pub open spec fn spec_stronger(a: Outcome, b: Outcome) -> Outcome {
    if a == Outcome::Failed || b == Outcome::Failed {
        Outcome::Failed
    } else if a == Outcome::Passed || b == Outcome::Passed {
        Outcome::Passed
    } else {
        Outcome::Ignored
    }
}

pub fn stronger(a: Outcome, b: Outcome) -> (r: Outcome)
    ensures
        r == spec_stronger(a, b),
{
    match (a, b) {
        (Outcome::Failed, _) => Outcome::Failed,
        (_, Outcome::Failed) => Outcome::Failed,
        (Outcome::Passed, _) => Outcome::Passed,
        (_, Outcome::Passed) => Outcome::Passed,
        _ => Outcome::Ignored,
    }
}

/// The textual form of a status, as reports spell it.
pub open spec fn spec_status_text(s: Status) -> Seq<char> {
    match s {
        Status::Passed => "passed"@,
        Status::Failed => "failed"@,
        Status::Ignored => "ignored"@,
        Status::Missing => "missing"@,
    }
}

pub fn status_text(s: Status) -> (r: &'static str)
    ensures
        r@ == spec_status_text(s),
{
    match s {
        Status::Passed => "passed",
        Status::Failed => "failed",
        Status::Ignored => "ignored",
        Status::Missing => "missing",
    }
}

/// The classification map encoded by an association list, later entries
/// overriding earlier ones for the same name.
pub open spec fn map_of_items(items: Seq<(String, Outcome)>) -> Map<Seq<char>, Outcome>
    decreases items.len(),
{
    if items.len() == 0 {
        Map::empty()
    } else {
        map_of_items(items.drop_last()).insert(items.last().0@, items.last().1)
    }
}

/// No name occurs twice.
pub open spec fn items_unique(items: Seq<(String, Outcome)>) -> bool {
    forall|i: int, j: int| 0 <= i < j < items.len() ==> items[i].0@ != items[j].0@
}

pub proof fn lemma_map_of_items_key(items: Seq<(String, Outcome)>, n: Seq<char>)
    ensures
        map_of_items(items).contains_key(n) <==> exists|i: int|
            0 <= i < items.len() && items[i].0@ == n,
    decreases items.len(),
{
    if items.len() > 0 {
        lemma_map_of_items_key(items.drop_last(), n);
        if map_of_items(items).contains_key(n) && items.last().0@ != n {
            let i = choose|i: int| 0 <= i < items.drop_last().len() && items.drop_last()[i].0@
                == n;
            assert(items[i].0@ == n);
        }
        if exists|i: int| 0 <= i < items.len() && items[i].0@ == n {
            let i = choose|i: int| 0 <= i < items.len() && items[i].0@ == n;
            if i < items.len() - 1 {
                assert(items.drop_last()[i].0@ == n);
            }
        }
    }
}

pub proof fn lemma_map_of_items_at(items: Seq<(String, Outcome)>, i: int)
    requires
        items_unique(items),
        0 <= i < items.len(),
    ensures
        map_of_items(items).contains_key(items[i].0@),
        map_of_items(items)[items[i].0@] == items[i].1,
    decreases items.len(),
{
    if i == items.len() - 1 {
        lemma_map_of_items_key(items, items[i].0@);
    } else {
        assert(items.drop_last()[i] == items[i]);
        assert(items_unique(items.drop_last())) by {
            assert(forall|a: int, b: int|
                0 <= a < b < items.drop_last().len() ==> items.drop_last()[a].0@ == items[a].0@
                    && items.drop_last()[b].0@ == items[b].0@);
        }
        lemma_map_of_items_at(items.drop_last(), i);
        assert(items[i].0@ != items.last().0@);
    }
}

proof fn lemma_map_of_items_update(items: Seq<(String, Outcome)>, i: int, x: (String, Outcome))
    requires
        items_unique(items),
        0 <= i < items.len(),
        x.0@ == items[i].0@,
    ensures
        map_of_items(items.update(i, x)) == map_of_items(items).insert(x.0@, x.1),
    decreases items.len(),
{
    let upd = items.update(i, x);
    if i == items.len() - 1 {
        assert(upd.drop_last() =~= items.drop_last());
        assert(upd.last() == x);
    } else {
        assert(upd.last() == items.last());
        assert(upd.drop_last() =~= items.drop_last().update(i, x));
        assert(items.drop_last()[i] == items[i]);
        assert(items_unique(items.drop_last())) by {
            assert(forall|a: int, b: int|
                0 <= a < b < items.drop_last().len() ==> items.drop_last()[a].0@ == items[a].0@
                    && items.drop_last()[b].0@ == items[b].0@);
        }
        lemma_map_of_items_update(items.drop_last(), i, x);
        assert(items.last().0@ != x.0@);
        assert(map_of_items(items.drop_last()).insert(x.0@, x.1).insert(
            items.last().0@,
            items.last().1,
        ) =~= map_of_items(items.drop_last()).insert(items.last().0@, items.last().1).insert(
            x.0@,
            x.1,
        ));
    }
}

/// What recording one raw signal does to a classification map: a new name is
/// entered as seen; for a known name the stronger signal wins.
pub open spec fn spec_record(m: Map<Seq<char>, Outcome>, n: Seq<char>, st: Outcome) -> Map<
    Seq<char>,
    Outcome,
> {
    if m.contains_key(n) {
        m.insert(n, spec_stronger(m[n], st))
    } else {
        m.insert(n, st)
    }
}

/// What recording one raw signal does when earlier passes take precedence: a
/// name already classified is never reclassified.
pub open spec fn spec_record_soft(m: Map<Seq<char>, Outcome>, n: Seq<char>, st: Outcome) -> Map<
    Seq<char>,
    Outcome,
> {
    if m.contains_key(n) {
        m
    } else {
        m.insert(n, st)
    }
}

/// The accumulated classification of one log: each test name seen so far with
/// the outcome its raw signals merge to.
pub struct Classification {
    pub items: Vec<(String, Outcome)>,
}

impl Classification {
    pub open spec fn map_of(self) -> Map<Seq<char>, Outcome> {
        map_of_items(self.items@)
    }

    pub open spec fn wf(self) -> bool {
        items_unique(self.items@)
    }

    pub fn new() -> (r: Classification)
        ensures
            r.wf(),
            r.map_of() == Map::<Seq<char>, Outcome>::empty(),
    {
        Classification { items: Vec::new() }
    }

    /// The position of `name`, if it was recorded.
    fn find_idx(&self, name: &str) -> (r: Option<usize>)
        ensures
            match r {
                Some(i) => i < self.items@.len() && self.items@[i as int].0@ == name@,
                None => forall|i: int| 0 <= i < self.items@.len() ==> self.items@[i].0@ != name@,
            },
    {
        let mut i: usize = 0;
        while i < self.items.len()
            invariant
                i <= self.items@.len(),
                forall|k: int| 0 <= k < i ==> self.items@[k].0@ != name@,
            decreases self.items@.len() - i,
        {
            if str_eq(self.items[i].0.as_str(), name) {
                return Some(i);
            }
            i = i + 1;
        }
        None
    }

    /// The outcome recorded for `name`, if any.
    pub fn get(&self, name: &str) -> (r: Option<Outcome>)
        requires
            self.wf(),
        ensures
            r == if self.map_of().contains_key(name@) {
                Some(self.map_of()[name@])
            } else {
                None::<Outcome>
            },
    {
        proof {
            lemma_map_of_items_key(self.items@, name@);
        }
        match self.find_idx(name) {
            Some(i) => {
                proof {
                    lemma_map_of_items_at(self.items@, i as int);
                }
                Some(self.items[i].1)
            },
            None => None,
        }
    }

    /// Records one raw signal, merging by precedence with whatever is already
    /// known of the name.
    pub fn record(&mut self, name: &str, st: Outcome)
        requires
            old(self).wf(),
        ensures
            final(self).wf(),
            final(self).map_of() == spec_record(old(self).map_of(), name@, st),
    {
        proof {
            lemma_map_of_items_key(self.items@, name@);
        }
        match self.find_idx(name) {
            Some(i) => {
                proof {
                    lemma_map_of_items_at(self.items@, i as int);
                }
                let nm = self.items[i].0.clone();
                let merged = stronger(self.items[i].1, st);
                let ghost items0 = self.items@;
                self.items.set(i, (nm, merged));
                proof {
                    assert(self.items@ =~= items0.update(i as int, (nm, merged)));
                    lemma_map_of_items_update(items0, i as int, (nm, merged));
                    assert(forall|a: int, b: int|
                        0 <= a < b < self.items@.len() ==> self.items@[a].0@ == items0[a].0@
                            && self.items@[b].0@ == items0[b].0@);
                }
            },
            None => {
                let ghost items0 = self.items@;
                self.items.push((String::from_str(name), st));
                proof {
                    assert(self.items@.drop_last() =~= items0);
                    assert(self.items@.last().0@ == name@);
                }
            },
        }
    }

    /// Records one raw signal only if the name has no classification yet.
    pub fn record_if_absent(&mut self, name: &str, st: Outcome)
        requires
            old(self).wf(),
        ensures
            final(self).wf(),
            final(self).map_of() == spec_record_soft(old(self).map_of(), name@, st),
    {
        match self.get(name) {
            Some(_) => {},
            None => {
                self.record(name, st);
                proof {
                    assert(spec_record(old(self).map_of(), name@, st) == spec_record_soft(
                        old(self).map_of(),
                        name@,
                        st,
                    ));
                }
            },
        }
    }
}

/// Raw signals for a name can conflict; however they arrive, and in whatever
/// order, a pass signal never hides a failure: once both a `Failed` and a
/// `Passed` signal were recorded for a name, the name is classified `Failed`.
pub proof fn lemma_failure_wins_over_pass(m: Map<Seq<char>, Outcome>, n: Seq<char>)
    ensures
        spec_record(spec_record(m, n, Outcome::Passed), n, Outcome::Failed)[n] == Outcome::Failed,
        spec_record(spec_record(m, n, Outcome::Failed), n, Outcome::Passed)[n] == Outcome::Failed,
{
}

/// The names a classification map sends to outcome `o`.
pub open spec fn outcome_names(m: Map<Seq<char>, Outcome>, o: Outcome) -> Set<Seq<char>> {
    Set::new(|n: Seq<char>| m.contains_key(n) && m[n] == o)
}

/// No name occurs twice in the list.
pub open spec fn names_unique(s: Seq<Seq<char>>) -> bool {
    forall|i: int, j: int| 0 <= i < j < s.len() ==> s[i] != s[j]
}

/// The per-test classification extracted from one log: the `passed`, `failed`
/// and `ignored` names are pairwise disjoint, and `all` is their union.
pub struct ParsedLog {
    pub passed: Vec<String>,
    pub failed: Vec<String>,
    pub ignored: Vec<String>,
    pub all: Vec<String>,
}

impl ParsedLog {
    pub open spec fn passed_set(self) -> Set<Seq<char>> {
        self.passed.deep_view().to_set()
    }

    pub open spec fn failed_set(self) -> Set<Seq<char>> {
        self.failed.deep_view().to_set()
    }

    pub open spec fn ignored_set(self) -> Set<Seq<char>> {
        self.ignored.deep_view().to_set()
    }

    pub open spec fn all_set(self) -> Set<Seq<char>> {
        self.all.deep_view().to_set()
    }

    pub open spec fn wf(self) -> bool {
        &&& names_unique(self.passed.deep_view())
        &&& names_unique(self.failed.deep_view())
        &&& names_unique(self.ignored.deep_view())
        &&& self.passed_set().disjoint(self.failed_set())
        &&& self.passed_set().disjoint(self.ignored_set())
        &&& self.failed_set().disjoint(self.ignored_set())
        &&& self.all.deep_view() == self.passed.deep_view() + self.failed.deep_view()
            + self.ignored.deep_view()
    }
}

/// Every parsed log partitions its names: `all` is exactly the union of the
/// three classification sets, and those sets are pairwise disjoint.
pub proof fn lemma_parsed_log_partition(p: ParsedLog)
    requires
        p.wf(),
    ensures
        p.all_set() == p.passed_set().union(p.failed_set()).union(p.ignored_set()),
        p.passed_set().disjoint(p.failed_set()),
        p.passed_set().disjoint(p.ignored_set()),
        p.failed_set().disjoint(p.ignored_set()),
{
    let a = p.passed.deep_view();
    let b = p.failed.deep_view();
    let c = p.ignored.deep_view();
    assert forall|n: Seq<char>| p.all_set().contains(n) implies p.passed_set().union(
        p.failed_set(),
    ).union(p.ignored_set()).contains(n) by {
        let i = choose|i: int| 0 <= i < (a + b + c).len() && (a + b + c)[i] == n;
        if i < a.len() {
            assert(a[i] == n);
        } else if i < a.len() + b.len() {
            assert(b[i - a.len()] == n);
        } else {
            assert(c[i - a.len() - b.len()] == n);
        }
    }
    assert forall|n: Seq<char>| p.passed_set().union(p.failed_set()).union(
        p.ignored_set(),
    ).contains(n) implies p.all_set().contains(n) by {
        if a.contains(n) {
            let i = choose|i: int| 0 <= i < a.len() && a[i] == n;
            assert((a + b + c)[i] == n);
        } else if b.contains(n) {
            let i = choose|i: int| 0 <= i < b.len() && b[i] == n;
            assert((a + b + c)[a.len() + i] == n);
        } else {
            let i = choose|i: int| 0 <= i < c.len() && c[i] == n;
            assert((a + b + c)[a.len() + b.len() + i] == n);
        }
    }
    assert(p.all_set() =~= p.passed_set().union(p.failed_set()).union(p.ignored_set()));
}

/// Resolution of one universe name against one parsed log, with the
/// precedence `failed > passed > ignored`, and `missing` where the log has no
/// evidence of the name at all.
pub open spec fn spec_resolve(p: ParsedLog, n: Seq<char>) -> Status {
    if p.failed_set().contains(n) {
        Status::Failed
    } else if p.passed_set().contains(n) {
        Status::Passed
    } else if p.ignored_set().contains(n) {
        Status::Ignored
    } else {
        Status::Missing
    }
}

/// A name that carries any failure evidence resolves to `Failed`, whatever
/// other sets it sits in: a later incidental pass never shadows a failure.
pub proof fn lemma_resolve_failure_precedence(p: ParsedLog, n: Seq<char>)
    requires
        p.failed_set().contains(n),
    ensures
        spec_resolve(p, n) == Status::Failed,
{
}

/// Does the list hold `name`?
pub fn contains_name(v: &Vec<String>, name: &str) -> (r: bool)
    ensures
        r == v.deep_view().to_set().contains(name@),
{
    let mut i: usize = 0;
    while i < v.len()
        invariant
            i <= v@.len(),
            forall|k: int| 0 <= k < i ==> v.deep_view()[k] != name@,
        decreases v@.len() - i,
    {
        if str_eq(v[i].as_str(), name) {
            assert(v.deep_view()[i as int] == name@);
            return true;
        }
        i = i + 1;
    }
    false
}

/// Resolves one name against a parsed log.
pub fn resolve(p: &ParsedLog, name: &str) -> (r: Status)
    ensures
        r == spec_resolve(*p, name@),
{
    if contains_name(&p.failed, name) {
        Status::Failed
    } else if contains_name(&p.passed, name) {
        Status::Passed
    } else if contains_name(&p.ignored, name) {
        Status::Ignored
    } else {
        Status::Missing
    }
}

/// Resolves every name of a universe against a parsed log, in order.
pub fn status_lookup(names: &Vec<String>, parsed: &ParsedLog) -> (r: Vec<Status>)
    ensures
        r@.len() == names@.len(),
        forall|i: int| 0 <= i < names@.len() ==> r@[i] == spec_resolve(
            *parsed,
            names.deep_view()[i],
        ),
{
    let mut r: Vec<Status> = Vec::new();
    let mut i: usize = 0;
    while i < names.len()
        invariant
            i <= names@.len(),
            r@.len() == i,
            forall|k: int| 0 <= k < i ==> r@[k] == spec_resolve(*parsed, names.deep_view()[k]),
        decreases names@.len() - i,
    {
        r.push(resolve(parsed, names[i].as_str()));
        i = i + 1;
    }
    r
}

fn push_name(dst: &mut Vec<String>, name: &str)
    ensures
        final(dst).deep_view() == old(dst).deep_view().push(name@),
{
    dst.push(String::from_str(name));
    proof {
        assert(dst.deep_view() =~~= old(dst).deep_view().push(name@));
    }
}

pub fn extend_names(dst: &mut Vec<String>, src: &Vec<String>)
    ensures
        final(dst).deep_view() == old(dst).deep_view() + src.deep_view(),
{
    let mut i: usize = 0;
    while i < src.len()
        invariant
            i <= src@.len(),
            dst.deep_view() == old(dst).deep_view() + src.deep_view().take(i as int),
        decreases src@.len() - i,
    {
        let ghost dv = dst.deep_view();
        dst.push(src[i].clone());
        proof {
            assert(dst.deep_view() =~~= dv.push(src.deep_view()[i as int]));
            assert(dst.deep_view() =~~= old(dst).deep_view() + src.deep_view().take(i + 1));
        }
        i = i + 1;
    }
    proof {
        assert(src.deep_view().take(src@.len() as int) =~~= src.deep_view());
    }
}

proof fn lemma_push_to_set(s: Seq<Seq<char>>, x: Seq<char>)
    ensures
        s.push(x).to_set() == s.to_set().insert(x),
{
    assert forall|n: Seq<char>| s.push(x).to_set().contains(n) implies s.to_set().insert(
        x,
    ).contains(n) by {
        let i = choose|i: int| 0 <= i < s.push(x).len() && s.push(x)[i] == n;
        if i < s.len() {
            assert(s[i] == n);
        }
    }
    assert forall|n: Seq<char>| s.to_set().insert(x).contains(n) implies s.push(
        x,
    ).to_set().contains(n) by {
        if n == x {
            assert(s.push(x)[s.len() as int] == n);
        } else {
            let i = choose|i: int| 0 <= i < s.len() && s[i] == n;
            assert(s.push(x)[i] == n);
        }
    }
    assert(s.push(x).to_set() =~= s.to_set().insert(x));
}

proof fn lemma_outcome_names_insert(m: Map<Seq<char>, Outcome>, n: Seq<char>, st: Outcome)
    requires
        !m.contains_key(n),
    ensures
        outcome_names(m.insert(n, st), st) == outcome_names(m, st).insert(n),
        forall|o: Outcome| o != st ==> outcome_names(m.insert(n, st), o) == outcome_names(m, o),
{
    assert(outcome_names(m.insert(n, st), st) =~= outcome_names(m, st).insert(n));
    assert forall|o: Outcome| o != st implies outcome_names(m.insert(n, st), o) == outcome_names(
        m,
        o,
    ) by {
        assert(outcome_names(m.insert(n, st), o) =~= outcome_names(m, o));
    }
}

/// Freezes an accumulated classification into a parsed log: each recorded
/// name lands in the set its merged outcome selects, and `all` is the union.
pub fn into_parsed_log(cls: &Classification) -> (r: ParsedLog)
    requires
        cls.wf(),
    ensures
        r.wf(),
        r.passed_set() == outcome_names(cls.map_of(), Outcome::Passed),
        r.failed_set() == outcome_names(cls.map_of(), Outcome::Failed),
        r.ignored_set() == outcome_names(cls.map_of(), Outcome::Ignored),
{
    let ghost items = cls.items@;
    let mut passed: Vec<String> = Vec::new();
    let mut failed: Vec<String> = Vec::new();
    let mut ignored: Vec<String> = Vec::new();
    let mut i: usize = 0;
    while i < cls.items.len()
        invariant
            cls.wf(),
            items == cls.items@,
            i <= items.len(),
            passed.deep_view().to_set() =~= outcome_names(
                map_of_items(items.take(i as int)),
                Outcome::Passed,
            ),
            failed.deep_view().to_set() =~= outcome_names(
                map_of_items(items.take(i as int)),
                Outcome::Failed,
            ),
            ignored.deep_view().to_set() =~= outcome_names(
                map_of_items(items.take(i as int)),
                Outcome::Ignored,
            ),
            names_unique(passed.deep_view()),
            names_unique(failed.deep_view()),
            names_unique(ignored.deep_view()),
        decreases items.len() - i,
    {
        let name = self_item_name(cls, i);
        let st = cls.items[i].1;
        proof {
            assert(items.take(i + 1).drop_last() =~= items.take(i as int));
            assert(items.take(i + 1).last() == items[i as int]);
            lemma_map_of_items_key(items.take(i as int), items[i as int].0@);
            assert(forall|k: int| 0 <= k < i ==> items.take(i as int)[k].0@ == items[k].0@);
        }
        let ghost m0 = map_of_items(items.take(i as int));
        let ghost m1 = map_of_items(items.take(i + 1));
        proof {
            assert(m1 == m0.insert(items[i as int].0@, items[i as int].1));
            assert(!m0.contains_key(items[i as int].0@));
        }
        proof {
            lemma_outcome_names_insert(m0, items[i as int].0@, items[i as int].1);
        }
        match st {
            Outcome::Passed => {
                proof {
                    assert(!passed.deep_view().to_set().contains(name@));
                    lemma_push_to_set(passed.deep_view(), name@);
                }
                let ghost dv0 = passed.deep_view();
                push_name(&mut passed, name.as_str());
                proof {
                    assert(passed.deep_view().to_set() == dv0.to_set().insert(name@));
                    assert(names_unique(passed.deep_view())) by {
                        assert(forall|k: int| 0 <= k < dv0.len() ==> passed.deep_view()[k]
                            == dv0[k]);
                        assert(forall|k: int|
                            0 <= k < dv0.len() ==> dv0.to_set().contains(#[trigger] dv0[k]));
                    }
                }
            },
            Outcome::Failed => {
                proof {
                    assert(!failed.deep_view().to_set().contains(name@));
                    lemma_push_to_set(failed.deep_view(), name@);
                }
                let ghost dv0 = failed.deep_view();
                push_name(&mut failed, name.as_str());
                proof {
                    assert(failed.deep_view().to_set() == dv0.to_set().insert(name@));
                    assert(names_unique(failed.deep_view())) by {
                        assert(forall|k: int| 0 <= k < dv0.len() ==> failed.deep_view()[k]
                            == dv0[k]);
                        assert(forall|k: int|
                            0 <= k < dv0.len() ==> dv0.to_set().contains(#[trigger] dv0[k]));
                    }
                }
            },
            Outcome::Ignored => {
                proof {
                    assert(!ignored.deep_view().to_set().contains(name@));
                    lemma_push_to_set(ignored.deep_view(), name@);
                }
                let ghost dv0 = ignored.deep_view();
                push_name(&mut ignored, name.as_str());
                proof {
                    assert(ignored.deep_view().to_set() == dv0.to_set().insert(name@));
                    assert(names_unique(ignored.deep_view())) by {
                        assert(forall|k: int| 0 <= k < dv0.len() ==> ignored.deep_view()[k]
                            == dv0[k]);
                        assert(forall|k: int|
                            0 <= k < dv0.len() ==> dv0.to_set().contains(#[trigger] dv0[k]));
                    }
                }
            },
        }
        i = i + 1;
    }
    proof {
        assert(items.take(items.len() as int) =~= items);
    }
    let mut all: Vec<String> = Vec::new();
    extend_names(&mut all, &passed);
    extend_names(&mut all, &failed);
    extend_names(&mut all, &ignored);
    proof {
        assert(all.deep_view() =~~= passed.deep_view() + failed.deep_view()
            + ignored.deep_view());
        assert(outcome_names(cls.map_of(), Outcome::Passed).disjoint(
            outcome_names(cls.map_of(), Outcome::Failed),
        ));
    }
    ParsedLog { passed, failed, ignored, all }
}

/// A clone of the name at position `i`.
fn self_item_name(cls: &Classification, i: usize) -> (r: String)
    requires
        i < cls.items@.len(),
    ensures
        r@ == cls.items@[i as int].0@,
{
    cls.items[i].0.clone()
}

} // verus!
