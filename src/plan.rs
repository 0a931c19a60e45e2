use vstd::prelude::*;
use vstd::set_lib::*;
use crate::rule::{first_named, last_run_of, lookup, rules_view, find_index, Rule, RuleView};
use crate::store::StateStore;

verus! {

/// Why no plan could be built.
pub enum PlanError {
    /// The named rule was reached again while its own dependencies were being resolved.
    Cycle(String),
}

/// What resolution reports besides the plan.
pub enum Notice {
    /// A dependency name that no rule carries; it counts as not stale.
    Missing(String),
    /// A rule found up to date, and skipped.
    Skipped(usize),
}

pub ghost enum NoticeView {
    Missing(Seq<char>),
    Skipped(int),
}

impl View for Notice {
    type V = NoticeView;

    open spec fn view(&self) -> NoticeView {
        match self {
            Notice::Missing(n) => NoticeView::Missing(n@),
            Notice::Skipped(i) => NoticeView::Skipped(*i as int),
        }
    }
}

pub open spec fn notice_views(s: Seq<Notice>) -> Seq<NoticeView> {
    s.map_values(|n: Notice| n@)
}

/// A resolution's outcome: the rules to run, as indices into the manifest, and
/// the notices met on the way, in order.
pub struct Resolution {
    /// The rules to run, dependencies first.
    pub order: Vec<usize>,
    /// The missing names and skipped rules, in the order the walk met them.
    pub notices: Vec<Notice>,
}

pub open spec fn ints(s: Seq<usize>) -> Seq<int> {
    s.map_values(|x: usize| x as int)
}

pub open spec fn times_view(t: Seq<Vec<u64>>) -> Seq<Seq<u64>> {
    t.map_values(|v: Vec<u64>| v@)
}

/// `mtimes[i][r]` is the modification time of resource `r` of rule `i`.
pub open spec fn times_fit(rules: Seq<Rule>, mtimes: Seq<Vec<u64>>) -> bool {
    &&& mtimes.len() == rules.len()
    &&& forall|i: int| 0 <= i < rules.len() ==> #[trigger] mtimes[i]@.len() == rules[i].resources@.len()
}

/// One of the times is strictly later than `last`.
pub open spec fn newer_resource(times: Seq<u64>, last: u64) -> bool {
    exists|r: int| 0 <= r < times.len() && times[r] > last
}

/// Whether a rule is stale given whether a dependency was stale:
/// a rule that never ran always is; one that ran is stale when a dependency
/// is, or when one of its resources changed after its last run.
pub open spec fn stale(last: Option<u64>, dep_stale: bool, times: Seq<u64>) -> bool {
    match last {
        None => true,
        Some(t) => dep_stale || newer_resource(times, t),
    }
}

/// Resolving `name` while the rules in `stack` are being resolved: `None` when a
/// rule is reached again (a cycle); otherwise whether the rule must run, and the
/// rules to run, dependencies first. A name that no rule carries needs no run.
pub open spec fn visit(
    rules: Seq<RuleView>,
    store: Map<Seq<char>, u64>,
    times: Seq<Seq<u64>>,
    stack: Seq<int>,
    name: Seq<char>,
) -> Option<(bool, Seq<int>)>
    decreases rules.len() - stack.len(), 1int, 0int,
{
    match lookup(rules, name) {
        None => Some((false, seq![])),
        Some(i) => visit_at(rules, store, times, stack, i),
    }
}

/// Resolving rule `i` itself, as `visit` does for the rule a name finds.
pub open spec fn visit_at(
    rules: Seq<RuleView>,
    store: Map<Seq<char>, u64>,
    times: Seq<Seq<u64>>,
    stack: Seq<int>,
    i: int,
) -> Option<(bool, Seq<int>)>
    decreases rules.len() - stack.len(), 0int, 0int,
{
    if stack.contains(i) || stack.len() >= rules.len() {
        // a stack as long as the manifest already holds every rule
        None
    } else {
        match visit_deps(rules, store, times, stack.push(i), i, rules[i].dependencies.len() as int) {
            None => None,
            Some(res) => {
                let dirty = stale(last_run_of(rules[i].name, store), res.0, times[i]);
                Some((dirty, if dirty { res.1.push(i) } else { res.1 }))
            },
        }
    }
}

/// The notices of resolving `name`: the names found missing and the rules
/// skipped, in the order the walk meets them.
pub open spec fn notes(
    rules: Seq<RuleView>,
    store: Map<Seq<char>, u64>,
    times: Seq<Seq<u64>>,
    stack: Seq<int>,
    name: Seq<char>,
) -> Seq<NoticeView>
    decreases rules.len() - stack.len(), 1int, 0int,
{
    match lookup(rules, name) {
        None => seq![NoticeView::Missing(name)],
        Some(i) => notes_at(rules, store, times, stack, i),
    }
}

/// The notices of resolving rule `i`: its dependencies' notices, then a skip
/// when it is not stale.
pub open spec fn notes_at(
    rules: Seq<RuleView>,
    store: Map<Seq<char>, u64>,
    times: Seq<Seq<u64>>,
    stack: Seq<int>,
    i: int,
) -> Seq<NoticeView>
    decreases rules.len() - stack.len(), 0int, 0int,
{
    if stack.contains(i) || stack.len() >= rules.len() {
        seq![]
    } else {
        notes_deps(rules, store, times, stack.push(i), i, rules[i].dependencies.len() as int) + if stale_in(
            visit_at(rules, store, times, stack, i),
        ) {
            Seq::<NoticeView>::empty()
        } else {
            seq![NoticeView::Skipped(i)]
        }
    }
}

/// The notices of resolving the first `k` dependencies of rule `i`, in order.
pub open spec fn notes_deps(
    rules: Seq<RuleView>,
    store: Map<Seq<char>, u64>,
    times: Seq<Seq<u64>>,
    stack: Seq<int>,
    i: int,
    k: int,
) -> Seq<NoticeView>
    decreases rules.len() - stack.len(), 2int, k,
{
    if k <= 0 {
        seq![]
    } else {
        notes_deps(rules, store, times, stack, i, k - 1) + notes(rules, store, times, stack, rules[i].dependencies[k - 1])
    }
}

/// Resolving the first `k` dependencies of rule `i`, in order: whether any is
/// stale, and the concatenation of their plans.
pub open spec fn visit_deps(
    rules: Seq<RuleView>,
    store: Map<Seq<char>, u64>,
    times: Seq<Seq<u64>>,
    stack: Seq<int>,
    i: int,
    k: int,
) -> Option<(bool, Seq<int>)>
    decreases rules.len() - stack.len(), 2int, k,
{
    if k <= 0 {
        Some((false, seq![]))
    } else {
        match visit_deps(rules, store, times, stack, i, k - 1) {
            None => None,
            Some(before) => match visit(rules, store, times, stack, rules[i].dependencies[k - 1]) {
                None => None,
                Some(res) => Some((before.0 || res.0, before.1 + res.1)),
            },
        }
    }
}

/// The plan for building `target` from scratch.
pub open spec fn plan_of(
    rules: Seq<RuleView>,
    store: Map<Seq<char>, u64>,
    times: Seq<Seq<u64>>,
    target: Seq<char>,
) -> Option<(bool, Seq<int>)> {
    visit(rules, store, times, seq![], target)
}

pub open spec fn stack_ok(stack: Seq<usize>, n: int) -> bool {
    &&& stack.no_duplicates()
    &&& forall|j: int| 0 <= j < stack.len() ==> stack[j] < n
}

proof fn lemma_stack_room(stack: Seq<usize>, i: usize, n: int)
    requires
        stack_ok(stack, n),
        i < n,
        !stack.contains(i),
    ensures
        stack.len() < n,
{
    let s = ints(stack.push(i));
    assert forall|a: int, b: int| 0 <= a < b < s.len() implies s[a] != s[b] by {
        assert(stack.push(i)[a] != stack.push(i)[b]);
    }
    assert(s.no_duplicates());
    s.unique_seq_to_set();
    assert(s.to_set().subset_of(set_int_range(0, n))) by {
        assert forall|x: int| s.to_set().contains(x) implies set_int_range(0, n).contains(x) by {
            let j = choose|j: int| 0 <= j < s.len() && s[j] == x;
        }
    }
    lemma_int_range(0, n);
    lemma_len_subset(s.to_set(), set_int_range(0, n));
}

fn on_stack(stack: &Vec<usize>, i: usize) -> (r: bool)
    ensures
        r == stack@.contains(i),
{
    let mut j: usize = 0;
    while j < stack.len()
        invariant
            j <= stack@.len(),
            forall|k: int| 0 <= k < j ==> stack@[k] != i,
        decreases stack@.len() - j,
    {
        if stack[j] == i {
            return true;
        }
        j = j + 1;
    }
    false
}

proof fn lemma_deps_none(
    rules: Seq<RuleView>,
    store: Map<Seq<char>, u64>,
    times: Seq<Seq<u64>>,
    stack: Seq<int>,
    i: int,
    k: int,
    m: int,
)
    requires
        0 < k <= m,
        visit_deps(rules, store, times, stack, i, k) is None,
    ensures
        visit_deps(rules, store, times, stack, i, m) is None,
    decreases m - k,
{
    if m > k {
        lemma_deps_none(rules, store, times, stack, i, k, m - 1);
    }
}

proof fn lemma_ints_push(s: Seq<usize>, x: usize)
    ensures
        ints(s.push(x)) == ints(s).push(x as int),
{
    assert(ints(s.push(x)) =~= ints(s).push(x as int));
}

proof fn lemma_ints_contains(s: Seq<usize>, x: usize)
    ensures
        ints(s).contains(x as int) == s.contains(x),
{
    if s.contains(x) {
        let j = choose|j: int| 0 <= j < s.len() && s[j] == x;
        assert(ints(s)[j] == x as int);
    }
    if ints(s).contains(x as int) {
        let j = choose|j: int| 0 <= j < s.len() && ints(s)[j] == x as int;
        assert(s[j] == x);
    }
}

/// Resolves `first_rule`: appends to `plan` (as indices into `rules`) the rules
/// that must run, dependencies first, and says whether `first_rule` must run.
/// A name that no rule carries needs no run.
fn build_plan(
    rules: &Vec<Rule>,
    first_rule: &str,
    plan: &mut Vec<usize>,
    notices: &mut Vec<Notice>,
    rules_state_store: &StateStore,
    mtimes: &Vec<Vec<u64>>,
    visiting: &mut Vec<usize>,
) -> (r: Result<bool, PlanError>)
    requires
        rules_state_store.wf(),
        times_fit(rules@, mtimes@),
        stack_ok(old(visiting)@, rules@.len() as int),
    ensures
        final(visiting)@ == old(visiting)@,
        match visit(
            rules_view(rules@),
            rules_state_store@,
            times_view(mtimes@),
            ints(old(visiting)@),
            first_rule@,
        ) {
            Some(res) => r == Ok::<bool, PlanError>(res.0) && ints(final(plan)@) == ints(old(plan)@) + res.1
                && notice_views(final(notices)@) == notice_views(old(notices)@) + notes(
                rules_view(rules@),
                rules_state_store@,
                times_view(mtimes@),
                ints(old(visiting)@),
                first_rule@,
            ),
            None => r is Err,
        },
    decreases rules@.len() - old(visiting)@.len(), 1int,
{
    match find_index(rules, first_rule) {
        None => {
            assert(ints(plan@) =~= ints(old(plan)@) + seq![]);
            let note = Notice::Missing(first_rule.to_owned());
            notices.push(note);
            assert(notice_views(notices@) =~= notice_views(old(notices)@) + seq![note@]);
            Ok(false)
        },
        Some(i) => build_rule(rules, i, plan, notices, rules_state_store, mtimes, visiting),
    }
}

/// Resolves rule `i` as `build_plan` resolves the rule a name finds.
fn build_rule(
    rules: &Vec<Rule>,
    i: usize,
    plan: &mut Vec<usize>,
    notices: &mut Vec<Notice>,
    rules_state_store: &StateStore,
    mtimes: &Vec<Vec<u64>>,
    visiting: &mut Vec<usize>,
) -> (r: Result<bool, PlanError>)
    requires
        rules_state_store.wf(),
        times_fit(rules@, mtimes@),
        stack_ok(old(visiting)@, rules@.len() as int),
        i < rules@.len(),
    ensures
        final(visiting)@ == old(visiting)@,
        match visit_at(
            rules_view(rules@),
            rules_state_store@,
            times_view(mtimes@),
            ints(old(visiting)@),
            i as int,
        ) {
            Some(res) => r == Ok::<bool, PlanError>(res.0) && ints(final(plan)@) == ints(old(plan)@) + res.1
                && notice_views(final(notices)@) == notice_views(old(notices)@) + notes_at(
                rules_view(rules@),
                rules_state_store@,
                times_view(mtimes@),
                ints(old(visiting)@),
                i as int,
            ),
            None => r is Err,
        },
    decreases rules@.len() - old(visiting)@.len(), 0int,
{
    let ghost rv = rules_view(rules@);
    let ghost tv = times_view(mtimes@);
    let ghost sm = rules_state_store@;
    let ghost stack0 = ints(visiting@);
    let ghost plan0 = plan@;
    let ghost n0 = notices@;
    proof {
        lemma_ints_contains(visiting@, i);
    }
    if on_stack(visiting, i) {
        let name = match &rules[i].name {
            Some(n) => n.clone(),
            None => String::new(),
        };
        return Err(PlanError::Cycle(name));
    }
    proof {
        lemma_stack_room(visiting@, i, rules@.len() as int);
    }
    let rule = &rules[i];
    let own_last_execution = rule.latest_run(rules_state_store);
    let ghost v0 = visiting@;
    visiting.push(i);
    proof {
        lemma_ints_push(v0, i);
        assert(stack_ok(visiting@, rules@.len() as int)) by {
            assert forall|a: int, b: int| 0 <= a < b < visiting@.len() implies visiting@[a] != visiting@[b] by {
                if b == visiting@.len() - 1 {
                    assert(v0[a] == visiting@[a]);
                }
            }
        }
    }
    let ghost stack1 = ints(visiting@);
    let mut dep_dirty = false;
    let mut k: usize = 0;
    assert(ints(plan@) =~= ints(plan0) + seq![]);
    assert(notice_views(notices@).subrange(n0.len() as int, notices@.len() as int) =~= seq![]);
    assert(notice_views(notices@).subrange(0, n0.len() as int) =~= notice_views(n0));
    while k < rule.dependencies.len()
        invariant
            rv == rules_view(rules@),
            tv == times_view(mtimes@),
            sm == rules_state_store@,
            rules_state_store.wf(),
            times_fit(rules@, mtimes@),
            rule == &rules@[i as int],
            i < rules@.len(),
            k <= rule.dependencies@.len(),
            visiting@ == v0.push(i),
            stack1 == ints(visiting@),
            stack_ok(visiting@, rules@.len() as int),
            stack0 == ints(v0),
            v0 == old(visiting)@,
            plan0 == old(plan)@,
            !stack0.contains(i as int),
            stack0.len() < rv.len(),
            v0.len() < rules@.len(),
            visit_deps(rv, sm, tv, stack1, i as int, k as int) == Some((dep_dirty, ints(plan@).subrange(plan0.len() as int, plan@.len() as int))),
            ints(plan@).subrange(0, plan0.len() as int) == ints(plan0),
            plan0.len() <= plan@.len(),
            n0 == old(notices)@,
            n0.len() <= notices@.len(),
            notice_views(notices@).subrange(0, n0.len() as int) == notice_views(n0),
            notes_deps(rv, sm, tv, stack1, i as int, k as int) == notice_views(notices@).subrange(n0.len() as int, notices@.len() as int),
        decreases rule.dependencies@.len() - k,
    {
        let ghost pk = plan@;
        let ghost nk = notices@;
        let sub = build_plan(rules, rule.dependencies[k].as_str(), plan, notices, rules_state_store, mtimes, visiting);
        assert(rv[i as int].dependencies[k as int] == rule.dependencies@[k as int]@);
        match sub {
            Err(e) => {
                proof {
                    assert(visit_deps(rv, sm, tv, stack1, i as int, k + 1) is None);
                    lemma_deps_none(rv, sm, tv, stack1, i as int, k + 1, rule.dependencies@.len() as int);
                    assert(rule.dependencies@.len() == rv[i as int].dependencies.len());
                    assert(stack1 == stack0.push(i as int));
                    assert(visit_at(rv, sm, tv, stack0, i as int) is None);
                }
                visiting.pop();
                proof {
                    assert(visiting@ =~= v0);
                }
                return Err(e);
            },
            Ok(d) => {
                proof {
                    assert(ints(plan@).len() == ints(pk).len() + (ints(plan@).len() - ints(pk).len()));
                    assert(ints(pk).len() <= ints(plan@).len());
                    assert(ints(plan@).subrange(plan0.len() as int, plan@.len() as int) =~= ints(pk).subrange(plan0.len() as int, pk.len() as int) + ints(plan@).subrange(pk.len() as int, plan@.len() as int));
                    assert(ints(plan@).subrange(0, plan0.len() as int) =~= ints(pk).subrange(0, plan0.len() as int));
                    let nv = notice_views(notices@);
                    assert(nv.len() == notice_views(nk).len() + (nv.len() - notice_views(nk).len()));
                    assert(nv.subrange(n0.len() as int, nv.len() as int) =~= notice_views(nk).subrange(n0.len() as int, nk.len() as int) + nv.subrange(nk.len() as int, nv.len() as int));
                    assert(nv.subrange(0, n0.len() as int) =~= notice_views(nk).subrange(0, n0.len() as int));
                }
                dep_dirty = dep_dirty || d;
            },
        }
        k = k + 1;
    }
    visiting.pop();
    proof {
        assert(visiting@ =~= v0);
        assert(rule.dependencies@.len() == rv[i as int].dependencies.len());
    }
    let mut execute_script = match own_last_execution {
        None => true,
        Some(_) => dep_dirty,
    };
    if let Some(own) = own_last_execution {
        let times = &mtimes[i];
        let mut r: usize = 0;
        while r < times.len()
            invariant
                r <= times@.len(),
                own_last_execution == Some(own),
                execute_script == (dep_dirty || exists|q: int| 0 <= q < r && times@[q] > own),
            decreases times@.len() - r,
        {
            if times[r] > own {
                execute_script = true;
            }
            r = r + 1;
        }
        assert(tv[i as int] == times@);
    }
    let ghost pdeps = ints(plan@).subrange(plan0.len() as int, plan@.len() as int);
    let ghost ndeps = notice_views(notices@).subrange(n0.len() as int, notices@.len() as int);
    proof {
        assert(visit_deps(rv, sm, tv, stack1, i as int, rv[i as int].dependencies.len() as int) == Some((dep_dirty, pdeps)));
        assert(stale_in(visit_at(rv, sm, tv, stack0, i as int)) == execute_script);
        assert(notes_deps(rv, sm, tv, stack1, i as int, rv[i as int].dependencies.len() as int) == ndeps);
    }
    if execute_script {
        assert(notice_views(notices@) =~= notice_views(n0) + ndeps);
        assert(ndeps + Seq::<NoticeView>::empty() =~= ndeps);
    } else {
        let note = Notice::Skipped(i);
        let ghost nb = notices@;
        notices.push(note);
        assert(notice_views(nb) =~= notice_views(n0) + ndeps);
        assert(notice_views(notices@) =~= notice_views(n0) + (ndeps + seq![note@]));
    }
    if execute_script {
        let ghost before = plan@;
        plan.push(i);
        proof {
            lemma_ints_push(before, i);
            assert(ints(before) =~= ints(before).subrange(0, plan0.len() as int) + ints(before).subrange(plan0.len() as int, before.len() as int));
            assert(ints(plan@) =~= ints(plan0) + pdeps.push(i as int));
        }
    } else {
        proof {
            assert(ints(plan@) =~= ints(plan@).subrange(0, plan0.len() as int) + pdeps);
        }
    }
    Ok(execute_script)
}

/// The rules to run to build `to_build`, as indices into `rules`,
/// each after the rules it depends on.
pub fn resolve(
    rules: &Vec<Rule>,
    to_build: &str,
    rules_state_store: &StateStore,
    mtimes: &Vec<Vec<u64>>,
) -> (r: Result<Resolution, PlanError>)
    requires
        rules_state_store.wf(),
        times_fit(rules@, mtimes@),
    ensures
        match plan_of(rules_view(rules@), rules_state_store@, times_view(mtimes@), to_build@) {
            Some(res) => r matches Ok(p) && ints(p.order@) == res.1 && notice_views(p.notices@) == notes(
                rules_view(rules@),
                rules_state_store@,
                times_view(mtimes@),
                seq![],
                to_build@,
            ),
            None => r is Err,
        },
{
    let mut plan: Vec<usize> = Vec::new();
    let mut visiting: Vec<usize> = Vec::new();
    assert(ints(visiting@) =~= seq![]);
    let mut notices: Vec<Notice> = Vec::new();
    let res = build_plan(rules, to_build, &mut plan, &mut notices, rules_state_store, mtimes, &mut visiting);
    assert(ints(Seq::<usize>::empty()) =~= seq![]);
    assert(notice_views(Seq::<Notice>::empty()) =~= seq![]);
    match res {
        Ok(_) => {
            assert(ints(plan@) =~= seq![] + ints(plan@));
            assert(notice_views(notices@) =~= seq![] + notice_views(notices@));
            Ok(Resolution { order: plan, notices })
        },
        Err(e) => Err(e),
    }
}

} // verus!

verus! {

/// The staleness in a resolution result (false for a cycle).
pub open spec fn stale_in(r: Option<(bool, Seq<int>)>) -> bool {
    match r {
        Some(res) => res.0,
        None => false,
    }
}

/// The plan in a resolution result (empty for a cycle).
pub open spec fn plan_in(r: Option<(bool, Seq<int>)>) -> Seq<int> {
    match r {
        Some(res) => res.1,
        None => seq![],
    }
}

/// Resolution succeeded and found the rule not stale.
pub open spec fn resolved_clean(r: Option<(bool, Seq<int>)>) -> bool {
    r matches Some(res) && !res.0
}

/// Resolution succeeded and found the rule stale.
pub open spec fn resolved_stale(r: Option<(bool, Seq<int>)>) -> bool {
    r matches Some(res) && res.0
}

proof fn lemma_lookup_named(rules: Seq<RuleView>, name: Seq<char>)
    requires
        lookup(rules, name) is Some,
    ensures
        first_named(rules, name, lookup(rules, name)->0),
{
}

/// A rule that resolves as not stale contributes nothing to the plan.
pub proof fn lemma_not_stale_plans_nothing(
    rules: Seq<RuleView>,
    store: Map<Seq<char>, u64>,
    times: Seq<Seq<u64>>,
    stack: Seq<int>,
    name: Seq<char>,
)
    requires
        resolved_clean(visit(rules, store, times, stack, name)),
    ensures
        plan_in(visit(rules, store, times, stack, name)) == Seq::<int>::empty(),
    decreases rules.len() - stack.len(), 0int, 0int,
{
    if let Some(i) = lookup(rules, name) {
        lemma_deps_not_stale_plan_nothing(rules, store, times, stack.push(i), i, rules[i].dependencies.len() as int);
    }
}

proof fn lemma_deps_not_stale_plan_nothing(
    rules: Seq<RuleView>,
    store: Map<Seq<char>, u64>,
    times: Seq<Seq<u64>>,
    stack: Seq<int>,
    i: int,
    k: int,
)
    requires
        resolved_clean(visit_deps(rules, store, times, stack, i, k)),
    ensures
        plan_in(visit_deps(rules, store, times, stack, i, k)) == Seq::<int>::empty(),
    decreases rules.len() - stack.len(), 1int, k,
{
    if k > 0 {
        lemma_deps_not_stale_plan_nothing(rules, store, times, stack, i, k - 1);
        lemma_not_stale_plans_nothing(rules, store, times, stack, rules[i].dependencies[k - 1]);
        assert(Seq::<int>::empty() + Seq::<int>::empty() =~= Seq::<int>::empty());
    }
}

/// A rule with no recorded run is always planned: when resolution succeeds,
/// it reports the rule stale and the plan ends with it.
pub proof fn lemma_never_run_is_planned(
    rules: Seq<RuleView>,
    store: Map<Seq<char>, u64>,
    times: Seq<Seq<u64>>,
    stack: Seq<int>,
    name: Seq<char>,
)
    requires
        lookup(rules, name) is Some,
        !store.contains_key(name),
        visit(rules, store, times, stack, name) is Some,
    ensures
        stale_in(visit(rules, store, times, stack, name)),
        plan_in(visit(rules, store, times, stack, name)).last() == lookup(rules, name)->0,
{
    lemma_lookup_named(rules, name);
}

proof fn lemma_deps_all_clean(
    rules: Seq<RuleView>,
    store: Map<Seq<char>, u64>,
    times: Seq<Seq<u64>>,
    stack: Seq<int>,
    i: int,
    k: int,
)
    requires
        0 <= k <= rules[i].dependencies.len(),
        forall|q: int|
            0 <= q < rules[i].dependencies.len() ==> resolved_clean(#[trigger] visit(
                rules,
                store,
                times,
                stack,
                rules[i].dependencies[q],
            )),
    ensures
        visit_deps(rules, store, times, stack, i, k) == Some((false, Seq::<int>::empty())),
    decreases k,
{
    if k > 0 {
        lemma_deps_all_clean(rules, store, times, stack, i, k - 1);
        let d = rules[i].dependencies[k - 1];
        assert(resolved_clean(visit(rules, store, times, stack, d)));
        lemma_not_stale_plans_nothing(rules, store, times, stack, d);
        assert(Seq::<int>::empty() + Seq::<int>::empty() =~= Seq::<int>::empty());
    }
}

/// A rule that ran before, whose dependencies all resolve as not stale and
/// whose resources all changed no later than its last run, is skipped:
/// it is not stale and nothing is planned for it.
pub proof fn lemma_up_to_date_is_skipped(
    rules: Seq<RuleView>,
    store: Map<Seq<char>, u64>,
    times: Seq<Seq<u64>>,
    stack: Seq<int>,
    name: Seq<char>,
)
    requires
        lookup(rules, name) matches Some(i) && {
            &&& !stack.contains(i)
            &&& stack.len() < rules.len()
            &&& forall|q: int|
                0 <= q < rules[i].dependencies.len() ==> resolved_clean(#[trigger] visit(
                    rules,
                    store,
                    times,
                    stack.push(i),
                    rules[i].dependencies[q],
                ))
            &&& forall|r: int| 0 <= r < times[i].len() ==> #[trigger] times[i][r] <= store[name]
        },
        store.contains_key(name),
    ensures
        visit(rules, store, times, stack, name) == Some((false, Seq::<int>::empty())),
{
    lemma_lookup_named(rules, name);
    let i = lookup(rules, name)->0;
    lemma_deps_all_clean(rules, store, times, stack.push(i), i, rules[i].dependencies.len() as int);
}

proof fn lemma_deps_stale(
    rules: Seq<RuleView>,
    store: Map<Seq<char>, u64>,
    times: Seq<Seq<u64>>,
    stack: Seq<int>,
    i: int,
    q: int,
    k: int,
)
    requires
        0 <= q < k,
        visit_deps(rules, store, times, stack, i, k) is Some,
        resolved_stale(visit(rules, store, times, stack, rules[i].dependencies[q])),
    ensures
        stale_in(visit_deps(rules, store, times, stack, i, k)),
    decreases k,
{
    if q < k - 1 {
        lemma_deps_stale(rules, store, times, stack, i, q, k - 1);
    }
}

/// Staleness propagates upward: when a dependency of a rule resolves as
/// stale, the rule is stale too and ends the plan, whatever its own
/// resources' times.
pub proof fn lemma_stale_dependency_propagates(
    rules: Seq<RuleView>,
    store: Map<Seq<char>, u64>,
    times: Seq<Seq<u64>>,
    stack: Seq<int>,
    name: Seq<char>,
    q: int,
)
    requires
        lookup(rules, name) matches Some(i) && (0 <= q < rules[i].dependencies.len() && resolved_stale(visit(
            rules,
            store,
            times,
            stack.push(i),
            rules[i].dependencies[q],
        ))),
        visit(rules, store, times, stack, name) is Some,
    ensures
        stale_in(visit(rules, store, times, stack, name)),
        plan_in(visit(rules, store, times, stack, name)).last() == lookup(rules, name)->0,
{
    let i = lookup(rules, name)->0;
    lemma_deps_stale(rules, store, times, stack.push(i), i, q, rules[i].dependencies.len() as int);
}

} // verus!

verus! {

/// The rules to run to build the manifest's first rule, named or not, as
/// indices into `rules`, each after the rules it depends on; dependencies are
/// found by name. An empty manifest needs nothing.
pub fn resolve_first(
    rules: &Vec<Rule>,
    rules_state_store: &StateStore,
    mtimes: &Vec<Vec<u64>>,
) -> (r: Result<Resolution, PlanError>)
    requires
        rules_state_store.wf(),
        times_fit(rules@, mtimes@),
    ensures
        rules@.len() == 0 ==> (r matches Ok(p) && p.order@.len() == 0 && p.notices@.len() == 0),
        rules@.len() > 0 ==> match visit_at(rules_view(rules@), rules_state_store@, times_view(mtimes@), seq![], 0) {
            Some(res) => r matches Ok(p) && ints(p.order@) == res.1 && notice_views(p.notices@) == notes_at(
                rules_view(rules@),
                rules_state_store@,
                times_view(mtimes@),
                seq![],
                0,
            ),
            None => r is Err,
        },
{
    let mut plan: Vec<usize> = Vec::new();
    if rules.len() == 0 {
        return Ok(Resolution { order: plan, notices: Vec::new() });
    }
    let mut visiting: Vec<usize> = Vec::new();
    assert(ints(visiting@) =~= seq![]);
    let mut notices: Vec<Notice> = Vec::new();
    let res = build_rule(rules, 0, &mut plan, &mut notices, rules_state_store, mtimes, &mut visiting);
    assert(ints(Seq::<usize>::empty()) =~= seq![]);
    assert(notice_views(Seq::<Notice>::empty()) =~= seq![]);
    match res {
        Ok(_) => {
            assert(ints(plan@) =~= seq![] + ints(plan@));
            assert(notice_views(notices@) =~= seq![] + notice_views(notices@));
            Ok(Resolution { order: plan, notices })
        },
        Err(e) => Err(e),
    }
}

/// A rule with no recorded run, named or not, is always planned: when its
/// resolution succeeds, it is stale and ends the plan.
pub proof fn lemma_never_run_rule_is_planned(
    rules: Seq<RuleView>,
    store: Map<Seq<char>, u64>,
    times: Seq<Seq<u64>>,
    stack: Seq<int>,
    i: int,
)
    requires
        0 <= i < rules.len(),
        last_run_of(rules[i].name, store) is None,
        visit_at(rules, store, times, stack, i) is Some,
    ensures
        stale_in(visit_at(rules, store, times, stack, i)),
        plan_in(visit_at(rules, store, times, stack, i)).last() == i,
{
}

/// Records that `rule` completed at `now`; a rule without a name leaves no entry.
pub fn record_completion(rule: &Rule, rules_state_store: &mut StateStore, now: u64)
    requires
        old(rules_state_store).wf(),
    ensures
        final(rules_state_store).wf(),
        final(rules_state_store)@ == match rule@.name {
            Some(n) => old(rules_state_store)@.insert(n, now),
            None => old(rules_state_store)@,
        },
{
    if let Some(name) = &rule.name {
        rules_state_store.record(name.as_str(), now);
    }
}

/// The target of a build: the name of the manifest's first rule, or the
/// empty name when it has none; `None` for an empty manifest.
pub fn default_target(rules: &Vec<Rule>) -> (r: Option<String>)
    ensures
        match r {
            None => rules@.len() == 0,
            Some(t) => rules@.len() > 0 && t@ == match rules@[0]@.name {
                Some(n) => n,
                None => Seq::<char>::empty(),
            },
        },
{
    if rules.len() == 0 {
        return None;
    }
    match &rules[0].name {
        Some(n) => Some(n.clone()),
        None => Some(String::new()),
    }
}

} // verus!

verus! {

/// Two resolutions of one name that both succeed agree, whatever the stacks.
proof fn lemma_context_free(
    rules: Seq<RuleView>,
    store: Map<Seq<char>, u64>,
    times: Seq<Seq<u64>>,
    s1: Seq<int>,
    s2: Seq<int>,
    name: Seq<char>,
)
    requires
        visit(rules, store, times, s1, name) is Some,
        visit(rules, store, times, s2, name) is Some,
    ensures
        visit(rules, store, times, s1, name) == visit(rules, store, times, s2, name),
    decreases rules.len() - s1.len(), 0int, 0int,
{
    if let Some(i) = lookup(rules, name) {
        lemma_context_free_deps(rules, store, times, s1.push(i), s2.push(i), i, rules[i].dependencies.len() as int);
    }
}

proof fn lemma_context_free_deps(
    rules: Seq<RuleView>,
    store: Map<Seq<char>, u64>,
    times: Seq<Seq<u64>>,
    s1: Seq<int>,
    s2: Seq<int>,
    i: int,
    k: int,
)
    requires
        visit_deps(rules, store, times, s1, i, k) is Some,
        visit_deps(rules, store, times, s2, i, k) is Some,
    ensures
        visit_deps(rules, store, times, s1, i, k) == visit_deps(rules, store, times, s2, i, k),
    decreases rules.len() - s1.len(), 1int, k,
{
    if k > 0 {
        lemma_context_free_deps(rules, store, times, s1, s2, i, k - 1);
        lemma_context_free(rules, store, times, s1, s2, rules[i].dependencies[k - 1]);
    }
}

/// `name` resolves as stale in some resolution that succeeds.
pub open spec fn stale_name(
    rules: Seq<RuleView>,
    store: Map<Seq<char>, u64>,
    times: Seq<Seq<u64>>,
    name: Seq<char>,
) -> bool {
    exists|s: Seq<int>| resolved_stale(#[trigger] visit(rules, store, times, s, name))
}

/// Rule `x` is the rule its name finds, and that name resolves as stale.
pub open spec fn planned_stale(
    rules: Seq<RuleView>,
    store: Map<Seq<char>, u64>,
    times: Seq<Seq<u64>>,
    x: int,
) -> bool {
    match rules[x].name {
        Some(nm) => stale_name(rules, store, times, nm) && lookup(rules, nm) == Some(x),
        None => false,
    }
}

/// In `p`, each dependency of a rule that resolves as stale comes before the rule.
pub open spec fn stale_deps_first(
    rules: Seq<RuleView>,
    store: Map<Seq<char>, u64>,
    times: Seq<Seq<u64>>,
    p: Seq<int>,
) -> bool {
    forall|j: int, q: int|
        0 <= j < p.len() && 0 <= q < rules[p[j]].dependencies.len() && stale_name(
            rules,
            store,
            times,
            #[trigger] rules[p[j]].dependencies[q],
        ) ==> exists|j2: int| 0 <= j2 < j && lookup(rules, rules[p[j]].dependencies[q]) == Some(p[j2])
}

/// The plan invariant: every planned rule is stale and follows its stale dependencies.
pub open spec fn plan_ok(
    rules: Seq<RuleView>,
    store: Map<Seq<char>, u64>,
    times: Seq<Seq<u64>>,
    p: Seq<int>,
) -> bool {
    &&& stale_deps_first(rules, store, times, p)
    &&& forall|j: int| 0 <= j < p.len() ==> planned_stale(rules, store, times, #[trigger] p[j])
}

/// In `p`, every dependency of a planned rule that the plan holds comes before that rule.
pub open spec fn planned_deps_first(rules: Seq<RuleView>, p: Seq<int>) -> bool {
    forall|j: int, q: int, j2: int|
        0 <= j < p.len() && 0 <= q < rules[p[j]].dependencies.len() && 0 <= j2 < p.len() && lookup(
            rules,
            #[trigger] rules[p[j]].dependencies[q],
        ) == Some(#[trigger] p[j2]) ==> exists|j3: int| 0 <= j3 < j && p[j3] == p[j2]
}

proof fn lemma_plan_ok_concat(
    rules: Seq<RuleView>,
    store: Map<Seq<char>, u64>,
    times: Seq<Seq<u64>>,
    a: Seq<int>,
    b: Seq<int>,
)
    requires
        plan_ok(rules, store, times, a),
        plan_ok(rules, store, times, b),
    ensures
        plan_ok(rules, store, times, a + b),
{
    let p = a + b;
    assert forall|j: int| 0 <= j < p.len() implies planned_stale(rules, store, times, #[trigger] p[j]) by {
        if j < a.len() {
            assert(p[j] == a[j]);
        } else {
            assert(p[j] == b[j - a.len()]);
        }
    }
    assert forall|j: int, q: int|
        0 <= j < p.len() && 0 <= q < rules[p[j]].dependencies.len() && stale_name(
            rules,
            store,
            times,
            #[trigger] rules[p[j]].dependencies[q],
        ) implies exists|j2: int| 0 <= j2 < j && lookup(rules, rules[p[j]].dependencies[q]) == Some(p[j2]) by {
        if j < a.len() {
            assert(p[j] == a[j]);
            assert(stale_name(rules, store, times, rules[a[j]].dependencies[q]));
            let j2 = choose|j2: int| 0 <= j2 < j && lookup(rules, rules[a[j]].dependencies[q]) == Some(a[j2]);
            assert(p[j2] == a[j2]);
        } else {
            let jb = j - a.len();
            assert(p[j] == b[jb]);
            assert(stale_name(rules, store, times, rules[b[jb]].dependencies[q]));
            let j2 = choose|j2: int| 0 <= j2 < jb && lookup(rules, rules[b[jb]].dependencies[q]) == Some(b[j2]);
            assert(p[j2 + a.len()] == b[j2]);
        }
    }
}

proof fn lemma_stale_ends_plan(
    rules: Seq<RuleView>,
    store: Map<Seq<char>, u64>,
    times: Seq<Seq<u64>>,
    s: Seq<int>,
    name: Seq<char>,
)
    requires
        resolved_stale(visit(rules, store, times, s, name)),
    ensures
        lookup(rules, name) is Some,
        plan_in(visit(rules, store, times, s, name)).len() > 0,
        plan_in(visit(rules, store, times, s, name)).last() == lookup(rules, name)->0,
{
}

/// Each dependency among the first `k` resolves, and a stale one's rule is in their plan.
proof fn lemma_deps_parts(
    rules: Seq<RuleView>,
    store: Map<Seq<char>, u64>,
    times: Seq<Seq<u64>>,
    s: Seq<int>,
    i: int,
    k: int,
)
    requires
        visit_deps(rules, store, times, s, i, k) is Some,
    ensures
        forall|q: int| 0 <= q < k ==> #[trigger] visit(rules, store, times, s, rules[i].dependencies[q]) is Some,
        forall|q: int|
            0 <= q < k && resolved_stale(#[trigger] visit(rules, store, times, s, rules[i].dependencies[q]))
                ==> plan_in(visit_deps(rules, store, times, s, i, k)).contains(lookup(rules, rules[i].dependencies[q])->0),
    decreases k,
{
    if k > 0 {
        lemma_deps_parts(rules, store, times, s, i, k - 1);
        let a = plan_in(visit_deps(rules, store, times, s, i, k - 1));
        let d = rules[i].dependencies[k - 1];
        let b = plan_in(visit(rules, store, times, s, d));
        assert(plan_in(visit_deps(rules, store, times, s, i, k)) == a + b);
        assert forall|q: int|
            0 <= q < k && resolved_stale(#[trigger] visit(rules, store, times, s, rules[i].dependencies[q]))
                implies (a + b).contains(lookup(rules, rules[i].dependencies[q])->0) by {
            let m = lookup(rules, rules[i].dependencies[q])->0;
            if q < k - 1 {
                let j = choose|j: int| 0 <= j < a.len() && a[j] == m;
                assert((a + b)[j] == m);
            } else {
                lemma_stale_ends_plan(rules, store, times, s, d);
                assert((a + b)[a.len() + b.len() - 1] == m);
            }
        }
    }
}

/// Every rule a successful resolution plans is stale, and each dependency of it
/// that resolves as stale stands before it in the plan.
pub proof fn lemma_plan_ok(
    rules: Seq<RuleView>,
    store: Map<Seq<char>, u64>,
    times: Seq<Seq<u64>>,
    s: Seq<int>,
    name: Seq<char>,
)
    requires
        visit(rules, store, times, s, name) is Some,
    ensures
        plan_ok(rules, store, times, plan_in(visit(rules, store, times, s, name))),
    decreases rules.len() - s.len(), 0int, 0int,
{
    if let Some(i) = lookup(rules, name) {
        lemma_lookup_named(rules, name);
        let s1 = s.push(i);
        let k = rules[i].dependencies.len() as int;
        lemma_plan_ok_deps(rules, store, times, s1, i, k);
        lemma_deps_parts(rules, store, times, s1, i, k);
        let p = plan_in(visit_deps(rules, store, times, s1, i, k));
        if stale_in(visit(rules, store, times, s, name)) {
            let pp = p.push(i);
            assert(resolved_stale(visit(rules, store, times, s, name)));
            assert(stale_name(rules, store, times, name));
            assert(planned_stale(rules, store, times, i));
            assert forall|j: int| 0 <= j < pp.len() implies planned_stale(rules, store, times, #[trigger] pp[j]) by {
                if j < p.len() {
                    assert(pp[j] == p[j]);
                }
            }
            assert forall|j: int, q: int|
                0 <= j < pp.len() && 0 <= q < rules[pp[j]].dependencies.len() && stale_name(
                    rules,
                    store,
                    times,
                    #[trigger] rules[pp[j]].dependencies[q],
                ) implies exists|j2: int| 0 <= j2 < j && lookup(rules, rules[pp[j]].dependencies[q]) == Some(pp[j2]) by {
                if j < p.len() {
                    assert(pp[j] == p[j]);
                    assert(stale_name(rules, store, times, rules[p[j]].dependencies[q]));
                    let j2 = choose|j2: int| 0 <= j2 < j && lookup(rules, rules[p[j]].dependencies[q]) == Some(p[j2]);
                    assert(pp[j2] == p[j2]);
                } else {
                    assert(pp[j] == i);
                    let d = rules[i].dependencies[q];
                    let w = choose|w: Seq<int>| resolved_stale(#[trigger] visit(rules, store, times, w, d));
                    assert(visit(rules, store, times, s1, d) is Some);
                    lemma_context_free(rules, store, times, s1, w, d);
                    assert(resolved_stale(visit(rules, store, times, s1, d)));
                    lemma_stale_ends_plan(rules, store, times, s1, d);
                    let m = lookup(rules, d)->0;
                    assert(p.contains(m));
                    let j2 = choose|j2: int| 0 <= j2 < p.len() && p[j2] == m;
                    assert(pp[j2] == m);
                }
            }
        }
    } else {
        assert(plan_in(visit(rules, store, times, s, name)) =~= Seq::<int>::empty());
    }
}

proof fn lemma_plan_ok_deps(
    rules: Seq<RuleView>,
    store: Map<Seq<char>, u64>,
    times: Seq<Seq<u64>>,
    s: Seq<int>,
    i: int,
    k: int,
)
    requires
        visit_deps(rules, store, times, s, i, k) is Some,
    ensures
        plan_ok(rules, store, times, plan_in(visit_deps(rules, store, times, s, i, k))),
    decreases rules.len() - s.len(), 1int, k,
{
    if k > 0 {
        lemma_plan_ok_deps(rules, store, times, s, i, k - 1);
        lemma_plan_ok(rules, store, times, s, rules[i].dependencies[k - 1]);
        lemma_plan_ok_concat(
            rules,
            store,
            times,
            plan_in(visit_deps(rules, store, times, s, i, k - 1)),
            plan_in(visit(rules, store, times, s, rules[i].dependencies[k - 1])),
        );
    } else {
        assert(plan_in(visit_deps(rules, store, times, s, i, k)) =~= Seq::<int>::empty());
    }
}

/// The plan is in dependency order: when resolution succeeds, every
/// dependency of a planned rule that the plan holds stands before that rule.
pub proof fn lemma_plan_is_topological(
    rules: Seq<RuleView>,
    store: Map<Seq<char>, u64>,
    times: Seq<Seq<u64>>,
    stack: Seq<int>,
    name: Seq<char>,
)
    requires
        visit(rules, store, times, stack, name) is Some,
    ensures
        planned_deps_first(rules, plan_in(visit(rules, store, times, stack, name))),
{
    let p = plan_in(visit(rules, store, times, stack, name));
    lemma_plan_ok(rules, store, times, stack, name);
    assert forall|j: int, q: int, j2: int|
        0 <= j < p.len() && 0 <= q < rules[p[j]].dependencies.len() && 0 <= j2 < p.len() && lookup(
            rules,
            #[trigger] rules[p[j]].dependencies[q],
        ) == Some(#[trigger] p[j2]) implies exists|j3: int| 0 <= j3 < j && p[j3] == p[j2] by {
        let d = rules[p[j]].dependencies[q];
        assert(planned_stale(rules, store, times, p[j2]));
        lemma_lookup_named(rules, d);
        assert(rules[p[j2]].name == Some(d));
        assert(stale_name(rules, store, times, d));
        let j3 = choose|j3: int| 0 <= j3 < j && lookup(rules, d) == Some(p[j3]);
    }
}

} // verus!
