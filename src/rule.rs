use vstd::prelude::*;
use crate::store::StateStore;
use crate::text::strs;

verus! {

/// A named unit of work: the rules it depends on, the files whose
/// modification times it watches, and the shell lines it runs.
pub struct Rule {
    pub name: Option<String>,
    pub dependencies: Vec<String>,
    pub resources: Vec<String>,
    pub script: Vec<String>,
}

/// What a rule holds, as character sequences.
pub ghost struct RuleView {
    pub name: Option<Seq<char>>,
    pub dependencies: Seq<Seq<char>>,
    pub resources: Seq<Seq<char>>,
    pub script: Seq<Seq<char>>,
}

pub open spec fn opt_str(o: Option<String>) -> Option<Seq<char>> {
    match o {
        Some(s) => Some(s@),
        None => None,
    }
}

impl View for Rule {
    type V = RuleView;

    open spec fn view(&self) -> RuleView {
        RuleView {
            name: opt_str(self.name),
            dependencies: strs(self.dependencies@),
            resources: strs(self.resources@),
            script: strs(self.script@),
        }
    }
}

pub open spec fn empty_rule() -> RuleView {
    RuleView { name: None, dependencies: seq![], resources: seq![], script: seq![] }
}

pub open spec fn rules_view(rules: Seq<Rule>) -> Seq<RuleView> {
    rules.map_values(|r: Rule| r@)
}

/// Rule `i` is the first one of the manifest that carries `name`.
pub open spec fn first_named(rules: Seq<RuleView>, name: Seq<char>, i: int) -> bool {
    &&& 0 <= i < rules.len()
    &&& rules[i].name == Some(name)
    &&& forall|j: int| 0 <= j < i ==> rules[j].name != Some(name)
}

/// The rule that a lookup by name finds: the first one carrying it.
pub open spec fn lookup(rules: Seq<RuleView>, name: Seq<char>) -> Option<int> {
    if exists|i: int| first_named(rules, name, i) {
        Some(choose|i: int| first_named(rules, name, i))
    } else {
        None
    }
}

pub proof fn lemma_first_named_unique(rules: Seq<RuleView>, name: Seq<char>, i: int)
    requires
        first_named(rules, name, i),
    ensures
        lookup(rules, name) == Some(i),
{
    let k = choose|k: int| first_named(rules, name, k);
    assert(first_named(rules, name, k));
    if k < i {
        assert(rules[k].name != Some(name));
    } else if i < k {
        assert(rules[i].name != Some(name));
    }
}

/// The last run recorded for a rule: none for a rule without a name.
pub open spec fn last_run_of(name: Option<Seq<char>>, store: Map<Seq<char>, u64>) -> Option<u64> {
    match name {
        Some(n) => if store.contains_key(n) {
            Some(store[n])
        } else {
            None
        },
        None => None,
    }
}

impl Rule {
    pub fn new() -> (r: Rule)
        ensures
            r@ == empty_rule(),
    {
        let r = Rule { name: None, dependencies: Vec::new(), resources: Vec::new(), script: Vec::new() };
        proof {
            assert(r@.dependencies =~= seq![]);
            assert(r@.resources =~= seq![]);
            assert(r@.script =~= seq![]);
        }
        r
    }

    /// The time of this rule's last recorded run, if it has a name and one was recorded.
    pub fn latest_run(&self, rules_state_store: &StateStore) -> (r: Option<u64>)
        requires
            rules_state_store.wf(),
        ensures
            r == last_run_of(self@.name, rules_state_store@),
    {
        match &self.name {
            None => None,
            Some(name) => rules_state_store.get(name.as_str()),
        }
    }
}

/// Index of the first rule named `search`.
pub fn find_index(rules: &Vec<Rule>, search: &str) -> (r: Option<usize>)
    ensures
        match r {
            Some(i) => lookup(rules_view(rules@), search@) == Some(i as int),
            None => lookup(rules_view(rules@), search@) is None,
        },
{
    let key = search.to_owned();
    let ghost rv = rules_view(rules@);
    let mut i: usize = 0;
    while i < rules.len()
        invariant
            i <= rules.len(),
            key@ == search@,
            rv == rules_view(rules@),
            forall|j: int| 0 <= j < i ==> rv[j].name != Some(search@),
        decreases rules.len() - i,
    {
        if let Some(name) = &rules[i].name {
            if *name == key {
                proof {
                    lemma_first_named_unique(rv, search@, i as int);
                }
                return Some(i);
            }
        }
        i = i + 1;
    }
    proof {
        if exists|k: int| first_named(rv, search@, k) {
            let k = choose|k: int| first_named(rv, search@, k);
            assert(rv[k].name != Some(search@));
        }
    }
    None
}

/// The first rule named `search`, if any.
pub fn find_rule<'a>(rules: &'a Vec<Rule>, search: &str) -> (r: Option<&'a Rule>)
    ensures
        match lookup(rules_view(rules@), search@) {
            Some(i) => r == Some(&rules@[i]),
            None => r is None,
        },
{
    match find_index(rules, search) {
        Some(i) => Some(&rules[i]),
        None => None,
    }
}

} // verus!
