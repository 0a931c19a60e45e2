use vstd::prelude::*;
use crate::rule::{empty_rule, rules_view, Rule, RuleView};
use crate::text::{chars_of, contains_char, lines_of, split_lines, split_tokens, strs, tokens, trim, trim_bounds, trimmed};

verus! {

/// `c` is the position of the first `:` of `t`.
pub open spec fn first_colon(t: Seq<char>, c: int) -> bool {
    &&& 0 <= c < t.len()
    &&& t[c] == ':'
    &&& forall|j: int| 0 <= j < c ==> t[j] != ':'
}

pub open spec fn has_dot(t: Seq<char>) -> bool {
    t.contains('.')
}

pub open spec fn no_dot(t: Seq<char>) -> bool {
    !t.contains('.')
}

/// The tokens that name rules: those without a `.`.
pub open spec fn dep_tokens(toks: Seq<Seq<char>>) -> Seq<Seq<char>> {
    toks.filter(|t: Seq<char>| no_dot(t))
}

/// The tokens that name files: those with a `.`.
pub open spec fn resource_tokens(toks: Seq<Seq<char>>) -> Seq<Seq<char>> {
    toks.filter(|t: Seq<char>| has_dot(t))
}

proof fn lemma_filter_step(s: Seq<Seq<char>>, k: int)
    requires
        0 <= k < s.len(),
    ensures
        dep_tokens(s.take(k + 1)) == if no_dot(s[k]) {
            dep_tokens(s.take(k)).push(s[k])
        } else {
            dep_tokens(s.take(k))
        },
        resource_tokens(s.take(k + 1)) == if has_dot(s[k]) {
            resource_tokens(s.take(k)).push(s[k])
        } else {
            resource_tokens(s.take(k))
        },
{
    reveal(Seq::filter);
    let t = s.take(k + 1);
    assert(t.drop_last() =~= s.take(k));
    assert(t.last() == s[k]);
    assert(t.len() > 0);
}

/// A rule with one more line of its block: the first line gives the name and,
/// after a `:`, the tokens (those with a `.` are resources, the others
/// dependencies); each later line is a script line.
pub open spec fn fill(r: RuleView, line: Seq<char>) -> RuleView {
    if r.name is None {
        if exists|c: int| first_colon(line, c) {
            let c = choose|c: int| first_colon(line, c);
            let toks = tokens(line.subrange(c + 1, line.len() as int));
            RuleView {
                name: Some(trim(line.subrange(0, c))),
                dependencies: dep_tokens(toks),
                resources: resource_tokens(toks),
                script: r.script,
            }
        } else {
            RuleView { name: Some(trim(line)), ..r }
        }
    } else {
        RuleView { script: r.script.push(line), ..r }
    }
}

/// Where the scanner stands between two lines.
pub ghost struct ParseState {
    /// Between blocks: blank lines are skipped.
    pub waiting: bool,
    /// The rule of the block being read (after the first block, an empty one).
    pub current: Option<RuleView>,
    /// The rules of the blocks already closed.
    pub rules: Seq<RuleView>,
}

/// The scanner after one more line, given trimmed.
pub open spec fn step(st: ParseState, t: Seq<char>) -> ParseState {
    if st.waiting && t.len() == 0 {
        st
    } else if t.len() > 0 && t[0] == '#' {
        ParseState { waiting: false, ..st }
    } else if t.len() == 0 {
        ParseState {
            waiting: true,
            current: Some(empty_rule()),
            rules: match st.current {
                Some(r) => st.rules.push(r),
                None => st.rules,
            },
        }
    } else {
        let r = match st.current {
            Some(r) => r,
            None => empty_rule(),
        };
        ParseState { waiting: false, current: Some(fill(r, t)), rules: st.rules }
    }
}

/// The scanner after the first `n` lines.
pub open spec fn scan(lines: Seq<Seq<char>>, n: int) -> ParseState
    decreases n,
{
    if n <= 0 {
        ParseState { waiting: true, current: None, rules: seq![] }
    } else {
        step(scan(lines, n - 1), trim(lines[n - 1]))
    }
}

/// The rules of a manifest given as lines: one per block that an empty line closes.
pub open spec fn parse(lines: Seq<Seq<char>>) -> Seq<RuleView> {
    scan(lines, lines.len() as int).rules
}

pub open spec fn opt_view(o: Option<Rule>) -> Option<RuleView> {
    match o {
        Some(r) => Some(r@),
        None => None,
    }
}

/// The manifest's lines with an empty line added, so that the last block is
/// closed; or, when the file could not be read (`contents` is `None`), an
/// error that names `path`.
pub fn fetch_file(path: &str, contents: Option<&str>) -> (r: Result<Vec<String>, String>)
    ensures
        match contents {
            Some(text) => r matches Ok(lines) && strs(lines@) == lines_of(text@).push(seq![]),
            None => r matches Err(msg) && msg@ == seq!['c', 'a', 'n', 'n', 'o', 't', ' ', 'o', 'p', 'e', 'n', ' ', 'f', 'i', 'l', 'e', ' ', '\''] + path@ + seq!['\''],
        },
{
    match contents {
        None => {
            let msg = String::from_str("cannot open file '").concat(path).concat("'");
            proof {
                reveal_strlit("cannot open file '");
                reveal_strlit("'");
                assert(msg@ =~= seq!['c', 'a', 'n', 'n', 'o', 't', ' ', 'o', 'p', 'e', 'n', ' ', 'f', 'i', 'l', 'e', ' ', '\''] + path@ + seq!['\'']);
            }
            Err(msg)
        },
        Some(text) => {
            let mut lines = split_lines(text);
            let e = String::new();
            let ghost before = lines@;
            lines.push(e);
            proof {
                assert(strs(lines@) =~= strs(before).push(e@));
            }
            Ok(lines)
        },
    }
}

fn first_colon_index(cs: &Vec<char>) -> (r: Option<usize>)
    ensures
        match r {
            Some(c) => first_colon(cs@, c as int),
            None => forall|c: int| !first_colon(cs@, c),
        },
{
    let mut i: usize = 0;
    while i < cs.len()
        invariant
            i <= cs@.len(),
            forall|j: int| 0 <= j < i ==> cs@[j] != ':',
        decreases cs@.len() - i,
    {
        if cs[i] == ':' {
            return Some(i);
        }
        i = i + 1;
    }
    None
}

/// Feeds one (trimmed) line of a block to the rule being read.
pub fn complete_rule(r: &mut Rule, line: &str)
    ensures
        final(r)@ == fill(old(r)@, line@),
{
    if r.name.is_none() {
        let cs = chars_of(line);
        match first_colon_index(&cs) {
            None => {
                r.name = Some(trimmed(line));
            },
            Some(c) => {
                let (a, b) = trim_bounds(&cs, 0, c);
                r.name = Some(line.substring_char(a, b).to_owned());
                let toks = split_tokens(line, &cs, c + 1);
                let ghost ts = strs(toks@);
                let mut deps: Vec<String> = Vec::new();
                let mut res: Vec<String> = Vec::new();
                let mut k: usize = 0;
                while k < toks.len()
                    invariant
                        k <= toks@.len(),
                        ts == strs(toks@),
                        strs(deps@) == dep_tokens(ts.take(k as int)),
                        strs(res@) == resource_tokens(ts.take(k as int)),
                    decreases toks@.len() - k,
                {
                    let ghost d0 = deps@;
                    let ghost r0 = res@;
                    assert(ts.take(k + 1).drop_last() =~= ts.take(k as int));
                    assert(ts.take(k + 1).last() == toks@[k as int]@);
                    let tok = toks[k].clone();
                    let ghost x = toks@[k as int]@;
                    proof {
                        lemma_filter_step(ts, k as int);
                    }
                    if contains_char(toks[k].as_str(), '.') {
                        res.push(tok);
                        assert(strs(res@) =~= strs(r0).push(toks@[k as int]@));
                    } else {
                        deps.push(tok);
                        assert(strs(deps@) =~= strs(d0).push(toks@[k as int]@));
                    }
                    k = k + 1;
                }
                assert(ts.take(k as int) =~= ts);
                r.dependencies = deps;
                r.resources = res;
                proof {
                    assert(first_colon(line@, c as int));
                    let cc = choose|cc: int| first_colon(line@, cc);
                    assert(cc == c as int) by {
                        if cc < c {
                            assert(line@[cc] != ':');
                        } else if c < cc {
                            assert(line@[c as int] != ':');
                        }
                    }
                }
            },
        }
    } else {
        let ghost s0 = r.script@;
        r.script.push(line.to_owned());
        assert(strs(r.script@) =~= strs(s0).push(line@));
    }
}

/// Closes a block: appends its rule, if there is one, and starts an empty one.
pub fn push_and_prepare(rules: &mut Vec<Rule>, rule: Option<Rule>) -> (r: Rule)
    ensures
        r@ == empty_rule(),
        rules_view(final(rules)@) == match opt_view(rule) {
            Some(v) => rules_view(old(rules)@).push(v),
            None => rules_view(old(rules)@),
        },
{
    if let Some(rule) = rule {
        let ghost before = rules@;
        rules.push(rule);
        assert(rules_view(rules@) =~= rules_view(before).push(rule@));
    }
    Rule::new()
}

/// The rules of a manifest, in the order of their blocks.
pub fn parse_rules(lines: &Vec<String>) -> (r: Vec<Rule>)
    ensures
        rules_view(r@) == parse(strs(lines@)),
{
    let ghost ls = strs(lines@);
    let mut rules: Vec<Rule> = Vec::new();
    let mut current_rule: Option<Rule> = None;
    let mut waiting = true;
    let mut i: usize = 0;
    assert(rules_view(rules@) =~= seq![]);
    while i < lines.len()
        invariant
            i <= lines@.len(),
            ls == strs(lines@),
            scan(ls, i as int) == (ParseState {
                waiting: waiting,
                current: opt_view(current_rule),
                rules: rules_view(rules@),
            }),
        decreases lines@.len() - i,
    {
        let line = trimmed(lines[i].as_str());
        let cs = chars_of(line.as_str());
        assert(ls[i as int] == lines@[i as int]@);
        if waiting && cs.len() == 0 {
        } else if cs.len() > 0 && cs[0] == '#' {
            waiting = false;
        } else if cs.len() == 0 {
            let fresh = push_and_prepare(&mut rules, current_rule);
            current_rule = Some(fresh);
            waiting = true;
        } else {
            let mut rule = match current_rule {
                Some(r) => r,
                None => Rule::new(),
            };
            complete_rule(&mut rule, line.as_str());
            current_rule = Some(rule);
            waiting = false;
        }
        i = i + 1;
    }
    assert(parse(ls) == scan(ls, lines@.len() as int).rules);
    rules
}

} // verus!
