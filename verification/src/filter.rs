//! Filter engine: blocklist/allowlist evaluation of query names.
//!
//! Rules carry a canonical pattern, a match kind (exact name or domain
//! suffix), and an action. Evaluation is deterministic: the most specific
//! (longest) matching pattern wins, a tie is broken in favour of allow over
//! block, and among equally good rules the earliest loaded one stands. An
//! unmatched name yields `NoMatch`, which callers treat as allowed.

use crate::query::DOT;
use vstd::prelude::*;

verus! {

/// What a matched rule decides for a name.
#[derive(Clone, Copy, PartialEq, Eq, Structural, Debug)]
pub enum RuleAction {
    Allow,
    Block,
}

/// How a rule's pattern is matched against a name.
#[derive(Clone, Copy, PartialEq, Eq, Structural, Debug)]
pub enum PatternKind {
    /// The name must equal the pattern.
    Exact,
    /// The name must equal the pattern or end in `.` followed by it.
    Suffix,
}

/// One filter rule: pattern, match kind, action, and the id of the source
/// list it came from.
pub struct FilterRule {
    pub pattern: Vec<u8>,
    pub kind: PatternKind,
    pub action: RuleAction,
    pub source_list: u32,
}

/// Mathematical image of a `FilterRule`.
pub struct RuleModel {
    pub pattern: Seq<u8>,
    pub kind: PatternKind,
    pub action: RuleAction,
    pub source_list: u32,
}

impl View for FilterRule {
    type V = RuleModel;

    open spec fn view(&self) -> RuleModel {
        RuleModel {
            pattern: self.pattern@,
            kind: self.kind,
            action: self.action,
            source_list: self.source_list,
        }
    }
}

/// The outcome of classifying a name against the loaded rules.
#[derive(Clone, Copy, PartialEq, Eq, Structural, Debug)]
pub enum Classification {
    Allow,
    Block,
    NoMatch,
}

/// Whether a rule matches a canonical name.
pub open spec fn rule_matches(r: RuleModel, name: Seq<u8>) -> bool {
    match r.kind {
        PatternKind::Exact => name == r.pattern,
        PatternKind::Suffix => name == r.pattern || (name.len() > r.pattern.len() && name.subrange(
            name.len() - r.pattern.len(),
            name.len() as int,
        ) == r.pattern && name[name.len() - r.pattern.len() - 1] == DOT),
    }
}

/// Whether rule `a` beats rule `b`: more specific (longer pattern), or
/// equally specific and allowing while `b` blocks.
pub open spec fn beats(a: RuleModel, b: RuleModel) -> bool {
    ||| a.pattern.len() > b.pattern.len()
    ||| (a.pattern.len() == b.pattern.len() && a.action == RuleAction::Allow && b.action
        == RuleAction::Block)
}

/// The winning rule for a name among `rules`, if any matches: the earliest
/// rule not beaten by any later matching rule.
pub open spec fn best_match(rules: Seq<RuleModel>, name: Seq<u8>) -> Option<RuleModel>
    decreases rules.len(),
{
    if rules.len() == 0 {
        None
    } else {
        let prev = best_match(rules.drop_last(), name);
        let last = rules.last();
        if rule_matches(last, name) {
            match prev {
                None => Some(last),
                Some(p) => if beats(last, p) {
                    Some(last)
                } else {
                    Some(p)
                },
            }
        } else {
            prev
        }
    }
}

/// The classification of a name under a rule sequence.
pub open spec fn classify_model(rules: Seq<RuleModel>, name: Seq<u8>) -> Classification {
    match best_match(rules, name) {
        None => Classification::NoMatch,
        Some(r) => match r.action {
            RuleAction::Allow => Classification::Allow,
            RuleAction::Block => Classification::Block,
        },
    }
}

/// Whether `name` ends with `pat`.
fn ends_with(name: &Vec<u8>, pat: &Vec<u8>) -> (r: bool)
    requires
        pat@.len() <= name@.len(),
    ensures
        r == (name@.subrange(name@.len() - pat@.len(), name@.len() as int) == pat@),
{
    let start = name.len() - pat.len();
    let mut i: usize = 0;
    while i < pat.len()
        invariant
            i <= pat@.len(),
            pat@.len() <= name@.len(),
            name@.len() <= usize::MAX,
            start == name@.len() - pat@.len(),
            forall|j: int| 0 <= j < i ==> name@[start + j] == pat@[j],
        decreases pat.len() - i,
    {
        assert(start + i < name@.len());
        if name[start + i] != pat[i] {
            assert(name@.subrange(name@.len() - pat@.len(), name@.len() as int)[i as int]
                != pat@[i as int]);
            return false;
        }
        i = i + 1;
    }
    assert(name@.subrange(name@.len() - pat@.len(), name@.len() as int) =~= pat@);
    true
}

/// Decide whether a rule matches a canonical name.
pub fn pattern_matches(rule: &FilterRule, name: &Vec<u8>) -> (r: bool)
    ensures
        r == rule_matches(rule@, name@),
{
    match rule.kind {
        PatternKind::Exact => crate::query::bytes_eq(name, &rule.pattern),
        PatternKind::Suffix => {
            if crate::query::bytes_eq(name, &rule.pattern) {
                true
            } else if name.len() > rule.pattern.len() {
                ends_with(name, &rule.pattern) && name[name.len() - rule.pattern.len() - 1] == DOT
            } else {
                false
            }
        },
    }
}

/// The rule store. A whole rule set is swapped in at once; readers of one
/// engine value always see a single consistent rule set.
pub struct FilterEngine {
    pub rules: Vec<FilterRule>,
}

impl View for FilterEngine {
    type V = Seq<RuleModel>;

    open spec fn view(&self) -> Seq<RuleModel> {
        self.rules@.map_values(|r: FilterRule| r@)
    }
}

impl FilterEngine {
    /// An engine with no rules: every name is unmatched.
    pub fn new() -> (e: FilterEngine)
        ensures
            e@ == Seq::<RuleModel>::empty(),
    {
        let e = FilterEngine { rules: Vec::new() };
        proof {
            assert(e@ =~= Seq::<RuleModel>::empty());
        }
        e
    }

    /// Append one rule after the existing ones.
    pub fn add_rule(&mut self, rule: FilterRule)
        ensures
            final(self)@ == old(self)@.push(rule@),
    {
        self.rules.push(rule);
        proof {
            assert(self@ =~= old(self)@.push(rule@));
        }
    }

    /// Merge one source list into the rule set, after the rules already
    /// loaded; evaluation order over merged lists stays deterministic.
    pub fn append_list(&mut self, mut list: Vec<FilterRule>)
        ensures
            final(self)@ == old(self)@ + list@.map_values(|r: FilterRule| r@),
    {
        let ghost all = list@;
        self.rules.append(&mut list);
        proof {
            assert(self@ =~= old(self)@ + all.map_values(|r: FilterRule| r@));
        }
    }

    /// Replace the whole rule set at once.
    pub fn load_rules(&mut self, rules: Vec<FilterRule>)
        ensures
            final(self)@ == rules@.map_values(|r: FilterRule| r@),
    {
        self.rules = rules;
    }

    /// Classify a canonical name: the most specific matching rule decides,
    /// allow beating block on equal specificity; no match means `NoMatch`.
    pub fn classify(&self, name: &Vec<u8>) -> (c: Classification)
        ensures
            c == classify_model(self@, name@),
    {
        let mut best: Option<&FilterRule> = None;
        let mut i: usize = 0;
        proof {
            assert(self@.subrange(0, 0) =~= Seq::<RuleModel>::empty());
        }
        while i < self.rules.len()
            invariant
                i <= self.rules.len(),
                self@.len() == self.rules@.len(),
                forall|j: int| 0 <= j < self.rules@.len() ==> self@[j] == #[trigger] self.rules@[j]@,
                match best {
                    None => best_match(self@.subrange(0, i as int), name@) is None,
                    Some(b) => best_match(self@.subrange(0, i as int), name@) == Some(b@),
                },
            decreases self.rules.len() - i,
        {
            let rule = &self.rules[i];
            proof {
                assert(self@.subrange(0, i as int + 1).drop_last() =~= self@.subrange(0, i as int));
                assert(self@.subrange(0, i as int + 1).last() == self@[i as int]);
            }
            if pattern_matches(rule, name) {
                match best {
                    None => {
                        best = Some(rule);
                    },
                    Some(b) => {
                        let longer = rule.pattern.len() > b.pattern.len();
                        let tie_allow = rule.pattern.len() == b.pattern.len() && matches!(
                            rule.action,
                            RuleAction::Allow,
                        ) && matches!(b.action, RuleAction::Block);
                        if longer || tie_allow {
                            best = Some(rule);
                        }
                    },
                }
            }
            i = i + 1;
        }
        proof {
            assert(self@.subrange(0, self@.len() as int) =~= self@);
        }
        match best {
            None => Classification::NoMatch,
            Some(b) => match b.action {
                RuleAction::Allow => Classification::Allow,
                RuleAction::Block => Classification::Block,
            },
        }
    }
}

} // verus!
