use resolver_core::filter::{
    Classification, FilterEngine, FilterRule, PatternKind, RuleAction,
};

fn rule(pattern: &str, kind: PatternKind, action: RuleAction, list: u32) -> FilterRule {
    FilterRule { pattern: pattern.as_bytes().to_vec(), kind, action, source_list: list }
}

fn name(s: &str) -> Vec<u8> {
    s.as_bytes().to_vec()
}

#[test]
fn unmatched_name_is_no_match() {
    let engine = FilterEngine::new();
    assert_eq!(engine.classify(&name("example.com.")), Classification::NoMatch);
}

#[test]
fn exact_rule_blocks_exact_name_only() {
    let mut engine = FilterEngine::new();
    engine.add_rule(rule("ads.example.com.", PatternKind::Exact, RuleAction::Block, 1));
    assert_eq!(engine.classify(&name("ads.example.com.")), Classification::Block);
    assert_eq!(engine.classify(&name("sub.ads.example.com.")), Classification::NoMatch);
    assert_eq!(engine.classify(&name("example.com.")), Classification::NoMatch);
}

#[test]
fn suffix_rule_blocks_subdomains() {
    let mut engine = FilterEngine::new();
    engine.add_rule(rule("example.com.", PatternKind::Suffix, RuleAction::Block, 1));
    assert_eq!(engine.classify(&name("example.com.")), Classification::Block);
    assert_eq!(engine.classify(&name("ads.example.com.")), Classification::Block);
    assert_eq!(engine.classify(&name("badexample.com.")), Classification::NoMatch);
}

#[test]
fn longest_match_wins() {
    let mut engine = FilterEngine::new();
    engine.add_rule(rule("example.com.", PatternKind::Suffix, RuleAction::Block, 1));
    engine.add_rule(rule("good.example.com.", PatternKind::Suffix, RuleAction::Allow, 2));
    assert_eq!(engine.classify(&name("ads.example.com.")), Classification::Block);
    assert_eq!(engine.classify(&name("good.example.com.")), Classification::Allow);
    assert_eq!(engine.classify(&name("cdn.good.example.com.")), Classification::Allow);
}

#[test]
fn equal_specificity_allow_overrides_block() {
    let mut engine = FilterEngine::new();
    engine.add_rule(rule("tracker.net.", PatternKind::Exact, RuleAction::Block, 1));
    engine.add_rule(rule("tracker.net.", PatternKind::Exact, RuleAction::Allow, 2));
    assert_eq!(engine.classify(&name("tracker.net.")), Classification::Allow);

    let mut engine2 = FilterEngine::new();
    engine2.add_rule(rule("tracker.net.", PatternKind::Exact, RuleAction::Allow, 1));
    engine2.add_rule(rule("tracker.net.", PatternKind::Exact, RuleAction::Block, 2));
    assert_eq!(engine2.classify(&name("tracker.net.")), Classification::Allow);
}

#[test]
fn lists_merge_in_order_and_swap_atomically() {
    let mut engine = FilterEngine::new();
    engine.append_list(vec![rule("a.example.", PatternKind::Exact, RuleAction::Block, 1)]);
    engine.append_list(vec![rule("b.example.", PatternKind::Exact, RuleAction::Block, 2)]);
    assert_eq!(engine.classify(&name("a.example.")), Classification::Block);
    assert_eq!(engine.classify(&name("b.example.")), Classification::Block);

    engine.load_rules(vec![rule("c.example.", PatternKind::Exact, RuleAction::Block, 3)]);
    assert_eq!(engine.classify(&name("a.example.")), Classification::NoMatch);
    assert_eq!(engine.classify(&name("c.example.")), Classification::Block);
}
