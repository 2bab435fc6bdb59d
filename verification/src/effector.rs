use vstd::prelude::*;

use crate::strings::str_eq;

verus! {

/// The effect one policy row carries: its `eft` field when the policy
/// definition has one (`allow`, `deny`, or anything else, which decides
/// nothing), and `Allow` when the definition has no such field.
#[derive(Clone, Copy, PartialEq, Eq, Structural, Debug)]
pub enum Effect {
    Allow,
    Deny,
    Indeterminate,
}

/// The recognized effect-combination rules of the `e` section.
#[derive(Clone, Copy, PartialEq, Eq, Structural, Debug)]
pub enum EffectRule {
    /// `some(where (p.eft == allow))`
    AllowOverride,
    /// `!some(where (p.eft == deny))`
    DenyOverride,
    /// `some(where (p.eft == allow)) && !some(where (p.eft == deny))`
    AllowAndDeny,
    /// `priority(p.eft) || deny`: the first matched decisive row wins.
    Priority,
}

/// Some row matched and allows.
pub open spec fn some_allow(results: Seq<(bool, Effect)>) -> bool {
    exists|i: int| 0 <= i < results.len() && (#[trigger] results[i]).0 && results[i].1 == Effect::Allow
}

/// Some row matched and denies.
pub open spec fn some_deny(results: Seq<(bool, Effect)>) -> bool {
    exists|i: int| 0 <= i < results.len() && (#[trigger] results[i]).0 && results[i].1 == Effect::Deny
}

/// The first row that matched with a decisive effect, if any.
pub open spec fn first_decisive(results: Seq<(bool, Effect)>) -> Option<int>
    decreases results.len(),
{
    if results.len() == 0 {
        None
    } else if results[0].0 && results[0].1 != Effect::Indeterminate {
        Some(0int)
    } else {
        match first_decisive(results.drop_first()) {
            None => None,
            Some(i) => Some(i + 1),
        }
    }
}

/// The final decision for a stream of per-row (matched, effect) pairs
/// under each effect rule.  With no rows at all, only the deny-override
/// rule — whose notion of "no match" is explicitly permissive — grants.
pub open spec fn decide(rule: EffectRule, results: Seq<(bool, Effect)>) -> bool {
    match rule {
        EffectRule::AllowOverride => some_allow(results),
        EffectRule::DenyOverride => !some_deny(results),
        EffectRule::AllowAndDeny => some_allow(results) && !some_deny(results),
        EffectRule::Priority => match first_decisive(results) {
            None => false,
            Some(i) => results[i].1 == Effect::Allow,
        },
    }
}

/// Deny overrides allow: under a deny-overriding rule, one matching
/// deny row forces denial, whatever the other rows hold and wherever
/// it stands in the stream.
pub proof fn lemma_deny_overrides(rule: EffectRule, results: Seq<(bool, Effect)>, i: int)
    requires
        rule == EffectRule::DenyOverride || rule == EffectRule::AllowAndDeny,
        0 <= i < results.len(),
        results[i].0,
        results[i].1 == Effect::Deny,
    ensures
        !decide(rule, results),
{
    assert(some_deny(results));
}

pub proof fn lemma_first_decisive_skip(results: Seq<(bool, Effect)>, i: int)
    requires
        0 <= i <= results.len(),
        forall|j: int|
            0 <= j < i ==> !((#[trigger] results[j]).0 && results[j].1 != Effect::Indeterminate),
    ensures
        first_decisive(results.subrange(i, results.len() as int)) is None ==> first_decisive(
            results,
        ) is None,
        first_decisive(results.subrange(i, results.len() as int)) is Some ==> first_decisive(
            results,
        ) == Some(i + first_decisive(results.subrange(i, results.len() as int))->Some_0),
    decreases i,
{
    if i == 0 {
        assert(results.subrange(0, results.len() as int) =~= results);
    } else {
        let d = results.drop_first();
        lemma_first_decisive_skip(d, i - 1);
        assert(d.subrange(i - 1, d.len() as int) =~= results.subrange(i, results.len() as int));
    }
}

/// Folds the per-row outcomes into one decision, stopping as soon as
/// the rule is settled rather than scanning every element.
#[verifier::loop_isolation(false)]
pub fn merge_effects(rule: EffectRule, results: &Vec<(bool, Effect)>) -> (r: bool)
    ensures
        r == decide(rule, results@),
{
    let n = results.len();
    let mut has_allow = false;
    let mut i: usize = 0;
    while i < n
        invariant
            0 <= i <= n,
            rule == EffectRule::DenyOverride || rule == EffectRule::AllowAndDeny ==> forall|j: int|
                0 <= j < i ==> !((#[trigger] results@[j]).0 && results@[j].1 == Effect::Deny),
            has_allow == exists|j: int|
                0 <= j < i && (#[trigger] results@[j]).0 && results@[j].1 == Effect::Allow,
            rule == EffectRule::Priority ==> forall|j: int|
                0 <= j < i ==> !((#[trigger] results@[j]).0 && results@[j].1
                    != Effect::Indeterminate),
        decreases n - i,
    {
        let (matched, eft) = results[i];
        if matched {
            match rule {
                EffectRule::AllowOverride => {
                    if eft == Effect::Allow {
                        proof {
                            assert((#[trigger] results@[i as int]).0 && results@[i as int].1
                                == Effect::Allow);
                        }
                        return true;
                    }
                },
                EffectRule::DenyOverride => {
                    if eft == Effect::Deny {
                        proof {
                            assert((#[trigger] results@[i as int]).0 && results@[i as int].1
                                == Effect::Deny);
                        }
                        return false;
                    }
                },
                EffectRule::AllowAndDeny => {
                    if eft == Effect::Deny {
                        proof {
                            assert((#[trigger] results@[i as int]).0 && results@[i as int].1
                                == Effect::Deny);
                        }
                        return false;
                    }
                    if eft == Effect::Allow {
                        has_allow = true;
                    }
                },
                EffectRule::Priority => {
                    if eft != Effect::Indeterminate {
                        proof {
                            lemma_first_decisive_skip(results@, i as int);
                            assert(results@.subrange(i as int, n as int)[0] == results@[i as int]);
                        }
                        return eft == Effect::Allow;
                    }
                },
            }
        }
        if matched && eft == Effect::Allow {
            has_allow = true;
        }
        i += 1;
    }
    match rule {
        EffectRule::AllowOverride => has_allow,
        EffectRule::DenyOverride => true,
        EffectRule::AllowAndDeny => has_allow,
        EffectRule::Priority => {
            proof {
                lemma_first_decisive_skip(results@, n as int);
            }
            false
        },
    }
}

/// The effect rule a given `e`-section text denotes, if recognized.
pub open spec fn effect_rule_spec(value: Seq<char>) -> Option<EffectRule> {
    if value == "some(where (p.eft == allow))"@ {
        Some(EffectRule::AllowOverride)
    } else if value == "!some(where (p.eft == deny))"@ {
        Some(EffectRule::DenyOverride)
    } else if value == "some(where (p.eft == allow)) && !some(where (p.eft == deny))"@ {
        Some(EffectRule::AllowAndDeny)
    } else if value == "priority(p.eft) || deny"@ {
        Some(EffectRule::Priority)
    } else {
        None
    }
}

/// Recognizes the textual effect rule of the model's `e` section.
pub fn effect_rule_from_text(value: &str) -> (r: Option<EffectRule>)
    ensures
        r == effect_rule_spec(value@),
{
    proof {
        reveal_strlit("some(where (p.eft == allow))");
        reveal_strlit("!some(where (p.eft == deny))");
        reveal_strlit("some(where (p.eft == allow)) && !some(where (p.eft == deny))");
        reveal_strlit("priority(p.eft) || deny");
        assert("some(where (p.eft == allow))"@.len() == 28);
        assert("!some(where (p.eft == deny))"@.len() == 28);
        assert("some(where (p.eft == allow)) && !some(where (p.eft == deny))"@.len() == 60);
        assert("priority(p.eft) || deny"@.len() == 23);
        assert("some(where (p.eft == allow))"@[0] == 's');
        assert("!some(where (p.eft == deny))"@[0] == '!');
    }
    if str_eq(value, "some(where (p.eft == allow))") {
        Some(EffectRule::AllowOverride)
    } else if str_eq(value, "!some(where (p.eft == deny))") {
        Some(EffectRule::DenyOverride)
    } else if str_eq(value, "some(where (p.eft == allow)) && !some(where (p.eft == deny))") {
        Some(EffectRule::AllowAndDeny)
    } else if str_eq(value, "priority(p.eft) || deny") {
        Some(EffectRule::Priority)
    } else {
        None
    }
}

} // verus!
