use vstd::prelude::*;

use crate::effector::Effect;
use crate::effector::EffectRule;
use crate::effector::decide;
use crate::effector::effect_rule_from_text;
use crate::effector::effect_rule_spec;
use crate::effector::merge_effects;
use crate::errors::CasbinError;
use crate::matcher::Binding;
use crate::matcher::BindingV;
use crate::matcher::MatchExpr;
use crate::matcher::MatchExprV;
use crate::matcher::eval_expr;
use crate::matcher::eval_expr_exec;
use crate::matcher::expr_view;
use crate::matcher::find_token;
use crate::matcher::graphs_view;
use crate::matcher::parse_matcher;
use crate::matcher::parse_matcher_spec;
use crate::model::AssertionV;
use crate::model::Model;
use crate::model::add_policy_post;
use crate::model::find_spec;
use crate::model::model_wf;
use crate::model::remove_filtered_post;
use crate::model::remove_policy_post;
use crate::role_manager::EdgeV;
use crate::role_manager::RoleManager;
use crate::role_manager::contains_edge;
use crate::strings::str_eq;

verus! {

/// The bindings of one namespace: token `k` of the list is bound to
/// value `k`, under the namespace prefix.
pub open spec fn bindings_of(
    ns: Seq<char>,
    tokens: Seq<Seq<char>>,
    vals: Seq<Seq<char>>,
) -> Seq<BindingV> {
    Seq::new(tokens.len(), |k: int| BindingV { ns: ns, name: tokens[k], val: vals[k] })
}

/// The evaluation environment of one (request, policy-row) pair.
pub open spec fn row_env(
    rtokens: Seq<Seq<char>>,
    rvals: Seq<Seq<char>>,
    ptokens: Seq<Seq<char>>,
    row: Seq<Seq<char>>,
) -> Seq<BindingV> {
    bindings_of("r"@, rtokens, rvals) + bindings_of("p"@, ptokens, row)
}

/// The effect a row contributes: the value of its `eft` field when the
/// policy definition has one (`allow`, `deny`, anything else decides
/// nothing), and `allow` when it has none.
pub open spec fn row_effect(ptokens: Seq<Seq<char>>, row: Seq<Seq<char>>) -> Effect {
    match find_token(ptokens, "eft"@) {
        None => Effect::Allow,
        Some(k) => if 0 <= k < row.len() {
            if row[k] == "allow"@ {
                Effect::Allow
            } else if row[k] == "deny"@ {
                Effect::Deny
            } else {
                Effect::Indeterminate
            }
        } else {
            Effect::Allow
        },
    }
}

/// What one policy row contributes to the effect stream: the matcher's
/// value for its environment paired with its effect, or nothing when
/// evaluation fails.
pub open spec fn row_outcome(
    m: MatchExprV,
    gs: Seq<(Seq<char>, Seq<EdgeV>)>,
    rtokens: Seq<Seq<char>>,
    rvals: Seq<Seq<char>>,
    ptokens: Seq<Seq<char>>,
    row: Seq<Seq<char>>,
) -> Option<(bool, Effect)> {
    match eval_expr(m, row_env(rtokens, rvals, ptokens, row), gs) {
        Some(b) => Some((b, row_effect(ptokens, row))),
        None => None,
    }
}

/// The decision of one enforcement call: `None` when the model lacks
/// its request or policy entry, the request arity is wrong, or some
/// row's matcher evaluation fails; otherwise the effect rule's fold of
/// every row's outcome, in policy order.
pub open spec fn enforce_spec(
    mv: Seq<AssertionV>,
    gs: Seq<(Seq<char>, Seq<EdgeV>)>,
    m: MatchExprV,
    rule: EffectRule,
    rvals: Seq<Seq<char>>,
) -> Option<bool> {
    match (find_spec(mv, "r"@, "r"@), find_spec(mv, "p"@, "p"@)) {
        (Some(ri), Some(pi)) => {
            let rtokens = mv[ri].tokens;
            let ptokens = mv[pi].tokens;
            let rows = mv[pi].policy;
            if rvals.len() != rtokens.len() {
                None
            } else if exists|j: int|
                0 <= j < rows.len() && row_outcome(m, gs, rtokens, rvals, ptokens, #[trigger] rows[j]) is None {
                None
            } else {
                Some(
                    decide(
                        rule,
                        Seq::new(
                            rows.len(),
                            |j: int| row_outcome(m, gs, rtokens, rvals, ptokens, rows[j])->Some_0,
                        ),
                    ),
                )
            }
        },
        _ => None,
    }
}

/// One grouping row as an edge: first field child, second parent,
/// third, when present, the domain.
pub open spec fn row_edge(row: Seq<Seq<char>>) -> EdgeV {
    EdgeV {
        child: row[0],
        parent: row[1],
        domain: if row.len() >= 3 {
            Some(row[2])
        } else {
            None
        },
    }
}

/// One build step: a row of fewer than two fields adds nothing, and an
/// edge already present is not added twice.
pub open spec fn link_step(acc: Seq<EdgeV>, row: Seq<Seq<char>>) -> Seq<EdgeV> {
    if row.len() < 2 {
        acc
    } else if contains_edge(acc, row_edge(row)) {
        acc
    } else {
        acc.push(row_edge(row))
    }
}

/// The edges accumulated by adding every row's link in order.
pub open spec fn add_links(acc: Seq<EdgeV>, rows: Seq<Seq<Seq<char>>>) -> Seq<EdgeV>
    decreases rows.len(),
{
    if rows.len() == 0 {
        acc
    } else {
        add_links(link_step(acc, rows[0]), rows.drop_first())
    }
}

/// The role-graph family that a full rebuild derives from the model:
/// one graph per `g`-section entry, in model order, holding the links
/// of that entry's rows.
pub open spec fn built_rms(mv: Seq<AssertionV>) -> Seq<(Seq<char>, Seq<EdgeV>)>
    decreases mv.len(),
{
    if mv.len() == 0 {
        Seq::<(Seq<char>, Seq<EdgeV>)>::empty()
    } else if mv[0].sec == "g"@ {
        seq![(mv[0].key, add_links(Seq::<EdgeV>::empty(), mv[0].policy))] + built_rms(
            mv.drop_first(),
        )
    } else {
        built_rms(mv.drop_first())
    }
}

/// The engine: a model, one role graph per grouping type, the parsed
/// matcher, the recognized effect rule, and the auto-build toggle.
pub struct Enforcer {
    pub model: Model,
    pub role_managers: Vec<(String, RoleManager)>,
    pub matcher: MatchExpr,
    pub effect_rule: EffectRule,
    pub auto_build_role_links: bool,
}

impl Enforcer {
    /// The engine's standing well-formedness: the model it owns.
    pub open spec fn wf(&self) -> bool {
        model_wf(self.model@)
    }

    /// Builds an engine over a populated model: the matcher text under
    /// (`m`, `m`) is parsed, the effect text under (`e`, `e`) must be
    /// one of the recognized rules, and the role graphs are built from
    /// the grouping rows.  Auto-build starts enabled.  Construction
    /// succeeds exactly when both entries are present, the effect text
    /// is recognized and the matcher text is a well-formed expression;
    /// the engine then carries exactly the rule and the expression the
    /// two texts denote.
    pub fn new(model: Model) -> (r: Result<Enforcer, CasbinError>)
        ensures
            match r {
                Ok(e) => {
                    &&& e.model@ == model@
                    &&& model_wf(model@) ==> e.wf()
                    &&& find_spec(model@, "e"@, "e"@) is Some
                    &&& Some(e.effect_rule) == effect_rule_spec(
                        model@[find_spec(model@, "e"@, "e"@)->Some_0].value,
                    )
                    &&& find_spec(model@, "m"@, "m"@) is Some
                    &&& Some(expr_view(e.matcher)) == parse_matcher_spec(
                        model@[find_spec(model@, "m"@, "m"@)->Some_0].value,
                    )
                    &&& graphs_view(e.role_managers@) == built_rms(model@)
                    &&& e.auto_build_role_links == true
                },
                Err(_) => {
                    ||| find_spec(model@, "e"@, "e"@) is None
                    ||| effect_rule_spec(
                        model@[find_spec(model@, "e"@, "e"@)->Some_0].value,
                    ) is None
                    ||| find_spec(model@, "m"@, "m"@) is None
                    ||| parse_matcher_spec(
                        model@[find_spec(model@, "m"@, "m"@)->Some_0].value,
                    ) is None
                },
            },
    {
        let eft_idx = match model.find("e", "e") {
            Some(i) => i,
            None => {
                return Err(CasbinError::Error("model has no effect definition"));
            },
        };
        let effect_rule = match effect_rule_from_text(model.assertions[eft_idx].value.as_str()) {
            Some(rule) => rule,
            None => {
                return Err(CasbinError::ParsingFailure("unrecognized effect rule"));
            },
        };
        let m_idx = match model.find("m", "m") {
            Some(i) => i,
            None => {
                return Err(CasbinError::Error("model has no matcher definition"));
            },
        };
        let matcher = match parse_matcher(model.assertions[m_idx].value.as_str()) {
            Ok(e) => e,
            Err(err) => {
                return Err(err);
            },
        };
        let mut e = Enforcer {
            model,
            role_managers: Vec::new(),
            matcher,
            effect_rule,
            auto_build_role_links: true,
        };
        e.build_role_links();
        Ok(e)
    }

    /// Turns automatic role-graph rebuilding on policy mutations on or
    /// off; off, a batch load pays for one explicit rebuild instead.
    pub fn enable_auto_build_role_links(&mut self, auto: bool)
        ensures
            final(self).auto_build_role_links == auto,
            final(self).model == old(self).model,
            final(self).role_managers == old(self).role_managers,
            final(self).matcher == old(self).matcher,
            final(self).effect_rule == old(self).effect_rule,
    {
        self.auto_build_role_links = auto;
    }

    /// Discards every role graph and rebuilds one per grouping entry
    /// from the model's current rows.  Idempotent; callable repeatedly.
    #[verifier::loop_isolation(false)]
    pub fn build_role_links(&mut self)
        ensures
            graphs_view(final(self).role_managers@) == built_rms(old(self).model@),
            final(self).model == old(self).model,
            final(self).matcher == old(self).matcher,
            final(self).effect_rule == old(self).effect_rule,
            final(self).auto_build_role_links == old(self).auto_build_role_links,
    {
        let n = self.model.assertions.len();
        let mut rms: Vec<(String, RoleManager)> = Vec::new();
        let mut i: usize = 0;
        proof {
            assert(self.model@.subrange(0, n as int) =~= self.model@);
            assert(graphs_view(rms@) =~= Seq::<(Seq<char>, Seq<EdgeV>)>::empty());
        }
        while i < n
            invariant
                0 <= i <= n,
                n == self.model@.len(),
                built_rms(self.model@) == graphs_view(rms@) + built_rms(
                    self.model@.subrange(i as int, n as int),
                ),
            decreases n - i,
        {
            let a = &self.model.assertions[i];
            proof {
                assert(self.model@.subrange(i as int, n as int).drop_first() =~= self.model@
                    .subrange(i + 1, n as int));
                assert(self.model@.subrange(i as int, n as int)[0] == self.model@[i as int]);
            }
            if str_eq(a.sec.as_str(), "g") {
                let rows = &a.policy;
                let nr = rows.len();
                let mut rm = RoleManager::new();
                let mut j: usize = 0;
                proof {
                    assert(rows.deep_view().subrange(0, nr as int) =~= rows.deep_view());
                    assert(rows.deep_view() == self.model@[i as int].policy);
                }
                while j < nr
                    invariant
                        0 <= j <= nr,
                        nr == rows.deep_view().len(),
                        add_links(Seq::<EdgeV>::empty(), rows.deep_view()) == add_links(
                            rm@,
                            rows.deep_view().subrange(j as int, nr as int),
                        ),
                    decreases nr - j,
                {
                    let row = &rows[j];
                    proof {
                        assert(rows.deep_view()[j as int] == rows@[j as int].deep_view());
                        assert(rows.deep_view().subrange(j as int, nr as int).drop_first()
                            =~= rows.deep_view().subrange(j + 1, nr as int));
                        assert(rows.deep_view().subrange(j as int, nr as int)[0]
                            == rows.deep_view()[j as int]);
                    }
                    let ghost rm_prev = rm@;
                    if row.len() >= 2 {
                        proof {
                            assert(row.deep_view()[0] == row@[0]@);
                            assert(row.deep_view()[1] == row@[1]@);
                            if row.deep_view().len() >= 3 {
                                assert(row.deep_view()[2] == row@[2]@);
                            }
                        }
                        if row.len() >= 3 {
                            rm.add_link(row[0].as_str(), row[1].as_str(), Some(row[2].as_str()));
                        } else {
                            rm.add_link(row[0].as_str(), row[1].as_str(), None);
                        }
                    }
                    proof {
                        assert(rm@ == link_step(rm_prev, rows.deep_view()[j as int]));
                    }
                    j += 1;
                }
                let key = a.key.clone();
                rms.push((key, rm));
                proof {
                    assert(graphs_view(rms@) =~= graphs_view(rms@.drop_last()).push(
                        (self.model@[i as int].key, rm@),
                    ));
                }
            }
            i += 1;
        }
        self.role_managers = rms;
        proof {
            assert(built_rms(self.model@.subrange(n as int, n as int)) =~= Seq::<(
                Seq<char>,
                Seq<EdgeV>,
            )>::empty());
            assert(graphs_view(self.role_managers@) + built_rms(
                self.model@.subrange(n as int, n as int),
            ) =~= graphs_view(self.role_managers@));
        }
    }

    /// Decides one request: binds the request tokens, evaluates the
    /// matcher once per policy row, and folds the outcomes under the
    /// effect rule.  A request of the wrong arity, or an evaluation
    /// error in any row, is an error, never a silent decision.
    #[verifier::loop_isolation(false)]
    pub fn enforce(&self, rvals: &Vec<String>) -> (r: Result<bool, CasbinError>)
        requires
            self.wf(),
        ensures
            match r {
                Ok(b) => enforce_spec(
                    self.model@,
                    graphs_view(self.role_managers@),
                    expr_view(self.matcher),
                    self.effect_rule,
                    rvals.deep_view(),
                ) == Some(b),
                Err(_) => enforce_spec(
                    self.model@,
                    graphs_view(self.role_managers@),
                    expr_view(self.matcher),
                    self.effect_rule,
                    rvals.deep_view(),
                ) is None,
            },
    {
        let ri = match self.model.find("r", "r") {
            Some(i) => i,
            None => {
                return Err(CasbinError::Error("model has no request definition"));
            },
        };
        let pi = match self.model.find("p", "p") {
            Some(i) => i,
            None => {
                return Err(CasbinError::Error("model has no policy definition"));
            },
        };
        let rtokens = &self.model.assertions[ri].tokens;
        let ptokens = &self.model.assertions[pi].tokens;
        let rows = &self.model.assertions[pi].policy;
        if rvals.len() != rtokens.len() {
            proof {
                assert(rvals.deep_view().len() == rvals@.len());
                assert(rtokens.deep_view().len() == rtokens@.len());
            }
            return Err(CasbinError::ParsingFailure("request arity mismatch"));
        }
        let eft_idx = find_token_exec(ptokens, "eft");
        let ghost gs = graphs_view(self.role_managers@);
        let ghost m = expr_view(self.matcher);
        let ghost rtv = rtokens.deep_view();
        let ghost ptv = ptokens.deep_view();
        let ghost rvv = rvals.deep_view();
        let nr = rows.len();
        let mut results: Vec<(bool, Effect)> = Vec::new();
        let mut j: usize = 0;
        while j < nr
            invariant
                0 <= j <= nr,
                nr == rows.deep_view().len(),
                results@.len() == j,
                forall|k: int|
                    0 <= k < j ==> #[trigger] row_outcome(m, gs, rtv, rvv, ptv, rows.deep_view()[k])
                        == Some(results@[k]),
            decreases nr - j,
        {
            let row = &rows[j];
            proof {
                assert(rows.deep_view()[j as int] == rows@[j as int].deep_view());
            }
            let mut env: Vec<Binding> = Vec::new();
            let mut k: usize = 0;
            while k < rtokens.len()
                invariant
                    0 <= k <= rtokens@.len(),
                    rvals@.len() == rtokens@.len(),
                    env@.len() == k,
                    forall|q: int|
                        0 <= q < k ==> env.deep_view()[q] == (BindingV {
                            ns: "r"@,
                            name: rtv[q],
                            val: rvv[q],
                        }),
                decreases rtokens@.len() - k,
            {
                let b = Binding {
                    ns: String::from_str("r"),
                    name: rtokens[k].clone(),
                    val: rvals[k].clone(),
                };
                let ghost prev = env.deep_view();
                proof {
                    assert(rtv[k as int] == rtokens@[k as int]@);
                    assert(rvv[k as int] == rvals@[k as int]@);
                    assert(b@ == (BindingV { ns: "r"@, name: rtv[k as int], val: rvv[k as int] }));
                }
                env.push(b);
                proof {
                    assert(env.deep_view() =~= prev.push(
                        BindingV { ns: "r"@, name: rtv[k as int], val: rvv[k as int] },
                    ));
                }
                k += 1;
            }
            let mut k2: usize = 0;
            while k2 < ptokens.len()
                invariant
                    0 <= k2 <= ptokens@.len(),
                    row@.len() == ptokens@.len(),
                    rvals@.len() == rtokens@.len(),
                    env@.len() == rtokens@.len() + k2,
                    forall|q: int|
                        0 <= q < rtokens@.len() ==> env.deep_view()[q] == (BindingV {
                            ns: "r"@,
                            name: rtv[q],
                            val: rvv[q],
                        }),
                    forall|q: int|
                        0 <= q < k2 ==> env.deep_view()[rtokens@.len() + q] == (BindingV {
                            ns: "p"@,
                            name: ptv[q],
                            val: row.deep_view()[q],
                        }),
                decreases ptokens@.len() - k2,
            {
                let b = Binding {
                    ns: String::from_str("p"),
                    name: ptokens[k2].clone(),
                    val: row[k2].clone(),
                };
                let ghost prev = env.deep_view();
                proof {
                    assert(ptv[k2 as int] == ptokens@[k2 as int]@);
                    assert(row.deep_view()[k2 as int] == row@[k2 as int]@);
                    assert(b@ == (BindingV {
                        ns: "p"@,
                        name: ptv[k2 as int],
                        val: row.deep_view()[k2 as int],
                    }));
                }
                env.push(b);
                proof {
                    assert(env.deep_view() =~= prev.push(
                        BindingV {
                            ns: "p"@,
                            name: ptv[k2 as int],
                            val: row.deep_view()[k2 as int],
                        },
                    ));
                }
                k2 += 1;
            }
            proof {
                reveal_strlit("r");
                reveal_strlit("p");
                assert(env.deep_view() =~= row_env(rtv, rvv, ptv, rows.deep_view()[j as int]));
            }
            let eft = match eft_idx {
                None => Effect::Allow,
                Some(ei) => {
                    if str_eq(row[ei].as_str(), "allow") {
                        Effect::Allow
                    } else if str_eq(row[ei].as_str(), "deny") {
                        Effect::Deny
                    } else {
                        Effect::Indeterminate
                    }
                },
            };
            proof {
                assert(eft == row_effect(ptv, rows.deep_view()[j as int]));
            }
            let matched = match eval_expr_exec(&self.matcher, &env, &self.role_managers) {
                Ok(b) => b,
                Err(err) => {
                    proof {
                        assert(row_outcome(m, gs, rtv, rvv, ptv, rows.deep_view()[j as int]) is None);
                    }
                    return Err(err);
                },
            };
            results.push((matched, eft));
            j += 1;
        }
        let granted = merge_effects(self.effect_rule, &results);
        proof {
            assert(results@ =~= Seq::new(
                rows.deep_view().len(),
                |k: int| row_outcome(m, gs, rtv, rvv, ptv, rows.deep_view()[k])->Some_0,
            ));
        }
        Ok(granted)
    }

    /// Appends one row to the `p` policy: false, with nothing changed,
    /// when an identical row is already there.
    pub fn add_policy(&mut self, rule: Vec<String>) -> (r: bool)
        ensures
            add_policy_post(old(self).model@, final(self).model@, "p"@, "p"@, rule.deep_view(), r),
            old(self).wf() ==> final(self).wf(),
            final(self).role_managers == old(self).role_managers,
            final(self).matcher == old(self).matcher,
            final(self).effect_rule == old(self).effect_rule,
            final(self).auto_build_role_links == old(self).auto_build_role_links,
    {
        self.model.add_policy("p", "p", rule)
    }

    /// Removes one row of the `p` policy: false when it was not there.
    pub fn remove_policy(&mut self, rule: &Vec<String>) -> (r: bool)
        ensures
            remove_policy_post(
                old(self).model@,
                final(self).model@,
                "p"@,
                "p"@,
                rule.deep_view(),
                r,
            ),
            old(self).wf() ==> final(self).wf(),
            final(self).role_managers == old(self).role_managers,
            final(self).matcher == old(self).matcher,
            final(self).effect_rule == old(self).effect_rule,
            final(self).auto_build_role_links == old(self).auto_build_role_links,
    {
        self.model.remove_policy("p", "p", rule)
    }

    /// Removes every `p` row the filter selects; true when any went.
    pub fn remove_filtered_policy(&mut self, field_index: usize, field_values: &Vec<String>) -> (r:
        bool)
        ensures
            remove_filtered_post(
                old(self).model@,
                final(self).model@,
                "p"@,
                "p"@,
                field_index as int,
                field_values.deep_view(),
                r,
            ),
            old(self).wf() ==> final(self).wf(),
            final(self).role_managers == old(self).role_managers,
            final(self).matcher == old(self).matcher,
            final(self).effect_rule == old(self).effect_rule,
            final(self).auto_build_role_links == old(self).auto_build_role_links,
    {
        self.model.remove_filtered_policy("p", "p", field_index, field_values)
    }

    /// Appends one grouping row under `g`.  When the row is new and
    /// auto-build is on, the role graphs are rebuilt at once; with
    /// auto-build off they stay as they were until an explicit rebuild.
    pub fn add_grouping_policy(&mut self, rule: Vec<String>) -> (r: bool)
        ensures
            add_policy_post(old(self).model@, final(self).model@, "g"@, "g"@, rule.deep_view(), r),
            old(self).wf() ==> final(self).wf(),
            r && old(self).auto_build_role_links ==> graphs_view(final(self).role_managers@)
                == built_rms(final(self).model@),
            !(r && old(self).auto_build_role_links) ==> final(self).role_managers == old(
                self,
            ).role_managers,
            final(self).matcher == old(self).matcher,
            final(self).effect_rule == old(self).effect_rule,
            final(self).auto_build_role_links == old(self).auto_build_role_links,
    {
        let r = self.model.add_policy("g", "g", rule);
        if r && self.auto_build_role_links {
            self.build_role_links();
        }
        r
    }

    /// Removes every `g` row the filter selects, rebuilding the role
    /// graphs under the same auto-build regime as `add_grouping_policy`.
    pub fn remove_filtered_grouping_policy(
        &mut self,
        field_index: usize,
        field_values: &Vec<String>,
    ) -> (r: bool)
        ensures
            remove_filtered_post(
                old(self).model@,
                final(self).model@,
                "g"@,
                "g"@,
                field_index as int,
                field_values.deep_view(),
                r,
            ),
            old(self).wf() ==> final(self).wf(),
            r && old(self).auto_build_role_links ==> graphs_view(final(self).role_managers@)
                == built_rms(final(self).model@),
            !(r && old(self).auto_build_role_links) ==> final(self).role_managers == old(
                self,
            ).role_managers,
            final(self).matcher == old(self).matcher,
            final(self).effect_rule == old(self).effect_rule,
            final(self).auto_build_role_links == old(self).auto_build_role_links,
    {
        let r = self.model.remove_filtered_policy("g", "g", field_index, field_values);
        if r && self.auto_build_role_links {
            self.build_role_links();
        }
        r
    }

    /// Removes one grouping row under `g`, rebuilding the role graphs
    /// under the same auto-build regime as `add_grouping_policy`.
    pub fn remove_grouping_policy(&mut self, rule: &Vec<String>) -> (r: bool)
        ensures
            remove_policy_post(
                old(self).model@,
                final(self).model@,
                "g"@,
                "g"@,
                rule.deep_view(),
                r,
            ),
            old(self).wf() ==> final(self).wf(),
            r && old(self).auto_build_role_links ==> graphs_view(final(self).role_managers@)
                == built_rms(final(self).model@),
            !(r && old(self).auto_build_role_links) ==> final(self).role_managers == old(
                self,
            ).role_managers,
            final(self).matcher == old(self).matcher,
            final(self).effect_rule == old(self).effect_rule,
            final(self).auto_build_role_links == old(self).auto_build_role_links,
    {
        let r = self.model.remove_policy("g", "g", rule);
        if r && self.auto_build_role_links {
            self.build_role_links();
        }
        r
    }
}

/// Deny overrides allow at the enforcement level: under a
/// deny-overriding effect rule, a decision that comes out at all comes
/// out false whenever any policy row matches the request with effect
/// `deny`, wherever in the policy that row stands.
pub proof fn lemma_enforce_deny_overrides(
    mv: Seq<AssertionV>,
    gs: Seq<(Seq<char>, Seq<EdgeV>)>,
    m: MatchExprV,
    rule: EffectRule,
    rvals: Seq<Seq<char>>,
    j: int,
)
    requires
        rule == EffectRule::DenyOverride || rule == EffectRule::AllowAndDeny,
        find_spec(mv, "p"@, "p"@) is Some,
        0 <= j < mv[find_spec(mv, "p"@, "p"@)->Some_0].policy.len(),
        ({
            let pi = find_spec(mv, "p"@, "p"@)->Some_0;
            let ri = find_spec(mv, "r"@, "r"@)->Some_0;
            find_spec(mv, "r"@, "r"@) is Some && row_outcome(
                m,
                gs,
                mv[ri].tokens,
                rvals,
                mv[pi].tokens,
                mv[pi].policy[j],
            ) == Some((true, Effect::Deny))
        }),
        enforce_spec(mv, gs, m, rule, rvals) is Some,
    ensures
        enforce_spec(mv, gs, m, rule, rvals) == Some(false),
{
    let ri = find_spec(mv, "r"@, "r"@)->Some_0;
    let pi = find_spec(mv, "p"@, "p"@)->Some_0;
    let rtokens = mv[ri].tokens;
    let ptokens = mv[pi].tokens;
    let rows = mv[pi].policy;
    let results = Seq::new(
        rows.len(),
        |k: int| row_outcome(m, gs, rtokens, rvals, ptokens, rows[k])->Some_0,
    );
    assert(results[j] == (true, Effect::Deny));
    crate::effector::lemma_deny_overrides(rule, results, j);
}

/// The first position of `tok` in the token list, scanned in order.
#[verifier::loop_isolation(false)]
pub fn find_token_exec(tokens: &Vec<String>, tok: &str) -> (r: Option<usize>)
    ensures
        match r {
            Some(i) => (i as int) < tokens@.len() && find_token(tokens.deep_view(), tok@) == Some(
                i as int,
            ),
            None => find_token(tokens.deep_view(), tok@) is None,
        },
{
    let n = tokens.len();
    let mut i: usize = 0;
    while i < n
        invariant
            0 <= i <= n,
            forall|k: int| 0 <= k < i ==> tokens.deep_view()[k] != tok@,
        decreases n - i,
    {
        if str_eq(tokens[i].as_str(), tok) {
            proof {
                assert(tokens.deep_view()[i as int] == tok@);
                lemma_find_token_skip(tokens.deep_view(), tok@, i as int);
                assert(tokens.deep_view().subrange(i as int, tokens.deep_view().len() as int)[0]
                    == tokens.deep_view()[i as int]);
            }
            return Some(i);
        }
        i += 1;
    }
    proof {
        lemma_find_token_skip(tokens.deep_view(), tok@, n as int);
    }
    None
}

proof fn lemma_find_token_skip(tokens: Seq<Seq<char>>, tok: Seq<char>, i: int)
    requires
        0 <= i <= tokens.len(),
        forall|j: int| 0 <= j < i ==> tokens[j] != tok,
    ensures
        find_token(tokens.subrange(i, tokens.len() as int), tok) is None ==> find_token(
            tokens,
            tok,
        ) is None,
        find_token(tokens.subrange(i, tokens.len() as int), tok) is Some ==> find_token(
            tokens,
            tok,
        ) == Some(i + find_token(tokens.subrange(i, tokens.len() as int), tok)->Some_0),
    decreases i,
{
    if i == 0 {
        assert(tokens.subrange(0, tokens.len() as int) =~= tokens);
    } else {
        let d = tokens.drop_first();
        lemma_find_token_skip(d, tok, i - 1);
        assert(d.subrange(i - 1, d.len() as int) =~= tokens.subrange(i, tokens.len() as int));
    }
}

} // verus!
