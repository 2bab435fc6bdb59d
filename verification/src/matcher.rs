use vstd::prelude::*;

use crate::builtins::ip_match;
use crate::builtins::ip_match_exec;
use crate::builtins::key_match;
use crate::builtins::key_match2;
use crate::builtins::key_match2_exec;
use crate::builtins::key_match3;
use crate::builtins::key_match3_exec;
use crate::builtins::key_match_exec;
use crate::builtins::regex_match_of;
use crate::builtins::regex_match_wrap;
use crate::builtins::regex_ok;
use crate::errors::CasbinError;
use crate::role_manager::EdgeV;
use crate::role_manager::RoleManager;
use crate::role_manager::linked;
use crate::strings::is_ws;
use crate::strings::str_eq;

verus! {

/// One operand of a comparison or predicate call: a quoted literal or
/// a qualified token such as `r.sub` (namespace `r`, attribute `sub`).
pub enum Term {
    Lit(String),
    Var(String, String),
}

/// The mathematical image of a term.
pub ghost enum TermV {
    Lit(Seq<char>),
    Var(Seq<char>, Seq<char>),
}

impl View for Term {
    type V = TermV;

    open spec fn view(&self) -> TermV {
        match self {
            Term::Lit(s) => TermV::Lit(s@),
            Term::Var(ns, name) => TermV::Var(ns@, name@),
        }
    }
}

impl DeepView for Term {
    type V = TermV;

    open spec fn deep_view(&self) -> TermV {
        self.view()
    }
}

/// The comparison operators of the matcher grammar.
#[derive(Clone, Copy, PartialEq, Eq, Structural, Debug)]
pub enum CmpOp {
    Eq,
    Ne,
}

/// The matcher expression tree: a boolean formula over term
/// comparisons and named predicate calls.
pub enum MatchExpr {
    Cmp(Term, CmpOp, Term),
    Pred(String, Vec<Term>),
    Neg(Box<MatchExpr>),
    Conj(Box<MatchExpr>, Box<MatchExpr>),
    Disj(Box<MatchExpr>, Box<MatchExpr>),
}

/// The mathematical image of a matcher expression.
pub ghost enum MatchExprV {
    Cmp(TermV, CmpOp, TermV),
    Pred(Seq<char>, Seq<TermV>),
    Neg(Box<MatchExprV>),
    Conj(Box<MatchExprV>, Box<MatchExprV>),
    Disj(Box<MatchExprV>, Box<MatchExprV>),
}

pub open spec fn expr_view(e: MatchExpr) -> MatchExprV
    decreases e,
{
    match e {
        MatchExpr::Cmp(a, op, b) => MatchExprV::Cmp(a@, op, b@),
        MatchExpr::Pred(name, args) => MatchExprV::Pred(name@, args.deep_view()),
        MatchExpr::Neg(x) => MatchExprV::Neg(Box::new(expr_view(*x))),
        MatchExpr::Conj(x, y) => MatchExprV::Conj(
            Box::new(expr_view(*x)),
            Box::new(expr_view(*y)),
        ),
        MatchExpr::Disj(x, y) => MatchExprV::Disj(
            Box::new(expr_view(*x)),
            Box::new(expr_view(*y)),
        ),
    }
}

/// One entry of the evaluation environment: the token `ns.name` is
/// bound to the string `val`.
pub struct Binding {
    pub ns: String,
    pub name: String,
    pub val: String,
}

/// The mathematical image of a binding.
pub ghost struct BindingV {
    pub ns: Seq<char>,
    pub name: Seq<char>,
    pub val: Seq<char>,
}

impl View for Binding {
    type V = BindingV;

    open spec fn view(&self) -> BindingV {
        BindingV { ns: self.ns@, name: self.name@, val: self.val@ }
    }
}

impl DeepView for Binding {
    type V = BindingV;

    open spec fn deep_view(&self) -> BindingV {
        self.view()
    }
}

/// The value of the first binding for `ns.name`, if any.
pub open spec fn lookup(env: Seq<BindingV>, ns: Seq<char>, name: Seq<char>) -> Option<Seq<char>>
    decreases env.len(),
{
    if env.len() == 0 {
        None
    } else if env[0].ns == ns && env[0].name == name {
        Some(env[0].val)
    } else {
        lookup(env.drop_first(), ns, name)
    }
}

/// A term's value under the environment: literals stand for themselves,
/// variables for their binding; an unbound variable has no value.
pub open spec fn eval_term(env: Seq<BindingV>, t: TermV) -> Option<Seq<char>> {
    match t {
        TermV::Lit(s) => Some(s),
        TermV::Var(ns, name) => lookup(env, ns, name),
    }
}

/// The edge set of the first role graph registered under `name`, if any.
pub open spec fn graph_of(
    gs: Seq<(Seq<char>, Seq<EdgeV>)>,
    name: Seq<char>,
) -> Option<Seq<EdgeV>>
    decreases gs.len(),
{
    if gs.len() == 0 {
        None
    } else if gs[0].0 == name {
        Some(gs[0].1)
    } else {
        graph_of(gs.drop_first(), name)
    }
}

/// The first index of `tok` in a token list, if any.
pub open spec fn find_token(tokens: Seq<Seq<char>>, tok: Seq<char>) -> Option<int>
    decreases tokens.len(),
{
    if tokens.len() == 0 {
        None
    } else if tokens[0] == tok {
        Some(0int)
    } else {
        match find_token(tokens.drop_first(), tok) {
            None => None,
            Some(i) => Some(i + 1),
        }
    }
}

/// The value of a built-in predicate on two evaluated arguments: the
/// `keyMatch` family tests the first against the path pattern in the
/// second, `regexMatch` against the regular expression in the second,
/// `ipMatch` against the address or network block in the second; an
/// unknown name, a pattern the regular-expression engine rejects, or
/// text that is no address is an evaluation error (`None`).
pub open spec fn eval_builtin(name: Seq<char>, a: Seq<char>, b: Seq<char>) -> Option<bool> {
    if name == "keyMatch"@ {
        Some(key_match(a, b))
    } else if name == "keyMatch2"@ {
        Some(key_match2(a, b))
    } else if name == "keyMatch3"@ {
        Some(key_match3(a, b))
    } else if name == "regexMatch"@ {
        if regex_ok(b) {
            Some(regex_match_of(b, a))
        } else {
            None
        }
    } else if name == "ipMatch"@ {
        ip_match(a, b)
    } else {
        None
    }
}

/// The value of a predicate call.  A call `g(a, b)` or `g(a, b, d)`
/// asks the role graph registered under the call's name whether `b` is
/// reachable from `a`, without or within the domain `d`; when the
/// optional trailing domain argument has no value, the query is made
/// without a domain rather than failing.  A name carrying no role
/// graph is one of the built-in predicates on two arguments.  A wrong
/// arity, or an argument (other than the trailing domain) without a
/// value, is an evaluation error (`None`).
pub open spec fn eval_pred(
    name: Seq<char>,
    args: Seq<TermV>,
    env: Seq<BindingV>,
    gs: Seq<(Seq<char>, Seq<EdgeV>)>,
) -> Option<bool> {
    match graph_of(gs, name) {
        None => if args.len() == 2 {
            match (eval_term(env, args[0]), eval_term(env, args[1])) {
                (Some(a), Some(b)) => eval_builtin(name, a, b),
                _ => None,
            }
        } else {
            None
        },
        Some(edges) => if args.len() == 2 {
            match (eval_term(env, args[0]), eval_term(env, args[1])) {
                (Some(a), Some(b)) => Some(linked(edges, a, b, None)),
                _ => None,
            }
        } else if args.len() == 3 {
            match (eval_term(env, args[0]), eval_term(env, args[1])) {
                (Some(a), Some(b)) => match eval_term(env, args[2]) {
                    Some(d) => Some(linked(edges, a, b, Some(d))),
                    None => Some(linked(edges, a, b, None)),
                },
                _ => None,
            }
        } else {
            None
        },
    }
}

/// The value of a matcher expression under an environment and a family
/// of role graphs: `Some(b)` on success, `None` on an evaluation error
/// (unresolved symbol, unknown predicate, bad arity).  Conjunction and
/// disjunction short-circuit, so an error in the right operand is
/// absorbed when the left operand already settles the value.
pub open spec fn eval_expr(
    e: MatchExprV,
    env: Seq<BindingV>,
    gs: Seq<(Seq<char>, Seq<EdgeV>)>,
) -> Option<bool>
    decreases e,
{
    match e {
        MatchExprV::Cmp(a, op, b) => match (eval_term(env, a), eval_term(env, b)) {
            (Some(x), Some(y)) => Some(
                if op == CmpOp::Eq {
                    x == y
                } else {
                    x != y
                },
            ),
            _ => None,
        },
        MatchExprV::Pred(name, args) => eval_pred(name, args, env, gs),
        MatchExprV::Neg(x) => match eval_expr(*x, env, gs) {
            Some(b) => Some(!b),
            None => None,
        },
        MatchExprV::Conj(x, y) => match eval_expr(*x, env, gs) {
            None => None,
            Some(false) => Some(false),
            Some(true) => eval_expr(*y, env, gs),
        },
        MatchExprV::Disj(x, y) => match eval_expr(*x, env, gs) {
            None => None,
            Some(true) => Some(true),
            Some(false) => eval_expr(*y, env, gs),
        },
    }
}

/// The image of the registered role-graph family.
pub open spec fn graphs_view(gs: Seq<(String, RoleManager)>) -> Seq<(Seq<char>, Seq<EdgeV>)> {
    gs.map_values(|p: (String, RoleManager)| (p.0@, p.1@))
}

proof fn lemma_lookup_skip(env: Seq<BindingV>, ns: Seq<char>, name: Seq<char>, i: int)
    requires
        0 <= i <= env.len(),
        forall|j: int| 0 <= j < i ==> !((#[trigger] env[j]).ns == ns && env[j].name == name),
    ensures
        lookup(env, ns, name) == lookup(env.subrange(i, env.len() as int), ns, name),
    decreases i,
{
    if i == 0 {
        assert(env.subrange(0, env.len() as int) =~= env);
    } else {
        let d = env.drop_first();
        lemma_lookup_skip(d, ns, name, i - 1);
        assert(d.subrange(i - 1, d.len() as int) =~= env.subrange(i, env.len() as int));
    }
}

proof fn lemma_graph_skip(gs: Seq<(Seq<char>, Seq<EdgeV>)>, name: Seq<char>, i: int)
    requires
        0 <= i <= gs.len(),
        forall|j: int| 0 <= j < i ==> (#[trigger] gs[j]).0 != name,
    ensures
        graph_of(gs, name) == graph_of(gs.subrange(i, gs.len() as int), name),
    decreases i,
{
    if i == 0 {
        assert(gs.subrange(0, gs.len() as int) =~= gs);
    } else {
        let d = gs.drop_first();
        lemma_graph_skip(d, name, i - 1);
        assert(d.subrange(i - 1, d.len() as int) =~= gs.subrange(i, gs.len() as int));
    }
}

/// The first binding for `ns.name`, scanned in order.
#[verifier::loop_isolation(false)]
pub fn lookup_exec(env: &Vec<Binding>, ns: &str, name: &str) -> (r: Option<String>)
    ensures
        match r {
            Some(v) => lookup(env.deep_view(), ns@, name@) == Some(v@),
            None => lookup(env.deep_view(), ns@, name@) is None,
        },
{
    let n = env.len();
    let mut i: usize = 0;
    while i < n
        invariant
            0 <= i <= n,
            forall|j: int|
                0 <= j < i ==> !((#[trigger] env.deep_view()[j]).ns == ns@
                    && env.deep_view()[j].name == name@),
        decreases n - i,
    {
        let b = &env[i];
        if str_eq(b.ns.as_str(), ns) && str_eq(b.name.as_str(), name) {
            proof {
                lemma_lookup_skip(env.deep_view(), ns@, name@, i as int);
                assert(env.deep_view().subrange(i as int, env.deep_view().len() as int)[0]
                    == env.deep_view()[i as int]);
            }
            return Some(b.val.clone());
        }
        i += 1;
    }
    proof {
        lemma_lookup_skip(env.deep_view(), ns@, name@, n as int);
    }
    None
}

/// A term's value under the environment.
pub fn eval_term_exec(env: &Vec<Binding>, t: &Term) -> (r: Option<String>)
    ensures
        match r {
            Some(v) => eval_term(env.deep_view(), t@) == Some(v@),
            None => eval_term(env.deep_view(), t@) is None,
        },
{
    match t {
        Term::Lit(s) => Some(s.clone()),
        Term::Var(ns, name) => lookup_exec(env, ns.as_str(), name.as_str()),
    }
}

/// The role graph registered under `name`, scanned in order.
#[verifier::loop_isolation(false)]
fn graph_exec<'a>(gs: &'a Vec<(String, RoleManager)>, name: &str) -> (r: Option<
    &'a RoleManager,
>)
    ensures
        match r {
            Some(rm) => graph_of(graphs_view(gs@), name@) == Some(rm@),
            None => graph_of(graphs_view(gs@), name@) is None,
        },
{
    let n = gs.len();
    let mut i: usize = 0;
    while i < n
        invariant
            0 <= i <= n,
            forall|j: int| 0 <= j < i ==> (#[trigger] graphs_view(gs@)[j]).0 != name@,
        decreases n - i,
    {
        if str_eq(gs[i].0.as_str(), name) {
            proof {
                lemma_graph_skip(graphs_view(gs@), name@, i as int);
                assert(graphs_view(gs@).subrange(i as int, graphs_view(gs@).len() as int)[0]
                    == graphs_view(gs@)[i as int]);
            }
            return Some(&gs[i].1);
        }
        i += 1;
    }
    proof {
        lemma_graph_skip(graphs_view(gs@), name@, n as int);
    }
    None
}

/// The value of the matcher expression for one environment: `Ok` on
/// success, an error on an unresolved symbol, unknown predicate name or
/// wrong predicate arity, exactly where the specification-level
/// evaluation has no value.
pub fn eval_expr_exec(
    e: &MatchExpr,
    env: &Vec<Binding>,
    gs: &Vec<(String, RoleManager)>,
) -> (r: Result<bool, CasbinError>)
    ensures
        match r {
            Ok(b) => eval_expr(expr_view(*e), env.deep_view(), graphs_view(gs@)) == Some(b),
            Err(_) => eval_expr(expr_view(*e), env.deep_view(), graphs_view(gs@)) is None,
        },
    decreases *e,
{
    match e {
        MatchExpr::Cmp(a, op, b) => {
            let va = match eval_term_exec(env, a) {
                Some(v) => v,
                None => {
                    return Err(CasbinError::ParsingFailure("unresolved symbol in matcher"));
                },
            };
            let vb = match eval_term_exec(env, b) {
                Some(v) => v,
                None => {
                    return Err(CasbinError::ParsingFailure("unresolved symbol in matcher"));
                },
            };
            let eq = str_eq(va.as_str(), vb.as_str());
            match op {
                CmpOp::Eq => Ok(eq),
                CmpOp::Ne => Ok(!eq),
            }
        },
        MatchExpr::Pred(name, args) => {
            let rm = match graph_exec(gs, name.as_str()) {
                Some(rm) => rm,
                None => {
                    if args.len() != 2 {
                        return Err(CasbinError::ParsingFailure("wrong arity in matcher call"));
                    }
                    let a = match eval_term_exec(env, &args[0]) {
                        Some(v) => v,
                        None => {
                            return Err(
                                CasbinError::ParsingFailure("unresolved symbol in matcher"),
                            );
                        },
                    };
                    let b = match eval_term_exec(env, &args[1]) {
                        Some(v) => v,
                        None => {
                            return Err(
                                CasbinError::ParsingFailure("unresolved symbol in matcher"),
                            );
                        },
                    };
                    proof {
                        assert(args.deep_view()[0] == args@[0].deep_view());
                        assert(args.deep_view()[1] == args@[1].deep_view());
                    }
                    if str_eq(name.as_str(), "keyMatch") {
                        return Ok(key_match_exec(a.as_str(), b.as_str()));
                    }
                    if str_eq(name.as_str(), "keyMatch2") {
                        return Ok(key_match2_exec(a.as_str(), b.as_str()));
                    }
                    if str_eq(name.as_str(), "keyMatch3") {
                        return Ok(key_match3_exec(a.as_str(), b.as_str()));
                    }
                    if str_eq(name.as_str(), "regexMatch") {
                        return match regex_match_wrap(a.as_str(), b.as_str()) {
                            Some(x) => Ok(x),
                            None => Err(
                                CasbinError::ParsingFailure("bad pattern in matcher"),
                            ),
                        };
                    }
                    if str_eq(name.as_str(), "ipMatch") {
                        return match ip_match_exec(a.as_str(), b.as_str()) {
                            Some(x) => Ok(x),
                            None => Err(
                                CasbinError::ParsingFailure("bad address in matcher"),
                            ),
                        };
                    }
                    return Err(CasbinError::ParsingFailure("unknown function in matcher"));
                },
            };
            if args.len() == 2 {
                let a = match eval_term_exec(env, &args[0]) {
                    Some(v) => v,
                    None => {
                        return Err(CasbinError::ParsingFailure("unresolved symbol in matcher"));
                    },
                };
                let b = match eval_term_exec(env, &args[1]) {
                    Some(v) => v,
                    None => {
                        return Err(CasbinError::ParsingFailure("unresolved symbol in matcher"));
                    },
                };
                proof {
                    assert(args.deep_view()[0] == args@[0].deep_view());
                    assert(args.deep_view()[1] == args@[1].deep_view());
                }
                Ok(rm.has_link(a.as_str(), b.as_str(), None))
            } else if args.len() == 3 {
                let a = match eval_term_exec(env, &args[0]) {
                    Some(v) => v,
                    None => {
                        return Err(CasbinError::ParsingFailure("unresolved symbol in matcher"));
                    },
                };
                let b = match eval_term_exec(env, &args[1]) {
                    Some(v) => v,
                    None => {
                        return Err(CasbinError::ParsingFailure("unresolved symbol in matcher"));
                    },
                };
                proof {
                    assert(args.deep_view()[0] == args@[0].deep_view());
                    assert(args.deep_view()[1] == args@[1].deep_view());
                    assert(args.deep_view()[2] == args@[2].deep_view());
                }
                match eval_term_exec(env, &args[2]) {
                    Some(d) => Ok(rm.has_link(a.as_str(), b.as_str(), Some(d.as_str()))),
                    None => Ok(rm.has_link(a.as_str(), b.as_str(), None)),
                }
            } else {
                Err(CasbinError::ParsingFailure("wrong arity in matcher call"))
            }
        },
        MatchExpr::Neg(x) => {
            match eval_expr_exec(x, env, gs) {
                Ok(b) => Ok(!b),
                Err(err) => Err(err),
            }
        },
        MatchExpr::Conj(x, y) => {
            match eval_expr_exec(x, env, gs) {
                Ok(true) => eval_expr_exec(y, env, gs),
                Ok(false) => Ok(false),
                Err(err) => Err(err),
            }
        },
        MatchExpr::Disj(x, y) => {
            match eval_expr_exec(x, env, gs) {
                Ok(true) => Ok(true),
                Ok(false) => eval_expr_exec(y, env, gs),
                Err(err) => Err(err),
            }
        },
    }
}

/// One lexical token of the matcher expression text.
pub enum MatchToken {
    LPar,
    RPar,
    Comma,
    Bang,
    AndAnd,
    OrOr,
    EqEq,
    BangEq,
    Name(String),
    Quoted(String),
}

/// The mathematical image of a token.
pub ghost enum MatchTokenV {
    LPar,
    RPar,
    Comma,
    Bang,
    AndAnd,
    OrOr,
    EqEq,
    BangEq,
    Name(Seq<char>),
    Quoted(Seq<char>),
}

impl View for MatchToken {
    type V = MatchTokenV;

    open spec fn view(&self) -> MatchTokenV {
        match self {
            MatchToken::LPar => MatchTokenV::LPar,
            MatchToken::RPar => MatchTokenV::RPar,
            MatchToken::Comma => MatchTokenV::Comma,
            MatchToken::Bang => MatchTokenV::Bang,
            MatchToken::AndAnd => MatchTokenV::AndAnd,
            MatchToken::OrOr => MatchTokenV::OrOr,
            MatchToken::EqEq => MatchTokenV::EqEq,
            MatchToken::BangEq => MatchTokenV::BangEq,
            MatchToken::Name(nm) => MatchTokenV::Name(nm@),
            MatchToken::Quoted(q) => MatchTokenV::Quoted(q@),
        }
    }
}

impl DeepView for MatchToken {
    type V = MatchTokenV;

    open spec fn deep_view(&self) -> MatchTokenV {
        self.view()
    }
}

/// Whether `c` may stand inside a qualified token name.
pub open spec fn name_char(c: char) -> bool {
    ('a' <= c && c <= 'z') || ('A' <= c && c <= 'Z') || ('0' <= c && c <= '9') || c == '_' || c
        == '.'
}

fn is_name_char(c: char) -> (r: bool)
    ensures
        r == name_char(c),
{
    ('a' <= c && c <= 'z') || ('A' <= c && c <= 'Z') || ('0' <= c && c <= '9') || c == '_' || c
        == '.'
}

/// How many characters from `j` on until the closing double quote (or
/// the end, when there is none).
pub open spec fn quote_dist(s: Seq<char>, j: int) -> nat
    decreases s.len() - j,
{
    if j < 0 || j >= s.len() {
        0
    } else if s[j] == '"' {
        0
    } else {
        (1 + quote_dist(s, j + 1)) as nat
    }
}

/// The length of the run of name characters starting at `j`.
pub open spec fn name_run(s: Seq<char>, j: int) -> nat
    decreases s.len() - j,
{
    if j < 0 || j >= s.len() {
        0
    } else if name_char(s[j]) {
        (1 + name_run(s, j + 1)) as nat
    } else {
        0
    }
}

/// How many characters from `j` on until the first dot (or the end).
pub open spec fn dot_dist(s: Seq<char>, j: int) -> nat
    decreases s.len() - j,
{
    if j < 0 || j >= s.len() {
        0
    } else if s[j] == '.' {
        0
    } else {
        (1 + dot_dist(s, j + 1)) as nat
    }
}

pub open spec fn cons_tok(t: MatchTokenV, rest: Option<Seq<MatchTokenV>>) -> Option<Seq<MatchTokenV>> {
    match rest {
        None => None,
        Some(ts) => Some(seq![t] + ts),
    }
}

/// The tokens of the matcher text from position `i` on, or `None` when
/// the text is not lexically well formed (a lone `&`, `|` or `=`, an
/// unterminated string, or a character outside the grammar).
pub open spec fn toks_from(s: Seq<char>, i: int) -> Option<Seq<MatchTokenV>>
    decreases s.len() - i,
{
    if i < 0 || i >= s.len() {
        Some(Seq::<MatchTokenV>::empty())
    } else {
        let c = s[i];
        if is_ws(c) {
            toks_from(s, i + 1)
        } else if c == '(' {
            cons_tok(MatchTokenV::LPar, toks_from(s, i + 1))
        } else if c == ')' {
            cons_tok(MatchTokenV::RPar, toks_from(s, i + 1))
        } else if c == ',' {
            cons_tok(MatchTokenV::Comma, toks_from(s, i + 1))
        } else if c == '!' {
            if i + 1 < s.len() && s[i + 1] == '=' {
                cons_tok(MatchTokenV::BangEq, toks_from(s, i + 2))
            } else {
                cons_tok(MatchTokenV::Bang, toks_from(s, i + 1))
            }
        } else if c == '&' {
            if i + 1 < s.len() && s[i + 1] == '&' {
                cons_tok(MatchTokenV::AndAnd, toks_from(s, i + 2))
            } else {
                None
            }
        } else if c == '|' {
            if i + 1 < s.len() && s[i + 1] == '|' {
                cons_tok(MatchTokenV::OrOr, toks_from(s, i + 2))
            } else {
                None
            }
        } else if c == '=' {
            if i + 1 < s.len() && s[i + 1] == '=' {
                cons_tok(MatchTokenV::EqEq, toks_from(s, i + 2))
            } else {
                None
            }
        } else if c == '"' {
            let j = i + 1 + quote_dist(s, i + 1);
            if j >= s.len() {
                None
            } else {
                cons_tok(MatchTokenV::Quoted(s.subrange(i + 1, j)), toks_from(s, j + 1))
            }
        } else if name_char(c) {
            let run = name_run(s, i + 1);
            let j = if i + 1 + run > s.len() {
                s.len() as int
            } else {
                i + 1 + run
            };
            cons_tok(MatchTokenV::Name(s.subrange(i, j)), toks_from(s, j))
        } else {
            None
        }
    }
}

spec fn glue_toks(a: Seq<MatchTokenV>, rest: Option<Seq<MatchTokenV>>) -> Option<
    Seq<MatchTokenV>,
> {
    match rest {
        None => None,
        Some(ts) => Some(a + ts),
    }
}

proof fn lemma_glue_step(a: Seq<MatchTokenV>, t: MatchTokenV, rest: Option<Seq<MatchTokenV>>)
    ensures
        glue_toks(a.push(t), rest) == glue_toks(a, cons_tok(t, rest)),
{
    match rest {
        None => {},
        Some(ts) => {
            assert(a.push(t) + ts =~= a + (seq![t] + ts));
        },
    }
}

proof fn lemma_quote_dist(s: Seq<char>, start: int, j: int)
    requires
        0 <= start <= j <= s.len(),
        forall|k: int| start <= k < j ==> s[k] != '"',
        j == s.len() || s[j] == '"',
    ensures
        start + quote_dist(s, start) == j,
    decreases j - start,
{
    if start < j {
        lemma_quote_dist(s, start + 1, j);
    }
}

proof fn lemma_name_run(s: Seq<char>, start: int, j: int)
    requires
        0 <= start <= j <= s.len(),
        forall|k: int| start <= k < j ==> name_char(s[k]),
        j == s.len() || !name_char(s[j]),
    ensures
        start + name_run(s, start) == j,
    decreases j - start,
{
    if start < j {
        lemma_name_run(s, start + 1, j);
    }
}

proof fn lemma_dot_dist(s: Seq<char>, start: int, j: int)
    requires
        0 <= start <= j <= s.len(),
        forall|k: int| start <= k < j ==> s[k] != '.',
        j == s.len() || s[j] == '.',
    ensures
        start + dot_dist(s, start) == j,
    decreases j - start,
{
    if start < j {
        lemma_dot_dist(s, start + 1, j);
    }
}

/// Cuts the matcher text into tokens: punctuation, the boolean and
/// comparison operators, double-quoted literals and qualified names.
#[verifier::loop_isolation(false)]
fn tokenize(s: &str) -> (r: Result<Vec<MatchToken>, CasbinError>)
    ensures
        match r {
            Ok(t) => toks_from(s@, 0) == Some(t.deep_view()),
            Err(_) => toks_from(s@, 0) is None,
        },
{
    let n = s.unicode_len();
    let mut toks: Vec<MatchToken> = Vec::new();
    let mut i: usize = 0;
    while i < n
        invariant
            0 <= i <= n,
            n == s@.len(),
            glue_toks(toks.deep_view(), toks_from(s@, i as int)) == toks_from(s@, 0),
        decreases n - i,
    {
        let ghost prev = toks.deep_view();
        let c = s.get_char(i);
        if c == ' ' || c == '\t' || c == '\r' || c == '\n' {
            i += 1;
        } else if c == '(' {
            toks.push(MatchToken::LPar);
            proof {
                lemma_glue_step(prev, MatchTokenV::LPar, toks_from(s@, i + 1));
                assert(toks.deep_view() =~= prev.push(MatchTokenV::LPar));
            }
            i += 1;
        } else if c == ')' {
            toks.push(MatchToken::RPar);
            proof {
                lemma_glue_step(prev, MatchTokenV::RPar, toks_from(s@, i + 1));
                assert(toks.deep_view() =~= prev.push(MatchTokenV::RPar));
            }
            i += 1;
        } else if c == ',' {
            toks.push(MatchToken::Comma);
            proof {
                lemma_glue_step(prev, MatchTokenV::Comma, toks_from(s@, i + 1));
                assert(toks.deep_view() =~= prev.push(MatchTokenV::Comma));
            }
            i += 1;
        } else if c == '!' {
            if i + 1 < n && s.get_char(i + 1) == '=' {
                toks.push(MatchToken::BangEq);
                proof {
                    lemma_glue_step(prev, MatchTokenV::BangEq, toks_from(s@, i + 2));
                    assert(toks.deep_view() =~= prev.push(MatchTokenV::BangEq));
                }
                i += 2;
            } else {
                toks.push(MatchToken::Bang);
                proof {
                    lemma_glue_step(prev, MatchTokenV::Bang, toks_from(s@, i + 1));
                    assert(toks.deep_view() =~= prev.push(MatchTokenV::Bang));
                }
                i += 1;
            }
        } else if c == '&' {
            if i + 1 < n && s.get_char(i + 1) == '&' {
                toks.push(MatchToken::AndAnd);
                proof {
                    lemma_glue_step(prev, MatchTokenV::AndAnd, toks_from(s@, i + 2));
                    assert(toks.deep_view() =~= prev.push(MatchTokenV::AndAnd));
                }
                i += 2;
            } else {
                return Err(CasbinError::ParsingFailure("lone '&' in matcher"));
            }
        } else if c == '|' {
            if i + 1 < n && s.get_char(i + 1) == '|' {
                toks.push(MatchToken::OrOr);
                proof {
                    lemma_glue_step(prev, MatchTokenV::OrOr, toks_from(s@, i + 2));
                    assert(toks.deep_view() =~= prev.push(MatchTokenV::OrOr));
                }
                i += 2;
            } else {
                return Err(CasbinError::ParsingFailure("lone '|' in matcher"));
            }
        } else if c == '=' {
            if i + 1 < n && s.get_char(i + 1) == '=' {
                toks.push(MatchToken::EqEq);
                proof {
                    lemma_glue_step(prev, MatchTokenV::EqEq, toks_from(s@, i + 2));
                    assert(toks.deep_view() =~= prev.push(MatchTokenV::EqEq));
                }
                i += 2;
            } else {
                return Err(CasbinError::ParsingFailure("lone '=' in matcher"));
            }
        } else if c == '"' {
            let mut j = i + 1;
            while j < n && s.get_char(j) != '"'
                invariant
                    i + 1 <= j <= n,
                    forall|k: int| i + 1 <= k < j ==> s@[k] != '"',
                decreases n - j,
            {
                j += 1;
            }
            proof {
                lemma_quote_dist(s@, i + 1, j as int);
            }
            if j == n {
                return Err(CasbinError::ParsingFailure("unterminated string in matcher"));
            }
            let q = s.substring_char(i + 1, j).to_owned();
            toks.push(MatchToken::Quoted(q));
            proof {
                lemma_glue_step(
                    prev,
                    MatchTokenV::Quoted(s@.subrange(i + 1, j as int)),
                    toks_from(s@, j + 1),
                );
                assert(toks.deep_view() =~= prev.push(
                    MatchTokenV::Quoted(s@.subrange(i + 1, j as int)),
                ));
            }
            i = j + 1;
        } else if is_name_char(c) {
            let mut j = i + 1;
            while j < n && is_name_char(s.get_char(j))
                invariant
                    i + 1 <= j <= n,
                    forall|k: int| i + 1 <= k < j ==> name_char(s@[k]),
                decreases n - j,
            {
                j += 1;
            }
            proof {
                lemma_name_run(s@, i + 1, j as int);
            }
            let nm = s.substring_char(i, j).to_owned();
            toks.push(MatchToken::Name(nm));
            proof {
                lemma_glue_step(
                    prev,
                    MatchTokenV::Name(s@.subrange(i as int, j as int)),
                    toks_from(s@, j as int),
                );
                assert(toks.deep_view() =~= prev.push(
                    MatchTokenV::Name(s@.subrange(i as int, j as int)),
                ));
            }
            i = j;
        } else {
            return Err(CasbinError::ParsingFailure("unexpected character in matcher"));
        }
    }
    proof {
        assert(toks.deep_view() + Seq::<MatchTokenV>::empty() =~= toks.deep_view());
    }
    Ok(toks)
}

/// The variable a qualified name denotes: the text before the first
/// dot is the namespace, the text after it the attribute; a name
/// without a dot denotes nothing.
pub open spec fn var_of_name(nm: Seq<char>) -> Option<TermV> {
    let k = dot_dist(nm, 0) as int;
    if k < nm.len() {
        Some(TermV::Var(nm.subrange(0, k), nm.subrange(k + 1, nm.len() as int)))
    } else {
        None
    }
}

/// The term one token denotes, if any.
pub open spec fn parse_term_spec(toks: Seq<MatchTokenV>, i: int) -> Option<(TermV, int)> {
    if 0 <= i < toks.len() {
        match toks[i] {
            MatchTokenV::Quoted(q) => Some((TermV::Lit(q), i + 1)),
            MatchTokenV::Name(nm) => match var_of_name(nm) {
                Some(t) => Some((t, i + 1)),
                None => None,
            },
            _ => None,
        }
    } else {
        None
    }
}

/// A nonempty comma-separated argument list up to and over its closing
/// parenthesis.
pub open spec fn parse_args_spec(toks: Seq<MatchTokenV>, i: int) -> Option<(Seq<TermV>, int)>
    decreases toks.len() - i, 0int,
{
    match parse_term_spec(toks, i) {
        None => None,
        Some((t, j)) => if i < j && j < toks.len() && toks[j] is Comma {
            match parse_args_spec(toks, j + 1) {
                None => None,
                Some((rest, k)) => Some((seq![t] + rest, k)),
            }
        } else if j < toks.len() && toks[j] is RPar {
            Some((seq![t], j + 1))
        } else {
            None
        },
    }
}

/// A parenthesized expression, a predicate call, or a comparison.
pub open spec fn parse_primary_spec(toks: Seq<MatchTokenV>, i: int) -> Option<(MatchExprV, int)>
    decreases toks.len() - i, 1int,
{
    if i < 0 || i >= toks.len() {
        None
    } else if toks[i] is LPar {
        match parse_disj_spec(toks, i + 1) {
            None => None,
            Some((e, j)) => if j < toks.len() && toks[j] is RPar {
                Some((e, j + 1))
            } else {
                None
            },
        }
    } else if toks[i] is Name && i + 1 < toks.len() && toks[i + 1] is LPar {
        if i + 2 < toks.len() && toks[i + 2] is RPar {
            Some((MatchExprV::Pred(toks[i]->Name_0, Seq::<TermV>::empty()), i + 3))
        } else {
            match parse_args_spec(toks, i + 2) {
                None => None,
                Some((args, j)) => Some((MatchExprV::Pred(toks[i]->Name_0, args), j)),
            }
        }
    } else {
        match parse_term_spec(toks, i) {
            None => None,
            Some((t1, j)) => if j < toks.len() && (toks[j] is EqEq || toks[j] is BangEq) {
                match parse_term_spec(toks, j + 1) {
                    None => None,
                    Some((t2, k)) => Some(
                        (
                            MatchExprV::Cmp(
                                t1,
                                if toks[j] is EqEq {
                                    CmpOp::Eq
                                } else {
                                    CmpOp::Ne
                                },
                                t2,
                            ),
                            k,
                        ),
                    ),
                }
            } else {
                None
            },
        }
    }
}

/// A primary expression under zero or more negations.
pub open spec fn parse_unary_spec(toks: Seq<MatchTokenV>, i: int) -> Option<(MatchExprV, int)>
    decreases toks.len() - i, 2int,
{
    if 0 <= i < toks.len() && toks[i] is Bang {
        match parse_unary_spec(toks, i + 1) {
            None => None,
            Some((e, j)) => Some((MatchExprV::Neg(Box::new(e)), j)),
        }
    } else {
        parse_primary_spec(toks, i)
    }
}

/// A chain of `&&`, binding tighter than `||`.
pub open spec fn parse_conj_spec(toks: Seq<MatchTokenV>, i: int) -> Option<(MatchExprV, int)>
    decreases toks.len() - i, 3int,
{
    match parse_unary_spec(toks, i) {
        None => None,
        Some((l, j)) => if i < j && j < toks.len() && toks[j] is AndAnd {
            match parse_conj_spec(toks, j + 1) {
                None => None,
                Some((r2, k)) => Some((MatchExprV::Conj(Box::new(l), Box::new(r2)), k)),
            }
        } else {
            Some((l, j))
        },
    }
}

/// A chain of `||`: the whole grammar.
pub open spec fn parse_disj_spec(toks: Seq<MatchTokenV>, i: int) -> Option<(MatchExprV, int)>
    decreases toks.len() - i, 4int,
{
    match parse_conj_spec(toks, i) {
        None => None,
        Some((l, j)) => if i < j && j < toks.len() && toks[j] is OrOr {
            match parse_disj_spec(toks, j + 1) {
                None => None,
                Some((r2, k)) => Some((MatchExprV::Disj(Box::new(l), Box::new(r2)), k)),
            }
        } else {
            Some((l, j))
        },
    }
}

/// The expression the matcher text denotes: its tokens parsed as the
/// whole grammar, or nothing when the text is not a well-formed
/// matcher expression.
pub open spec fn parse_matcher_spec(s: Seq<char>) -> Option<MatchExprV> {
    match toks_from(s, 0) {
        None => None,
        Some(toks) => match parse_disj_spec(toks, 0) {
            None => None,
            Some((e, j)) => if j == toks.len() {
                Some(e)
            } else {
                None
            },
        },
    }
}

/// Splits a qualified name at its first dot into a variable term; a
/// name without a namespace is an unresolved symbol.
fn split_var(nm: &str) -> (r: Result<Term, CasbinError>)
    ensures
        match r {
            Ok(t) => var_of_name(nm@) == Some(t@),
            Err(_) => var_of_name(nm@) is None,
        },
{
    let n = nm.unicode_len();
    let mut k: usize = 0;
    while k < n && nm.get_char(k) != '.'
        invariant
            0 <= k <= n,
            n == nm@.len(),
            forall|q: int| 0 <= q < k ==> nm@[q] != '.',
        decreases n - k,
    {
        k += 1;
    }
    proof {
        lemma_dot_dist(nm@, 0, k as int);
    }
    if k == n {
        return Err(CasbinError::ParsingFailure("unqualified symbol in matcher"));
    }
    Ok(Term::Var(nm.substring_char(0, k).to_owned(), nm.substring_char(k + 1, n).to_owned()))
}

/// One operand: a quoted literal or a qualified name.
fn parse_term(toks: &Vec<MatchToken>, i: usize) -> (r: Result<(Term, usize), CasbinError>)
    ensures
        match r {
            Ok(p) => i < p.1 && p.1 <= toks@.len() && parse_term_spec(toks.deep_view(), i as int)
                == Some((p.0@, p.1 as int)),
            Err(_) => parse_term_spec(toks.deep_view(), i as int) is None,
        },
{
    if i >= toks.len() {
        return Err(CasbinError::ParsingFailure("matcher ends inside an expression"));
    }
    proof {
        assert(toks.deep_view()[i as int] == toks@[i as int]@);
    }
    match &toks[i] {
        MatchToken::Quoted(q) => Ok((Term::Lit(q.clone()), i + 1)),
        MatchToken::Name(nm) => {
            match split_var(nm.as_str()) {
                Ok(t) => Ok((t, i + 1)),
                Err(e) => Err(e),
            }
        },
        _ => Err(CasbinError::ParsingFailure("expected a token or literal in matcher")),
    }
}

/// A parenthesized expression, a predicate call, or a comparison.
#[verifier::loop_isolation(false)]
fn parse_primary(toks: &Vec<MatchToken>, i: usize) -> (r: Result<(MatchExpr, usize), CasbinError>)
    ensures
        match r {
            Ok(p) => i < p.1 && p.1 <= toks@.len() && parse_primary_spec(
                toks.deep_view(),
                i as int,
            ) == Some((expr_view(p.0), p.1 as int)),
            Err(_) => parse_primary_spec(toks.deep_view(), i as int) is None,
        },
    decreases toks@.len() - i, 0int,
{
    let ghost tv = toks.deep_view();
    if i >= toks.len() {
        return Err(CasbinError::ParsingFailure("matcher ends inside an expression"));
    }
    proof {
        assert(tv[i as int] == toks@[i as int]@);
    }
    if let MatchToken::LPar = &toks[i] {
        let (e, j) = match parse_disj(toks, i + 1) {
            Ok(p) => p,
            Err(e) => {
                return Err(e);
            },
        };
        if j < toks.len() {
            proof {
                assert(tv[j as int] == toks@[j as int]@);
            }
            if let MatchToken::RPar = &toks[j] {
                return Ok((e, j + 1));
            }
        }
        return Err(CasbinError::ParsingFailure("missing ')' in matcher"));
    }
    let mut is_call = false;
    if let MatchToken::Name(_) = &toks[i] {
        if i + 1 < toks.len() {
            proof {
                assert(tv[i + 1] == toks@[i + 1]@);
            }
            if let MatchToken::LPar = &toks[i + 1] {
                is_call = true;
            }
        }
    }
    proof {
        assert(is_call == (tv[i as int] is Name && i + 1 < tv.len() && tv[i + 1] is LPar));
    }
    if is_call {
        let name = match &toks[i] {
            MatchToken::Name(nm) => nm.clone(),
            _ => {
                return Err(CasbinError::ParsingFailure("expected a name in matcher"));
            },
        };
        let mut args: Vec<Term> = Vec::new();
        let mut j = i + 2;
        if j < toks.len() {
            proof {
                assert(tv[j as int] == toks@[j as int]@);
            }
            if let MatchToken::RPar = &toks[j] {
                proof {
                    assert(args.deep_view() =~= Seq::<TermV>::empty());
                }
                return Ok((MatchExpr::Pred(name, args), j + 1));
            }
        }
        let ghost start = i + 2;
        loop
            invariant
                i + 2 <= j,
                match parse_args_spec(tv, j as int) {
                    None => parse_args_spec(tv, start as int) is None,
                    Some((rest, end)) => parse_args_spec(tv, start as int) == Some(
                        (args.deep_view() + rest, end),
                    ),
                },
            decreases toks@.len() - j,
        {
            let (t, j2) = match parse_term(toks, j) {
                Ok(p) => p,
                Err(e) => {
                    return Err(e);
                },
            };
            let ghost prev = args.deep_view();
            args.push(t);
            proof {
                assert(args.deep_view() =~= prev.push(t@));
            }
            if j2 < toks.len() {
                proof {
                    assert(tv[j2 as int] == toks@[j2 as int]@);
                }
                if let MatchToken::Comma = &toks[j2] {
                    proof {
                        if parse_args_spec(tv, j2 + 1) is Some {
                            let (rest2, end) = parse_args_spec(tv, j2 + 1)->Some_0;
                            assert(prev + (seq![t@] + rest2) =~= args.deep_view() + rest2);
                        }
                    }
                    j = j2 + 1;
                    continue ;
                }
                if let MatchToken::RPar = &toks[j2] {
                    proof {
                        assert(prev + seq![t@] =~= args.deep_view());
                    }
                    return Ok((MatchExpr::Pred(name, args), j2 + 1));
                }
            }
            return Err(CasbinError::ParsingFailure("malformed call in matcher"));
        }
    }
    let (t1, j) = match parse_term(toks, i) {
        Ok(p) => p,
        Err(e) => {
            return Err(e);
        },
    };
    if j >= toks.len() {
        return Err(CasbinError::ParsingFailure("matcher ends inside a comparison"));
    }
    proof {
        assert(tv[j as int] == toks@[j as int]@);
    }
    let op = match &toks[j] {
        MatchToken::EqEq => CmpOp::Eq,
        MatchToken::BangEq => CmpOp::Ne,
        _ => {
            return Err(CasbinError::ParsingFailure("expected a comparison in matcher"));
        },
    };
    let (t2, k) = match parse_term(toks, j + 1) {
        Ok(p) => p,
        Err(e) => {
            return Err(e);
        },
    };
    Ok((MatchExpr::Cmp(t1, op, t2), k))
}

/// A primary expression under zero or more negations.
fn parse_unary(toks: &Vec<MatchToken>, i: usize) -> (r: Result<(MatchExpr, usize), CasbinError>)
    ensures
        match r {
            Ok(p) => i < p.1 && p.1 <= toks@.len() && parse_unary_spec(toks.deep_view(), i as int)
                == Some((expr_view(p.0), p.1 as int)),
            Err(_) => parse_unary_spec(toks.deep_view(), i as int) is None,
        },
    decreases toks@.len() - i, 1int,
{
    if i < toks.len() {
        proof {
            assert(toks.deep_view()[i as int] == toks@[i as int]@);
        }
        if let MatchToken::Bang = &toks[i] {
            let (e, j) = match parse_unary(toks, i + 1) {
                Ok(p) => p,
                Err(e) => {
                    return Err(e);
                },
            };
            return Ok((MatchExpr::Neg(Box::new(e)), j));
        }
    }
    parse_primary(toks, i)
}

/// A chain of `&&`, binding tighter than `||`.
fn parse_conj(toks: &Vec<MatchToken>, i: usize) -> (r: Result<(MatchExpr, usize), CasbinError>)
    ensures
        match r {
            Ok(p) => i < p.1 && p.1 <= toks@.len() && parse_conj_spec(toks.deep_view(), i as int)
                == Some((expr_view(p.0), p.1 as int)),
            Err(_) => parse_conj_spec(toks.deep_view(), i as int) is None,
        },
    decreases toks@.len() - i, 2int,
{
    let (l, j) = match parse_unary(toks, i) {
        Ok(p) => p,
        Err(e) => {
            return Err(e);
        },
    };
    if j < toks.len() {
        proof {
            assert(toks.deep_view()[j as int] == toks@[j as int]@);
        }
        if let MatchToken::AndAnd = &toks[j] {
            let (r2, k) = match parse_conj(toks, j + 1) {
                Ok(p) => p,
                Err(e) => {
                    return Err(e);
                },
            };
            return Ok((MatchExpr::Conj(Box::new(l), Box::new(r2)), k));
        }
    }
    Ok((l, j))
}

/// A chain of `||`: the whole grammar.
fn parse_disj(toks: &Vec<MatchToken>, i: usize) -> (r: Result<(MatchExpr, usize), CasbinError>)
    ensures
        match r {
            Ok(p) => i < p.1 && p.1 <= toks@.len() && parse_disj_spec(toks.deep_view(), i as int)
                == Some((expr_view(p.0), p.1 as int)),
            Err(_) => parse_disj_spec(toks.deep_view(), i as int) is None,
        },
    decreases toks@.len() - i, 3int,
{
    let (l, j) = match parse_conj(toks, i) {
        Ok(p) => p,
        Err(e) => {
            return Err(e);
        },
    };
    if j < toks.len() {
        proof {
            assert(toks.deep_view()[j as int] == toks@[j as int]@);
        }
        if let MatchToken::OrOr = &toks[j] {
            let (r2, k) = match parse_disj(toks, j + 1) {
                Ok(p) => p,
                Err(e) => {
                    return Err(e);
                },
            };
            return Ok((MatchExpr::Disj(Box::new(l), Box::new(r2)), k));
        }
    }
    Ok((l, j))
}

/// The textual front-end of the matcher: turns the model's `m` text
/// into the expression tree whose meaning `eval_expr` defines.  The
/// grammar is `||` over `&&` over `!` over comparisons (`==`, `!=`),
/// predicate calls and parentheses, with `r.x`/`p.x` tokens and
/// double-quoted literals as operands; the result is exactly the
/// expression `parse_matcher_spec` assigns to the text, and an error
/// exactly when it assigns none.
pub fn parse_matcher(s: &str) -> (r: Result<MatchExpr, CasbinError>)
    ensures
        match r {
            Ok(e) => parse_matcher_spec(s@) == Some(expr_view(e)),
            Err(_) => parse_matcher_spec(s@) is None,
        },
{
    let toks = match tokenize(s) {
        Ok(t) => t,
        Err(e) => {
            return Err(e);
        },
    };
    let (e, j) = match parse_disj(&toks, 0) {
        Ok(p) => p,
        Err(e) => {
            return Err(e);
        },
    };
    if j != toks.len() {
        return Err(CasbinError::ParsingFailure("trailing tokens in matcher"));
    }
    Ok(e)
}

} // verus!
