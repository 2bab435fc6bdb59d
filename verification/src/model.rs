use vstd::prelude::*;

use crate::strings::split_trim_str;
use crate::strings::split_trimmed;
use crate::strings::str_eq;

verus! {

/// The mathematical image of one model entry.
pub ghost struct AssertionV {
    pub sec: Seq<char>,
    pub key: Seq<char>,
    pub value: Seq<char>,
    pub tokens: Seq<Seq<char>>,
    pub policy: Seq<Seq<Seq<char>>>,
}

/// One typed entry of the model: a section identifier ("r", "p", "g",
/// "e" or "m"), a policy-type key within it ("r", "p", "p2", "g", ...),
/// the raw definition text, the parameter tokens derived from that text,
/// and, for policy and role sections, the ordered rows loaded under
/// this type.
pub struct Assertion {
    pub sec: String,
    pub key: String,
    pub value: String,
    pub tokens: Vec<String>,
    pub policy: Vec<Vec<String>>,
}

impl View for Assertion {
    type V = AssertionV;

    open spec fn view(&self) -> AssertionV {
        AssertionV {
            sec: self.sec@,
            key: self.key@,
            value: self.value@,
            tokens: self.tokens.deep_view(),
            policy: self.policy.deep_view(),
        }
    }
}

/// The index of the first entry under (`sec`, `key`), if any.
pub open spec fn find_spec(mv: Seq<AssertionV>, sec: Seq<char>, key: Seq<char>) -> Option<int>
    decreases mv.len(),
{
    if mv.len() == 0 {
        None
    } else if mv[0].sec == sec && mv[0].key == key {
        Some(0int)
    } else {
        match find_spec(mv.drop_first(), sec, key) {
            None => None,
            Some(i) => Some(i + 1),
        }
    }
}

/// The index of the first row equal to `row`, if any.
pub open spec fn find_row_spec(p: Seq<Seq<Seq<char>>>, row: Seq<Seq<char>>) -> Option<int>
    decreases p.len(),
{
    if p.len() == 0 {
        None
    } else if p[0] == row {
        Some(0int)
    } else {
        match find_row_spec(p.drop_first(), row) {
            None => None,
            Some(i) => Some(i + 1),
        }
    }
}

pub open spec fn contains_row(p: Seq<Seq<Seq<char>>>, row: Seq<Seq<char>>) -> bool {
    exists|i: int| 0 <= i < p.len() && p[i] == row
}

/// Whether a row is selected by `remove_filtered_policy`: the values,
/// laid positionally from `field_index` on, all agree with the row,
/// where an empty value agrees with anything.
pub open spec fn row_matches_filter(
    row: Seq<Seq<char>>,
    field_index: int,
    field_values: Seq<Seq<char>>,
) -> bool {
    &&& field_index + field_values.len() <= row.len()
    &&& forall|j: int|
        0 <= j < field_values.len() ==> field_values[j].len() == 0 || row[field_index + j]
            == field_values[j]
}

/// The rows left after removing every row the filter selects.
pub open spec fn drop_filtered(
    p: Seq<Seq<Seq<char>>>,
    field_index: int,
    field_values: Seq<Seq<char>>,
) -> Seq<Seq<Seq<char>>>
    decreases p.len(),
{
    if p.len() == 0 {
        p
    } else if row_matches_filter(p[0], field_index, field_values) {
        drop_filtered(p.drop_first(), field_index, field_values)
    } else {
        seq![p[0]] + drop_filtered(p.drop_first(), field_index, field_values)
    }
}

/// The tokens that a definition text contributes: parameter lists are
/// split on commas and trimmed; effect and matcher texts are kept
/// verbatim and contribute no tokens.
pub open spec fn def_tokens(sec: Seq<char>, value: Seq<char>) -> Seq<Seq<char>> {
    if sec == "e"@ || sec == "m"@ {
        Seq::<Seq<char>>::empty()
    } else {
        split_trimmed(value)
    }
}

/// Well-formedness of one entry: every row has the arity of the token
/// list, and no row occurs twice.
pub open spec fn assertion_wf(a: AssertionV) -> bool {
    &&& forall|i: int| 0 <= i < a.policy.len() ==> #[trigger] a.policy[i].len() == a.tokens.len()
    &&& forall|i: int, j: int| 0 <= i < j < a.policy.len() ==> a.policy[i] != a.policy[j]
}

/// Well-formedness of the whole model: entries are keyed uniquely by
/// (section, type), and each entry is well formed.
pub open spec fn model_wf(mv: Seq<AssertionV>) -> bool {
    &&& forall|i: int| 0 <= i < mv.len() ==> assertion_wf(#[trigger] mv[i])
    &&& forall|i: int, j: int|
        0 <= i < j < mv.len() ==> !(#[trigger] mv[i].sec == #[trigger] mv[j].sec && mv[i].key
            == mv[j].key)
}

/// The typed, section-organized container of request, policy, role,
/// effect and matcher definitions, together with the policy rows loaded
/// under each policy and role type.
pub struct Model {
    pub assertions: Vec<Assertion>,
}

impl View for Model {
    type V = Seq<AssertionV>;

    open spec fn view(&self) -> Seq<AssertionV> {
        Seq::new(self.assertions@.len(), |i: int| self.assertions@[i]@)
    }
}

pub proof fn lemma_find_skip(mv: Seq<AssertionV>, sec: Seq<char>, key: Seq<char>, i: int)
    requires
        0 <= i <= mv.len(),
        forall|j: int| 0 <= j < i ==> !(#[trigger] mv[j].sec == sec && mv[j].key == key),
    ensures
        find_spec(mv.subrange(i, mv.len() as int), sec, key) is None ==> find_spec(mv, sec, key) is None,
        find_spec(mv.subrange(i, mv.len() as int), sec, key) is Some ==> find_spec(mv, sec, key)
            == Some(i + find_spec(mv.subrange(i, mv.len() as int), sec, key)->Some_0),
    decreases i,
{
    if i == 0 {
        assert(mv.subrange(0, mv.len() as int) =~= mv);
    } else {
        assert(!(mv[0].sec == sec && mv[0].key == key));
        let d = mv.drop_first();
        assert(forall|j: int| 0 <= j < i - 1 ==> !(#[trigger] d[j].sec == sec && d[j].key == key));
        lemma_find_skip(d, sec, key, i - 1);
        assert(d.subrange(i - 1, d.len() as int) =~= mv.subrange(i, mv.len() as int));
    }
}

pub proof fn lemma_find_row_skip(p: Seq<Seq<Seq<char>>>, row: Seq<Seq<char>>, i: int)
    requires
        0 <= i <= p.len(),
        forall|j: int| 0 <= j < i ==> p[j] != row,
    ensures
        find_row_spec(p.subrange(i, p.len() as int), row) is None ==> find_row_spec(p, row) is None,
        find_row_spec(p.subrange(i, p.len() as int), row) is Some ==> find_row_spec(p, row)
            == Some(i + find_row_spec(p.subrange(i, p.len() as int), row)->Some_0),
    decreases i,
{
    if i == 0 {
        assert(p.subrange(0, p.len() as int) =~= p);
    } else {
        let d = p.drop_first();
        lemma_find_row_skip(d, row, i - 1);
        assert(d.subrange(i - 1, d.len() as int) =~= p.subrange(i, p.len() as int));
    }
}

/// Whether two rows hold the same fields in the same order.
pub fn row_eq(a: &Vec<String>, b: &Vec<String>) -> (r: bool)
    ensures
        r == (a.deep_view() == b.deep_view()),
{
    if a.len() != b.len() {
        proof {
            assert(a.deep_view().len() == a@.len());
            assert(b.deep_view().len() == b@.len());
        }
        return false;
    }
    let mut i: usize = 0;
    while i < a.len()
        invariant
            a@.len() == b@.len(),
            0 <= i <= a@.len(),
            forall|k: int| 0 <= k < i ==> a@[k]@ == b@[k]@,
        decreases a@.len() - i,
    {
        if !str_eq(a[i].as_str(), b[i].as_str()) {
            proof {
                assert(a.deep_view()[i as int] != b.deep_view()[i as int]);
            }
            return false;
        }
        i += 1;
    }
    proof {
        assert(a.deep_view() =~= b.deep_view());
    }
    true
}

/// A field-for-field copy of a row.
pub fn clone_row(v: &Vec<String>) -> (r: Vec<String>)
    ensures
        r.deep_view() == v.deep_view(),
{
    let mut out: Vec<String> = Vec::new();
    let mut i: usize = 0;
    while i < v.len()
        invariant
            0 <= i <= v@.len(),
            out@.len() == i,
            forall|k: int| 0 <= k < i ==> out@[k]@ == v@[k]@,
        decreases v@.len() - i,
    {
        out.push(v[i].clone());
        i += 1;
    }
    proof {
        assert(out.deep_view() =~= v.deep_view());
    }
    out
}

/// A row-for-row copy of a policy table.
pub fn clone_rows(v: &Vec<Vec<String>>) -> (r: Vec<Vec<String>>)
    ensures
        r.deep_view() == v.deep_view(),
{
    let mut out: Vec<Vec<String>> = Vec::new();
    let mut i: usize = 0;
    while i < v.len()
        invariant
            0 <= i <= v@.len(),
            out@.len() == i,
            forall|k: int| 0 <= k < i ==> out@[k].deep_view() == v@[k].deep_view(),
        decreases v@.len() - i,
    {
        out.push(clone_row(&v[i]));
        i += 1;
    }
    proof {
        assert(out.deep_view() =~= v.deep_view());
    }
    out
}

impl Model {
    /// An empty model, with no sections at all.
    pub fn new() -> (m: Model)
        ensures
            m@ == Seq::<AssertionV>::empty(),
            model_wf(m@),
    {
        let m = Model { assertions: Vec::new() };
        proof {
            assert(m@ =~= Seq::<AssertionV>::empty());
        }
        m
    }

    /// The index of the entry under (`sec`, `key`), if the model has one.
    pub fn find(&self, sec: &str, key: &str) -> (r: Option<usize>)
        ensures
            match r {
                Some(i) => (i as int) < self@.len() && find_spec(self@, sec@, key@) == Some(
                    i as int,
                ),
                None => find_spec(self@, sec@, key@) is None,
            },
    {
        let n = self.assertions.len();
        let mut i: usize = 0;
        while i < n
            invariant
                n == self.assertions@.len(),
                0 <= i <= n,
                forall|j: int|
                    0 <= j < i ==> !(#[trigger] self@[j].sec == sec@ && self@[j].key == key@),
            decreases n - i,
        {
            let a = &self.assertions[i];
            if str_eq(a.sec.as_str(), sec) && str_eq(a.key.as_str(), key) {
                proof {
                    lemma_find_skip(self@, sec@, key@, i as int);
                    assert(self@.subrange(i as int, self@.len() as int)[0] == self@[i as int]);
                }
                return Some(i);
            }
            i += 1;
        }
        proof {
            lemma_find_skip(self@, sec@, key@, n as int);
        }
        None
    }

    /// Installs the definition of one section entry: the raw text is
    /// recorded, its tokens are derived, and the policy table starts
    /// empty.  Returns false, changing nothing, when the model already
    /// holds an entry under (`sec`, `key`).
    pub fn add_def(&mut self, sec: &str, key: &str, value: &str) -> (r: bool)
        ensures
            find_spec(old(self)@, sec@, key@) is Some ==> r == false && final(self)@ == old(self)@,
            find_spec(old(self)@, sec@, key@) is None ==> r == true && final(self)@ == old(self)@.push(
                AssertionV {
                    sec: sec@,
                    key: key@,
                    value: value@,
                    tokens: def_tokens(sec@, value@),
                    policy: Seq::<Seq<Seq<char>>>::empty(),
                },
            ),
            model_wf(old(self)@) ==> model_wf(final(self)@),
    {
        if self.find(sec, key).is_some() {
            return false;
        }
        let tokens: Vec<String> = if str_eq(sec, "e") || str_eq(sec, "m") {
            Vec::new()
        } else {
            split_trim_str(value)
        };
        proof {
            assert(tokens.deep_view() =~= def_tokens(sec@, value@));
        }
        let a = Assertion {
            sec: sec.to_owned(),
            key: key.to_owned(),
            value: value.to_owned(),
            tokens,
            policy: Vec::new(),
        };
        proof {
            lemma_find_none_no_match(old(self)@, sec@, key@);
            assert(a@.policy =~= Seq::<Seq<Seq<char>>>::empty());
            assert(a@ == (AssertionV {
                sec: sec@,
                key: key@,
                value: value@,
                tokens: def_tokens(sec@, value@),
                policy: Seq::<Seq<Seq<char>>>::empty(),
            }));
        }
        self.assertions.push(a);
        proof {
            assert(self@ =~= old(self)@.push(
                AssertionV {
                    sec: sec@,
                    key: key@,
                    value: value@,
                    tokens: def_tokens(sec@, value@),
                    policy: Seq::<Seq<Seq<char>>>::empty(),
                },
            ));
        }
        true
    }

    /// The token list of the entry under (`sec`, `key`), if any.
    pub fn get_tokens(&self, sec: &str, key: &str) -> (r: Option<Vec<String>>)
        ensures
            match r {
                Some(v) => {
                    &&& find_spec(self@, sec@, key@) is Some
                    &&& v.deep_view() == self@[find_spec(self@, sec@, key@)->Some_0].tokens
                },
                None => find_spec(self@, sec@, key@) is None,
            },
    {
        match self.find(sec, key) {
            Some(i) => Some(clone_row(&self.assertions[i].tokens)),
            None => None,
        }
    }

    /// The policy rows of the entry under (`sec`, `key`), if any, in order.
    pub fn get_policy(&self, sec: &str, key: &str) -> (r: Option<Vec<Vec<String>>>)
        ensures
            match r {
                Some(v) => {
                    &&& find_spec(self@, sec@, key@) is Some
                    &&& v.deep_view() == self@[find_spec(self@, sec@, key@)->Some_0].policy
                },
                None => find_spec(self@, sec@, key@) is None,
            },
    {
        match self.find(sec, key) {
            Some(i) => Some(clone_rows(&self.assertions[i].policy)),
            None => None,
        }
    }

    /// Appends one policy row under (`sec`, `key`).  Returns false and
    /// changes nothing when the entry is missing, when the row's arity
    /// does not match the entry's tokens, or when an identical row is
    /// already present; otherwise the row goes to the end of the table.
    #[verifier::loop_isolation(false)]
    pub fn add_policy(&mut self, sec: &str, key: &str, rule: Vec<String>) -> (r: bool)
        ensures
            add_policy_post(old(self)@, final(self)@, sec@, key@, rule.deep_view(), r),
            model_wf(old(self)@) ==> model_wf(final(self)@),
    {
        let idx = match self.find(sec, key) {
            Some(i) => i,
            None => {
                return false;
            },
        };
        let ghost i = idx as int;
        if rule.len() != self.assertions[idx].tokens.len() {
            proof {
                assert(rule.deep_view().len() == rule@.len());
            }
            return false;
        }
        let n = self.assertions[idx].policy.len();
        let mut j: usize = 0;
        while j < n
            invariant
                0 <= i < self.assertions@.len(),
                n == self@[i].policy.len(),
                0 <= j <= n,
                forall|k: int| 0 <= k < j ==> self@[i].policy[k] != rule.deep_view(),
            decreases n - j,
        {
            if row_eq(&self.assertions[idx].policy[j], &rule) {
                proof {
                    assert(self@[i].policy[j as int] == rule.deep_view());
                }
                return false;
            }
            j += 1;
        }
        let mut a = self.assertions.remove(idx);
        a.policy.push(rule);
        proof {
            assert(a@.policy =~= old(self)@[i].policy.push(rule.deep_view()));
            assert(a@ == (AssertionV {
                policy: old(self)@[i].policy.push(rule.deep_view()),
                ..old(self)@[i]
            }));
        }
        self.assertions.insert(idx, a);
        proof {
            assert(self@ =~= old(self)@.update(
                i,
                AssertionV { policy: old(self)@[i].policy.push(rule.deep_view()), ..old(self)@[i] },
            ));
            lemma_wf_update_policy(
                old(self)@,
                self@,
                i,
                old(self)@[i].policy.push(rule.deep_view()),
            );
        }
        true
    }

    /// Removes the row equal to `rule` under (`sec`, `key`).  Returns
    /// false and changes nothing when the entry or the row is absent.
    #[verifier::loop_isolation(false)]
    pub fn remove_policy(&mut self, sec: &str, key: &str, rule: &Vec<String>) -> (r: bool)
        ensures
            remove_policy_post(old(self)@, final(self)@, sec@, key@, rule.deep_view(), r),
            model_wf(old(self)@) ==> model_wf(final(self)@),
    {
        let idx = match self.find(sec, key) {
            Some(i) => i,
            None => {
                return false;
            },
        };
        let ghost i = idx as int;
        let n = self.assertions[idx].policy.len();
        let mut j: usize = 0;
        while j < n
            invariant
                self@ == old(self)@,
                0 <= i < self.assertions@.len(),
                n == self@[i].policy.len(),
                0 <= j <= n,
                forall|k: int| 0 <= k < j ==> self@[i].policy[k] != rule.deep_view(),
            decreases n - j,
        {
            if row_eq(&self.assertions[idx].policy[j], rule) {
                proof {
                    lemma_find_row_skip(self@[i].policy, rule.deep_view(), j as int);
                    assert(self@[i].policy.subrange(j as int, self@[i].policy.len() as int)[0]
                        == self@[i].policy[j as int]);
                }
                let mut a = self.assertions.remove(idx);
                a.policy.remove(j);
                proof {
                    assert(a@.policy =~= old(self)@[i].policy.remove(j as int));
                    assert(a@ == (AssertionV {
                        policy: old(self)@[i].policy.remove(j as int),
                        ..old(self)@[i]
                    }));
                }
                self.assertions.insert(idx, a);
                proof {
                    assert(self@ =~= old(self)@.update(
                        i,
                        AssertionV {
                            policy: old(self)@[i].policy.remove(j as int),
                            ..old(self)@[i]
                        },
                    ));
                    lemma_wf_update_policy(
                        old(self)@,
                        self@,
                        i,
                        old(self)@[i].policy.remove(j as int),
                    );
                }
                return true;
            }
            j += 1;
        }
        proof {
            lemma_find_row_skip(self@[i].policy, rule.deep_view(), n as int);
        }
        false
    }

    /// Removes every row under (`sec`, `key`) that the filter selects:
    /// the given values are compared positionally from `field_index` on,
    /// an empty value matching anything.  Returns true exactly when at
    /// least one row went away.
    #[verifier::loop_isolation(false)]
    pub fn remove_filtered_policy(
        &mut self,
        sec: &str,
        key: &str,
        field_index: usize,
        field_values: &Vec<String>,
    ) -> (r: bool)
        ensures
            remove_filtered_post(
                old(self)@,
                final(self)@,
                sec@,
                key@,
                field_index as int,
                field_values.deep_view(),
                r,
            ),
            model_wf(old(self)@) ==> model_wf(final(self)@),
    {
        let idx = match self.find(sec, key) {
            Some(i) => i,
            None => {
                return false;
            },
        };
        let ghost i = idx as int;
        let ghost fv = field_values.deep_view();
        let n = self.assertions[idx].policy.len();
        let mut kept: Vec<Vec<String>> = Vec::new();
        let mut j: usize = 0;
        while j < n
            invariant
                0 <= i < self.assertions@.len(),
                n == self@[i].policy.len(),
                fv == field_values.deep_view(),
                0 <= j <= n,
                kept.deep_view() == drop_filtered(
                    self@[i].policy.subrange(0, j as int),
                    field_index as int,
                    fv,
                ),
                kept@.len() <= j,
            decreases n - j,
        {
            let row = &self.assertions[idx].policy[j];
            proof {
                lemma_drop_filtered_push(
                    self@[i].policy.subrange(0, j as int),
                    self@[i].policy[j as int],
                    field_index as int,
                    fv,
                );
                assert(self@[i].policy.subrange(0, j as int).push(self@[i].policy[j as int])
                    =~= self@[i].policy.subrange(0, j + 1));
            }
            if !row_matches_filter_exec(row, field_index, field_values) {
                kept.push(clone_row(row));
                proof {
                    assert(kept.deep_view() =~= drop_filtered(
                        self@[i].policy.subrange(0, j + 1),
                        field_index as int,
                        fv,
                    ));
                }
            }
            j += 1;
        }
        proof {
            assert(self@[i].policy.subrange(0, n as int) =~= self@[i].policy);
        }
        let removed = kept.len() != n;
        let mut a = self.assertions.remove(idx);
        a.policy = kept;
        self.assertions.insert(idx, a);
        proof {
            assert(self@ =~= old(self)@.update(
                i,
                AssertionV {
                    policy: drop_filtered(old(self)@[i].policy, field_index as int, fv),
                    ..old(self)@[i]
                },
            ));
            lemma_drop_filtered_wf(old(self)@[i].policy, field_index as int, fv);
            lemma_wf_update_policy(
                old(self)@,
                self@,
                i,
                drop_filtered(old(self)@[i].policy, field_index as int, fv),
            );
            lemma_drop_filtered_len(old(self)@[i].policy, field_index as int, fv);
        }
        removed
    }
}

/// What `add_policy` promises of the model before and after.
pub open spec fn add_policy_post(
    pre: Seq<AssertionV>,
    post: Seq<AssertionV>,
    sec: Seq<char>,
    key: Seq<char>,
    row: Seq<Seq<char>>,
    r: bool,
) -> bool {
    match find_spec(pre, sec, key) {
        None => r == false && post == pre,
        Some(i) => {
            if row.len() != pre[i].tokens.len() || contains_row(pre[i].policy, row) {
                r == false && post == pre
            } else {
                r == true && post == pre.update(
                    i,
                    AssertionV { policy: pre[i].policy.push(row), ..pre[i] },
                )
            }
        },
    }
}

/// What `remove_policy` promises of the model before and after.
pub open spec fn remove_policy_post(
    pre: Seq<AssertionV>,
    post: Seq<AssertionV>,
    sec: Seq<char>,
    key: Seq<char>,
    row: Seq<Seq<char>>,
    r: bool,
) -> bool {
    match find_spec(pre, sec, key) {
        None => r == false && post == pre,
        Some(i) => {
            match find_row_spec(pre[i].policy, row) {
                None => r == false && post == pre,
                Some(j) => r == true && post == pre.update(
                    i,
                    AssertionV { policy: pre[i].policy.remove(j), ..pre[i] },
                ),
            }
        },
    }
}

/// What `remove_filtered_policy` promises of the model before and after.
pub open spec fn remove_filtered_post(
    pre: Seq<AssertionV>,
    post: Seq<AssertionV>,
    sec: Seq<char>,
    key: Seq<char>,
    field_index: int,
    field_values: Seq<Seq<char>>,
    r: bool,
) -> bool {
    match find_spec(pre, sec, key) {
        None => r == false && post == pre,
        Some(i) => {
            let left = drop_filtered(pre[i].policy, field_index, field_values);
            &&& post == pre.update(i, AssertionV { policy: left, ..pre[i] })
            &&& r == (left.len() != pre[i].policy.len())
        },
    }
}

/// Whether the filter selects this row, decided in executable code.
pub fn row_matches_filter_exec(
    row: &Vec<String>,
    field_index: usize,
    field_values: &Vec<String>,
) -> (r: bool)
    ensures
        r == row_matches_filter(row.deep_view(), field_index as int, field_values.deep_view()),
{
    if field_values.len() > row.len() || field_index > row.len() - field_values.len() {
        return false;
    }
    let mut j: usize = 0;
    while j < field_values.len()
        invariant
            row@.len() <= usize::MAX,
            field_index + field_values@.len() <= row@.len(),
            0 <= j <= field_values@.len(),
            forall|k: int|
                0 <= k < j ==> field_values.deep_view()[k].len() == 0 || row.deep_view()[
                    field_index + k
                ] == field_values.deep_view()[k],
        decreases field_values@.len() - j,
    {
        let fv = &field_values[j];
        if fv.unicode_len() != 0 {
            if !str_eq(fv.as_str(), row[field_index + j].as_str()) {
                proof {
                    assert(field_values.deep_view()[j as int].len() != 0);
                    assert(row.deep_view()[field_index + j as int] != field_values.deep_view()[
                        j as int
                    ]);
                }
                return false;
            }
        }
        j += 1;
    }
    true
}

proof fn lemma_find_none_no_match(mv: Seq<AssertionV>, sec: Seq<char>, key: Seq<char>)
    requires
        find_spec(mv, sec, key) is None,
    ensures
        forall|j: int| 0 <= j < mv.len() ==> !(#[trigger] mv[j].sec == sec && mv[j].key == key),
    decreases mv.len(),
{
    if mv.len() > 0 {
        lemma_find_none_no_match(mv.drop_first(), sec, key);
        assert forall|j: int|
            0 <= j < mv.len() implies !(#[trigger] mv[j].sec == sec && mv[j].key == key) by {
            if j > 0 {
                assert(mv.drop_first()[j - 1] == mv[j]);
            }
        }
    }
}

proof fn lemma_drop_filtered_push(
    p: Seq<Seq<Seq<char>>>,
    row: Seq<Seq<char>>,
    field_index: int,
    field_values: Seq<Seq<char>>,
)
    ensures
        drop_filtered(p.push(row), field_index, field_values) == if row_matches_filter(
            row,
            field_index,
            field_values,
        ) {
            drop_filtered(p, field_index, field_values)
        } else {
            drop_filtered(p, field_index, field_values).push(row)
        },
    decreases p.len(),
{
    if p.len() == 0 {
        assert(p.push(row).drop_first() =~= p);
        if !row_matches_filter(row, field_index, field_values) {
            assert(drop_filtered(p.push(row), field_index, field_values) =~= drop_filtered(
                p,
                field_index,
                field_values,
            ).push(row));
        }
    } else {
        lemma_drop_filtered_push(p.drop_first(), row, field_index, field_values);
        assert(p.push(row).drop_first() =~= p.drop_first().push(row));
        assert(p.push(row)[0] == p[0]);
        if !row_matches_filter(p[0], field_index, field_values) {
            if !row_matches_filter(row, field_index, field_values) {
                assert(seq![p[0]] + drop_filtered(p.drop_first(), field_index, field_values).push(
                    row,
                ) =~= (seq![p[0]] + drop_filtered(p.drop_first(), field_index, field_values)).push(
                    row,
                ));
            }
        }
    }
}

proof fn lemma_drop_filtered_len(
    p: Seq<Seq<Seq<char>>>,
    field_index: int,
    field_values: Seq<Seq<char>>,
)
    ensures
        drop_filtered(p, field_index, field_values).len() <= p.len(),
    decreases p.len(),
{
    if p.len() > 0 {
        lemma_drop_filtered_len(p.drop_first(), field_index, field_values);
    }
}

/// Dropping filtered rows keeps each remaining row's membership in the
/// original table, so arity and distinctness carry over.
proof fn lemma_drop_filtered_wf(
    p: Seq<Seq<Seq<char>>>,
    field_index: int,
    field_values: Seq<Seq<char>>,
)
    ensures
        forall|i: int|
            0 <= i < drop_filtered(p, field_index, field_values).len() ==> contains_row(
                p,
                #[trigger] drop_filtered(p, field_index, field_values)[i],
            ),
        forall|i: int, j: int|
            (forall|x: int, y: int| 0 <= x < y < p.len() ==> p[x] != p[y]) && 0 <= i < j
                < drop_filtered(p, field_index, field_values).len() ==> drop_filtered(
                p,
                field_index,
                field_values,
            )[i] != drop_filtered(p, field_index, field_values)[j],
    decreases p.len(),
{
    if p.len() > 0 {
        let d = p.drop_first();
        lemma_drop_filtered_wf(d, field_index, field_values);
        assert forall|i: int|
            0 <= i < drop_filtered(p, field_index, field_values).len() implies contains_row(
            p,
            #[trigger] drop_filtered(p, field_index, field_values)[i],
        ) by {
            lemma_drop_contains_step(p, field_index, field_values, i);
        }
        assert forall|i: int, j: int|
            (forall|x: int, y: int| 0 <= x < y < p.len() ==> p[x] != p[y]) && 0 <= i < j
                < drop_filtered(p, field_index, field_values).len() implies drop_filtered(
            p,
            field_index,
            field_values,
        )[i] != drop_filtered(p, field_index, field_values)[j] by {
            lemma_drop_distinct_step(p, field_index, field_values, i, j);
        }
    }
}

proof fn lemma_drop_contains_step(
    p: Seq<Seq<Seq<char>>>,
    field_index: int,
    field_values: Seq<Seq<char>>,
    i: int,
)
    requires
        0 <= i < drop_filtered(p, field_index, field_values).len(),
    ensures
        contains_row(p, drop_filtered(p, field_index, field_values)[i]),
    decreases p.len(),
{
    let d = p.drop_first();
    let out = drop_filtered(p, field_index, field_values);
    if row_matches_filter(p[0], field_index, field_values) {
        lemma_drop_contains_step(d, field_index, field_values, i);
        let w = choose|k: int| 0 <= k < d.len() && d[k] == out[i];
        assert(p[w + 1] == d[w]);
    } else {
        if i == 0 {
            assert(p[0] == out[0]);
        } else {
            lemma_drop_contains_step(d, field_index, field_values, i - 1);
            let w = choose|k: int|
                0 <= k < d.len() && d[k] == drop_filtered(d, field_index, field_values)[i - 1];
            assert(p[w + 1] == d[w]);
            assert(out[i] == drop_filtered(d, field_index, field_values)[i - 1]);
        }
    }
}

proof fn lemma_drop_distinct_step(
    p: Seq<Seq<Seq<char>>>,
    field_index: int,
    field_values: Seq<Seq<char>>,
    i: int,
    j: int,
)
    requires
        forall|x: int, y: int| 0 <= x < y < p.len() ==> p[x] != p[y],
        0 <= i < j < drop_filtered(p, field_index, field_values).len(),
    ensures
        drop_filtered(p, field_index, field_values)[i] != drop_filtered(
            p,
            field_index,
            field_values,
        )[j],
    decreases p.len(),
{
    let d = p.drop_first();
    let out = drop_filtered(p, field_index, field_values);
    assert forall|x: int, y: int| 0 <= x < y < d.len() implies d[x] != d[y] by {
        assert(p[x + 1] == d[x]);
        assert(p[y + 1] == d[y]);
    }
    if row_matches_filter(p[0], field_index, field_values) {
        lemma_drop_distinct_step(d, field_index, field_values, i, j);
    } else {
        if i == 0 {
            lemma_drop_contains_step(d, field_index, field_values, j - 1);
            let w = choose|k: int|
                0 <= k < d.len() && d[k] == drop_filtered(d, field_index, field_values)[j - 1];
            assert(p[w + 1] == d[w]);
            assert(out[j] == drop_filtered(d, field_index, field_values)[j - 1]);
        } else {
            lemma_drop_distinct_step(d, field_index, field_values, i - 1, j - 1);
        }
    }
}

/// Replacing one entry's policy table with a well-formed table keeps
/// the whole model well formed.
proof fn lemma_wf_update_policy(
    pre: Seq<AssertionV>,
    post: Seq<AssertionV>,
    i: int,
    new_policy: Seq<Seq<Seq<char>>>,
)
    requires
        0 <= i < pre.len(),
        post == pre.update(i, AssertionV { policy: new_policy, ..pre[i] }),
        model_wf(pre) ==> assertion_wf(AssertionV { policy: new_policy, ..pre[i] }),
    ensures
        model_wf(pre) ==> model_wf(post),
{
}

} // verus!
