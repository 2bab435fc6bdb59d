use vstd::prelude::*;

use crate::strings::str_eq;

verus! {

/// The mathematical image of one role-inheritance edge.
pub ghost struct EdgeV {
    pub child: Seq<char>,
    pub parent: Seq<char>,
    pub domain: Option<Seq<char>>,
}

/// One directed edge of the role graph: `child` has the role `parent`,
/// either globally (`domain` absent) or inside one domain.
pub struct Edge {
    pub child: String,
    pub parent: String,
    pub domain: Option<String>,
}

impl View for Edge {
    type V = EdgeV;

    open spec fn view(&self) -> EdgeV {
        EdgeV {
            child: self.child@,
            parent: self.parent@,
            domain: match self.domain {
                Some(d) => Some(d@),
                None => None,
            },
        }
    }
}

impl DeepView for Edge {
    type V = EdgeV;

    open spec fn deep_view(&self) -> EdgeV {
        self.view()
    }
}

/// The image of an optional domain argument.
pub open spec fn dom_view(d: Option<&str>) -> Option<Seq<char>> {
    match d {
        Some(s) => Some(s@),
        None => None,
    }
}

/// `to` is reachable from `from` along edges of the given domain in at
/// most `fuel` steps.  A name reaches itself with any fuel.
pub open spec fn reaches(
    edges: Seq<EdgeV>,
    from: Seq<char>,
    to: Seq<char>,
    dom: Option<Seq<char>>,
    fuel: nat,
) -> bool
    decreases fuel,
{
    from == to || (fuel > 0 && exists|i: int|
        0 <= i < edges.len() && (#[trigger] edges[i]).child == from && edges[i].domain == dom
            && reaches(edges, edges[i].parent, to, dom, (fuel - 1) as nat))
}

/// Reachability proper.  A target that is reachable at all is reachable
/// along a path that repeats no edge, and such a path takes at most one
/// step per edge of the graph, so a fuel of `edges.len()` decides the
/// question; the fuel only makes the recursion well founded.
pub open spec fn linked(
    edges: Seq<EdgeV>,
    from: Seq<char>,
    to: Seq<char>,
    dom: Option<Seq<char>>,
) -> bool {
    reaches(edges, from, to, dom, edges.len())
}

/// The index of the first edge equal to `e`, if any.
pub open spec fn find_edge_spec(edges: Seq<EdgeV>, e: EdgeV) -> Option<int>
    decreases edges.len(),
{
    if edges.len() == 0 {
        None
    } else if edges[0] == e {
        Some(0int)
    } else {
        match find_edge_spec(edges.drop_first(), e) {
            None => None,
            Some(i) => Some(i + 1),
        }
    }
}

pub open spec fn contains_edge(edges: Seq<EdgeV>, e: EdgeV) -> bool {
    exists|i: int| 0 <= i < edges.len() && edges[i] == e
}

/// No edge occurs twice: what `add_link`'s idempotence maintains.
pub open spec fn rm_wf(edges: Seq<EdgeV>) -> bool {
    forall|i: int, j: int| 0 <= i < j < edges.len() ==> edges[i] != edges[j]
}

/// The component maintaining the directed "has-role" graph and
/// answering reachability queries, optionally scoped by a domain.
pub struct RoleManager {
    pub edges: Vec<Edge>,
}

impl View for RoleManager {
    type V = Seq<EdgeV>;

    open spec fn view(&self) -> Seq<EdgeV> {
        self.edges.deep_view()
    }
}

/// More fuel never loses a target.
pub proof fn lemma_reaches_mono(
    edges: Seq<EdgeV>,
    from: Seq<char>,
    to: Seq<char>,
    dom: Option<Seq<char>>,
    f1: nat,
    f2: nat,
)
    requires
        f1 <= f2,
        reaches(edges, from, to, dom, f1),
    ensures
        reaches(edges, from, to, dom, f2),
    decreases f1,
{
    if from != to {
        let i = choose|i: int|
            0 <= i < edges.len() && (#[trigger] edges[i]).child == from && edges[i].domain == dom
                && reaches(edges, edges[i].parent, to, dom, (f1 - 1) as nat);
        lemma_reaches_mono(edges, edges[i].parent, to, dom, (f1 - 1) as nat, (f2 - 1) as nat);
        assert(reaches(edges, from, to, dom, f2));
    }
}

/// Reachability composes: a path of `f1` steps into a path of `f2`
/// steps is a path of `f1 + f2` steps.
pub proof fn lemma_reaches_trans(
    edges: Seq<EdgeV>,
    a: Seq<char>,
    b: Seq<char>,
    c: Seq<char>,
    dom: Option<Seq<char>>,
    f1: nat,
    f2: nat,
)
    requires
        reaches(edges, a, b, dom, f1),
        reaches(edges, b, c, dom, f2),
    ensures
        reaches(edges, a, c, dom, (f1 + f2) as nat),
    decreases f1,
{
    if a == b {
        lemma_reaches_mono(edges, b, c, dom, f2, (f1 + f2) as nat);
    } else {
        let i = choose|i: int|
            0 <= i < edges.len() && (#[trigger] edges[i]).child == a && edges[i].domain == dom
                && reaches(edges, edges[i].parent, b, dom, (f1 - 1) as nat);
        assert(reaches(edges, edges[i].parent, b, dom, (f1 - 1) as nat));
        lemma_reaches_trans(edges, edges[i].parent, b, c, dom, (f1 - 1) as nat, f2);
        assert(reaches(edges, a, c, dom, (f1 + f2) as nat));
    }
}

/// Transitivity at the query level: when the graph holds an edge from
/// `a` to `b` and one from `b` to `c`, both in the same domain, then
/// `c` is linked from `a`.
pub proof fn lemma_link_transitive(
    edges: Seq<EdgeV>,
    a: Seq<char>,
    b: Seq<char>,
    c: Seq<char>,
    dom: Option<Seq<char>>,
)
    requires
        contains_edge(edges, EdgeV { child: a, parent: b, domain: dom }),
        contains_edge(edges, EdgeV { child: b, parent: c, domain: dom }),
    ensures
        linked(edges, a, c, dom),
{
    let e1 = EdgeV { child: a, parent: b, domain: dom };
    let e2 = EdgeV { child: b, parent: c, domain: dom };
    let i = choose|i: int| 0 <= i < edges.len() && edges[i] == e1;
    let j = choose|j: int| 0 <= j < edges.len() && edges[j] == e2;
    assert(reaches(edges, b, b, dom, 0));
    assert(reaches(edges, c, c, dom, 0));
    assert(reaches(edges, a, b, dom, 1));
    assert(reaches(edges, b, c, dom, 1));
    lemma_reaches_trans(edges, a, b, c, dom, 1, 1);
    if a == c {
    } else {
        assert(edges.len() >= 1);
        if i != j {
            lemma_reaches_mono(edges, a, c, dom, 2, edges.len());
        } else {
            assert(a == b && b == c);
        }
    }
}

/// A name with no outgoing edge in the queried domain is linked to
/// nothing but itself.  Deleting the first edge of a chain, or querying
/// under a different domain, therefore makes the query false.
pub proof fn lemma_link_needs_edge(
    edges: Seq<EdgeV>,
    a: Seq<char>,
    c: Seq<char>,
    dom: Option<Seq<char>>,
)
    requires
        a != c,
        forall|i: int|
            0 <= i < edges.len() ==> !((#[trigger] edges[i]).child == a && edges[i].domain == dom),
    ensures
        !linked(edges, a, c, dom),
{
}

/// Domain isolation: a graph whose every edge lives in other domains
/// than `dom` answers `dom`-scoped queries as if it were empty.
pub proof fn lemma_domain_isolation(
    edges: Seq<EdgeV>,
    a: Seq<char>,
    b: Seq<char>,
    dom: Option<Seq<char>>,
)
    requires
        a != b,
        forall|i: int| 0 <= i < edges.len() ==> (#[trigger] edges[i]).domain != dom,
    ensures
        !linked(edges, a, b, dom),
{
    lemma_link_needs_edge(edges, a, b, dom);
}

/// Whether the stored optional domain equals the queried one.
pub fn dom_eq(a: &Option<String>, b: Option<&str>) -> (r: bool)
    ensures
        r == ((match a {
            Some(d) => Some(d@),
            None => None::<Seq<char>>,
        }) == dom_view(b)),
{
    match (a, b) {
        (None, None) => true,
        (Some(x), Some(y)) => str_eq(x.as_str(), y),
        _ => false,
    }
}

impl RoleManager {
    /// A role manager with no links at all.
    pub fn new() -> (r: RoleManager)
        ensures
            r@ == Seq::<EdgeV>::empty(),
            rm_wf(r@),
    {
        let r = RoleManager { edges: Vec::new() };
        proof {
            assert(r@ =~= Seq::<EdgeV>::empty());
        }
        r
    }

    /// Discards all graph state.
    pub fn clear(&mut self)
        ensures
            final(self)@ == Seq::<EdgeV>::empty(),
            rm_wf(final(self)@),
    {
        self.edges = Vec::new();
        proof {
            assert(self@ =~= Seq::<EdgeV>::empty());
        }
    }

    /// The index of the first stored edge equal to the given one, if any.
    #[verifier::loop_isolation(false)]
    fn find_edge(&self, name1: &str, name2: &str, domain: Option<&str>) -> (r: Option<usize>)
        ensures
            ({
                let e = EdgeV { child: name1@, parent: name2@, domain: dom_view(domain) };
                match r {
                    Some(i) => (i as int) < self@.len() && find_edge_spec(self@, e) == Some(
                        i as int,
                    ),
                    None => find_edge_spec(self@, e) is None,
                }
            }),
    {
        let ghost e = EdgeV { child: name1@, parent: name2@, domain: dom_view(domain) };
        let n = self.edges.len();
        let mut i: usize = 0;
        while i < n
            invariant
                0 <= i <= n,
                forall|k: int| 0 <= k < i ==> self@[k] != e,
            decreases n - i,
        {
            let ed = &self.edges[i];
            if str_eq(ed.child.as_str(), name1) && str_eq(ed.parent.as_str(), name2) && dom_eq(
                &ed.domain,
                domain,
            ) {
                proof {
                    assert(self@[i as int] == e);
                    lemma_find_edge_skip(self@, e, i as int);
                    assert(self@.subrange(i as int, self@.len() as int)[0] == self@[i as int]);
                }
                return Some(i);
            }
            i += 1;
        }
        proof {
            lemma_find_edge_skip(self@, e, n as int);
        }
        None
    }

    /// Inserts the edge `name1 -> name2`, scoped by the optional domain.
    /// Inserting an edge that is already present changes nothing.
    pub fn add_link(&mut self, name1: &str, name2: &str, domain: Option<&str>)
        ensures
            ({
                let e = EdgeV { child: name1@, parent: name2@, domain: dom_view(domain) };
                if contains_edge(old(self)@, e) {
                    final(self)@ == old(self)@
                } else {
                    final(self)@ == old(self)@.push(e)
                }
            }),
            rm_wf(old(self)@) ==> rm_wf(final(self)@),
    {
        let ghost e = EdgeV { child: name1@, parent: name2@, domain: dom_view(domain) };
        proof {
            lemma_find_edge_contains(old(self)@, e);
        }
        if self.find_edge(name1, name2, domain).is_some() {
            return;
        }
        let ed = Edge {
            child: name1.to_owned(),
            parent: name2.to_owned(),
            domain: match domain {
                Some(d) => Some(d.to_owned()),
                None => None,
            },
        };
        proof {
            assert(ed@ == e);
        }
        self.edges.push(ed);
        proof {
            assert(self@ =~= old(self)@.push(e));
        }
    }

    /// Removes the edge `name1 -> name2` in the optional domain; absence
    /// is a no-op, not an error.
    pub fn delete_link(&mut self, name1: &str, name2: &str, domain: Option<&str>)
        ensures
            ({
                let e = EdgeV { child: name1@, parent: name2@, domain: dom_view(domain) };
                match find_edge_spec(old(self)@, e) {
                    None => final(self)@ == old(self)@,
                    Some(i) => final(self)@ == old(self)@.remove(i),
                }
            }),
            rm_wf(old(self)@) ==> rm_wf(final(self)@),
    {
        match self.find_edge(name1, name2, domain) {
            Some(i) => {
                self.edges.remove(i);
                proof {
                    assert(self@ =~= old(self)@.remove(i as int));
                }
            },
            None => {},
        }
    }

    /// Whether `name2` is reachable from `name1` over zero or more links
    /// of the queried domain; true on equal names, false on unknown ones,
    /// and terminating on cyclic graphs.
    pub fn has_link(&self, name1: &str, name2: &str, domain: Option<&str>) -> (r: bool)
        ensures
            r == linked(self@, name1@, name2@, dom_view(domain)),
    {
        let fuel = self.edges.len();
        self.reach_exec(name1, name2, domain, fuel)
    }

    /// Bounded-depth search mirroring `reaches` step for step.
    #[verifier::loop_isolation(false)]
    fn reach_exec(&self, from: &str, to: &str, domain: Option<&str>, fuel: usize) -> (r: bool)
        ensures
            r == reaches(self@, from@, to@, dom_view(domain), fuel as nat),
        decreases fuel,
    {
        if str_eq(from, to) {
            return true;
        }
        if fuel == 0 {
            return false;
        }
        let n = self.edges.len();
        let mut i: usize = 0;
        while i < n
            invariant
                0 <= i <= n,
                forall|k: int|
                    0 <= k < i ==> !((#[trigger] self@[k]).child == from@ && self@[k].domain
                        == dom_view(domain) && reaches(
                        self@,
                        self@[k].parent,
                        to@,
                        dom_view(domain),
                        (fuel - 1) as nat,
                    )),
            decreases n - i,
        {
            let ed = &self.edges[i];
            if str_eq(ed.child.as_str(), from) && dom_eq(&ed.domain, domain) {
                if self.reach_exec(ed.parent.as_str(), to, domain, fuel - 1) {
                    proof {
                        assert((#[trigger] self@[i as int]).child == from@ && self@[
                            i as int
                        ].domain == dom_view(domain) && reaches(
                            self@,
                            self@[i as int].parent,
                            to@,
                            dom_view(domain),
                            (fuel - 1) as nat,
                        ));
                    }
                    return true;
                }
            }
            i += 1;
        }
        false
    }

    /// The names one direct link above `name`: the roles it holds
    /// outright, without duplicates, in first-seen order.
    pub fn get_roles(&self, name: &str, domain: Option<&str>) -> (r: Vec<String>)
        ensures
            forall|x: Seq<char>|
                seq_contains(r.deep_view(), x) <==> (exists|k: int|
                    0 <= k < self@.len() && edge_hit(#[trigger] self@[k], false, name@)
                        && self@[k].domain == dom_view(domain) && edge_out(self@[k], false) == x),
            forall|p: int, q: int|
                0 <= p < q < r.deep_view().len() ==> r.deep_view()[p] != r.deep_view()[q],
    {
        self.collect(false, name, domain)
    }

    /// The names one direct link below `name`: the subjects holding it
    /// outright, without duplicates, in first-seen order.
    pub fn get_users(&self, name: &str, domain: Option<&str>) -> (r: Vec<String>)
        ensures
            forall|x: Seq<char>|
                seq_contains(r.deep_view(), x) <==> (exists|k: int|
                    0 <= k < self@.len() && edge_hit(#[trigger] self@[k], true, name@)
                        && self@[k].domain == dom_view(domain) && edge_out(self@[k], true) == x),
            forall|p: int, q: int|
                0 <= p < q < r.deep_view().len() ==> r.deep_view()[p] != r.deep_view()[q],
    {
        self.collect(true, name, domain)
    }

    /// One pass over the edges, collecting the far end of every edge
    /// whose near end and domain match, without duplicates.
    #[verifier::loop_isolation(false)]
    fn collect(&self, by_parent: bool, name: &str, domain: Option<&str>) -> (r: Vec<String>)
        ensures
            forall|x: Seq<char>|
                seq_contains(r.deep_view(), x) <==> (exists|k: int|
                    0 <= k < self@.len() && edge_hit(#[trigger] self@[k], by_parent, name@)
                        && self@[k].domain == dom_view(domain) && edge_out(self@[k], by_parent)
                        == x),
            forall|p: int, q: int|
                0 <= p < q < r.deep_view().len() ==> r.deep_view()[p] != r.deep_view()[q],
    {
        let n = self.edges.len();
        let mut out: Vec<String> = Vec::new();
        let mut i: usize = 0;
        while i < n
            invariant
                0 <= i <= n,
                forall|x: Seq<char>|
                    seq_contains(out.deep_view(), x) <==> (exists|k: int|
                        0 <= k < i && edge_hit(#[trigger] self@[k], by_parent, name@)
                            && self@[k].domain == dom_view(domain) && edge_out(
                            self@[k],
                            by_parent,
                        ) == x),
                forall|p: int, q: int|
                    0 <= p < q < out.deep_view().len() ==> out.deep_view()[p] != out.deep_view()[q],
            decreases n - i,
        {
            let ed = &self.edges[i];
            let near = if by_parent { ed.parent.as_str() } else { ed.child.as_str() };
            let far = if by_parent { ed.child.as_str() } else { ed.parent.as_str() };
            let ghost prev = out.deep_view();
            let hit = str_eq(near, name) && dom_eq(&ed.domain, domain);
            let mut already = false;
            if hit {
                already = contains_str(&out, far);
                if !already {
                    out.push(far.to_owned());
                    proof {
                        assert(out.deep_view() =~= prev.push(edge_out(self@[i as int], by_parent)));
                    }
                }
            }
            proof {
                let dv = dom_view(domain);
                let cur = out.deep_view();
                assert forall|x: Seq<char>| seq_contains(cur, x) implies (exists|k: int|
                    0 <= k < i + 1 && edge_hit(#[trigger] self@[k], by_parent, name@)
                        && self@[k].domain == dv && edge_out(self@[k], by_parent) == x) by {
                    let j = choose|j: int| 0 <= j < cur.len() && cur[j] == x;
                    if j < prev.len() {
                        assert(seq_contains(prev, x));
                    } else {
                        assert(edge_hit(self@[i as int], by_parent, name@) && self@[
                            i as int
                        ].domain == dv && edge_out(self@[i as int], by_parent) == x);
                    }
                }
                assert forall|x: Seq<char>| (exists|k: int|
                    0 <= k < i + 1 && edge_hit(#[trigger] self@[k], by_parent, name@)
                        && self@[k].domain == dv && edge_out(self@[k], by_parent) == x) implies
                    seq_contains(cur, x) by {
                    let k = choose|k: int|
                        0 <= k < i + 1 && edge_hit(#[trigger] self@[k], by_parent, name@)
                            && self@[k].domain == dv && edge_out(self@[k], by_parent) == x;
                    if k < i {
                        assert(seq_contains(prev, x));
                        let j = choose|j: int| 0 <= j < prev.len() && prev[j] == x;
                        assert(cur[j] == x);
                    } else {
                        assert(hit);
                        if already {
                            assert(seq_contains(prev, x));
                            let j = choose|j: int| 0 <= j < prev.len() && prev[j] == x;
                            assert(cur[j] == x);
                        } else {
                            assert(cur[prev.len() as int] == x);
                        }
                    }
                }
            }
            i += 1;
        }
        out
    }

}

/// The end of an edge that a direct-link query matches on: the parent
/// when listing users, the child when listing roles.
pub open spec fn edge_hit(e: EdgeV, by_parent: bool, name: Seq<char>) -> bool {
    if by_parent {
        e.parent == name
    } else {
        e.child == name
    }
}

/// The other end of the edge, the one a direct-link query reports.
pub open spec fn edge_out(e: EdgeV, by_parent: bool) -> Seq<char> {
    if by_parent {
        e.child
    } else {
        e.parent
    }
}

/// Whether the sequence holds the value.
pub open spec fn seq_contains(s: Seq<Seq<char>>, x: Seq<char>) -> bool {
    exists|j: int| 0 <= j < s.len() && s[j] == x
}

/// Whether the vector holds the string, compared by characters.
pub fn contains_str(v: &Vec<String>, s: &str) -> (r: bool)
    ensures
        r == seq_contains(v.deep_view(), s@),
{
    let mut j: usize = 0;
    while j < v.len()
        invariant
            0 <= j <= v@.len(),
            forall|k: int| 0 <= k < j ==> v.deep_view()[k] != s@,
        decreases v@.len() - j,
    {
        if str_eq(v[j].as_str(), s) {
            proof {
                assert(v.deep_view()[j as int] == s@);
            }
            return true;
        }
        j += 1;
    }
    false
}

proof fn lemma_push_contains(s: Seq<Seq<char>>, x: Seq<char>)
    ensures
        seq_contains(s.push(x), x),
{
    assert(s.push(x)[s.len() as int] == x);
}

pub proof fn lemma_find_edge_skip(edges: Seq<EdgeV>, e: EdgeV, i: int)
    requires
        0 <= i <= edges.len(),
        forall|j: int| 0 <= j < i ==> edges[j] != e,
    ensures
        find_edge_spec(edges.subrange(i, edges.len() as int), e) is None ==> find_edge_spec(
            edges,
            e,
        ) is None,
        find_edge_spec(edges.subrange(i, edges.len() as int), e) is Some ==> find_edge_spec(
            edges,
            e,
        ) == Some(i + find_edge_spec(edges.subrange(i, edges.len() as int), e)->Some_0),
    decreases i,
{
    if i == 0 {
        assert(edges.subrange(0, edges.len() as int) =~= edges);
    } else {
        let d = edges.drop_first();
        lemma_find_edge_skip(d, e, i - 1);
        assert(d.subrange(i - 1, d.len() as int) =~= edges.subrange(i, edges.len() as int));
    }
}

/// A found index witnesses containment, and a `None` refutes it.
pub proof fn lemma_find_edge_contains(edges: Seq<EdgeV>, e: EdgeV)
    ensures
        find_edge_spec(edges, e) is Some ==> contains_edge(edges, e) && 0 <= find_edge_spec(
            edges,
            e,
        )->Some_0 < edges.len() && edges[find_edge_spec(edges, e)->Some_0] == e,
        find_edge_spec(edges, e) is None ==> !contains_edge(edges, e),
    decreases edges.len(),
{
    if edges.len() > 0 {
        lemma_find_edge_contains(edges.drop_first(), e);
        let d = edges.drop_first();
        if edges[0] == e {
        } else {
            if find_edge_spec(d, e) is Some {
                let i = find_edge_spec(d, e)->Some_0;
                assert(edges[i + 1] == d[i]);
            } else {
                assert forall|i: int| 0 <= i < edges.len() implies edges[i] != e by {
                    if i > 0 {
                        assert(d[i - 1] == edges[i]);
                    }
                }
            }
        }
    }
}

} // verus!
