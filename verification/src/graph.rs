//! Dependencies between templates, and cycle detection.
//!
//! A template depends on another when one of its requirements that the
//! source data does not meet could be met by the other template's output.

use vstd::prelude::*;
use crate::node::{
    could_satisfy, is_requirement_satisfied, requirement_satisfied, spec_could_satisfy,
    spec_template_output_prefix, template_output_prefix,
};
use crate::text::string_views;

verus! {

/// What the dependency graph needs of one template: its entity id, its
/// template name and its requirements.
pub struct TemplateDeps {
    pub entity: u64,
    pub template_name: String,
    pub requirements: Vec<String>,
}

/// Dependency graph between templates: for each template, the templates it
/// depends on, and the name of each template.
pub struct DependencyGraph {
    pub edges: Vec<(u64, Vec<u64>)>,
    pub names: Vec<(u64, String)>,
}

/// Adds, in order, each provider other than `me` whose prefix could meet
/// `r` and that is not yet in `deps`.
pub open spec fn add_providers(deps: Seq<u64>, provs: Seq<(u64, Seq<char>)>, me: u64, r: Seq<char>) -> Seq<u64>
    decreases provs.len(),
{
    if provs.len() == 0 {
        deps
    } else {
        let d = add_providers(deps, provs.drop_last(), me, r);
        let (pid, pfx) = provs.last();
        if pid != me && spec_could_satisfy(pfx, r) && !d.contains(pid) {
            d.push(pid)
        } else {
            d
        }
    }
}

/// The dependencies of template `me` with requirements `reqs`, requirements
/// met by `source` skipped.
pub open spec fn template_deps(reqs: Seq<Seq<char>>, provs: Seq<(u64, Seq<char>)>, me: u64, source: Seq<Seq<char>>) -> Seq<u64>
    decreases reqs.len(),
{
    if reqs.len() == 0 {
        Seq::<u64>::empty()
    } else {
        let d = template_deps(reqs.drop_last(), provs, me, source);
        if requirement_satisfied(reqs.last(), source) {
            d
        } else {
            add_providers(d, provs, me, reqs.last())
        }
    }
}

/// Each template's id with the key prefix its output provides.
pub open spec fn provider_prefixes(ts: Seq<TemplateDeps>) -> Seq<(u64, Seq<char>)> {
    ts.map_values(|t: TemplateDeps| (t.entity, spec_template_output_prefix(t.template_name@)))
}

/// The graph `g` is the dependency graph of templates `ts` over source keys
/// `source`: one edge list and one name per template, in template order.
pub open spec fn is_dependency_graph_of(g: DependencyGraph, ts: Seq<TemplateDeps>, source: Seq<Seq<char>>) -> bool {
    &&& g.edges@.len() == ts.len()
    &&& g.names@.len() == ts.len()
    &&& forall|i: int| 0 <= i < ts.len() ==> {
        &&& (#[trigger] g.edges@[i]).0 == ts[i].entity
        &&& g.edges@[i].1@ == template_deps(string_views(ts[i].requirements@), provider_prefixes(ts), ts[i].entity, source)
        &&& g.names@[i].0 == ts[i].entity
        &&& g.names@[i].1@ == ts[i].template_name@
    }
}

/// Decides membership of `x` in `v`.
pub fn contains_id(v: &Vec<u64>, x: u64) -> (res: bool)
    ensures
        res == v@.contains(x),
{
    let mut i: usize = 0;
    while i < v.len()
        invariant
            i <= v.len(),
            forall|j: int| 0 <= j < i ==> v@[j] != x,
        decreases v.len() - i,
    {
        if v[i] == x {
            assert(v@[i as int] == x);
            return true;
        }
        i = i + 1;
    }
    false
}

fn add_providers_exec(deps: &mut Vec<u64>, provs: &Vec<(u64, String)>, me: u64, r: &str)
    ensures
        final(deps)@ == add_providers(old(deps)@, provs@.map_values(|p: (u64, String)| (p.0, p.1@)), me, r@),
{
    let ghost pv = provs@.map_values(|p: (u64, String)| (p.0, p.1@));
    let ghost d0 = deps@;
    let mut j: usize = 0;
    while j < provs.len()
        invariant
            j <= provs.len(),
            pv == provs@.map_values(|p: (u64, String)| (p.0, p.1@)),
            deps@ == add_providers(d0, pv.take(j as int), me, r@),
        decreases provs.len() - j,
    {
        assert(pv.take(j + 1).drop_last() == pv.take(j as int));
        assert(pv.take(j + 1).last() == (provs@[j as int].0, provs@[j as int].1@));
        let pid = provs[j].0;
        if pid != me && could_satisfy(provs[j].1.as_str(), r) && !contains_id(deps, pid) {
            deps.push(pid);
        }
        j = j + 1;
    }
    assert(pv.take(provs.len() as int) == pv);
}

/// Builds the dependency graph between templates: each template depends on
/// the other templates whose output could meet one of its requirements that
/// `source_provides` leaves unmet.
pub fn build_dependency_graph(source_provides: &[String], templates: &[TemplateDeps]) -> (graph: DependencyGraph)
    ensures
        is_dependency_graph_of(graph, templates@, string_views(source_provides@)),
{
    let ghost source = string_views(source_provides@);
    let mut provs: Vec<(u64, String)> = Vec::new();
    let mut k: usize = 0;
    while k < templates.len()
        invariant
            k <= templates.len(),
            provs@.map_values(|p: (u64, String)| (p.0, p.1@)) == provider_prefixes(templates@).take(k as int),
        decreases templates.len() - k,
    {
        let ghost before = provs@.map_values(|p: (u64, String)| (p.0, p.1@));
        let prefix = template_output_prefix(templates[k].template_name.as_str());
        provs.push((templates[k].entity, prefix));
        assert(provs@.map_values(|p: (u64, String)| (p.0, p.1@)) =~= before.push((templates@[k as int].entity, spec_template_output_prefix(templates@[k as int].template_name@))));
        assert(provider_prefixes(templates@).take(k + 1) =~= provider_prefixes(templates@).take(k as int).push(provider_prefixes(templates@)[k as int]));
        k = k + 1;
    }
    assert(provider_prefixes(templates@).take(templates.len() as int) == provider_prefixes(templates@));
    let ghost pv = provider_prefixes(templates@);

    let mut edges: Vec<(u64, Vec<u64>)> = Vec::new();
    let mut names: Vec<(u64, String)> = Vec::new();
    let mut i: usize = 0;
    while i < templates.len()
        invariant
            i <= templates.len(),
            pv == provider_prefixes(templates@),
            provs@.map_values(|p: (u64, String)| (p.0, p.1@)) == pv,
            source == string_views(source_provides@),
            edges@.len() == i,
            names@.len() == i,
            forall|m: int| 0 <= m < i ==> {
                &&& (#[trigger] edges@[m]).0 == templates@[m].entity
                &&& edges@[m].1@ == template_deps(string_views(templates@[m].requirements@), pv, templates@[m].entity, source)
                &&& names@[m].0 == templates@[m].entity
                &&& names@[m].1@ == templates@[m].template_name@
            },
        decreases templates.len() - i,
    {
        let t = &templates[i];
        let ghost reqs = string_views(t.requirements@);
        let mut deps: Vec<u64> = Vec::new();
        let mut r: usize = 0;
        while r < t.requirements.len()
            invariant
                r <= t.requirements.len(),
                reqs == string_views(t.requirements@),
                provs@.map_values(|p: (u64, String)| (p.0, p.1@)) == pv,
                deps@ == template_deps(reqs.take(r as int), pv, t.entity, source),
                source == string_views(source_provides@),
            decreases t.requirements.len() - r,
        {
            assert(reqs.take(r + 1).drop_last() == reqs.take(r as int));
            assert(reqs.take(r + 1).last() == t.requirements@[r as int]@);
            if !is_requirement_satisfied(t.requirements[r].as_str(), source_provides) {
                add_providers_exec(&mut deps, &provs, t.entity, t.requirements[r].as_str());
            }
            r = r + 1;
        }
        assert(reqs.take(t.requirements.len() as int) == reqs);
        edges.push((t.entity, deps));
        names.push((t.entity, t.template_name.clone()));
        i = i + 1;
    }
    DependencyGraph { edges, names }
}

/// Membership in a sequence with one element pushed.
pub proof fn lemma_push_contains<A>(s: Seq<A>, p: A)
    ensures
        forall|x: A| #[trigger] s.push(p).contains(x) <==> (s.contains(x) || x == p),
{
    assert forall|x: A| #[trigger] s.push(p).contains(x) <==> (s.contains(x) || x == p) by {
        if s.contains(x) {
            let k = choose|k: int| 0 <= k < s.len() && s[k] == x;
            assert(s.push(p)[k] == x);
        }
        if x == p {
            assert(s.push(p)[s.len() as int] == p);
        }
        if s.push(p).contains(x) {
            let k = choose|k: int| 0 <= k < s.len() + 1 && s.push(p)[k] == x;
            if k < s.len() {
                assert(s[k] == x);
            }
        }
    }
}

/// The provider at `j` could meet requirement `r` for template `me`.
pub open spec fn provider_matches(provs: Seq<(u64, Seq<char>)>, j: int, me: u64, r: Seq<char>) -> bool {
    0 <= j < provs.len() && provs[j].0 != me && spec_could_satisfy(provs[j].1, r)
}

/// Adding providers keeps what was there, adds exactly the matching providers
/// and never repeats an id.
pub proof fn lemma_add_providers(deps: Seq<u64>, provs: Seq<(u64, Seq<char>)>, me: u64, r: Seq<char>)
    ensures
        ({
            let res = add_providers(deps, provs, me, r);
            &&& forall|x: u64| res.contains(x) <==> (deps.contains(x) || exists|j: int| #[trigger] provider_matches(provs, j, me, r) && provs[j].0 == x)
            &&& deps.no_duplicates() ==> res.no_duplicates()
            &&& res.len() >= deps.len()
            &&& res.take(deps.len() as int) == deps
        }),
    decreases provs.len(),
{
    if provs.len() > 0 {
        let pre = provs.drop_last();
        lemma_add_providers(deps, pre, me, r);
        let d = add_providers(deps, pre, me, r);
        let res = add_providers(deps, provs, me, r);
        let last = provs.len() - 1;
        lemma_push_contains(d, provs.last().0);
        assert forall|x: u64| res.contains(x) <==> (deps.contains(x) || exists|j: int| #[trigger] provider_matches(provs, j, me, r) && provs[j].0 == x) by {
            if res.contains(x) {
                if !d.contains(x) {
                    assert(provider_matches(provs, last, me, r));
                } else if !deps.contains(x) {
                    let j = choose|j: int| #[trigger] provider_matches(pre, j, me, r) && pre[j].0 == x;
                    assert(provider_matches(provs, j, me, r));
                }
            } else {
                assert(!d.contains(x));
                if exists|j: int| #[trigger] provider_matches(provs, j, me, r) && provs[j].0 == x {
                    let j = choose|j: int| #[trigger] provider_matches(provs, j, me, r) && provs[j].0 == x;
                    if j < last {
                        assert(provider_matches(pre, j, me, r));
                    }
                }
            }
        }
        if res != d {
            assert(res.take(deps.len() as int) =~= d.take(deps.len() as int));
        }
    }
}

/// Laws of a template's dependencies: no template twice, never the
/// template itself, and a template is present exactly when its output could
/// meet a requirement that the source data leaves unmet.
pub proof fn lemma_template_deps(reqs: Seq<Seq<char>>, provs: Seq<(u64, Seq<char>)>, me: u64, source: Seq<Seq<char>>)
    ensures
        template_deps(reqs, provs, me, source).no_duplicates(),
        !template_deps(reqs, provs, me, source).contains(me),
        forall|x: u64| template_deps(reqs, provs, me, source).contains(x) <==>
            exists|i: int, j: int| 0 <= i < reqs.len() && !requirement_satisfied(#[trigger] reqs[i], source)
                && #[trigger] provider_matches(provs, j, me, reqs[i]) && provs[j].0 == x,
    decreases reqs.len(),
{
    if reqs.len() > 0 {
        let pre = reqs.drop_last();
        lemma_template_deps(pre, provs, me, source);
        let d = template_deps(pre, provs, me, source);
        let res = template_deps(reqs, provs, me, source);
        let last = reqs.len() - 1;
        if !requirement_satisfied(reqs.last(), source) {
            lemma_add_providers(d, provs, me, reqs.last());
        }
        assert forall|x: u64| res.contains(x) <==>
            exists|i: int, j: int| 0 <= i < reqs.len() && !requirement_satisfied(#[trigger] reqs[i], source)
                && #[trigger] provider_matches(provs, j, me, reqs[i]) && provs[j].0 == x by {
            if res.contains(x) {
                if d.contains(x) {
                    let (i, j) = choose|i: int, j: int| 0 <= i < pre.len() && !requirement_satisfied(#[trigger] pre[i], source)
                        && #[trigger] provider_matches(provs, j, me, pre[i]) && provs[j].0 == x;
                    assert(reqs[i] == pre[i]);
                } else {
                    let j = choose|j: int| #[trigger] provider_matches(provs, j, me, reqs.last()) && provs[j].0 == x;
                    assert(reqs[last] == reqs.last());
                }
            } else {
                if exists|i: int, j: int| 0 <= i < reqs.len() && !requirement_satisfied(#[trigger] reqs[i], source)
                    && #[trigger] provider_matches(provs, j, me, reqs[i]) && provs[j].0 == x {
                    let (i, j) = choose|i: int, j: int| 0 <= i < reqs.len() && !requirement_satisfied(#[trigger] reqs[i], source)
                        && #[trigger] provider_matches(provs, j, me, reqs[i]) && provs[j].0 == x;
                    if i < last {
                        assert(pre[i] == reqs[i]);
                        assert(d.contains(x));
                    } else {
                        assert(reqs[i] == reqs.last());
                    }
                }
            }
        }
        if res.contains(me) {
            let (i, j) = choose|i: int, j: int| 0 <= i < reqs.len() && !requirement_satisfied(#[trigger] reqs[i], source)
                && #[trigger] provider_matches(provs, j, me, reqs[i]) && provs[j].0 == me;
        }
    }
}

// =============================================================================
// Cycle detection
// =============================================================================

/// The edge lists of a graph as sequences.
pub open spec fn edge_view(g: DependencyGraph) -> Seq<(u64, Seq<u64>)> {
    g.edges@.map_values(|e: (u64, Vec<u64>)| (e.0, e.1@))
}

/// The names of a graph as sequences.
pub open spec fn name_view(g: DependencyGraph) -> Seq<(u64, Seq<char>)> {
    g.names@.map_values(|e: (u64, String)| (e.0, e.1@))
}

/// The templates `n` depends on: the list of the first edge entry for `n`,
/// or none.
pub open spec fn deps_of(edges: Seq<(u64, Seq<u64>)>, n: u64) -> Seq<u64>
    decreases edges.len(),
{
    if edges.len() == 0 {
        Seq::<u64>::empty()
    } else if edges[0].0 == n {
        edges[0].1
    } else {
        deps_of(edges.skip(1), n)
    }
}

/// `u` depends on `v`.
pub open spec fn has_edge(edges: Seq<(u64, Seq<u64>)>, u: u64, v: u64) -> bool {
    deps_of(edges, u).contains(v)
}

/// `ns` is a cycle: each node depends on the next, the last on the first.
pub open spec fn is_cycle(edges: Seq<(u64, Seq<u64>)>, ns: Seq<u64>) -> bool {
    &&& ns.len() > 0
    &&& forall|i: int| 0 <= i < ns.len() - 1 ==> #[trigger] has_edge(edges, ns[i], ns[i + 1])
    &&& has_edge(edges, ns.last(), ns[0])
}

/// The graph has a cycle.
pub open spec fn has_cycle(edges: Seq<(u64, Seq<u64>)>) -> bool {
    exists|ns: Seq<u64>| is_cycle(edges, ns)
}

/// Decimal digits of `n`.
pub open spec fn decimal(n: nat) -> Seq<char>
    decreases n,
{
    if n < 10 {
        seq![digit_char(n)]
    } else {
        decimal(n / 10).push(digit_char(n % 10))
    }
}

/// The character of the digit `d`.
pub open spec fn digit_char(d: nat) -> char {
    if d == 0 { '0' } else if d == 1 { '1' } else if d == 2 { '2' } else if d == 3 { '3' }
    else if d == 4 { '4' } else if d == 5 { '5' } else if d == 6 { '6' } else if d == 7 { '7' }
    else if d == 8 { '8' } else { '9' }
}

/// The name of node `n`: that of its first name entry, or its id in decimal.
pub open spec fn name_of(names: Seq<(u64, Seq<char>)>, n: u64) -> Seq<char>
    decreases names.len(),
{
    if names.len() == 0 {
        decimal(n as nat)
    } else if names[0].0 == n {
        names[0].1
    } else {
        name_of(names.skip(1), n)
    }
}

/// `c` names the nodes of some cycle of the graph, in order.
pub open spec fn names_cycle(edges: Seq<(u64, Seq<u64>)>, names: Seq<(u64, Seq<char>)>, c: Seq<Seq<char>>) -> bool {
    exists|ns: Seq<u64>| is_cycle(edges, ns) && c == ns.map_values(|n: u64| name_of(names, n))
}

/// Every node the graph mentions: its keys and all the nodes in its lists.
pub open spec fn universe(edges: Seq<(u64, Seq<u64>)>) -> Seq<u64>
    decreases edges.len(),
{
    if edges.len() == 0 {
        Seq::<u64>::empty()
    } else {
        seq![edges[0].0] + edges[0].1 + universe(edges.skip(1))
    }
}

proof fn lemma_universe(edges: Seq<(u64, Seq<u64>)>)
    ensures
        forall|i: int| 0 <= i < edges.len() ==> universe(edges).contains(#[trigger] edges[i].0),
        forall|n: u64, v: u64| #[trigger] deps_of(edges, n).contains(v) ==> universe(edges).contains(v),
    decreases edges.len(),
{
    if edges.len() > 0 {
        let rest = edges.skip(1);
        lemma_universe(rest);
        let u = universe(edges);
        let head = seq![edges[0].0] + edges[0].1;
        assert(u == head + universe(rest));
        assert forall|i: int| 0 <= i < edges.len() implies u.contains(#[trigger] edges[i].0) by {
            if i == 0 {
                assert(u[0] == edges[0].0);
            } else {
                assert(rest[i - 1] == edges[i]);
                let k = choose|k: int| 0 <= k < universe(rest).len() && universe(rest)[k] == rest[i - 1].0;
                assert(u[head.len() + k] == edges[i].0);
            }
        }
        assert forall|n: u64, v: u64| #[trigger] deps_of(edges, n).contains(v) implies u.contains(v) by {
            if edges[0].0 == n {
                let k = choose|k: int| 0 <= k < edges[0].1.len() && edges[0].1[k] == v;
                assert(u[1 + k] == v);
            } else {
                assert(deps_of(edges, n) == deps_of(rest, n));
                let k = choose|k: int| 0 <= k < universe(rest).len() && universe(rest)[k] == v;
                assert(u[head.len() + k] == v);
            }
        }
    }
}

proof fn lemma_room(s: Seq<u64>, u: Seq<u64>, x: u64)
    requires
        s.no_duplicates(),
        forall|y: u64| s.contains(y) ==> u.contains(y),
        u.contains(x),
        !s.contains(x),
    ensures
        s.len() < u.len(),
{
    let s2 = s.push(x);
    lemma_push_contains(s, x);
    assert(s2.no_duplicates()) by {
        assert forall|i: int, j: int| 0 <= i < s2.len() && 0 <= j < s2.len() && i != j implies s2[i] != s2[j] by {
            if i < s.len() && j < s.len() {
                assert(s2[i] == s[i] && s2[j] == s[j]);
            } else if i == s.len() {
                assert(s2[j] == s[j]);
                assert(s.contains(s[j]));
            } else {
                assert(s2[i] == s[i]);
                assert(s.contains(s[i]));
            }
        }
    }
    s2.unique_seq_to_set();
    u.lemma_cardinality_of_set();
    assert(s2.to_set().subset_of(u.to_set()));
    vstd::set_lib::lemma_len_subset(s2.to_set(), u.to_set());
}

/// Index of the first edge entry for `n`.
fn find_edges(edges: &Vec<(u64, Vec<u64>)>, n: u64) -> (res: Option<usize>)
    ensures
        match res {
            Some(i) => i < edges@.len() && edges@[i as int].1@ == deps_of(edges@.map_values(|e: (u64, Vec<u64>)| (e.0, e.1@)), n),
            None => deps_of(edges@.map_values(|e: (u64, Vec<u64>)| (e.0, e.1@)), n).len() == 0,
        },
{
    let ghost ev = edges@.map_values(|e: (u64, Vec<u64>)| (e.0, e.1@));
    let mut i: usize = 0;
    assert(ev.skip(0) == ev);
    while i < edges.len()
        invariant
            i <= edges.len(),
            ev == edges@.map_values(|e: (u64, Vec<u64>)| (e.0, e.1@)),
            deps_of(ev, n) == deps_of(ev.skip(i as int), n),
        decreases edges.len() - i,
    {
        assert(ev.skip(i as int)[0] == ev[i as int]);
        if edges[i].0 == n {
            return Some(i);
        }
        assert(ev.skip(i as int).skip(1) == ev.skip(i + 1));
        i = i + 1;
    }
    None
}

fn digit(d: u64) -> (c: char)
    requires
        d < 10,
    ensures
        c == digit_char(d as nat),
{
    if d == 0 { '0' } else if d == 1 { '1' } else if d == 2 { '2' } else if d == 3 { '3' }
    else if d == 4 { '4' } else if d == 5 { '5' } else if d == 6 { '6' } else if d == 7 { '7' }
    else if d == 8 { '8' } else { '9' }
}

/// Decimal digits of `n`.
pub fn decimal_chars(n: u64) -> (res: Vec<char>)
    ensures
        res@ == decimal(n as nat),
    decreases n,
{
    if n < 10 {
        let mut v: Vec<char> = Vec::new();
        v.push(digit(n));
        v
    } else {
        let mut v = decimal_chars(n / 10);
        v.push(digit(n % 10));
        v
    }
}

/// The name of node `n`.
fn name_for(names: &Vec<(u64, String)>, n: u64) -> (res: String)
    ensures
        res@ == name_of(names@.map_values(|e: (u64, String)| (e.0, e.1@)), n),
{
    let ghost nv = names@.map_values(|e: (u64, String)| (e.0, e.1@));
    let mut i: usize = 0;
    assert(nv.skip(0) == nv);
    while i < names.len()
        invariant
            i <= names.len(),
            nv == names@.map_values(|e: (u64, String)| (e.0, e.1@)),
            name_of(nv, n) == name_of(nv.skip(i as int), n),
        decreases names.len() - i,
    {
        assert(nv.skip(i as int)[0] == nv[i as int]);
        if names[i].0 == n {
            return names[i].1.clone();
        }
        assert(nv.skip(i as int).skip(1) == nv.skip(i + 1));
        i = i + 1;
    }
    let d = decimal_chars(n);
    crate::text::string_from_chars(d.as_slice())
}

/// The search state: `visited` holds the finished nodes and the path, the
/// path is a chain of dependencies without repeats, each reported cycle is a
/// cycle, and while none is reported every finished node's dependencies
/// finished before it.
pub open spec fn search_ok(
    edges: Seq<(u64, Seq<u64>)>,
    names: Seq<(u64, Seq<char>)>,
    visited: Seq<u64>,
    in_stack: Seq<u64>,
    path: Seq<u64>,
    fin: Seq<u64>,
    cycles: Seq<Seq<Seq<char>>>,
) -> bool {
    &&& visited.no_duplicates()
    &&& forall|x: u64| #[trigger] visited.contains(x) <==> (fin.contains(x) || path.contains(x))
    &&& forall|x: u64| visited.contains(x) ==> universe(edges).contains(x)
    &&& in_stack == path
    &&& path.no_duplicates()
    &&& fin.no_duplicates()
    &&& forall|x: u64| !(fin.contains(x) && path.contains(x))
    &&& forall|i: int| 0 <= i < path.len() - 1 ==> #[trigger] has_edge(edges, path[i], path[i + 1])
    &&& forall|k: int| 0 <= k < cycles.len() ==> names_cycle(edges, names, #[trigger] cycles[k])
    &&& cycles.len() == 0 ==> forall|i: int, v: u64| 0 <= i < fin.len() && #[trigger] has_edge(edges, fin[i], v)
        ==> fin.contains(v) && fin.index_of(v) < i
}

/// The cycles found so far, as sequences.
pub open spec fn cycles_view(c: Seq<Vec<String>>) -> Seq<Seq<Seq<char>>> {
    c.map_values(|v: Vec<String>| string_views(v@))
}

proof fn lemma_index_of_prefix(a: Seq<u64>, b: Seq<u64>, x: u64)
    requires
        b.len() >= a.len(),
        b.take(a.len() as int) == a,
        a.contains(x),
        b.no_duplicates(),
    ensures
        b.contains(x),
        b.index_of(x) == a.index_of(x),
{
    let k = a.index_of(x);
    assert(b[k] == x);
    assert(b.contains(x));
    let kb = b.index_of(x);
    if kb != k {
        assert(b[kb] == x);
    }
}

proof fn lemma_deps_key(edges: Seq<(u64, Seq<u64>)>, n: u64)
    requires
        deps_of(edges, n).len() > 0,
    ensures
        exists|i: int| 0 <= i < edges.len() && #[trigger] edges[i].0 == n,
    decreases edges.len(),
{
    if edges[0].0 != n {
        lemma_deps_key(edges.skip(1), n);
        let i = choose|i: int| 0 <= i < edges.skip(1).len() && #[trigger] edges.skip(1)[i].0 == n;
        assert(edges[i + 1].0 == n);
    } else {
        assert(edges[0].0 == n);
    }
}

/// Depth-first search from `node`, recording a cycle each time a dependency
/// leads back onto the current path.
#[verifier::loop_isolation(false)]
fn dfs_detect_cycle(
    graph: &DependencyGraph,
    node: u64,
    visited: &mut Vec<u64>,
    in_stack: &mut Vec<u64>,
    path: &mut Vec<u64>,
    cycles: &mut Vec<Vec<String>>,
    Ghost(fin): Ghost<Seq<u64>>,
) -> (fin_out: Ghost<Seq<u64>>)
    requires
        search_ok(edge_view(*graph), name_view(*graph), old(visited)@, old(in_stack)@, old(path)@, fin, cycles_view(old(cycles)@)),
        !old(visited)@.contains(node),
        universe(edge_view(*graph)).contains(node),
        old(path)@.len() > 0 ==> has_edge(edge_view(*graph), old(path)@.last(), node),
    ensures
        search_ok(edge_view(*graph), name_view(*graph), final(visited)@, final(in_stack)@, final(path)@, fin_out@, cycles_view(final(cycles)@)),
        final(path)@ == old(path)@,
        fin_out@.len() >= fin.len(),
        fin_out@.take(fin.len() as int) == fin,
        fin_out@.contains(node),
        final(cycles)@.len() >= old(cycles)@.len(),
        final(visited)@.len() > old(visited)@.len(),
    decreases universe(edge_view(*graph)).len() - visited@.len(),
{
    let ghost e = edge_view(*graph);
    let ghost nm = name_view(*graph);
    let ghost p0 = path@;
    let ghost v0 = visited@;
    let ghost c0 = cycles@.len();
    proof {
        lemma_universe(e);
        lemma_room(visited@, universe(e), node);
        lemma_push_contains(visited@, node);
        lemma_push_contains(path@, node);
    }
    visited.push(node);
    in_stack.push(node);
    path.push(node);
    let ghost mut f = fin;
    proof {
        assert(visited@.no_duplicates()) by {
            assert forall|i: int, j: int| 0 <= i < visited@.len() && 0 <= j < visited@.len() && i != j implies visited@[i] != visited@[j] by {
                if i < v0.len() && j < v0.len() {
                } else if i == v0.len() {
                    assert(v0.contains(visited@[j]));
                } else {
                    assert(v0.contains(visited@[i]));
                }
            }
        }
        assert(path@.no_duplicates()) by {
            assert forall|i: int, j: int| 0 <= i < path@.len() && 0 <= j < path@.len() && i != j implies path@[i] != path@[j] by {
                if i < p0.len() && j < p0.len() {
                } else if i == p0.len() {
                    assert(p0.contains(path@[j]));
                } else {
                    assert(p0.contains(path@[i]));
                }
            }
        }
        assert forall|i: int| 0 <= i < path@.len() - 1 implies #[trigger] has_edge(e, path@[i], path@[i + 1]) by {
            if i < p0.len() - 1 {
                assert(path@[i] == p0[i] && path@[i + 1] == p0[i + 1]);
            } else {
                assert(path@[i] == p0.last());
            }
        }
        assert(search_ok(e, nm, visited@, in_stack@, path@, f, cycles_view(cycles@)));
    }
    match find_edges(&graph.edges, node) {
        Some(ei) => {
            let deps = &graph.edges[ei].1;
            assert(deps@ == deps_of(e, node));
            let mut k: usize = 0;
            while k < deps.len()
                invariant
                    k <= deps.len(),
                    e == edge_view(*graph),
                    nm == name_view(*graph),
                    deps@ == deps_of(e, node),
                    search_ok(e, nm, visited@, in_stack@, path@, f, cycles_view(cycles@)),
                    path@ == p0.push(node),
                    f.len() >= fin.len(),
                    f.take(fin.len() as int) == fin,
                    visited@.len() > v0.len(),
                    cycles@.len() >= c0,
                    universe(e).contains(node),
                    forall|j: int| 0 <= j < k ==> cycles@.len() > 0 || f.contains(#[trigger] deps@[j]),
                decreases deps.len() - k,
            {
                let dep = deps[k];
                assert(has_edge(e, node, dep)) by {
                    assert(deps@[k as int] == dep);
                }
                if !contains_id(visited, dep) {
                    proof {
                        lemma_universe(e);
                        lemma_room(visited@, universe(e), dep);
                        assert(path@.last() == node);
                        assert(0 <= universe(e).len() - visited@.len() < universe(e).len() - v0.len());
                    }
                    let Ghost(f2) = dfs_detect_cycle(graph, dep, visited, in_stack, path, cycles, Ghost(f));
                    proof {
                        assert(f2.take(fin.len() as int) == f2.take(f.len() as int).take(fin.len() as int));
                        assert forall|j: int| 0 <= j < k + 1 implies cycles@.len() > 0 || f2.contains(#[trigger] deps@[j]) by {
                            if j < k && cycles@.len() == 0 && f.contains(deps@[j]) {
                                lemma_index_of_prefix(f, f2, deps@[j]);
                            }
                        }
                        f = f2;
                    }
                } else if contains_id(in_stack, dep) {
                    let start = position_of(path, dep);
                    let ghost ns = path@.subrange(start as int, path@.len() as int);
                    let mut cycle: Vec<String> = Vec::new();
                    let mut m: usize = start;
                    while m < path.len()
                        invariant
                            start <= m <= path.len(),
                            nm == name_view(*graph),
                            string_views(cycle@) == path@.subrange(start as int, m as int).map_values(|n: u64| name_of(nm, n)),
                        decreases path.len() - m,
                    {
                        let ghost before = string_views(cycle@);
                        let nmx = name_for(&graph.names, path[m]);
                        cycle.push(nmx);
                        assert(string_views(cycle@) =~= before.push(name_of(nm, path@[m as int])));
                        assert(path@.subrange(start as int, m + 1).map_values(|n: u64| name_of(nm, n)) =~= path@.subrange(start as int, m as int).map_values(|n: u64| name_of(nm, n)).push(name_of(nm, path@[m as int])));
                        m = m + 1;
                    }
                    proof {
                        assert(is_cycle(e, ns)) by {
                            assert forall|i: int| 0 <= i < ns.len() - 1 implies #[trigger] has_edge(e, ns[i], ns[i + 1]) by {
                                assert(ns[i] == path@[start + i] && ns[i + 1] == path@[start + i + 1]);
                                assert(has_edge(e, path@[start + i], path@[start + i + 1]));
                            }
                            assert(ns.last() == node);
                            assert(ns[0] == dep);
                        }
                        assert(names_cycle(e, nm, string_views(cycle@)));
                    }
                    let ghost cb = cycles_view(cycles@);
                    cycles.push(cycle);
                    assert(cycles_view(cycles@) =~= cb.push(string_views(cycle@)));
                }
                k = k + 1;
            }
        },
        None => {},
    }
    proof {
        assert(path@.last() == node);
        assert(in_stack@.last() == node);
    }
    path.pop();
    in_stack.pop();
    assert(path@ =~= p0);
    let ghost f_out = f.push(node);
    proof {
        lemma_push_contains(f, node);
        lemma_push_contains(p0, node);
        assert(!f.contains(node));
        assert(f_out.no_duplicates()) by {
            assert forall|i: int, j: int| 0 <= i < f_out.len() && 0 <= j < f_out.len() && i != j implies f_out[i] != f_out[j] by {
                if i < f.len() && j < f.len() {
                } else if i == f.len() {
                    assert(f.contains(f_out[j]));
                } else {
                    assert(f.contains(f_out[i]));
                }
            }
        }
        assert forall|x: u64| !(f_out.contains(x) && p0.contains(x)) by {
            if x == node {
                assert(p0.push(node).no_duplicates());
                if p0.contains(x) {
                    let q = choose|q: int| 0 <= q < p0.len() && p0[q] == x;
                    assert(p0.push(node)[q] == p0.push(node)[p0.len() as int]);
                }
            }
        }
        assert forall|i: int| 0 <= i < p0.len() - 1 implies #[trigger] has_edge(e, p0[i], p0[i + 1]) by {
            assert(p0.push(node)[i] == p0[i] && p0.push(node)[i + 1] == p0[i + 1]);
        }
        assert(f_out.take(f.len() as int) =~= f);
        if cycles@.len() == 0 {
            assert forall|i: int, v: u64| 0 <= i < f_out.len() && #[trigger] has_edge(e, f_out[i], v)
                implies f_out.contains(v) && f_out.index_of(v) < i by {
                if i < f.len() {
                    assert(f_out[i] == f[i]);
                    lemma_index_of_prefix(f, f_out, v);
                } else {
                    assert(f_out[i] == node);
                    assert(deps_of(e, node).contains(v));
                    if deps_of(e, node).len() == 0 {
                        assert(false);
                    }
                    let j = choose|j: int| 0 <= j < deps_of(e, node).len() && deps_of(e, node)[j] == v;
                    lemma_index_of_prefix(f, f_out, v);
                }
            }
        }
        assert(f_out.take(fin.len() as int) == f.take(fin.len() as int));
        assert(f_out[f.len() as int] == node);
    }
    Ghost(f_out)
}

/// Position of `x` in `v`, which holds it.
fn position_of(v: &Vec<u64>, x: u64) -> (res: usize)
    requires
        v@.contains(x),
    ensures
        res < v@.len(),
        v@[res as int] == x,
{
    let mut i: usize = 0;
    while i < v.len()
        invariant
            i <= v.len(),
            v@.contains(x),
            forall|j: int| 0 <= j < i ==> v@[j] != x,
        decreases v.len() - i,
    {
        if v[i] == x {
            return i;
        }
        i = i + 1;
    }
    assert(false);
    0
}

proof fn lemma_rank_descends(edges: Seq<(u64, Seq<u64>)>, fin: Seq<u64>, ns: Seq<u64>, m: int)
    requires
        is_cycle(edges, ns),
        0 <= m < ns.len(),
        forall|q: int| 0 <= q < ns.len() ==> fin.contains(#[trigger] ns[q]),
        forall|i: int, v: u64| 0 <= i < fin.len() && #[trigger] has_edge(edges, fin[i], v)
            ==> fin.contains(v) && fin.index_of(v) < i,
    ensures
        fin.index_of(ns[m]) + m <= fin.index_of(ns[0]),
    decreases m,
{
    if m > 0 {
        lemma_rank_descends(edges, fin, ns, m - 1);
        let rm = fin.index_of(ns[m - 1]);
        assert(fin.contains(ns[m - 1]));
        assert(fin[rm] == ns[m - 1]);
        let i = m - 1;
        assert(has_edge(edges, ns[i], ns[i + 1]));
        assert(i + 1 == m);
        assert(has_edge(edges, fin[rm], ns[m]));
    }
}

/// A finishing order in which every node finishes after its dependencies
/// rules out any cycle among nodes it holds.
proof fn lemma_finish_order_acyclic(edges: Seq<(u64, Seq<u64>)>, fin: Seq<u64>)
    requires
        forall|j: int| 0 <= j < edges.len() ==> fin.contains(#[trigger] edges[j].0),
        forall|i: int, v: u64| 0 <= i < fin.len() && #[trigger] has_edge(edges, fin[i], v)
            ==> fin.contains(v) && fin.index_of(v) < i,
    ensures
        !has_cycle(edges),
{
    if has_cycle(edges) {
        let ns = choose|ns: Seq<u64>| is_cycle(edges, ns);
        let n = ns.len();
        assert forall|m: int| 0 <= m < n implies fin.contains(#[trigger] ns[m]) by {
            let nxt = if m < n - 1 { ns[m + 1] } else { ns[0] };
            if m < n - 1 {
                assert(has_edge(edges, ns[m], ns[m + 1]));
            }
            assert(deps_of(edges, ns[m]).contains(nxt));
            lemma_deps_key(edges, ns[m]);
            let j = choose|j: int| 0 <= j < edges.len() && #[trigger] edges[j].0 == ns[m];
        }
        let r0 = fin.index_of(ns[0]);
        assert(fin[r0] == ns[0]);
        lemma_rank_descends(edges, fin, ns, n - 1);
        let rl = fin.index_of(ns[n - 1]);
        assert(fin.contains(ns[n - 1]));
        assert(fin[rl] == ns[n - 1]);
        assert(ns.last() == ns[n - 1]);
        assert(has_edge(edges, fin[rl], ns[0]));
        assert(false);
    }
}

/// Detects cycles in the dependency graph by depth-first search from each
/// template in turn. Each reported cycle lists, in order, the names of
/// templates that each depend on the next, the last on the first; a cycle is
/// reported whenever the graph has one.
pub fn detect_cycles(graph: &DependencyGraph) -> (cycles: Vec<Vec<String>>)
    ensures
        forall|k: int| 0 <= k < cycles@.len() ==> names_cycle(edge_view(*graph), name_view(*graph), #[trigger] string_views(cycles@[k]@)),
        has_cycle(edge_view(*graph)) <==> cycles@.len() > 0,
{
    let ghost e = edge_view(*graph);
    let ghost nm = name_view(*graph);
    let mut visited: Vec<u64> = Vec::new();
    let mut in_stack: Vec<u64> = Vec::new();
    let mut path: Vec<u64> = Vec::new();
    let mut cycles: Vec<Vec<String>> = Vec::new();
    let ghost mut fin: Seq<u64> = Seq::empty();
    proof {
        lemma_universe(e);
    }
    let mut i: usize = 0;
    while i < graph.edges.len()
        invariant
            i <= graph.edges.len(),
            e == edge_view(*graph),
            nm == name_view(*graph),
            search_ok(e, nm, visited@, in_stack@, path@, fin, cycles_view(cycles@)),
            path@.len() == 0,
            forall|j: int| 0 <= j < i ==> cycles@.len() > 0 || fin.contains(#[trigger] e[j].0),
            forall|j: int| 0 <= j < e.len() ==> universe(e).contains(#[trigger] e[j].0),
        decreases graph.edges.len() - i,
    {
        let node = graph.edges[i].0;
        assert(e[i as int].0 == node);
        if !contains_id(&visited, node) {
            let ghost c_before = cycles@.len();
            let Ghost(f2) = dfs_detect_cycle(graph, node, &mut visited, &mut in_stack, &mut path, &mut cycles, Ghost(fin));
            proof {
                assert forall|j: int| 0 <= j < i + 1 implies cycles@.len() > 0 || f2.contains(#[trigger] e[j].0) by {
                    if j < i && cycles@.len() == 0 {
                        lemma_index_of_prefix(fin, f2, e[j].0);
                    }
                }
                fin = f2;
            }
        } else {
            assert(fin.contains(node));
        }
        i = i + 1;
    }
    proof {
        if cycles@.len() == 0 {
            lemma_finish_order_acyclic(e, fin);
        } else {
            assert(names_cycle(e, nm, cycles_view(cycles@)[0]));
            assert(cycles_view(cycles@)[0] == string_views(cycles@[0]@));
        }
        assert forall|k: int| 0 <= k < cycles@.len() implies names_cycle(e, nm, #[trigger] string_views(cycles@[k]@)) by {
            assert(cycles_view(cycles@)[k] == string_views(cycles@[k]@));
        }
    }
    cycles
}

} // verus!
