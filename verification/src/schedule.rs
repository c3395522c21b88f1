//! Reactive rendering: which templates are ready, and how their unmet
//! requirements shrink as rendered outputs provide new keys.
//!
//! The driver renders every ready template, loads the data files those
//! renders produce, reports the keys they provide, and repeats while some
//! template is ready.

use vstd::prelude::*;
use crate::node::{is_requirement_satisfied, requirement_satisfied};
use crate::text::string_views;

verus! {

/// One template as the render loop sees it.
pub struct TemplateState {
    pub entity: u64,
    pub template_name: String,
    pub requirements: Vec<String>,
    /// Requirements not yet met; `None` before initialization.
    pub needs: Option<Vec<String>>,
    pub rendered: bool,
}

/// The templates of a project and their render progress.
pub struct RenderState {
    pub templates: Vec<TemplateState>,
}

/// The requirements of `reqs` that `provides` does not meet, each once, in
/// order of first appearance.
pub open spec fn unmet_unique(reqs: Seq<Seq<char>>, provides: Seq<Seq<char>>) -> Seq<Seq<char>>
    decreases reqs.len(),
{
    if reqs.len() == 0 {
        Seq::<Seq<char>>::empty()
    } else {
        let u = unmet_unique(reqs.drop_last(), provides);
        let r = reqs.last();
        if requirement_satisfied(r, provides) || u.contains(r) {
            u
        } else {
            u.push(r)
        }
    }
}

/// The requirements of `remaining` that `provides` does not meet, in order.
pub open spec fn still_unmet(remaining: Seq<Seq<char>>, provides: Seq<Seq<char>>) -> Seq<Seq<char>>
    decreases remaining.len(),
{
    if remaining.len() == 0 {
        Seq::<Seq<char>>::empty()
    } else {
        let u = still_unmet(remaining.drop_last(), provides);
        if requirement_satisfied(remaining.last(), provides) {
            u
        } else {
            u.push(remaining.last())
        }
    }
}

/// The needs of a template as a sequence of strings.
pub open spec fn needs_view(t: TemplateState) -> Option<Seq<Seq<char>>> {
    match t.needs {
        Some(v) => Some(string_views(v@)),
        None => None,
    }
}

/// A template is ready to render: not rendered, and initialized with no
/// unmet requirement left.
pub open spec fn is_ready(t: TemplateState) -> bool {
    &&& !t.rendered
    &&& t.needs matches Some(v)
    &&& v@.len() == 0
}

/// `t2` is `t` with only its needs possibly changed.
pub open spec fn same_template(t: TemplateState, t2: TemplateState) -> bool {
    &&& t2.entity == t.entity
    &&& t2.template_name == t.template_name
    &&& t2.requirements == t.requirements
    &&& t2.rendered == t.rendered
}

fn contains_string(v: &Vec<String>, s: &String) -> (res: bool)
    ensures
        res == string_views(v@).contains(s@),
{
    let mut i: usize = 0;
    while i < v.len()
        invariant
            i <= v.len(),
            forall|j: int| 0 <= j < i ==> v@[j]@ != s@,
        decreases v.len() - i,
    {
        if crate::text::chars_eq(crate::text::chars_of(v[i].as_str()).as_slice(), crate::text::chars_of(s.as_str()).as_slice()) {
            assert(string_views(v@)[i as int] == s@);
            return true;
        }
        i = i + 1;
    }
    assert forall|j: int| 0 <= j < string_views(v@).len() implies string_views(v@)[j] != s@ by {
        assert(string_views(v@)[j] == v@[j]@);
    }
    false
}

/// Computes `unmet_unique`.
pub fn unmet_requirements_of(reqs: &Vec<String>, provides: &[String]) -> (res: Vec<String>)
    ensures
        string_views(res@) == unmet_unique(string_views(reqs@), string_views(provides@)),
{
    let ghost rs = string_views(reqs@);
    let ghost ps = string_views(provides@);
    let mut res: Vec<String> = Vec::new();
    let mut i: usize = 0;
    while i < reqs.len()
        invariant
            i <= reqs.len(),
            rs == string_views(reqs@),
            ps == string_views(provides@),
            string_views(res@) == unmet_unique(rs.take(i as int), ps),
        decreases reqs.len() - i,
    {
        assert(rs.take(i + 1).drop_last() == rs.take(i as int));
        assert(rs.take(i + 1).last() == reqs@[i as int]@);
        if !is_requirement_satisfied(reqs[i].as_str(), provides) && !contains_string(&res, &reqs[i]) {
            let ghost before = string_views(res@);
            res.push(reqs[i].clone());
            assert(string_views(res@) == before.push(reqs@[i as int]@));
        }
        i = i + 1;
    }
    assert(rs.take(reqs.len() as int) == rs);
    res
}

/// Computes `still_unmet`.
pub fn remaining_after(remaining: &Vec<String>, new_provides: &[String]) -> (res: Vec<String>)
    ensures
        string_views(res@) == still_unmet(string_views(remaining@), string_views(new_provides@)),
{
    let ghost rs = string_views(remaining@);
    let ghost ps = string_views(new_provides@);
    let mut res: Vec<String> = Vec::new();
    let mut i: usize = 0;
    while i < remaining.len()
        invariant
            i <= remaining.len(),
            rs == string_views(remaining@),
            ps == string_views(new_provides@),
            string_views(res@) == still_unmet(rs.take(i as int), ps),
        decreases remaining.len() - i,
    {
        assert(rs.take(i + 1).drop_last() == rs.take(i as int));
        assert(rs.take(i + 1).last() == remaining@[i as int]@);
        if !is_requirement_satisfied(remaining[i].as_str(), new_provides) {
            let ghost before = string_views(res@);
            res.push(remaining[i].clone());
            assert(string_views(res@) == before.push(remaining@[i as int]@));
        }
        i = i + 1;
    }
    assert(rs.take(remaining.len() as int) == rs);
    res
}

/// Initializes the unmet needs of every template not yet rendered: the
/// requirements that no key of `all_provides` meets, each once. Rendered
/// templates are left as they are.
pub fn initialize_unmet_needs(state: &mut RenderState, all_provides: &[String])
    ensures
        final(state).templates@.len() == old(state).templates@.len(),
        forall|i: int| 0 <= i < final(state).templates@.len() ==> {
            let t = old(state).templates@[i];
            let t2 = #[trigger] final(state).templates@[i];
            &&& same_template(t, t2)
            &&& t.rendered ==> t2.needs == t.needs
            &&& !t.rendered ==> needs_view(t2) == Some(unmet_unique(string_views(t.requirements@), string_views(all_provides@)))
        },
{
    let n = state.templates.len();
    let ghost old_ts = state.templates@;
    let mut i: usize = 0;
    while i < n
        invariant
            i <= n == state.templates@.len() == old_ts.len(),
            old_ts == old(state).templates@,
            forall|k: int| i <= k < n ==> state.templates@[k] == old_ts[k],
            forall|k: int| 0 <= k < i ==> {
                let t = old_ts[k];
                let t2 = #[trigger] state.templates@[k];
                &&& same_template(t, t2)
                &&& t.rendered ==> t2.needs == t.needs
                &&& !t.rendered ==> needs_view(t2) == Some(unmet_unique(string_views(t.requirements@), string_views(all_provides@)))
            },
        decreases n - i,
    {
        if !state.templates[i].rendered {
            let remaining = unmet_requirements_of(&state.templates[i].requirements, all_provides);
            let mut t = state.templates.remove(i);
            t.needs = Some(remaining);
            state.templates.insert(i, t);
        }
        i = i + 1;
    }
}

/// Removes from every unrendered template's unmet needs the requirements
/// that `new_provides` meets.
pub fn update_unmet_needs(state: &mut RenderState, new_provides: &[String])
    ensures
        final(state).templates@.len() == old(state).templates@.len(),
        forall|i: int| 0 <= i < final(state).templates@.len() ==> {
            let t = old(state).templates@[i];
            let t2 = #[trigger] final(state).templates@[i];
            &&& same_template(t, t2)
            &&& match needs_view(t) {
                Some(rem) => !t.rendered ==> needs_view(t2) == Some(still_unmet(rem, string_views(new_provides@))),
                None => t2.needs is None,
            }
            &&& t.rendered ==> t2.needs == t.needs
        },
{
    let n = state.templates.len();
    let ghost old_ts = state.templates@;
    let mut i: usize = 0;
    while i < n
        invariant
            i <= n == state.templates@.len() == old_ts.len(),
            old_ts == old(state).templates@,
            forall|k: int| i <= k < n ==> state.templates@[k] == old_ts[k],
            forall|k: int| 0 <= k < i ==> {
                let t = old_ts[k];
                let t2 = #[trigger] state.templates@[k];
                &&& same_template(t, t2)
                &&& match needs_view(t) {
                    Some(rem) => !t.rendered ==> needs_view(t2) == Some(still_unmet(rem, string_views(new_provides@))),
                    None => t2.needs is None,
                }
                &&& t.rendered ==> t2.needs == t.needs
            },
        decreases n - i,
    {
        if !state.templates[i].rendered {
            let updated = match &state.templates[i].needs {
                Some(rem) => Some(remaining_after(rem, new_provides)),
                None => None,
            };
            let mut t = state.templates.remove(i);
            t.needs = updated;
            state.templates.insert(i, t);
        }
        i = i + 1;
    }
}

/// Indices of the templates ready to render, in order.
pub fn ready_templates(state: &RenderState) -> (res: Vec<usize>)
    ensures
        forall|k: int| 0 <= k < res@.len() ==> (#[trigger] res@[k]) < state.templates@.len() && is_ready(state.templates@[res@[k] as int]),
        forall|i: int| 0 <= i < state.templates@.len() && is_ready(#[trigger] state.templates@[i]) ==> res@.contains(i as usize),
        forall|k: int, m: int| 0 <= k < m < res@.len() ==> res@[k] < res@[m],
{
    let mut res: Vec<usize> = Vec::new();
    let mut i: usize = 0;
    while i < state.templates.len()
        invariant
            i <= state.templates@.len(),
            forall|k: int| 0 <= k < res@.len() ==> (#[trigger] res@[k]) < i && is_ready(state.templates@[res@[k] as int]),
            forall|j: int| 0 <= j < i && is_ready(#[trigger] state.templates@[j]) ==> res@.contains(j as usize),
            forall|k: int, m: int| 0 <= k < m < res@.len() ==> res@[k] < res@[m],
        decreases state.templates.len() - i,
    {
        let t = &state.templates[i];
        let ready = !t.rendered && match &t.needs {
            Some(v) => v.len() == 0,
            None => false,
        };
        if ready {
            let ghost before = res@;
            res.push(i);
            assert forall|j: int| 0 <= j < i + 1 && is_ready(#[trigger] state.templates@[j]) implies res@.contains(j as usize) by {
                if j < i {
                    let q = choose|q: int| 0 <= q < before.len() && before[q] == j as usize;
                    assert(res@[q] == j as usize);
                } else {
                    assert(res@[before.len() as int] == i);
                }
            }
        }
        i = i + 1;
    }
    res
}

/// Whether some template is ready to render.
pub fn is_work_remaining(state: &RenderState) -> (res: bool)
    ensures
        res == exists|i: int| 0 <= i < state.templates@.len() && is_ready(#[trigger] state.templates@[i]),
{
    let ready = ready_templates(state);
    if ready.len() > 0 {
        assert(is_ready(state.templates@[ready@[0] as int]));
        true
    } else {
        assert forall|i: int| 0 <= i < state.templates@.len() implies !is_ready(#[trigger] state.templates@[i]) by {
            if is_ready(state.templates@[i]) {
                assert(ready@.contains(i as usize));
            }
        }
        false
    }
}

/// Marks template `idx` as rendered.
pub fn mark_rendered(state: &mut RenderState, idx: usize)
    requires
        idx < old(state).templates@.len(),
    ensures
        final(state).templates@.len() == old(state).templates@.len(),
        final(state).templates@[idx as int].rendered,
        final(state).templates@[idx as int].needs == old(state).templates@[idx as int].needs,
        final(state).templates@[idx as int].entity == old(state).templates@[idx as int].entity,
        final(state).templates@[idx as int].template_name == old(state).templates@[idx as int].template_name,
        final(state).templates@[idx as int].requirements == old(state).templates@[idx as int].requirements,
        forall|i: int| 0 <= i < final(state).templates@.len() && i != idx ==> #[trigger] final(state).templates@[i] == old(state).templates@[i],
{
    let mut t = state.templates.remove(idx);
    t.rendered = true;
    state.templates.insert(idx, t);
}

// =============================================================================
// Laws
// =============================================================================

/// A requirement is met by the keys of `p` followed by those of `q` exactly
/// when `p` or `q` meets it.
pub proof fn lemma_satisfied_concat(r: Seq<char>, p: Seq<Seq<char>>, q: Seq<Seq<char>>)
    ensures
        requirement_satisfied(r, p + q) <==> (requirement_satisfied(r, p) || requirement_satisfied(r, q)),
{
    let pq = p + q;
    if requirement_satisfied(r, pq) {
        let i = choose|i: int| 0 <= i < pq.len() && crate::node::satisfies(#[trigger] pq[i], r);
        if i < p.len() {
            assert(p[i] == pq[i]);
        } else {
            assert(q[i - p.len()] == pq[i]);
        }
    }
    if requirement_satisfied(r, p) {
        let i = choose|i: int| 0 <= i < p.len() && crate::node::satisfies(#[trigger] p[i], r);
        assert(pq[i] == p[i]);
    }
    if requirement_satisfied(r, q) {
        let i = choose|i: int| 0 <= i < q.len() && crate::node::satisfies(#[trigger] q[i], r);
        assert(pq[p.len() + i] == q[i]);
    }
}

/// A requirement stays unmet after new keys arrive exactly when it was
/// unmet before and the new keys do not meet it: unmet needs only shrink.
pub proof fn lemma_still_unmet_members(remaining: Seq<Seq<char>>, provides: Seq<Seq<char>>)
    ensures
        forall|x: Seq<char>| #[trigger] still_unmet(remaining, provides).contains(x)
            <==> (remaining.contains(x) && !requirement_satisfied(x, provides)),
        still_unmet(remaining, provides).len() <= remaining.len(),
    decreases remaining.len(),
{
    if remaining.len() > 0 {
        let pre = remaining.drop_last();
        lemma_still_unmet_members(pre, provides);
        let u = still_unmet(pre, provides);
        crate::graph::lemma_push_contains(u, remaining.last());
        crate::graph::lemma_push_contains(pre, remaining.last());
        assert(remaining == pre.push(remaining.last()));
    }
}

/// After initialization a template's unmet needs hold each of its
/// requirements that the provided keys leave unmet, once, and nothing else.
pub proof fn lemma_unmet_unique_members(reqs: Seq<Seq<char>>, provides: Seq<Seq<char>>)
    ensures
        forall|x: Seq<char>| #[trigger] unmet_unique(reqs, provides).contains(x)
            <==> (reqs.contains(x) && !requirement_satisfied(x, provides)),
        unmet_unique(reqs, provides).no_duplicates(),
    decreases reqs.len(),
{
    if reqs.len() > 0 {
        let pre = reqs.drop_last();
        lemma_unmet_unique_members(pre, provides);
        let u = unmet_unique(pre, provides);
        let r = reqs.last();
        crate::graph::lemma_push_contains(u, r);
        crate::graph::lemma_push_contains(pre, r);
        assert(reqs == pre.push(r));
        if !(requirement_satisfied(r, provides) || u.contains(r)) {
            let res = u.push(r);
            assert forall|i: int, j: int| 0 <= i < res.len() && 0 <= j < res.len() && i != j implies res[i] != res[j] by {
                if i < u.len() && j < u.len() {
                } else if i == u.len() {
                    assert(u.contains(res[j]));
                } else {
                    assert(u.contains(res[i]));
                }
            }
        }
    }
}

/// Updating unmet needs with new keys gives what initializing them with the
/// earlier keys followed by the new ones would have given.
pub proof fn lemma_update_after_initialize(reqs: Seq<Seq<char>>, p: Seq<Seq<char>>, q: Seq<Seq<char>>)
    ensures
        still_unmet(unmet_unique(reqs, p), q) == unmet_unique(reqs, p + q),
    decreases reqs.len(),
{
    if reqs.len() > 0 {
        let pre = reqs.drop_last();
        let r = reqs.last();
        lemma_update_after_initialize(pre, p, q);
        lemma_satisfied_concat(r, p, q);
        let u = unmet_unique(pre, p);
        let w = unmet_unique(pre, p + q);
        lemma_still_unmet_members(u, q);
        if requirement_satisfied(r, p) || u.contains(r) {
        } else {
            assert(unmet_unique(reqs, p) == u.push(r));
            assert(u.push(r).drop_last() == u);
            assert(!w.contains(r));
        }
    }
}

} // verus!
