//! The project tree: directories, data files and templates, by name. Data
//! files provide keys, templates require them; output files loaded back
//! into the tree provide keys under the directories they were written to.

use vstd::prelude::*;
use crate::node::{spec_build_output_prefix, spec_strip_prefix, strip_prefix_parts, NodeInfo, SeenOutputFiles};
use crate::config::VVConfig;
use crate::path::{extension, spec_extension};
use crate::path::spec_push;
use crate::text::{chars_eq, chars_of, extend, string_from_chars, string_views};

verus! {

/// A node of the project tree; `D` is the loaded value of a data file.
#[verifier::reject_recursive_types(D)]
pub enum DataNode<D> {
    Directory { info: NodeInfo, children: Vec<(String, DataNode<D>)> },
    Datafile { info: NodeInfo, value: D, provides: Option<Vec<String>> },
    Template { info: NodeInfo, template_name: String, required: Vec<String> },
}

/// `keys` under `prefix`: each key after the prefix and a dot, or the keys
/// as they are for an empty prefix.
pub open spec fn keys_with_prefix(keys: Seq<Seq<char>>, prefix: Seq<char>) -> Seq<Seq<char>> {
    if prefix.len() == 0 {
        keys
    } else {
        keys.map_values(|k: Seq<char>| prefix + seq!['.'] + k)
    }
}

/// The prefix of a child: a directory adds its name, a file keeps the
/// prefix (its keys already start with its name).
pub open spec fn child_prefix<D>(prefix: Seq<char>, name: Seq<char>, child: DataNode<D>) -> Seq<char> {
    if child is Directory {
        if prefix.len() == 0 { name } else { prefix + seq!['.'] + name }
    } else {
        prefix
    }
}

/// The keys provided below a node, in child order, under `prefix`.
pub open spec fn node_provides<D>(n: DataNode<D>, prefix: Seq<char>) -> Seq<Seq<char>>
    decreases n,
{
    match n {
        DataNode::Datafile { provides, .. } => match provides {
            Some(p) => keys_with_prefix(string_views(p@), prefix),
            None => Seq::empty(),
        },
        DataNode::Template { .. } => Seq::empty(),
        DataNode::Directory { children, .. } => children_provides(children@, prefix),
    }
}

/// The keys provided below each child, in order.
pub open spec fn children_provides<D>(cs: Seq<(String, DataNode<D>)>, prefix: Seq<char>) -> Seq<Seq<char>>
    decreases cs,
{
    if cs.len() == 0 {
        Seq::empty()
    } else {
        let last = cs[cs.len() - 1];
        children_provides(cs.subrange(0, cs.len() - 1), prefix)
            + node_provides(last.1, child_prefix(prefix, last.0@, last.1))
    }
}

/// The requirements of the templates below a node, in child order.
pub open spec fn node_requires<D>(n: DataNode<D>) -> Seq<Seq<char>>
    decreases n,
{
    match n {
        DataNode::Template { required, .. } => string_views(required@),
        DataNode::Datafile { .. } => Seq::empty(),
        DataNode::Directory { children, .. } => children_requires(children@),
    }
}

/// The requirements below each child, in order.
pub open spec fn children_requires<D>(cs: Seq<(String, DataNode<D>)>) -> Seq<Seq<char>>
    decreases cs,
{
    if cs.len() == 0 {
        Seq::empty()
    } else {
        let last = cs[cs.len() - 1];
        children_requires(cs.subrange(0, cs.len() - 1)) + node_requires(last.1)
    }
}

/// The templates below a node (name and requirements), in child order.
pub open spec fn node_templates<D>(n: DataNode<D>) -> Seq<(Seq<char>, Seq<Seq<char>>)>
    decreases n,
{
    match n {
        DataNode::Template { template_name, required, .. } => seq![(template_name@, string_views(required@))],
        DataNode::Datafile { .. } => Seq::empty(),
        DataNode::Directory { children, .. } => children_templates(children@),
    }
}

/// The templates below each child, in order.
pub open spec fn children_templates<D>(cs: Seq<(String, DataNode<D>)>) -> Seq<(Seq<char>, Seq<Seq<char>>)>
    decreases cs,
{
    if cs.len() == 0 {
        Seq::empty()
    } else {
        let last = cs[cs.len() - 1];
        children_templates(cs.subrange(0, cs.len() - 1)) + node_templates(last.1)
    }
}

fn copy_str(s: &String) -> (res: String)
    ensures
        res@ == s@,
{
    string_from_chars(chars_of(s.as_str()).as_slice())
}

fn prefixed_key(prefix: &[char], key: &String) -> (res: String)
    ensures
        res@ == if prefix@.len() == 0 { key@ } else { prefix@ + seq!['.'] + key@ },
{
    if prefix.len() == 0 {
        copy_str(key)
    } else {
        let mut r: Vec<char> = Vec::new();
        extend(&mut r, prefix);
        r.push('.');
        extend(&mut r, chars_of(key.as_str()).as_slice());
        string_from_chars(r.as_slice())
    }
}

/// Appends `keys` under `prefix` to `out`.
fn push_prefixed(out: &mut Vec<String>, keys: &Vec<String>, prefix: &[char])
    ensures
        string_views(final(out)@) == string_views(old(out)@) + keys_with_prefix(string_views(keys@), prefix@),
{
    let ghost start = string_views(out@);
    let mut i: usize = 0;
    while i < keys.len()
        invariant
            i <= keys.len(),
            string_views(out@) == start + keys_with_prefix(string_views(keys@), prefix@).take(i as int),
        decreases keys.len() - i,
    {
        let k = prefixed_key(prefix, &keys[i]);
        let ghost before = string_views(out@);
        out.push(k);
        assert(string_views(out@) == before.push(k@));
        assert(keys_with_prefix(string_views(keys@), prefix@).take(i + 1)
            == keys_with_prefix(string_views(keys@), prefix@).take(i as int).push(k@));
        i = i + 1;
    }
    assert(keys_with_prefix(string_views(keys@), prefix@).take(keys.len() as int) == keys_with_prefix(string_views(keys@), prefix@));
}

/// Appends the keys provided below `n` under `prefix` to `out`.
#[verifier::loop_isolation(false)]
fn collect_provides<D>(n: &DataNode<D>, prefix: &[char], out: &mut Vec<String>)
    ensures
        string_views(final(out)@) == string_views(old(out)@) + node_provides(*n, prefix@),
    decreases n,
{
    match n {
        DataNode::Datafile { provides, .. } => {
            match provides {
                Some(p) => push_prefixed(out, p, prefix),
                None => {
                    assert(string_views(out@) =~= string_views(out@) + Seq::<Seq<char>>::empty());
                },
            }
        },
        DataNode::Template { .. } => {
            assert(string_views(out@) =~= string_views(out@) + Seq::<Seq<char>>::empty());
        },
        DataNode::Directory { children, .. } => {
            let ghost start = string_views(out@);
            let mut i: usize = 0;
            assert(children@.subrange(0, 0) =~= Seq::<(String, DataNode<D>)>::empty());
            assert(start =~= start + Seq::<Seq<char>>::empty());
            while i < children.len()
                invariant
                    i <= children.len(),
                    string_views(out@) == start + children_provides(children@.subrange(0, i as int), prefix@),
                decreases children.len() - i,
            {
                let ghost sub = children@.subrange(0, i + 1);
                assert(sub.subrange(0, sub.len() - 1) == children@.subrange(0, i as int));
                assert(sub[sub.len() - 1] == children@[i as int]);
                let name = &children[i].0;
                let child = &children[i].1;
                let mut cp: Vec<char> = Vec::new();
                match child {
                    DataNode::Directory { .. } => {
                        if prefix.len() > 0 {
                            extend(&mut cp, prefix);
                            cp.push('.');
                        }
                        extend(&mut cp, chars_of(name.as_str()).as_slice());
                    },
                    _ => {
                        extend(&mut cp, prefix);
                    },
                }
                assert(cp@ == child_prefix(prefix@, name@, *child));
                proof {
                    assert(decreases_to!(children@ => children@[i as int]));
                    assert(decreases_to!(children@[i as int] => children@[i as int].1));
                }
                collect_provides(child, cp.as_slice(), out);
                i = i + 1;
            }
            assert(children@.subrange(0, children.len() as int) == children@);
        },
    }
}

/// All keys provided in the tree below `root`, each under the names of the
/// directories that lead to it (the root's own name not included).
pub fn collect_all_provides<D>(root: &DataNode<D>) -> (res: Vec<String>)
    ensures
        string_views(res@) == node_provides(*root, Seq::<char>::empty()),
{
    let mut out: Vec<String> = Vec::new();
    let empty: [char; 0] = [];
    assert(empty@ == Seq::<char>::empty());
    collect_provides(root, &empty, &mut out);
    assert(string_views(out@) =~= node_provides(*root, Seq::<char>::empty()));
    out
}

/// Appends the requirements below `n` to `out`.
#[verifier::loop_isolation(false)]
fn collect_requires<D>(n: &DataNode<D>, out: &mut Vec<String>)
    ensures
        string_views(final(out)@) == string_views(old(out)@) + node_requires(*n),
    decreases n,
{
    match n {
        DataNode::Template { required, .. } => {
            let empty: [char; 0] = [];
            push_prefixed(out, required, &empty);
        },
        DataNode::Datafile { .. } => {
            assert(string_views(out@) =~= string_views(out@) + Seq::<Seq<char>>::empty());
        },
        DataNode::Directory { children, .. } => {
            let ghost start = string_views(out@);
            let mut i: usize = 0;
            assert(children@.subrange(0, 0) =~= Seq::<(String, DataNode<D>)>::empty());
            assert(start =~= start + Seq::<Seq<char>>::empty());
            while i < children.len()
                invariant
                    i <= children.len(),
                    string_views(out@) == start + children_requires(children@.subrange(0, i as int)),
                decreases children.len() - i,
            {
                let ghost sub = children@.subrange(0, i + 1);
                assert(sub.subrange(0, sub.len() - 1) == children@.subrange(0, i as int));
                assert(sub[sub.len() - 1] == children@[i as int]);
                proof {
                    assert(decreases_to!(children@ => children@[i as int]));
                    assert(decreases_to!(children@[i as int] => children@[i as int].1));
                }
                collect_requires(&children[i].1, out);
                i = i + 1;
            }
            assert(children@.subrange(0, children.len() as int) == children@);
        },
    }
}

/// All requirements of the templates in the tree below `root`.
pub fn collect_all_requires<D>(root: &DataNode<D>) -> (res: Vec<String>)
    ensures
        string_views(res@) == node_requires(*root),
{
    let mut out: Vec<String> = Vec::new();
    collect_requires(root, &mut out);
    assert(string_views(out@) =~= node_requires(*root));
    out
}

/// A template found in the tree: its name and requirements.
pub struct TemplateEntry {
    pub template_name: String,
    pub required: Vec<String>,
}

/// A template entry as plain values.
pub open spec fn template_entry_view(t: TemplateEntry) -> (Seq<char>, Seq<Seq<char>>) {
    (t.template_name@, string_views(t.required@))
}

fn copy_strings(v: &Vec<String>) -> (res: Vec<String>)
    ensures
        string_views(res@) == string_views(v@),
{
    let mut out: Vec<String> = Vec::new();
    let empty: [char; 0] = [];
    assert(empty@ == Seq::<char>::empty());
    push_prefixed(&mut out, v, &empty);
    assert(string_views(out@) =~= string_views(v@));
    out
}

/// Appends the templates below `n` to `out`.
#[verifier::loop_isolation(false)]
fn collect_templates<D>(n: &DataNode<D>, out: &mut Vec<TemplateEntry>)
    ensures
        final(out)@.map_values(|t: TemplateEntry| template_entry_view(t))
            == old(out)@.map_values(|t: TemplateEntry| template_entry_view(t)) + node_templates(*n),
    decreases n,
{
    match n {
        DataNode::Template { template_name, required, .. } => {
            let ghost before = out@.map_values(|t: TemplateEntry| template_entry_view(t));
            let e = TemplateEntry { template_name: copy_str(template_name), required: copy_strings(required) };
            out.push(e);
            assert(out@.map_values(|t: TemplateEntry| template_entry_view(t)) =~= before + seq![template_entry_view(e)]);
        },
        DataNode::Datafile { .. } => {
            assert(out@.map_values(|t: TemplateEntry| template_entry_view(t))
                =~= out@.map_values(|t: TemplateEntry| template_entry_view(t)) + Seq::<(Seq<char>, Seq<Seq<char>>)>::empty());
        },
        DataNode::Directory { children, .. } => {
            let ghost start = out@.map_values(|t: TemplateEntry| template_entry_view(t));
            let mut i: usize = 0;
            assert(children@.subrange(0, 0) =~= Seq::<(String, DataNode<D>)>::empty());
            assert(start =~= start + Seq::<(Seq<char>, Seq<Seq<char>>)>::empty());
            while i < children.len()
                invariant
                    i <= children.len(),
                    out@.map_values(|t: TemplateEntry| template_entry_view(t)) == start + children_templates(children@.subrange(0, i as int)),
                decreases children.len() - i,
            {
                let ghost sub = children@.subrange(0, i + 1);
                assert(sub.subrange(0, sub.len() - 1) == children@.subrange(0, i as int));
                assert(sub[sub.len() - 1] == children@[i as int]);
                proof {
                    assert(decreases_to!(children@ => children@[i as int]));
                    assert(decreases_to!(children@[i as int] => children@[i as int].1));
                }
                collect_templates(&children[i].1, out);
                i = i + 1;
            }
            assert(children@.subrange(0, children.len() as int) == children@);
        },
    }
}

/// The templates in the tree below `root`, in child order.
pub fn collect_templates_of<D>(root: &DataNode<D>) -> (res: Vec<TemplateEntry>)
    ensures
        res@.map_values(|t: TemplateEntry| template_entry_view(t)) == node_templates(*root),
{
    let mut out: Vec<TemplateEntry> = Vec::new();
    collect_templates(root, &mut out);
    assert(out@.map_values(|t: TemplateEntry| template_entry_view(t)) =~= node_templates(*root));
    out
}

/// A tree as plain values: paths and names as characters, children in
/// order by name.
#[verifier::reject_recursive_types(D)]
pub enum TreeView<D> {
    Dir { path: Seq<char>, name: Seq<char>, children: Seq<(Seq<char>, TreeView<D>)> },
    File { path: Seq<char>, name: Seq<char>, value: D, provides: Option<Seq<Seq<char>>> },
    Tmpl { path: Seq<char>, name: Seq<char>, template_name: Seq<char>, required: Seq<Seq<char>> },
}

/// The view of a node.
pub open spec fn tree_view<D>(n: DataNode<D>) -> TreeView<D>
    decreases n,
{
    match n {
        DataNode::Directory { info, children } => TreeView::Dir { path: info.path@, name: info.name@, children: children_view(children@) },
        DataNode::Datafile { info, value, provides } => TreeView::File {
            path: info.path@,
            name: info.name@,
            value,
            provides: match provides { Some(p) => Some(string_views(p@)), None => None },
        },
        DataNode::Template { info, template_name, required } => TreeView::Tmpl {
            path: info.path@,
            name: info.name@,
            template_name: template_name@,
            required: string_views(required@),
        },
    }
}

/// The views of children.
pub open spec fn children_view<D>(cs: Seq<(String, DataNode<D>)>) -> Seq<(Seq<char>, TreeView<D>)>
    decreases cs,
{
    if cs.len() == 0 {
        Seq::empty()
    } else {
        let last = cs[cs.len() - 1];
        children_view(cs.subrange(0, cs.len() - 1)).push((last.0@, tree_view(last.1)))
    }
}

/// Index of the last child named `name`.
pub open spec fn child_index<D>(cs: Seq<(Seq<char>, TreeView<D>)>, name: Seq<char>) -> Option<int>
    decreases cs.len(),
{
    if cs.len() == 0 {
        None
    } else if cs.last().0 == name {
        Some(cs.len() - 1)
    } else {
        child_index(cs.drop_last(), name)
    }
}

/// Sets the child named `name` (children form a map by name): the child
/// with that name is replaced in place, or the child is added at the end.
pub open spec fn set_child<D>(cs: Seq<(Seq<char>, TreeView<D>)>, name: Seq<char>, child: TreeView<D>) -> Seq<(Seq<char>, TreeView<D>)> {
    match child_index(cs, name) {
        Some(i) => cs.update(i, (cs[i].0, child)),
        None => cs.push((name, child)),
    }
}

/// A new empty directory at `path` named `name`.
pub open spec fn new_dir<D>(path: Seq<char>, name: Seq<char>) -> TreeView<D> {
    TreeView::Dir { path, name, children: Seq::empty() }
}

/// The tree with the directories `dirs` below `n` made to exist and, when
/// `entry` is given, its node set as the child of that name of the last
/// one: each step goes into the child directory of that name, or, where
/// there is none (or the child of that name is no directory), into a new
/// empty directory that takes its place, its path being `at` joined with
/// the name. A node that is no directory is left as it is.
pub open spec fn insert_below<D>(n: TreeView<D>, at: Seq<char>, dirs: Seq<Seq<char>>, entry: Option<(Seq<char>, TreeView<D>)>) -> TreeView<D>
    decreases dirs.len(),
{
    match n {
        TreeView::Dir { path, name: dname, children } => {
            if dirs.len() == 0 {
                match entry {
                    Some((name, leaf)) => TreeView::Dir { path, name: dname, children: set_child(children, name, leaf) },
                    None => n,
                }
            } else {
                let d = dirs[0];
                let sub_at = spec_push(at, d);
                let next = match child_index(children, d) {
                    Some(i) => if children[i].1 is Dir { children[i].1 } else { new_dir(sub_at, d) },
                    None => new_dir(sub_at, d),
                };
                TreeView::Dir {
                    path,
                    name: dname,
                    children: set_child(children, d, insert_below(next, sub_at, dirs.skip(1), entry)),
                }
            }
        },
        _ => n,
    }
}

proof fn lemma_children_view_len<D>(cs: Seq<(String, DataNode<D>)>)
    ensures
        children_view(cs).len() == cs.len(),
        forall|i: int| 0 <= i < cs.len() ==> #[trigger] children_view(cs)[i] == (cs[i].0@, tree_view(cs[i].1)),
    decreases cs.len(),
{
    if cs.len() > 0 {
        lemma_children_view_len(cs.subrange(0, cs.len() - 1));
        let r = children_view(cs.subrange(0, cs.len() - 1));
        assert forall|i: int| 0 <= i < cs.len() implies #[trigger] children_view(cs)[i] == (cs[i].0@, tree_view(cs[i].1)) by {
            if i < cs.len() - 1 {
                assert(children_view(cs)[i] == r[i]);
                assert(cs.subrange(0, cs.len() - 1)[i] == cs[i]);
            }
        }
    }
}

proof fn lemma_children_view_eq<D>(a: Seq<(String, DataNode<D>)>, b: Seq<(Seq<char>, TreeView<D>)>)
    requires
        a.len() == b.len(),
        forall|i: int| 0 <= i < a.len() ==> b[i] == (a[i].0@, tree_view(a[i].1)),
    ensures
        children_view(a) == b,
{
    lemma_children_view_len(a);
    assert(children_view(a) =~= b);
}

fn child_index_exec<D>(cs: &Vec<(String, DataNode<D>)>, name: &[char]) -> (res: Option<usize>)
    ensures
        match res {
            Some(i) => i < cs.len() && child_index(children_view(cs@), name@) == Some(i as int),
            None => child_index(children_view(cs@), name@) is None,
        },
{
    let ghost cv = children_view(cs@);
    proof { lemma_children_view_len(cs@); }
    let mut j: usize = cs.len();
    assert(cv.take(j as int) == cv);
    while j > 0
        invariant
            j <= cs.len(),
            cv == children_view(cs@),
            cv.len() == cs.len(),
            forall|i: int| 0 <= i < cs.len() ==> #[trigger] cv[i] == (cs@[i].0@, tree_view(cs@[i].1)),
            child_index(cv.take(j as int), name@) == child_index(cv, name@),
        decreases j,
    {
        assert(cv.take(j as int).last() == cv[j - 1]);
        assert(cv.take(j as int).drop_last() == cv.take(j - 1));
        if chars_eq(chars_of(cs[j - 1].0.as_str()).as_slice(), name) {
            return Some(j - 1);
        }
        j = j - 1;
    }
    None
}

proof fn lemma_child_index<D>(cs: Seq<(Seq<char>, TreeView<D>)>, name: Seq<char>)
    ensures
        match child_index(cs, name) {
            Some(i) => 0 <= i < cs.len() && cs[i].0 == name,
            None => true,
        },
    decreases cs.len(),
{
    if cs.len() > 0 && cs.last().0 != name {
        lemma_child_index(cs.drop_last(), name);
    }
}

/// Children form a map by name: after the child named `name` is set, it is
/// the child found under `name`, and what is found under any other name is
/// as before.
pub proof fn lemma_set_child_lookup<D>(cs: Seq<(Seq<char>, TreeView<D>)>, name: Seq<char>, child: TreeView<D>, other: Seq<char>)
    ensures
        child_index(set_child(cs, name, child), name) matches Some(i)
            && 0 <= i < set_child(cs, name, child).len() && set_child(cs, name, child)[i].1 == child,
        other != name ==> match child_index(cs, other) {
            Some(j) => child_index(set_child(cs, name, child), other) == Some(j) && set_child(cs, name, child)[j] == cs[j],
            None => child_index(set_child(cs, name, child), other) is None,
        },
{
    let r = set_child(cs, name, child);
    lemma_child_index(cs, name);
    lemma_child_index(cs, other);
    match child_index(cs, name) {
        Some(i0) => {
            assert(r == cs.update(i0, (cs[i0].0, child)));
            assert forall|j: int| 0 <= j < cs.len() implies (#[trigger] cs[j]).0 == r[j].0 by {}
            lemma_child_index_same_names(cs, r, name);
            lemma_child_index_same_names(cs, r, other);
        },
        None => {
            assert(r == cs.push((name, child)));
            assert(r.drop_last() == cs);
        },
    }
}

/// Sets the child named `name` of a child list.
pub fn put_child<D>(cs: &mut Vec<(String, DataNode<D>)>, name: String, child: DataNode<D>)
    ensures
        children_view(final(cs)@) == set_child(children_view(old(cs)@), name@, tree_view(child)),
{
    proof {
        lemma_children_view_len(cs@);
        lemma_child_index(children_view(cs@), name@);
    }
    let ghost before = cs@;
    match child_index_exec(cs, chars_of(name.as_str()).as_slice()) {
        Some(i) => {
            let (k, _old) = cs.remove(i);
            cs.insert(i, (k, child));
            assert(cs@ =~= before.update(i as int, (before[i as int].0, child)));
            proof {
                lemma_children_view_eq(cs@, children_view(before).update(i as int, (children_view(before)[i as int].0, tree_view(child))));
            }
        },
        None => {
            cs.push((name, child));
            proof {
                lemma_children_view_eq(cs@, children_view(before).push((name@, tree_view(child))));
            }
        },
    }
}

fn new_dir_node<D>(path: &str, name: &String) -> (res: DataNode<D>)
    ensures
        tree_view(res) == new_dir::<D>(path@, name@),
{
    let res = DataNode::Directory {
        info: NodeInfo { path: string_from_chars(chars_of(path).as_slice()), name: copy_str(name) },
        children: Vec::new(),
    };
    assert(children_view(Seq::<(String, DataNode<D>)>::empty()) =~= Seq::<(Seq<char>, TreeView<D>)>::empty());
    res
}

proof fn lemma_child_index_same_names<D>(cv: Seq<(Seq<char>, TreeView<D>)>, cv2: Seq<(Seq<char>, TreeView<D>)>, name: Seq<char>)
    requires
        cv.len() == cv2.len(),
        forall|j: int| 0 <= j < cv.len() ==> (#[trigger] cv[j]).0 == cv2[j].0,
    ensures
        child_index(cv2, name) == child_index(cv, name),
    decreases cv.len(),
{
    if cv.len() > 0 {
        assert(cv.last().0 == cv2.last().0) by {
            assert(cv[cv.len() - 1].0 == cv2[cv.len() - 1].0);
        }
        assert forall|j: int| 0 <= j < cv.drop_last().len() implies (#[trigger] cv.drop_last()[j]).0 == cv2.drop_last()[j].0 by {
            assert(cv[j].0 == cv2[j].0);
        }
        lemma_child_index_same_names(cv.drop_last(), cv2.drop_last(), name);
    }
}

proof fn lemma_set_child_same<D>(cv: Seq<(Seq<char>, TreeView<D>)>, cv2: Seq<(Seq<char>, TreeView<D>)>, i: int, name: Seq<char>, x: TreeView<D>)
    requires
        cv.len() == cv2.len(),
        0 <= i < cv.len(),
        cv2[i].0 == cv[i].0,
        forall|j: int| 0 <= j < cv.len() && j != i ==> cv2[j] == cv[j],
        child_index(cv, name) == Some(i),
        child_index(cv2, name) == Some(i),
    ensures
        set_child(cv2, name, x) == set_child(cv, name, x),
{
    assert(set_child(cv2, name, x) =~= set_child(cv, name, x));
}

/// The view of an optional entry.
pub open spec fn entry_view<D>(e: Option<(String, DataNode<D>)>) -> Option<(Seq<char>, TreeView<D>)> {
    match e {
        Some((name, n)) => Some((name@, tree_view(n))),
        None => None,
    }
}

/// Makes the directories `dirs[k..]` exist below `n` and sets `entry` in the
/// last one.
fn insert_from<D>(n: DataNode<D>, at: &str, dirs: &Vec<String>, k: usize, entry: Option<(String, DataNode<D>)>) -> (res: DataNode<D>)
    requires
        k <= dirs.len(),
    ensures
        tree_view(res) == insert_below(tree_view(n), at@, string_views(dirs@).skip(k as int), entry_view(entry)),
    decreases dirs.len() - k,
{
    let ghost dv = string_views(dirs@).skip(k as int);
    match n {
        DataNode::Directory { info, mut children } => {
            if k == dirs.len() {
                assert(dv.len() == 0);
                match entry {
                    Some((name, leaf)) => {
                        put_child(&mut children, name, leaf);
                        DataNode::Directory { info, children }
                    },
                    None => DataNode::Directory { info, children },
                }
            } else {
                let d = &dirs[k];
                assert(dv[0] == d@);
                assert(dv.skip(1) == string_views(dirs@).skip(k + 1));
                let sub_at = crate::path::push_path(at, d.as_str());
                proof {
                    lemma_children_view_len(children@);
                    lemma_child_index(children_view(children@), d@);
                }
                let ghost cv = children_view(children@);
                let ghost before = children@;
                let found = child_index_exec(&children, chars_of(d.as_str()).as_slice());
                let next: DataNode<D> = match found {
                    Some(i) => {
                        let (key, c) = children.remove(i);
                        let c2 = match c {
                            DataNode::Directory { info: ci, children: cc } => DataNode::Directory { info: ci, children: cc },
                            _ => new_dir_node(sub_at.as_str(), d),
                        };
                        let placeholder: DataNode<D> = new_dir_node(sub_at.as_str(), d);
                        children.insert(i, (key, placeholder));
                        assert(children@ =~= before.update(i as int, (before[i as int].0, placeholder)));
                        proof {
                            lemma_children_view_len(before);
                            lemma_children_view_eq(children@, cv.update(i as int, (cv[i as int].0, tree_view(placeholder))));
                        }
                        c2
                    },
                    None => new_dir_node(sub_at.as_str(), d),
                };
                let ghost cv2 = children_view(children@);
                proof {
                    lemma_children_view_len(children@);
                    lemma_child_index_same_names(cv, cv2, d@);
                }
                let inner = insert_from(next, sub_at.as_str(), dirs, k + 1, entry);
                let dname = copy_str(d);
                put_child(&mut children, dname, inner);
                proof {
                    match found {
                        Some(i) => { lemma_set_child_same(cv, cv2, i as int, d@, tree_view(inner)); },
                        None => {},
                    }
                }
                DataNode::Directory { info, children }
            }
        },
        DataNode::Datafile { info, value, provides } => DataNode::Datafile { info, value, provides },
        DataNode::Template { info, template_name, required } => DataNode::Template { info, template_name, required },
    }
}


/// Makes the directories `dirs` exist below `root` (their paths below
/// `at`) and sets `entry` (name and node) in the last of them.
pub fn insert_below_dirs<D>(root: DataNode<D>, at: &str, dirs: &Vec<String>, entry: Option<(String, DataNode<D>)>) -> (res: DataNode<D>)
    ensures
        tree_view(res) == insert_below(tree_view(root), at@, string_views(dirs@), entry_view(entry)),
{
    assert(string_views(dirs@).skip(0) == string_views(dirs@));
    insert_from(root, at, dirs, 0, entry)
}


/// The directories between the output directory and an output file below
/// it (none for a file directly in it, or not below it).
pub open spec fn spec_output_dirs(output_dir: Seq<char>, file_path: Seq<char>) -> Seq<Seq<char>> {
    match spec_strip_prefix(file_path, output_dir) {
        Some(r) => if r.len() > 1 { r.drop_last() } else { Seq::empty() },
        None => Seq::empty(),
    }
}

/// Computes `spec_output_dirs`.
pub fn output_dirs(output_dir: &str, file_path: &str) -> (res: Vec<String>)
    ensures
        string_views(res@) == spec_output_dirs(output_dir@, file_path@),
{
    let mut out: Vec<String> = Vec::new();
    match strip_prefix_parts(chars_of(file_path).as_slice(), chars_of(output_dir).as_slice()) {
        Some(r) => {
            if r.len() > 1 {
                let mut i: usize = 0;
                while i < r.len() - 1
                    invariant
                        i <= r.len() - 1,
                        string_views(out@) == crate::text::views(r@).take(i as int),
                    decreases r.len() - 1 - i,
                {
                    let ghost before = string_views(out@);
                    out.push(string_from_chars(r[i].as_slice()));
                    assert(string_views(out@) == before.push(r@[i as int]@));
                    assert(crate::text::views(r@).take(i + 1) == crate::text::views(r@).take(i as int).push(r@[i as int]@));
                    i = i + 1;
                }
                assert(crate::text::views(r@).take(r.len() - 1) == crate::text::views(r@).drop_last());
            } else {
                assert(string_views(out@) =~= Seq::<Seq<char>>::empty());
            }
        },
        None => {
            assert(string_views(out@) =~= Seq::<Seq<char>>::empty());
        },
    }
    out
}

/// The keys an output file newly provides: its own keys under the dotted
/// names of the directories between the output directory and it.
pub fn output_provides(output_dir: &str, file_path: &str, provides: &Vec<String>) -> (res: Vec<String>)
    ensures
        string_views(res@) == keys_with_prefix(string_views(provides@), spec_build_output_prefix(output_dir@, file_path@)),
{
    let prefix = crate::node::build_output_prefix(output_dir, file_path);
    let mut out: Vec<String> = Vec::new();
    push_prefixed(&mut out, provides, chars_of(prefix.as_str()).as_slice());
    assert(string_views(out@) =~= keys_with_prefix(string_views(provides@), spec_build_output_prefix(output_dir@, file_path@)));
    out
}

/// The extension of `path` is among `exts`.
pub open spec fn has_listed_extension(path: Seq<char>, exts: Seq<Seq<char>>) -> bool {
    match spec_extension(path) {
        Some(e) => exts.contains(e),
        None => false,
    }
}

/// Whether `path` is a template: its extension is a template extension.
pub fn is_template(path: &str, config: &VVConfig) -> (res: bool)
    ensures
        res == has_listed_extension(path@, string_views(config.template_extensions@)),
{
    match extension(path) {
        Some(e) => crate::config::is_template_extension(config, e.as_str()),
        None => false,
    }
}

/// Whether `path` is a data file: its extension is a data extension.
pub fn is_data_file(path: &str, config: &VVConfig) -> (res: bool)
    ensures
        res == has_listed_extension(path@, string_views(config.data_extensions@)),
{
    match extension(path) {
        Some(e) => crate::config::is_data_extension(config, e.as_str()),
        None => false,
    }
}

/// What loading a project does with a directory entry.
#[derive(Debug, Clone, Copy, PartialEq, Eq, Structural)]
pub enum EntryKind {
    /// Left out: an annotation sidecar, or the output directory.
    Skip,
    /// Loaded as a directory.
    Directory,
    /// Loaded as a data file.
    DataFile,
    /// Loaded as a template.
    Template,
    /// Neither data nor template.
    Other,
}

/// How an entry of a project directory is loaded: sidecars and the output
/// subdirectory are skipped; directories are loaded; files (as the source
/// says: `is_file`) are data files or templates by extension.
pub open spec fn spec_classify(path: Seq<char>, is_dir: bool, name: Seq<char>, is_file: bool, c: VVConfig) -> EntryKind {
    if crate::value::spec_is_sidecar(path) {
        EntryKind::Skip
    } else if is_dir && name == c.output_subdir@ {
        EntryKind::Skip
    } else if is_dir {
        EntryKind::Directory
    } else if is_file {
        if has_listed_extension(path, string_views(c.data_extensions@)) {
            EntryKind::DataFile
        } else if has_listed_extension(path, string_views(c.template_extensions@)) {
            EntryKind::Template
        } else {
            EntryKind::Other
        }
    } else {
        EntryKind::Other
    }
}

/// Classifies a directory entry of the project: its path, whether the
/// listing marks it a directory, its data name, and whether the source
/// holds it as a file.
pub fn classify_entry(path: &str, is_dir: bool, name: &str, is_file: bool, config: &VVConfig) -> (res: EntryKind)
    ensures
        res == spec_classify(path@, is_dir, name@, is_file, *config),
{
    if crate::value::is_annotation_sidecar(path) {
        EntryKind::Skip
    } else if is_dir && chars_eq(chars_of(name).as_slice(), chars_of(config.output_subdir.as_str()).as_slice()) {
        EntryKind::Skip
    } else if is_dir {
        EntryKind::Directory
    } else if is_file {
        if is_data_file(path, config) {
            EntryKind::DataFile
        } else if is_template(path, config) {
            EntryKind::Template
        } else {
            EntryKind::Other
        }
    } else {
        EntryKind::Other
    }
}

/// The output files seen so far hold `path` (paths compared as paths).
pub open spec fn seen_holds(seen: Seq<String>, path: Seq<char>) -> bool {
    exists|i: int| 0 <= i < seen.len() && crate::source::components(#[trigger] seen[i]@) == crate::source::components(path)
}

/// Whether `path` was seen already.
pub fn seen_contains(seen: &SeenOutputFiles, path: &str) -> (res: bool)
    ensures
        res == seen_holds(seen.0@, path@),
{
    let mut i: usize = 0;
    while i < seen.0.len()
        invariant
            i <= seen.0.len(),
            forall|j: int| 0 <= j < i ==> crate::source::components(seen.0@[j]@) != crate::source::components(path@),
        decreases seen.0.len() - i,
    {
        if crate::cli::same_path(seen.0[i].as_str(), path) {
            return true;
        }
        i = i + 1;
    }
    false
}

/// Records `path` as seen.
pub fn mark_seen(seen: &mut SeenOutputFiles, path: String)
    ensures
        final(seen).0@ == old(seen).0@.push(path),
{
    seen.0.push(path);
}

} // verus!
