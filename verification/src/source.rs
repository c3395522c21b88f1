//! Project sources: a directory on disk or a `.vv` zip archive held in
//! memory, and the output sinks that rendered files go to.

use vstd::prelude::*;
use crate::error::VVError;
use crate::archive::spec_read_entries;
use crate::node::{is_absolute, spec_strip_prefix, strip_prefix_parts};
use crate::path::{file_name_chars, parts_of, path_parts, push_chars, spec_file_name, spec_push};
use crate::text::{chars_eq, chars_of, join_chars, join_spec, split_chars, split_spec, string_from_chars, views};

verus! {

/// Keeps the non-empty segments.
pub open spec fn nonempty_segments(segs: Seq<Seq<char>>) -> Seq<Seq<char>>
    decreases segs.len(),
{
    if segs.len() == 0 {
        Seq::<Seq<char>>::empty()
    } else {
        let r = nonempty_segments(segs.drop_last());
        if segs.last().len() == 0 { r } else { r.push(segs.last()) }
    }
}

/// A zip entry name as a relative path: its non-empty `/`-separated
/// segments joined by `/` (a trailing `/` of a directory entry dropped).
pub open spec fn spec_normalize_zip_path(name: Seq<char>) -> Seq<char> {
    join_spec(nonempty_segments(split_spec(name, '/')), seq!['/'])
}

/// The components of a path, the root `/` first for an absolute one.
pub open spec fn components(p: Seq<char>) -> Seq<Seq<char>> {
    if is_absolute(p) { seq![seq!['/']] + path_parts(p) } else { path_parts(p) }
}

/// A path as a zip entry name: its components joined by `/`.
pub open spec fn spec_zip_path(p: Seq<char>) -> Seq<char> {
    join_spec(components(p), seq!['/'])
}

fn nonempty_chars(segs: Vec<Vec<char>>) -> (res: Vec<Vec<char>>)
    ensures
        views(res@) == nonempty_segments(views(segs@)),
{
    let ghost all = views(segs@);
    let mut res: Vec<Vec<char>> = Vec::new();
    let mut i: usize = 0;
    while i < segs.len()
        invariant
            i <= segs.len(),
            all == views(segs@),
            views(res@) == nonempty_segments(all.take(i as int)),
        decreases segs.len() - i,
    {
        assert(all.take(i + 1).drop_last() == all.take(i as int));
        if segs[i].len() > 0 {
            proof { crate::text::lemma_views_push(res@, segs@[i as int]); }
            res.push(segs[i].clone());
        }
        i = i + 1;
    }
    assert(all.take(segs.len() as int) == all);
    res
}

/// Normalizes a zip entry name to a relative path.
pub fn normalize_zip_path(zip_path: &str) -> (res: String)
    ensures
        res@ == spec_normalize_zip_path(zip_path@),
{
    let c = chars_of(zip_path);
    let segs = nonempty_chars(split_chars(c.as_slice(), '/'));
    let sep: [char; 1] = ['/'];
    assert(sep@ == seq!['/']);
    let j = join_chars(&segs, &sep);
    assert(segs@.map_values(|v: Vec<char>| v@) == views(segs@));
    string_from_chars(j.as_slice())
}

/// Converts a path to a zip entry name.
pub fn path_to_zip_path(path: &str) -> (res: String)
    ensures
        res@ == spec_zip_path(path@),
{
    let c = chars_of(path);
    let parts = parts_of(c.as_slice());
    let mut comps: Vec<Vec<char>> = Vec::new();
    if c.len() > 0 && c[0] == '/' {
        let mut root: Vec<char> = Vec::new();
        root.push('/');
        comps.push(root);
    }
    let mut i: usize = 0;
    let ghost start = views(comps@);
    while i < parts.len()
        invariant
            i <= parts.len(),
            views(comps@) == start + views(parts@).take(i as int),
        decreases parts.len() - i,
    {
        proof { crate::text::lemma_views_push(comps@, parts@[i as int]); }
        comps.push(parts[i].clone());
        assert(views(parts@).take(i + 1) == views(parts@).take(i as int).push(parts@[i as int]@));
        i = i + 1;
    }
    assert(views(parts@).take(parts.len() as int) == views(parts@));
    assert(views(comps@) == components(path@));
    let sep: [char; 1] = ['/'];
    assert(sep@ == seq!['/']);
    assert(comps@.map_values(|v: Vec<char>| v@) == views(comps@));
    let j = join_chars(&comps, &sep);
    string_from_chars(j.as_slice())
}


/// A directory listing entry.
#[derive(Debug, Clone)]
pub struct DirEntry {
    pub path: String,
    pub name: String,
    pub is_dir: bool,
}

/// A listing entry as plain values.
pub open spec fn entry_view(e: DirEntry) -> (Seq<char>, Seq<char>, bool) {
    (e.path@, e.name@, e.is_dir)
}

/// One path of a zip archive: its normalized name, whether it is a
/// directory, and (for a file) its contents.
pub struct ZipItem {
    pub path: String,
    pub is_dir: bool,
    pub contents: Vec<u8>,
}

/// An item as plain values.
pub open spec fn item_view(it: ZipItem) -> (Seq<char>, bool, Seq<u8>) {
    (it.path@, it.is_dir, it.contents@)
}

/// The items as plain values.
pub open spec fn items_view(items: Seq<ZipItem>) -> Seq<(Seq<char>, bool, Seq<u8>)> {
    items.map_values(|it: ZipItem| item_view(it))
}

/// Index of the first item whose path has the parts `k`.
pub open spec fn find_item(items: Seq<(Seq<char>, bool, Seq<u8>)>, k: Seq<Seq<char>>) -> Option<int>
    decreases items.len(),
{
    if items.len() == 0 {
        None
    } else {
        match find_item(items.drop_last(), k) {
            Some(i) => Some(i),
            None => if path_parts(items.last().0) == k { Some(items.len() - 1) } else { None },
        }
    }
}

/// No two items have paths with the same parts, as paths are compared.
pub open spec fn unique_items(items: Seq<(Seq<char>, bool, Seq<u8>)>) -> bool {
    forall|i: int, j: int| 0 <= i < j < items.len() ==> path_parts(#[trigger] items[i].0) != path_parts(#[trigger] items[j].0)
}

/// Records one archive entry: a path already present takes the entry's
/// kind, and its contents when the entry is a file; a new path is added.
pub open spec fn insert_entry(items: Seq<(Seq<char>, bool, Seq<u8>)>, name: Seq<char>, is_dir: bool, contents: Seq<u8>)
    -> Seq<(Seq<char>, bool, Seq<u8>)>
{
    let key = spec_normalize_zip_path(name);
    match find_item(items, path_parts(key)) {
        Some(i) => items.update(i, (items[i].0, is_dir, if is_dir { items[i].2 } else { contents })),
        None => items.push((key, is_dir, if is_dir { Seq::<u8>::empty() } else { contents })),
    }
}

/// Records the entries in order.
pub open spec fn insert_entries(raw: Seq<(Seq<char>, bool, Seq<u8>)>) -> Seq<(Seq<char>, bool, Seq<u8>)>
    decreases raw.len(),
{
    if raw.len() == 0 {
        Seq::empty()
    } else {
        let r = insert_entries(raw.drop_last());
        insert_entry(r, raw.last().0, raw.last().1, raw.last().2)
    }
}

/// Adds the directory with parts `k` unless a path with those parts exists.
pub open spec fn ensure_dir(items: Seq<(Seq<char>, bool, Seq<u8>)>, k: Seq<Seq<char>>) -> Seq<(Seq<char>, bool, Seq<u8>)> {
    if find_item(items, k) is Some {
        items
    } else {
        items.push((join_spec(k, seq!['/']), true, Seq::<u8>::empty()))
    }
}

/// Adds the ancestors `k.take(j)`, `k.take(j - 1)`, ... down to one part.
pub open spec fn ensure_ancestors(items: Seq<(Seq<char>, bool, Seq<u8>)>, k: Seq<Seq<char>>, j: int) -> Seq<(Seq<char>, bool, Seq<u8>)>
    decreases j,
{
    if j <= 0 {
        items
    } else {
        ensure_ancestors(ensure_dir(items, k.take(j)), k, j - 1)
    }
}

/// Adds the missing ancestor directories of the first `n` paths of `keys`.
pub open spec fn add_implicit_dirs(items: Seq<(Seq<char>, bool, Seq<u8>)>, keys: Seq<Seq<char>>, n: int) -> Seq<(Seq<char>, bool, Seq<u8>)>
    decreases n,
{
    if n <= 0 {
        items
    } else {
        let r = add_implicit_dirs(items, keys, n - 1);
        let k = path_parts(keys[n - 1]);
        ensure_ancestors(r, k, k.len() - 1)
    }
}

/// The paths of an archive built from its entries: each entry recorded,
/// then every missing ancestor directory added.
pub open spec fn archive_items(raw: Seq<(Seq<char>, bool, Seq<u8>)>) -> Seq<(Seq<char>, bool, Seq<u8>)> {
    let first = insert_entries(raw);
    add_implicit_dirs(first, first.map_values(|e: (Seq<char>, bool, Seq<u8>)| e.0), first.len() as int)
}

/// The parts of the path an entry name is recorded under.
pub open spec fn entry_parts(name: Seq<char>) -> Seq<Seq<char>> {
    path_parts(spec_normalize_zip_path(name))
}

proof fn lemma_find_push(s: Seq<(Seq<char>, bool, Seq<u8>)>, x: (Seq<char>, bool, Seq<u8>), k: Seq<Seq<char>>)
    ensures
        find_item(s, k) is Some ==> find_item(s.push(x), k) == find_item(s, k),
        find_item(s, k) is None ==> find_item(s.push(x), k) == (if path_parts(x.0) == k { Some(s.len() as int) } else { None::<int> }),
{
    assert(s.push(x).drop_last() == s);
}

proof fn lemma_find_update(s: Seq<(Seq<char>, bool, Seq<u8>)>, i: int, v: (Seq<char>, bool, Seq<u8>), k: Seq<Seq<char>>)
    requires
        0 <= i < s.len(),
        v.0 == s[i].0,
    ensures
        find_item(s.update(i, v), k) == find_item(s, k),
    decreases s.len(),
{
    let u = s.update(i, v);
    if i < s.len() - 1 {
        assert(u.drop_last() == s.drop_last().update(i, v));
        lemma_find_update(s.drop_last(), i, v, k);
        assert(u.last() == s.last());
    } else {
        assert(u.drop_last() == s.drop_last());
    }
}

/// What recording one entry does to the item found for parts `k`.
proof fn lemma_insert_entry_find(items: Seq<(Seq<char>, bool, Seq<u8>)>, name: Seq<char>, d: bool, c: Seq<u8>, k: Seq<Seq<char>>)
    ensures
        ({
            let r = insert_entry(items, name, d, c);
            &&& k == entry_parts(name) ==> (find_item(r, k) matches Some(i) && 0 <= i < r.len() && r[i].1 == d && (!d ==> r[i].2 == c))
            &&& k != entry_parts(name) ==> find_item(r, k) == find_item(items, k)
                && (find_item(items, k) matches Some(i) ==> r[i] == items[i])
            &&& r.len() >= items.len()
        }),
{
    let kk = entry_parts(name);
    let key = spec_normalize_zip_path(name);
    let r = insert_entry(items, name, d, c);
    lemma_find_item(items, kk);
    lemma_find_item(items, k);
    match find_item(items, kk) {
        Some(i0) => {
            let v = (items[i0].0, d, if d { items[i0].2 } else { c });
            assert(r == items.update(i0, v));
            lemma_find_update(items, i0, v, k);
        },
        None => {
            let x = (key, d, if d { Seq::<u8>::empty() } else { c });
            assert(r == items.push(x));
            lemma_find_push(items, x, k);
        },
    }
}

/// The item found for the parts of entry `j` after recording the entries,
/// when no later entry has the same parts: it has entry `j`'s kind, and its
/// contents when entry `j` is a file.
proof fn lemma_insert_entries_last(raw: Seq<(Seq<char>, bool, Seq<u8>)>, j: int)
    requires
        0 <= j < raw.len(),
        forall|l: int| j < l < raw.len() ==> entry_parts(#[trigger] raw[l].0) != entry_parts(raw[j].0),
    ensures
        find_item(insert_entries(raw), entry_parts(raw[j].0)) matches Some(i)
            && 0 <= i < insert_entries(raw).len()
            && insert_entries(raw)[i].1 == raw[j].1
            && (!raw[j].1 ==> insert_entries(raw)[i].2 == raw[j].2),
    decreases raw.len(),
{
    let k = entry_parts(raw[j].0);
    let prev = insert_entries(raw.drop_last());
    let last = raw.last();
    lemma_insert_entry_find(prev, last.0, last.1, last.2, k);
    assert(insert_entries(raw) == insert_entry(prev, last.0, last.1, last.2));
    if j == raw.len() - 1 {
        assert(last == raw[j]);
    } else {
        assert forall|l: int| j < l < raw.drop_last().len() implies entry_parts(#[trigger] raw.drop_last()[l].0) != entry_parts(raw.drop_last()[j].0) by {
            assert(raw.drop_last()[l] == raw[l]);
        }
        assert(raw.drop_last()[j] == raw[j]);
        lemma_insert_entries_last(raw.drop_last(), j);
        assert(entry_parts(raw[raw.len() - 1].0) != k);
        assert(entry_parts(last.0) != k);
    }
}

proof fn lemma_ensure_ancestors_keep(items: Seq<(Seq<char>, bool, Seq<u8>)>, kk: Seq<Seq<char>>, j: int, k: Seq<Seq<char>>)
    requires
        find_item(items, k) is Some,
    ensures
        find_item(ensure_ancestors(items, kk, j), k) == find_item(items, k),
        ensure_ancestors(items, kk, j).len() >= items.len(),
        forall|i: int| 0 <= i < items.len() ==> ensure_ancestors(items, kk, j)[i] == #[trigger] items[i],
    decreases j,
{
    if j > 0 {
        let e = ensure_dir(items, kk.take(j));
        if find_item(items, kk.take(j)) is None {
            lemma_find_push(items, (join_spec(kk.take(j), seq!['/']), true, Seq::<u8>::empty()), k);
        }
        assert(e.len() >= items.len());
        assert(forall|i: int| 0 <= i < items.len() ==> e[i] == #[trigger] items[i]);
        lemma_ensure_ancestors_keep(e, kk, j - 1, k);
    }
}

proof fn lemma_add_implicit_dirs_keep(items: Seq<(Seq<char>, bool, Seq<u8>)>, keys: Seq<Seq<char>>, n: int, k: Seq<Seq<char>>)
    requires
        find_item(items, k) is Some,
    ensures
        find_item(add_implicit_dirs(items, keys, n), k) == find_item(items, k),
        add_implicit_dirs(items, keys, n).len() >= items.len(),
        forall|i: int| 0 <= i < items.len() ==> add_implicit_dirs(items, keys, n)[i] == #[trigger] items[i],
    decreases n,
{
    if n > 0 {
        lemma_add_implicit_dirs_keep(items, keys, n - 1, k);
        let r = add_implicit_dirs(items, keys, n - 1);
        let kk = path_parts(keys[n - 1]);
        lemma_ensure_ancestors_keep(r, kk, kk.len() - 1, k);
    }
}

/// The last entry recorded for a path decides it: after an archive's
/// entries are read, the path of entry `j`, when no later entry names the
/// same path, is a directory or a file as entry `j` is, and as a file it
/// holds entry `j`'s contents.
pub proof fn lemma_last_entry_decides(raw: Seq<(Seq<char>, bool, Seq<u8>)>, j: int)
    requires
        0 <= j < raw.len(),
        forall|l: int| j < l < raw.len() ==> entry_parts(#[trigger] raw[l].0) != entry_parts(raw[j].0),
    ensures
        find_item(archive_items(raw), entry_parts(raw[j].0)) matches Some(i)
            && 0 <= i < archive_items(raw).len()
            && archive_items(raw)[i].1 == raw[j].1
            && (!raw[j].1 ==> archive_items(raw)[i].2 == raw[j].2),
{
    let k = entry_parts(raw[j].0);
    let first = insert_entries(raw);
    lemma_insert_entries_last(raw, j);
    let i = find_item(first, k)->0;
    lemma_add_implicit_dirs_keep(first, first.map_values(|e: (Seq<char>, bool, Seq<u8>)| e.0), first.len() as int, k);
    assert(archive_items(raw)[i] == first[i]);
}

/// A file source backed by a zip archive whose contents were read into
/// memory.
pub struct ZipSource {
    pub archive_path: String,
    items: Vec<ZipItem>,
}

impl ZipSource {
    /// The archive's paths as plain values.
    pub closed spec fn items(&self) -> Seq<(Seq<char>, bool, Seq<u8>)> {
        items_view(self.items@)
    }

    /// The archive's own path.
    pub closed spec fn archive(&self) -> Seq<char> {
        self.archive_path@
    }

    /// No path occurs twice.
    pub closed spec fn wf(&self) -> bool {
        unique_items(items_view(self.items@))
    }
}

proof fn lemma_find_item(items: Seq<(Seq<char>, bool, Seq<u8>)>, k: Seq<Seq<char>>)
    ensures
        match find_item(items, k) {
            Some(i) => 0 <= i < items.len() && path_parts(items[i].0) == k
                && forall|j: int| 0 <= j < i ==> path_parts(#[trigger] items[j].0) != k,
            None => forall|j: int| 0 <= j < items.len() ==> path_parts(#[trigger] items[j].0) != k,
        },
    decreases items.len(),
{
    if items.len() > 0 {
        lemma_find_item(items.drop_last(), k);
        assert forall|j: int| 0 <= j < items.len() - 1 implies items.drop_last()[j] == #[trigger] items[j] by {}
    }
}

/// Finds the item whose path has the parts `k`.
fn find_item_exec(items: &Vec<ZipItem>, k: &Vec<Vec<char>>) -> (res: Option<usize>)
    ensures
        match res {
            Some(i) => find_item(items_view(items@), views(k@)) == Some(i as int),
            None => find_item(items_view(items@), views(k@)) is None,
        },
{
    let ghost iv = items_view(items@);
    let mut i: usize = 0;
    while i < items.len()
        invariant
            i <= items.len(),
            iv == items_view(items@),
            find_item(iv.take(i as int), views(k@)) is None,
        decreases items.len() - i,
    {
        assert(iv.take(i + 1).drop_last() == iv.take(i as int));
        let parts = parts_of(chars_of(items[i].path.as_str()).as_slice());
        if crate::path::parts_equal(&parts, k) {
            assert(find_item(iv.take(i + 1), views(k@)) == Some(i as int));
            proof { lemma_find_prefix(iv, views(k@), i as int + 1); }
            return Some(i);
        }
        i = i + 1;
    }
    assert(iv.take(items.len() as int) == iv);
    None
}

proof fn lemma_find_prefix(items: Seq<(Seq<char>, bool, Seq<u8>)>, k: Seq<Seq<char>>, n: int)
    requires
        0 <= n <= items.len(),
        find_item(items.take(n), k) is Some,
    ensures
        find_item(items, k) == find_item(items.take(n), k),
    decreases items.len() - n,
{
    if n < items.len() {
        assert(items.take(n + 1).drop_last() == items.take(n));
        lemma_find_prefix(items, k, n + 1);
    } else {
        assert(items.take(n) == items);
    }
}

/// The raw entries as plain values.
pub open spec fn raw_view(raw: Seq<(String, bool, Vec<u8>)>) -> Seq<(Seq<char>, bool, Seq<u8>)> {
    raw.map_values(|e: (String, bool, Vec<u8>)| (e.0@, e.1, e.2@))
}

proof fn lemma_insert_entry_unique(items: Seq<(Seq<char>, bool, Seq<u8>)>, name: Seq<char>, is_dir: bool, contents: Seq<u8>)
    requires
        unique_items(items),
    ensures
        unique_items(insert_entry(items, name, is_dir, contents)),
{
    let key = spec_normalize_zip_path(name);
    lemma_find_item(items, path_parts(key));
    let r = insert_entry(items, name, is_dir, contents);
    match find_item(items, path_parts(key)) {
        Some(i) => {
            assert forall|a: int, b: int| 0 <= a < b < r.len() implies path_parts(#[trigger] r[a].0) != path_parts(#[trigger] r[b].0) by {
                assert(r[a].0 == items[a].0);
                assert(r[b].0 == items[b].0);
            }
        },
        None => {
            assert forall|a: int, b: int| 0 <= a < b < r.len() implies path_parts(#[trigger] r[a].0) != path_parts(#[trigger] r[b].0) by {
                if b == items.len() {
                    assert(r[a] == items[a]);
                } else {
                    assert(r[a] == items[a]);
                    assert(r[b] == items[b]);
                }
            }
        },
    }
}

proof fn lemma_ensure_dir_unique(items: Seq<(Seq<char>, bool, Seq<u8>)>, k: Seq<Seq<char>>)
    requires
        unique_items(items),
        forall|i: int| 0 <= i < k.len() ==> crate::path::valid_part(#[trigger] k[i]),
    ensures
        unique_items(ensure_dir(items, k)),
{
    lemma_find_item(items, k);
    if find_item(items, k) is None {
        crate::path::lemma_parts_of_join(k);
        let r = ensure_dir(items, k);
        assert forall|a: int, b: int| 0 <= a < b < r.len() implies path_parts(#[trigger] r[a].0) != path_parts(#[trigger] r[b].0) by {
            assert(r[a] == items[a]);
            if b < items.len() {
                assert(r[b] == items[b]);
            }
        }
    }
}

fn copy_bytes(v: &Vec<u8>) -> (res: Vec<u8>)
    ensures
        res@ == v@,
{
    let mut r: Vec<u8> = Vec::new();
    let mut i: usize = 0;
    while i < v.len()
        invariant
            i <= v.len(),
            r@ == v@.take(i as int),
        decreases v.len() - i,
    {
        r.push(v[i]);
        assert(v@.take(i + 1) == v@.take(i as int).push(v@[i as int]));
        i = i + 1;
    }
    assert(v@.take(v.len() as int) == v@);
    r
}

fn copy_string(s: &String) -> (res: String)
    ensures
        res@ == s@,
{
    string_from_chars(chars_of(s.as_str()).as_slice())
}

/// Records one archive entry in `items`.
fn insert_entry_exec(items: &mut Vec<ZipItem>, name: &String, is_dir: bool, contents: &Vec<u8>)
    ensures
        items_view(final(items)@) == insert_entry(items_view(old(items)@), name@, is_dir, contents@),
{
    let key = normalize_zip_path(name.as_str());
    let k = parts_of(chars_of(key.as_str()).as_slice());
    match find_item_exec(items, &k) {
        Some(i) => {
            proof { lemma_find_item(items_view(items@), views(k@)); }
            let path = copy_string(&items[i].path);
            let c = if is_dir { copy_bytes(&items[i].contents) } else { copy_bytes(contents) };
            let ghost before = items_view(items@);
            items.set(i, ZipItem { path, is_dir, contents: c });
            assert(items_view(items@) =~= before.update(i as int, (before[i as int].0, is_dir, if is_dir { before[i as int].2 } else { contents@ })));
        },
        None => {
            let ghost before = items_view(items@);
            let c = if is_dir { Vec::new() } else { copy_bytes(contents) };
            items.push(ZipItem { path: key, is_dir, contents: c });
            assert(items_view(items@) =~= before.push((key@, is_dir, if is_dir { Seq::<u8>::empty() } else { contents@ })));
        },
    }
}

/// Adds the directory with parts `k` to `items` unless present.
fn ensure_dir_exec(items: &mut Vec<ZipItem>, k: &Vec<Vec<char>>)
    ensures
        items_view(final(items)@) == ensure_dir(items_view(old(items)@), views(k@)),
{
    match find_item_exec(items, k) {
        Some(_) => {},
        None => {
            let sep: [char; 1] = ['/'];
            assert(sep@ == seq!['/']);
            let j = join_chars(k, &sep);
            assert(k@.map_values(|v: Vec<char>| v@) == views(k@));
            let ghost before = items_view(items@);
            items.push(ZipItem { path: string_from_chars(j.as_slice()), is_dir: true, contents: Vec::new() });
            assert(items_view(items@) =~= before.push((join_spec(views(k@), seq!['/']), true, Seq::<u8>::empty())));
        },
    }
}

impl ZipSource {
    /// Builds the source from the entries read from an archive (name,
    /// whether a directory, contents), adding the directories that entries
    /// imply but the archive does not list.
    pub fn from_entries(archive_path: String, raw: Vec<(String, bool, Vec<u8>)>) -> (res: ZipSource)
        ensures
            res.archive() == archive_path@,
            res.wf(),
            res.items() == archive_items(raw_view(raw@)),
    {
        let ghost rv = raw_view(raw@);
        let mut items: Vec<ZipItem> = Vec::new();
        let mut i: usize = 0;
        while i < raw.len()
            invariant
                i <= raw.len(),
                rv == raw_view(raw@),
                items_view(items@) == insert_entries(rv.take(i as int)),
                unique_items(items_view(items@)),
            decreases raw.len() - i,
        {
            assert(rv.take(i + 1).drop_last() == rv.take(i as int));
            assert(rv.take(i + 1).last() == (raw@[i as int].0@, raw@[i as int].1, raw@[i as int].2@));
            proof { lemma_insert_entry_unique(items_view(items@), raw@[i as int].0@, raw@[i as int].1, raw@[i as int].2@); }
            insert_entry_exec(&mut items, &raw[i].0, raw[i].1, &raw[i].2);
            i = i + 1;
        }
        assert(rv.take(raw.len() as int) == rv);
        let ghost first = items_view(items@);
        let ghost keys = first.map_values(|e: (Seq<char>, bool, Seq<u8>)| e.0);
        let mut names: Vec<String> = Vec::new();
        let mut n: usize = 0;
        while n < items.len()
            invariant
                n <= items.len(),
                first == items_view(items@),
                keys == first.map_values(|e: (Seq<char>, bool, Seq<u8>)| e.0),
                crate::text::string_views(names@) == keys.take(n as int),
            decreases items.len() - n,
        {
            let ghost before = crate::text::string_views(names@);
            names.push(copy_string(&items[n].path));
            assert(crate::text::string_views(names@) =~= before.push(keys[n as int]));
            assert(keys.take(n + 1) == keys.take(n as int).push(keys[n as int]));
            n = n + 1;
        }
        assert(keys.take(items.len() as int) == keys);
        let mut m: usize = 0;
        while m < names.len()
            invariant
                m <= names.len(),
                keys.len() == names.len(),
                crate::text::string_views(names@) == keys,
                items_view(items@) == add_implicit_dirs(first, keys, m as int),
                unique_items(items_view(items@)),
            decreases names.len() - m,
        {
            let k = parts_of(chars_of(names[m].as_str()).as_slice());
            assert(names@[m as int]@ == keys[m as int]);
            proof { crate::path::lemma_parts_valid(keys[m as int]); }
            let ghost kv = views(k@);
            let mut j: usize = if k.len() > 0 { k.len() - 1 } else { 0 };
            let ghost start = items_view(items@);
            while j > 0
                invariant
                    j < k.len() || j == 0,
                    kv == views(k@),
                    forall|x: int| 0 <= x < kv.len() ==> crate::path::valid_part(#[trigger] kv[x]),
                    ensure_ancestors(items_view(items@), kv, j as int) == ensure_ancestors(start, kv, kv.len() - 1),
                    unique_items(items_view(items@)),
                decreases j,
            {
                let kj = crate::text::take_parts(&k, j);
                assert(views(kj@) == kv.take(j as int));
                proof {
                    assert forall|x: int| 0 <= x < kv.take(j as int).len() implies crate::path::valid_part(#[trigger] kv.take(j as int)[x]) by {
                        assert(kv.take(j as int)[x] == kv[x]);
                    }
                    lemma_ensure_dir_unique(items_view(items@), kv.take(j as int));
                }
                ensure_dir_exec(&mut items, &kj);
                j = j - 1;
            }
            proof {
                if kv.len() == 0 {
                    assert(ensure_ancestors(start, kv, kv.len() - 1) == start);
                }
            }
            m = m + 1;
        }
        ZipSource { archive_path, items }
    }
}

/// The parts of `path` relative to the archive, as a lookup uses them: the
/// path with the archive's path stripped from its front, or the path as it
/// is; `None` for an absolute path, which no archive path matches.
pub open spec fn relative_parts(path: Seq<char>, archive: Seq<char>) -> Option<Seq<Seq<char>>> {
    match spec_strip_prefix(path, archive) {
        Some(r) => Some(r),
        None => if is_absolute(path) { None } else { Some(path_parts(path)) },
    }
}

/// The item `path` refers to, if any.
pub open spec fn lookup(items: Seq<(Seq<char>, bool, Seq<u8>)>, path: Seq<char>, archive: Seq<char>) -> Option<(Seq<char>, bool, Seq<u8>)> {
    match relative_parts(path, archive) {
        Some(k) => match find_item(items, k) {
            Some(i) => Some(items[i]),
            None => None,
        },
        None => None,
    }
}

fn relative_parts_exec(path: &str, archive: &str) -> (res: Option<Vec<Vec<char>>>)
    ensures
        match res {
            Some(k) => relative_parts(path@, archive@) == Some(views(k@)),
            None => relative_parts(path@, archive@) is None,
        },
{
    let p = chars_of(path);
    let a = chars_of(archive);
    match strip_prefix_parts(p.as_slice(), a.as_slice()) {
        Some(r) => Some(r),
        None => {
            if p.len() > 0 && p[0] == '/' {
                None
            } else {
                Some(parts_of(p.as_slice()))
            }
        },
    }
}

impl ZipSource {
    fn lookup_exec(&self, path: &str) -> (res: Option<usize>)
        ensures
            match res {
                Some(i) => i < self.items@.len() && lookup(self.items(), path@, self.archive()) == Some(self.items()[i as int]),
                None => lookup(self.items(), path@, self.archive()) is None,
            },
    {
        match relative_parts_exec(path, self.archive_path.as_str()) {
            Some(k) => {
                let r = find_item_exec(&self.items, &k);
                proof { lemma_find_item(self.items(), views(k@)); }
                r
            },
            None => None,
        }
    }
}

/// Whether `path` is a directory of the archive.
pub fn is_dir_zip(source: &ZipSource, path: &str) -> (res: bool)
    ensures
        res == (lookup(source.items(), path@, source.archive()) matches Some(it) && it.1),
{
    match source.lookup_exec(path) {
        Some(i) => source.items[i].is_dir,
        None => false,
    }
}

/// Whether `path` is a file of the archive.
pub fn is_file_zip(source: &ZipSource, path: &str) -> (res: bool)
    ensures
        res == (lookup(source.items(), path@, source.archive()) matches Some(it) && !it.1),
{
    match source.lookup_exec(path) {
        Some(i) => !source.items[i].is_dir,
        None => false,
    }
}

/// Reads a file of the archive: its contents, `NotAFile` for a directory,
/// `FileNotFound` for a path the archive does not hold.
pub fn read_file_zip(source: &ZipSource, path: &str) -> (res: Result<Vec<u8>, VVError>)
    ensures
        match lookup(source.items(), path@, source.archive()) {
            Some(it) => if it.1 {
                res matches Err(VVError::NotAFile(p)) && p@ == path@
            } else {
                res matches Ok(c) && c@ == it.2
            },
            None => res matches Err(VVError::FileNotFound(p)) && p@ == path@,
        },
{
    match source.lookup_exec(path) {
        Some(i) => {
            if source.items[i].is_dir {
                Err(VVError::NotAFile(string_from_chars(chars_of(path).as_slice())))
            } else {
                Ok(copy_bytes(&source.items[i].contents))
            }
        },
        None => Err(VVError::FileNotFound(string_from_chars(chars_of(path).as_slice()))),
    }
}

/// The directory a listing of `path` shows, as parts relative to the
/// archive: none for the archive itself.
pub open spec fn listing_parts(path: Seq<char>, archive: Seq<char>) -> Option<Seq<Seq<char>>> {
    if components(path) == components(archive) {
        Some(Seq::<Seq<char>>::empty())
    } else {
        relative_parts(path, archive)
    }
}

/// The directory a listing of `path` shows is given by an empty path.
pub open spec fn listing_empty(path: Seq<char>, archive: Seq<char>) -> bool {
    components(path) == components(archive) || (spec_strip_prefix(path, archive) is None && path.len() == 0)
}

/// The item is listed in the directory of `path`: its parent is that
/// directory; an item without a parent is listed for an empty path.
pub open spec fn listed(it: (Seq<char>, bool, Seq<u8>), path: Seq<char>, archive: Seq<char>) -> bool {
    let k = path_parts(it.0);
    if k.len() > 0 {
        listing_parts(path, archive) == Some(k.drop_last())
    } else {
        listing_empty(path, archive)
    }
}

/// The listing entry of an item: the archive path joined with its path,
/// its file name (`?` when it has none), its kind.
pub open spec fn listing_entry(it: (Seq<char>, bool, Seq<u8>), archive: Seq<char>) -> (Seq<char>, Seq<char>, bool) {
    let name = match spec_file_name(it.0) {
        Some(n) => n,
        None => seq!['?'],
    };
    (spec_push(archive, it.0), name, it.1)
}

/// The entries of the listed items, in item order.
pub open spec fn listing(items: Seq<(Seq<char>, bool, Seq<u8>)>, path: Seq<char>, archive: Seq<char>) -> Seq<(Seq<char>, Seq<char>, bool)>
    decreases items.len(),
{
    if items.len() == 0 {
        Seq::empty()
    } else {
        let r = listing(items.drop_last(), path, archive);
        if listed(items.last(), path, archive) { r.push(listing_entry(items.last(), archive)) } else { r }
    }
}

/// The entries are in order of their names.
pub open spec fn sorted_by_name(es: Seq<(Seq<char>, Seq<char>, bool)>) -> bool {
    forall|i: int, j: int| 0 <= i < j < es.len() ==> crate::text::lex_le(#[trigger] es[i].1, #[trigger] es[j].1)
}

/// The listing as plain values.
pub open spec fn entries_view(es: Seq<DirEntry>) -> Seq<(Seq<char>, Seq<char>, bool)> {
    es.map_values(|e: DirEntry| entry_view(e))
}

fn components_equal(p: &str, q: &str) -> (res: bool)
    ensures
        res == (components(p@) == components(q@)),
{
    let pc = chars_of(p);
    let qc = chars_of(q);
    let pa = pc.len() > 0 && pc[0] == '/';
    let qa = qc.len() > 0 && qc[0] == '/';
    let pp = parts_of(pc.as_slice());
    let qp = parts_of(qc.as_slice());
    let same = crate::path::parts_equal(&pp, &qp);
    proof {
        if pa != qa {
            if pa {
                assert(components(p@)[0] == seq!['/']);
                crate::path::lemma_parts_valid(q@);
                if components(q@).len() > 0 {
                    assert(components(q@)[0] == path_parts(q@)[0]);
                    assert(crate::path::valid_part(path_parts(q@)[0]));
                    assert(seq!['/'].contains('/')) by { assert(seq!['/'][0] == '/'); }
                }
            } else {
                assert(components(q@)[0] == seq!['/']);
                crate::path::lemma_parts_valid(p@);
                if components(p@).len() > 0 {
                    assert(components(p@)[0] == path_parts(p@)[0]);
                    assert(crate::path::valid_part(path_parts(p@)[0]));
                    assert(seq!['/'].contains('/')) by { assert(seq!['/'][0] == '/'); }
                }
            }
        } else if pa {
            if components(p@) == components(q@) {
                assert(path_parts(p@) == components(p@).skip(1));
                assert(path_parts(q@) == components(q@).skip(1));
            }
        }
    }
    pa == qa && same
}

fn listing_entry_exec(it: &ZipItem, archive: &str) -> (res: DirEntry)
    ensures
        entry_view(res) == listing_entry(item_view(*it), archive@),
{
    let pc = chars_of(it.path.as_str());
    let name = match file_name_chars(pc.as_slice()) {
        Some(n) => string_from_chars(n.as_slice()),
        None => {
            let q: [char; 1] = ['?'];
            assert(q@ == seq!['?']);
            string_from_chars(&q)
        },
    };
    let full = push_chars(chars_of(archive).as_slice(), pc.as_slice());
    DirEntry { path: string_from_chars(full.as_slice()), name, is_dir: it.is_dir }
}

/// Lists the entries of a directory of the archive, ordered by name.
pub fn read_dir_zip(source: &ZipSource, path: &str) -> (res: Result<Vec<DirEntry>, VVError>)
    ensures
        res matches Ok(v) && ({
            let l = listing(source.items(), path@, source.archive());
            &&& entries_view(v@).len() == l.len()
            &&& forall|x| entries_view(v@).contains(x) <==> l.contains(x)
            &&& sorted_by_name(entries_view(v@))
        }),
{
    let same = components_equal(path, source.archive_path.as_str());
    let target: Option<Vec<Vec<char>>> = if same { Some(Vec::new()) } else { relative_parts_exec(path, source.archive_path.as_str()) };
    assert(match target { Some(t) => listing_parts(path@, source.archive()) == Some(views(t@)), None => listing_parts(path@, source.archive()) is None });
    let pc = chars_of(path);
    let empty = same || (strip_prefix_parts(pc.as_slice(), chars_of(source.archive_path.as_str()).as_slice()).is_none() && pc.len() == 0);
    let ghost items = source.items();
    let ghost archive = source.archive();
    let mut res: Vec<DirEntry> = Vec::new();
    let mut i: usize = 0;
    while i < source.items.len()
        invariant
            i <= source.items.len(),
            items == source.items(),
            archive == source.archive(),
            empty == listing_empty(path@, archive),
            match target { Some(t) => listing_parts(path@, archive) == Some(views(t@)), None => listing_parts(path@, archive) is None },
            entries_view(res@).len() == listing(items.take(i as int), path@, archive).len(),
            forall|x| entries_view(res@).contains(x) <==> listing(items.take(i as int), path@, archive).contains(x),
            sorted_by_name(entries_view(res@)),
        decreases source.items.len() - i,
    {
        assert(items.take(i + 1).drop_last() == items.take(i as int));
        assert(items.take(i + 1).last() == item_view(source.items@[i as int]));
        let it = &source.items[i];
        let k = parts_of(chars_of(it.path.as_str()).as_slice());
        let is_listed = if k.len() > 0 {
            match &target {
                Some(t) => {
                    let parent = crate::text::take_parts(&k, k.len() - 1);
                    assert(views(parent@) == views(k@).drop_last());
                    crate::path::parts_equal(&parent, t)
                },
                None => false,
            }
        } else {
            empty
        };
        assert(is_listed == listed(item_view(*it), path@, archive));
        if is_listed {
            let e = listing_entry_exec(it, source.archive_path.as_str());
            let ghost ev = entry_view(e);
            let ghost old_es = entries_view(res@);
            let ghost prev = listing(items.take(i as int), path@, archive);
            let mut p: usize = 0;
            while p < res.len() && lex_le_name(&res[p], &e)
                invariant
                    p <= res.len(),
                    old_es == entries_view(res@),
                    ev == entry_view(e),
                    forall|q: int| 0 <= q < p ==> crate::text::lex_le(#[trigger] old_es[q].1, ev.1),
                decreases res.len() - p,
            {
                p = p + 1;
            }
            proof {
                if p < res.len() {
                    crate::text::lemma_lex_total(old_es[p as int].1, ev.1);
                    assert forall|j: int| p <= j < old_es.len() implies crate::text::lex_le(ev.1, #[trigger] old_es[j].1) by {
                        if j > p {
                            crate::text::lemma_lex_trans(ev.1, old_es[p as int].1, old_es[j].1);
                        }
                    }
                }
            }
            res.insert(p, e);
            let ghost new_es = entries_view(res@);
            assert(new_es =~= old_es.insert(p as int, ev));
            assert forall|a: int, b: int| 0 <= a < b < new_es.len() implies crate::text::lex_le(#[trigger] new_es[a].1, #[trigger] new_es[b].1) by {
                if a < p && b < p {
                    assert(new_es[a] == old_es[a] && new_es[b] == old_es[b]);
                } else if a < p && b == p {
                    assert(new_es[a] == old_es[a]);
                } else if a < p {
                    assert(new_es[a] == old_es[a] && new_es[b] == old_es[b - 1]);
                    crate::text::lemma_lex_trans(old_es[a].1, ev.1, old_es[b - 1].1);
                } else if a == p {
                    assert(new_es[b] == old_es[b - 1]);
                } else {
                    assert(new_es[a] == old_es[a - 1] && new_es[b] == old_es[b - 1]);
                }
            }
            assert(listing(items.take(i + 1), path@, archive) == prev.push(ev));
            assert(forall|x| old_es.contains(x) <==> prev.contains(x));
            assert(new_es[p as int] == ev);
            assert forall|x| new_es.contains(x) implies prev.push(ev).contains(x) by {
                let j = choose|j: int| 0 <= j < new_es.len() && new_es[j] == x;
                if j < p {
                    assert(old_es[j] == x);
                    assert(old_es.contains(x));
                    let q = choose|q: int| 0 <= q < prev.len() && prev[q] == x;
                    assert(prev.push(ev)[q] == x);
                } else if j > p {
                    assert(old_es[j - 1] == x);
                    assert(old_es.contains(x));
                    let q = choose|q: int| 0 <= q < prev.len() && prev[q] == x;
                    assert(prev.push(ev)[q] == x);
                } else {
                    assert(prev.push(ev)[prev.len() as int] == x);
                }
            }
            assert forall|x| prev.push(ev).contains(x) implies new_es.contains(x) by {
                let j = choose|j: int| 0 <= j < prev.push(ev).len() && prev.push(ev)[j] == x;
                if j < prev.len() {
                    assert(prev[j] == x);
                    assert(prev.contains(x));
                    assert(old_es.contains(x));
                    let q = choose|q: int| 0 <= q < old_es.len() && old_es[q] == x;
                    if q < p {
                        assert(new_es[q] == x);
                    } else {
                        assert(new_es[q + 1] == x);
                    }
                } else {
                    assert(new_es[p as int] == x);
                }
            }
        } else {
            assert(listing(items.take(i + 1), path@, archive) == listing(items.take(i as int), path@, archive));
        }
        i = i + 1;
    }
    assert(items.take(source.items.len() as int) == items);
    Ok(res)
}

fn lex_le_name(a: &DirEntry, b: &DirEntry) -> (res: bool)
    ensures
        res == crate::text::lex_le(a.name@, b.name@),
{
    crate::text::lex_le_chars(chars_of(a.name.as_str()).as_slice(), chars_of(b.name.as_str()).as_slice())
}

impl ZipSource {
    /// Opens a `.vv` archive from its bytes, reading every entry into memory:
    /// the source holds the paths of the archive's entries, with the
    /// directories they imply.
    pub fn new(archive_path: String, bytes: Vec<u8>) -> (res: Result<ZipSource, VVError>)
        ensures
            match spec_read_entries(bytes@) {
                Some(r) => res matches Ok(z) && z.archive() == archive_path@ && z.wf() && z.items() == archive_items(r),
                None => res matches Err(e) && (e is Zip || e is Io),
            },
    {
        match crate::archive::read_entries(bytes) {
            Ok(raw) => Ok(ZipSource::from_entries(archive_path, raw)),
            Err(e) => Err(e),
        }
    }
}

/// A file source backed by a directory on disk.
pub struct DirectorySource {
    pub root: String,
}

impl DirectorySource {
    /// A source rooted at `root`.
    pub fn new(root: String) -> (res: Self)
        ensures
            res.root == root,
    {
        DirectorySource { root }
    }
}

/// Where a project is read from.
pub enum FileSource {
    Directory(DirectorySource),
    Zip(ZipSource),
}

/// Lists a directory of the source. For a directory on disk the listing is
/// what the file system gave (`on_disk`); for an archive it is computed and
/// `on_disk` is not looked at.
pub fn read_dir(source: &FileSource, path: &str, on_disk: Result<Vec<DirEntry>, VVError>) -> (res: Result<Vec<DirEntry>, VVError>)
    ensures
        match source {
            FileSource::Directory(_) => res == on_disk,
            FileSource::Zip(z) => res matches Ok(v) && ({
                let l = listing(z.items(), path@, z.archive());
                &&& entries_view(v@).len() == l.len()
                &&& forall|x| entries_view(v@).contains(x) <==> l.contains(x)
                &&& sorted_by_name(entries_view(v@))
            }),
        },
{
    match source {
        FileSource::Directory(_) => on_disk,
        FileSource::Zip(z) => read_dir_zip(z, path),
    }
}

/// Reads a file of the source: from disk (`on_disk`) or from the archive.
pub fn read_file(source: &FileSource, path: &str, on_disk: Result<Vec<u8>, VVError>) -> (res: Result<Vec<u8>, VVError>)
    ensures
        match source {
            FileSource::Directory(_) => res == on_disk,
            FileSource::Zip(z) => match lookup(z.items(), path@, z.archive()) {
                Some(it) => if it.1 {
                    res matches Err(VVError::NotAFile(p)) && p@ == path@
                } else {
                    res matches Ok(c) && c@ == it.2
                },
                None => res matches Err(VVError::FileNotFound(p)) && p@ == path@,
            },
        },
{
    match source {
        FileSource::Directory(_) => on_disk,
        FileSource::Zip(z) => read_file_zip(z, path),
    }
}

/// Whether `path` is a directory of the source (for a directory on disk,
/// what the file system says: `on_disk`).
pub fn is_dir(source: &FileSource, path: &str, on_disk: bool) -> (res: bool)
    ensures
        match source {
            FileSource::Directory(_) => res == on_disk,
            FileSource::Zip(z) => res == (lookup(z.items(), path@, z.archive()) matches Some(it) && it.1),
        },
{
    match source {
        FileSource::Directory(_) => on_disk,
        FileSource::Zip(z) => is_dir_zip(z, path),
    }
}

/// Whether `path` is a file of the source (for a directory on disk, what
/// the file system says: `on_disk`).
pub fn is_file(source: &FileSource, path: &str, on_disk: bool) -> (res: bool)
    ensures
        match source {
            FileSource::Directory(_) => res == on_disk,
            FileSource::Zip(z) => res == (lookup(z.items(), path@, z.archive()) matches Some(it) && !it.1),
        },
{
    match source {
        FileSource::Directory(_) => on_disk,
        FileSource::Zip(z) => is_file_zip(z, path),
    }
}

/// The root path of the source: the directory, or the archive file.
pub fn source_root(source: &FileSource) -> (res: &String)
    ensures
        match source {
            FileSource::Directory(d) => res == &d.root,
            FileSource::Zip(z) => res@ == z.archive(),
        },
{
    match source {
        FileSource::Directory(d) => &d.root,
        FileSource::Zip(z) => &z.archive_path,
    }
}

/// An output sink writing below a directory on disk.
pub struct DirectorySink {
    pub root: String,
}

impl DirectorySink {
    /// A sink rooted at `root`.
    pub fn new(root: String) -> (res: Self)
        ensures
            res.root == root,
    {
        DirectorySink { root }
    }
}

/// The entry name under which an output archive stores `path`: `_output/`
/// and the path relative to the output prefix (or the whole path where it
/// is not below the prefix), as a zip name.
pub open spec fn spec_output_entry(output_prefix: Seq<char>, path: Seq<char>) -> Seq<char> {
    let rel = match spec_strip_prefix(path, output_prefix) {
        Some(r) => join_spec(r, seq!['/']),
        None => path,
    };
    seq!['_', 'o', 'u', 't', 'p', 'u', 't', '/'] + spec_zip_path(rel)
}

/// The entry name for an output file.
pub fn output_entry_name(output_prefix: &str, path: &str) -> (res: String)
    ensures
        res@ == spec_output_entry(output_prefix@, path@),
{
    let pc = chars_of(path);
    let rel: Vec<char> = match strip_prefix_parts(pc.as_slice(), chars_of(output_prefix).as_slice()) {
        Some(r) => {
            let sep: [char; 1] = ['/'];
            assert(sep@ == seq!['/']);
            assert(r@.map_values(|v: Vec<char>| v@) == views(r@));
            join_chars(&r, &sep)
        },
        None => pc,
    };
    let z = path_to_zip_path(string_from_chars(rel.as_slice()).as_str());
    let mut out: Vec<char> = vec!['_', 'o', 'u', 't', 'p', 'u', 't', '/'];
    crate::text::extend(&mut out, chars_of(z.as_str()).as_slice());
    assert(out@ == spec_output_entry(output_prefix@, path@));
    string_from_chars(out.as_slice())
}

/// The entry name for an output directory: that of the path, with `/`.
pub fn output_dir_entry_name(output_prefix: &str, path: &str) -> (res: String)
    ensures
        res@ == spec_output_entry(output_prefix@, path@).push('/'),
{
    let n = output_entry_name(output_prefix, path);
    let mut c = chars_of(n.as_str());
    c.push('/');
    string_from_chars(c.as_slice())
}

/// A directory entry name as written to an archive: with a trailing `/`.
pub fn raw_directory_name(zip_path: &str) -> (res: String)
    ensures
        res@ == if zip_path@.len() > 0 && zip_path@.last() == '/' { zip_path@ } else { zip_path@.push('/') },
{
    let mut c = chars_of(zip_path);
    if !(c.len() > 0 && c[c.len() - 1] == '/') {
        c.push('/');
    }
    string_from_chars(c.as_slice())
}

/// One entry to copy when copying a project: where it is read from, its
/// path relative to the project root, where it goes, and its kind.
pub struct CopyStep {
    pub source: String,
    pub relative: String,
    pub dest: String,
    pub is_dir: bool,
}

/// A copy step as plain values.
pub open spec fn step_view(s: CopyStep) -> (Seq<char>, Seq<char>, Seq<char>, bool) {
    (s.source@, s.relative@, s.dest@, s.is_dir)
}

/// The name of output directories, which copies leave out.
pub open spec fn output_dir_name() -> Seq<char> {
    seq!['_', 'o', 'u', 't', 'p', 'u', 't']
}

/// The relative path of an entry named `name` in the directory `relative`.
pub open spec fn child_relative(relative: Seq<char>, name: Seq<char>) -> Seq<char> {
    if relative.len() == 0 { name } else { relative + seq!['/'] + name }
}

/// The copy steps for one directory listing: every entry but `_output`,
/// in listing order.
pub open spec fn spec_copy_steps(entries: Seq<(Seq<char>, Seq<char>, bool)>, relative: Seq<char>, dest_root: Seq<char>)
    -> Seq<(Seq<char>, Seq<char>, Seq<char>, bool)>
    decreases entries.len(),
{
    if entries.len() == 0 {
        Seq::empty()
    } else {
        let r = spec_copy_steps(entries.drop_last(), relative, dest_root);
        let e = entries.last();
        if e.1 == output_dir_name() {
            r
        } else {
            let rel = child_relative(relative, e.1);
            r.push((e.0, rel, spec_push(dest_root, rel), e.2))
        }
    }
}

/// Plans the copy of one directory level of a project: for each listed
/// entry other than `_output`, its relative path and destination.
pub fn copy_steps(entries: &Vec<DirEntry>, relative_path: &str, dest_root: &str) -> (res: Vec<CopyStep>)
    ensures
        res@.map_values(|s: CopyStep| step_view(s)) == spec_copy_steps(entries_view(entries@), relative_path@, dest_root@),
{
    let ghost ev = entries_view(entries@);
    let out_name: Vec<char> = vec!['_', 'o', 'u', 't', 'p', 'u', 't'];
    assert(out_name@ == output_dir_name());
    let rp = chars_of(relative_path);
    let dr = chars_of(dest_root);
    let mut res: Vec<CopyStep> = Vec::new();
    let mut i: usize = 0;
    while i < entries.len()
        invariant
            i <= entries.len(),
            ev == entries_view(entries@),
            out_name@ == output_dir_name(),
            rp@ == relative_path@,
            dr@ == dest_root@,
            res@.map_values(|s: CopyStep| step_view(s)) == spec_copy_steps(ev.take(i as int), relative_path@, dest_root@),
        decreases entries.len() - i,
    {
        assert(ev.take(i + 1).drop_last() == ev.take(i as int));
        assert(ev.take(i + 1).last() == entry_view(entries@[i as int]));
        let e = &entries[i];
        let name = chars_of(e.name.as_str());
        if !chars_eq(name.as_slice(), out_name.as_slice()) {
            let mut rel: Vec<char> = Vec::new();
            if rp.len() > 0 {
                crate::text::extend(&mut rel, rp.as_slice());
                rel.push('/');
            }
            crate::text::extend(&mut rel, name.as_slice());
            assert(rel@ == child_relative(relative_path@, e.name@));
            let dest = push_chars(dr.as_slice(), rel.as_slice());
            let step = CopyStep {
                source: copy_string(&e.path),
                relative: string_from_chars(rel.as_slice()),
                dest: string_from_chars(dest.as_slice()),
                is_dir: e.is_dir,
            };
            let ghost before = res@.map_values(|s: CopyStep| step_view(s));
            res.push(step);
            assert(res@.map_values(|s: CopyStep| step_view(s)) =~= before.push(step_view(step)));
        }
        i = i + 1;
    }
    assert(ev.take(entries.len() as int) == ev);
    res
}

} // verus!
