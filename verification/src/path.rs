//! A model of `/`-separated file paths held as strings.
//!
//! A path's *parts* are its non-empty segments other than `.`; its file name
//! is the last part unless that part is `..`. The file stem and extension
//! split the file name at its last dot, a dot at the very start not counting.

use vstd::prelude::*;
use crate::text::{
    join_spec,
    chars_eq, chars_of, copy_chars, sub_chars, extend, last_index_of, lemma_last_index_of, rfind_char, split_chars,
    split_spec, string_from_chars, views,
};

verus! {

/// Keeps the segments that are neither empty nor `.`.
pub open spec fn normal_parts(segs: Seq<Seq<char>>) -> Seq<Seq<char>>
    decreases segs.len(),
{
    if segs.len() == 0 {
        Seq::<Seq<char>>::empty()
    } else {
        let r = normal_parts(segs.drop_last());
        let l = segs.last();
        if l.len() == 0 || l == seq!['.'] {
            r
        } else {
            r.push(l)
        }
    }
}

/// The parts of a path.
pub open spec fn path_parts(p: Seq<char>) -> Seq<Seq<char>> {
    normal_parts(split_spec(p, '/'))
}

/// The file name of a path: its last part, unless there is none or it is `..`.
pub open spec fn spec_file_name(p: Seq<char>) -> Option<Seq<char>> {
    let parts = path_parts(p);
    if parts.len() > 0 && parts.last() != seq!['.', '.'] {
        Some(parts.last())
    } else {
        None
    }
}

/// Splits a file name into stem and extension at its last dot; a name
/// without a dot, or whose only dot is its first character, has no extension.
pub open spec fn spec_stem_ext(name: Seq<char>) -> (Seq<char>, Option<Seq<char>>) {
    let i = last_index_of(name, '.');
    if i <= 0 {
        (name, None)
    } else {
        (name.take(i), Some(name.skip(i + 1)))
    }
}

/// The file stem of a path.
pub open spec fn spec_file_stem(p: Seq<char>) -> Option<Seq<char>> {
    match spec_file_name(p) {
        Some(n) => Some(spec_stem_ext(n).0),
        None => None,
    }
}

/// The extension of a path.
pub open spec fn spec_extension(p: Seq<char>) -> Option<Seq<char>> {
    match spec_file_name(p) {
        Some(n) => spec_stem_ext(n).1,
        None => None,
    }
}

/// Appends `seg` to `base`, as pushing onto a path buffer does: an absolute
/// `seg` replaces `base`; otherwise a separator is put between them unless
/// `base` is empty or already ends with one.
pub open spec fn spec_push(base: Seq<char>, seg: Seq<char>) -> Seq<char> {
    if seg.len() > 0 && seg[0] == '/' {
        seg
    } else if base.len() == 0 || base.last() == '/' {
        base + seg
    } else {
        base + seq!['/'] + seg
    }
}

/// Computes `normal_parts`.
pub fn keep_normal(segs: Vec<Vec<char>>) -> (res: Vec<Vec<char>>)
    ensures
        views(res@) == normal_parts(views(segs@)),
{
    let ghost all = views(segs@);
    let mut res: Vec<Vec<char>> = Vec::new();
    let mut i: usize = 0;
    let dot: [char; 1] = ['.'];
    while i < segs.len()
        invariant
            i <= segs.len(),
            all == views(segs@),
            views(res@) == normal_parts(all.take(i as int)),
            dot@ == seq!['.'],
        decreases segs.len() - i,
    {
        assert(all.take(i + 1).drop_last() == all.take(i as int));
        let seg = &segs[i];
        let skip = seg.len() == 0 || chars_eq(seg.as_slice(), &dot);
        if !skip {
            let ghost before = views(res@);
            res.push(seg.clone());
            assert(views(res@) == before.push(seg@));
        }
        i = i + 1;
    }
    assert(all.take(segs.len() as int) == all);
    res
}

/// The parts of the path `p`.
pub fn parts_of(p: &[char]) -> (res: Vec<Vec<char>>)
    ensures
        views(res@) == path_parts(p@),
{
    let segs = split_chars(p, '/');
    keep_normal(segs)
}

/// Computes `spec_file_name`.
pub fn file_name_chars(p: &[char]) -> (res: Option<Vec<char>>)
    ensures
        match res {
            Some(v) => spec_file_name(p@) == Some(v@),
            None => spec_file_name(p@) is None,
        },
{
    let parts = parts_of(p);
    if parts.len() == 0 {
        return None;
    }
    let last = &parts[parts.len() - 1];
    assert(views(parts@).last() == last@);
    let dotdot: [char; 2] = ['.', '.'];
    if chars_eq(last.as_slice(), &dotdot) {
        None
    } else {
        Some(last.clone())
    }
}

/// Computes `spec_stem_ext`.
pub fn stem_ext_chars(name: &[char]) -> (res: (Vec<char>, Option<Vec<char>>))
    ensures
        res.0@ == spec_stem_ext(name@).0,
        match res.1 {
            Some(e) => spec_stem_ext(name@).1 == Some(e@),
            None => spec_stem_ext(name@).1 is None,
        },
{
    match rfind_char(name, '.') {
        Some(i) if i > 0 => {
            proof { lemma_last_index_of(name@, '.'); }
            assert(i < name.len());
            let stem = sub_chars(name, 0, i);
            let ext = sub_chars(name, i + 1, name.len());
            assert(stem@ == name@.take(i as int));
            assert(ext@ == name@.skip(i + 1));
            (stem, Some(ext))
        },
        _ => (copy_chars(name), None),
    }
}

/// The file name of `path`, if it has one.
pub fn file_name(path: &str) -> (res: Option<String>)
    ensures
        match res {
            Some(s) => spec_file_name(path@) == Some(s@),
            None => spec_file_name(path@) is None,
        },
{
    let p = chars_of(path);
    match file_name_chars(p.as_slice()) {
        Some(n) => Some(string_from_chars(n.as_slice())),
        None => None,
    }
}

/// The file stem of `path`, if it has a file name.
pub fn file_stem(path: &str) -> (res: Option<String>)
    ensures
        match res {
            Some(s) => spec_file_stem(path@) == Some(s@),
            None => spec_file_stem(path@) is None,
        },
{
    let p = chars_of(path);
    match file_name_chars(p.as_slice()) {
        Some(n) => {
            let (stem, _) = stem_ext_chars(n.as_slice());
            Some(string_from_chars(stem.as_slice()))
        },
        None => None,
    }
}

/// The extension of `path`, if it has one.
pub fn extension(path: &str) -> (res: Option<String>)
    ensures
        match res {
            Some(s) => spec_extension(path@) == Some(s@),
            None => spec_extension(path@) is None,
        },
{
    let p = chars_of(path);
    match file_name_chars(p.as_slice()) {
        Some(n) => {
            let (_, ext) = stem_ext_chars(n.as_slice());
            match ext {
                Some(e) => Some(string_from_chars(e.as_slice())),
                None => None,
            }
        },
        None => None,
    }
}

/// Computes `spec_push` on character vectors.
pub fn push_chars(base: &[char], seg: &[char]) -> (res: Vec<char>)
    ensures
        res@ == spec_push(base@, seg@),
{
    if seg.len() > 0 && seg[0] == '/' {
        return copy_chars(seg);
    }
    let mut res = copy_chars(base);
    if !(base.len() == 0 || base[base.len() - 1] == '/') {
        res.push('/');
    }
    extend(&mut res, seg);
    res
}

/// Appends `seg` to the path `base`.
pub fn push_path(base: &str, seg: &str) -> (res: String)
    ensures
        res@ == spec_push(base@, seg@),
{
    let b = chars_of(base);
    let s = chars_of(seg);
    let r = push_chars(b.as_slice(), s.as_slice());
    string_from_chars(r.as_slice())
}

/// `p` without trailing separators and trailing `.` segments, a lone `/`
/// being kept.
pub open spec fn trim_end_spec(p: Seq<char>) -> Seq<char>
    decreases p.len(),
{
    if p.len() >= 2 && p.last() == '/' {
        trim_end_spec(p.drop_last())
    } else if p.len() >= 2 && p.last() == '.' && p[p.len() - 2] == '/' {
        trim_end_spec(p.drop_last())
    } else {
        p
    }
}

/// The text of `p` before its last component, as `Path::parent` gives it
/// back for a path that has a file name.
pub open spec fn spec_parent(p: Seq<char>) -> Seq<char> {
    let q = trim_end_spec(p);
    let i = last_index_of(q, '/');
    if i < 0 {
        Seq::<char>::empty()
    } else if i == 0 {
        seq!['/']
    } else {
        trim_end_spec(q.take(i))
    }
}

/// `PathBuf::with_file_name`: `p` with its file name replaced by `name`, or
/// `name` pushed onto `p` where `p` has no file name.
pub open spec fn spec_with_file_name(p: Seq<char>, name: Seq<char>) -> Seq<char> {
    match spec_file_name(p) {
        Some(_) => spec_push(spec_parent(p), name),
        None => spec_push(p, name),
    }
}

/// Computes `trim_end_spec`.
fn trim_end_chars(p: &[char]) -> (res: Vec<char>)
    ensures
        res@ == trim_end_spec(p@),
{
    let mut k: usize = p.len();
    assert(p@.take(k as int) == p@);
    while k >= 2 && (p[k - 1] == '/' || (p[k - 1] == '.' && p[k - 2] == '/'))
        invariant
            k <= p.len(),
            trim_end_spec(p@.take(k as int)) == trim_end_spec(p@),
        decreases k,
    {
        assert(p@.take(k as int).drop_last() == p@.take(k - 1));
        k = k - 1;
    }
    let r = sub_chars(p, 0, k);
    assert(r@ == p@.take(k as int));
    r
}

/// Computes `spec_parent`.
fn parent_chars(p: &[char]) -> (res: Vec<char>)
    ensures
        res@ == spec_parent(p@),
{
    let q = trim_end_chars(p);
    match rfind_char(q.as_slice(), '/') {
        None => {
            proof { lemma_last_index_of(q@, '/'); }
            Vec::new()
        },
        Some(i) => {
            proof { lemma_last_index_of(q@, '/'); }
            if i == 0 {
                let mut r: Vec<char> = Vec::new();
                r.push('/');
                r
            } else {
                let t = sub_chars(q.as_slice(), 0, i);
                assert(t@ == q@.take(i as int));
                trim_end_chars(t.as_slice())
            }
        },
    }
}

/// `PathBuf::with_file_name` on a path held as a string.
pub fn with_file_name(p: &str, name: &str) -> (res: String)
    ensures
        res@ == spec_with_file_name(p@, name@),
{
    let pc = chars_of(p);
    let nc = chars_of(name);
    let r = match file_name_chars(pc.as_slice()) {
        Some(_) => {
            let par = parent_chars(pc.as_slice());
            push_chars(par.as_slice(), nc.as_slice())
        },
        None => push_chars(pc.as_slice(), nc.as_slice()),
    };
    string_from_chars(r.as_slice())
}

/// Decides equality of two part lists.
pub fn parts_equal(a: &Vec<Vec<char>>, b: &Vec<Vec<char>>) -> (res: bool)
    ensures
        res == (views(a@) == views(b@)),
{
    if a.len() != b.len() {
        return false;
    }
    let mut i: usize = 0;
    while i < a.len()
        invariant
            i <= a.len() == b.len(),
            forall|j: int| 0 <= j < i ==> a@[j]@ == b@[j]@,
        decreases a.len() - i,
    {
        if !chars_eq(a[i].as_slice(), b[i].as_slice()) {
            assert(views(a@)[i as int] != views(b@)[i as int]);
            return false;
        }
        i = i + 1;
    }
    assert(views(a@) =~= views(b@));
    true
}

/// A part of a path: non-empty, not `.`, without a separator.
pub open spec fn valid_part(x: Seq<char>) -> bool {
    x.len() > 0 && x != seq!['.'] && !x.contains('/')
}

proof fn lemma_split_no_sep(b: Seq<char>, sep: char)
    requires
        !b.contains(sep),
    ensures
        split_spec(b, sep) == seq![b],
    decreases b.len(),
{
    if b.len() > 0 {
        assert(!b.drop_last().contains(sep)) by {
            if b.drop_last().contains(sep) {
                let j = choose|j: int| 0 <= j < b.drop_last().len() && b.drop_last()[j] == sep;
                assert(b[j] == sep);
            }
        }
        lemma_split_no_sep(b.drop_last(), sep);
        assert(b[b.len() - 1] == b.last());
        assert(b.last() != sep);
        assert(b.drop_last().push(b.last()) == b);
    } else {
        assert(b == Seq::<char>::empty());
    }
}

proof fn lemma_split_append(a: Seq<char>, b: Seq<char>, sep: char)
    requires
        !b.contains(sep),
    ensures
        split_spec(a + seq![sep] + b, sep) == split_spec(a, sep).push(b),
    decreases b.len(),
{
    let s = a + seq![sep] + b;
    if b.len() == 0 {
        assert(s.drop_last() == a);
        assert(s.last() == sep);
        assert(b == Seq::<char>::empty());
    } else {
        assert(!b.drop_last().contains(sep)) by {
            if b.drop_last().contains(sep) {
                let j = choose|j: int| 0 <= j < b.drop_last().len() && b.drop_last()[j] == sep;
                assert(b[j] == sep);
            }
        }
        lemma_split_append(a, b.drop_last(), sep);
        assert(s.drop_last() == a + seq![sep] + b.drop_last());
        assert(s.last() == b.last());
        assert(b.last() != sep) by {
            assert(b[b.len() - 1] == b.last());
        }
        assert(b.drop_last().push(b.last()) == b);
    }
}

proof fn lemma_split_join(k: Seq<Seq<char>>)
    requires
        k.len() >= 1,
        forall|i: int| 0 <= i < k.len() ==> !(#[trigger] k[i]).contains('/'),
    ensures
        split_spec(join_spec(k, seq!['/']), '/') == k,
    decreases k.len(),
{
    if k.len() == 1 {
        lemma_split_no_sep(k[0], '/');
        assert(k == seq![k[0]]);
    } else {
        assert forall|i: int| 0 <= i < k.drop_last().len() implies !(#[trigger] k.drop_last()[i]).contains('/') by {
            assert(k.drop_last()[i] == k[i]);
        }
        lemma_split_join(k.drop_last());
        assert(!k.last().contains('/')) by {
            assert(k[k.len() - 1] == k.last());
        }
        lemma_split_append(join_spec(k.drop_last(), seq!['/']), k.last(), '/');
        assert(join_spec(k, seq!['/']) == join_spec(k.drop_last(), seq!['/']) + seq!['/'] + k.last());
        assert(k.drop_last().push(k.last()) == k);
    }
}

proof fn lemma_normal_parts_valid(k: Seq<Seq<char>>)
    requires
        forall|i: int| 0 <= i < k.len() ==> valid_part(#[trigger] k[i]),
    ensures
        normal_parts(k) == k,
    decreases k.len(),
{
    if k.len() > 0 {
        assert forall|i: int| 0 <= i < k.drop_last().len() implies valid_part(#[trigger] k.drop_last()[i]) by {
            assert(k.drop_last()[i] == k[i]);
        }
        lemma_normal_parts_valid(k.drop_last());
        assert(valid_part(k[k.len() - 1]));
        assert(k.drop_last().push(k.last()) == k);
    }
}

/// Joining valid parts with `/` gives a path with exactly those parts.
pub proof fn lemma_parts_of_join(k: Seq<Seq<char>>)
    requires
        forall|i: int| 0 <= i < k.len() ==> valid_part(#[trigger] k[i]),
    ensures
        path_parts(join_spec(k, seq!['/'])) == k,
{
    if k.len() == 0 {
        assert(join_spec(k, seq!['/']) == Seq::<char>::empty());
        assert(normal_parts(seq![Seq::<char>::empty()]) == Seq::<Seq<char>>::empty()) by {
            assert(seq![Seq::<char>::empty()].drop_last() == Seq::<Seq<char>>::empty());
            reveal_with_fuel(normal_parts, 2);
        }
    } else {
        lemma_split_join(k);
        lemma_normal_parts_valid(k);
    }
}

proof fn lemma_split_segments(s: Seq<char>, sep: char)
    ensures
        forall|i: int| 0 <= i < split_spec(s, sep).len() ==> !(#[trigger] split_spec(s, sep)[i]).contains(sep),
    decreases s.len(),
{
    if s.len() > 0 {
        lemma_split_segments(s.drop_last(), sep);
        crate::text::lemma_split_nonempty(s.drop_last(), sep);
        let r = split_spec(s.drop_last(), sep);
        if s.last() != sep {
            assert forall|i: int| 0 <= i < split_spec(s, sep).len() implies !(#[trigger] split_spec(s, sep)[i]).contains(sep) by {
                if i == r.len() - 1 {
                    let x = r.last().push(s.last());
                    assert(split_spec(s, sep)[i] == x);
                    if x.contains(sep) {
                        let j = choose|j: int| 0 <= j < x.len() && x[j] == sep;
                        if j < r.last().len() {
                            assert(r.last()[j] == sep);
                            assert(r[r.len() - 1] == r.last());
                        }
                    }
                } else {
                    assert(split_spec(s, sep)[i] == r[i]);
                }
            }
        } else {
            assert forall|i: int| 0 <= i < split_spec(s, sep).len() implies !(#[trigger] split_spec(s, sep)[i]).contains(sep) by {
                if i < r.len() {
                    assert(split_spec(s, sep)[i] == r[i]);
                } else {
                    assert(split_spec(s, sep)[i] == Seq::<char>::empty());
                }
            }
        }
    }
}

proof fn lemma_normal_parts_of_valid(segs: Seq<Seq<char>>)
    requires
        forall|i: int| 0 <= i < segs.len() ==> !(#[trigger] segs[i]).contains('/'),
    ensures
        forall|i: int| 0 <= i < normal_parts(segs).len() ==> valid_part(#[trigger] normal_parts(segs)[i]),
    decreases segs.len(),
{
    if segs.len() > 0 {
        assert forall|i: int| 0 <= i < segs.drop_last().len() implies !(#[trigger] segs.drop_last()[i]).contains('/') by {
            assert(segs.drop_last()[i] == segs[i]);
        }
        lemma_normal_parts_of_valid(segs.drop_last());
        assert(!segs[segs.len() - 1].contains('/'));
        assert(segs.last() == segs[segs.len() - 1]);
        let r = normal_parts(segs.drop_last());
        assert forall|i: int| 0 <= i < normal_parts(segs).len() implies valid_part(#[trigger] normal_parts(segs)[i]) by {
            if i < r.len() {
                assert(normal_parts(segs)[i] == r[i]);
            }
        }
    }
}

/// Every part of a path is a valid part.
pub proof fn lemma_parts_valid(p: Seq<char>)
    ensures
        forall|i: int| 0 <= i < path_parts(p).len() ==> valid_part(#[trigger] path_parts(p)[i]),
{
    lemma_split_segments(p, '/');
    lemma_normal_parts_of_valid(split_spec(p, '/'));
}

/// `Path::parent`, or the path itself where it has no parent.
pub fn parent_path(p: &str) -> (res: String)
    ensures
        res@ == spec_parent(p@),
{
    string_from_chars(parent_chars(chars_of(p).as_slice()).as_slice())
}

/// `p` without trailing separators and trailing `.` segments.
pub fn trim_end_path(p: &[char]) -> (res: Vec<char>)
    ensures
        res@ == trim_end_spec(p@),
{
    trim_end_chars(p)
}

proof fn lemma_normal_push(segs: Seq<Seq<char>>, x: Seq<char>)
    requires
        valid_part(x),
    ensures
        normal_parts(segs.push(x)) == normal_parts(segs).push(x),
{
    assert(segs.push(x).drop_last() == segs);
}

proof fn lemma_normal_skip(segs: Seq<Seq<char>>, x: Seq<char>)
    requires
        x.len() == 0 || x == seq!['.'],
    ensures
        normal_parts(segs.push(x)) == normal_parts(segs),
{
    assert(segs.push(x).drop_last() == segs);
    assert(segs.push(x).last() == x);
}

proof fn lemma_last_index_suffix(a: Seq<char>, b: Seq<char>, c: char)
    requires
        !b.contains(c),
    ensures
        last_index_of(a + b, c) == last_index_of(a, c),
    decreases b.len(),
{
    if b.len() > 0 {
        assert((a + b).drop_last() == a + b.drop_last());
        assert((a + b).last() == b[b.len() - 1]);
        assert(!b.drop_last().contains(c)) by {
            if b.drop_last().contains(c) {
                let j = choose|j: int| 0 <= j < b.drop_last().len() && b.drop_last()[j] == c;
                assert(b[j] == c);
            }
        }
        lemma_last_index_suffix(a, b.drop_last(), c);
    } else {
        assert(a + b == a);
    }
}

proof fn lemma_trim_end_len(x: Seq<char>)
    ensures
        trim_end_spec(x).len() <= x.len(),
    decreases x.len(),
{
    if x.len() >= 2 && (x.last() == '/' || (x.last() == '.' && x[x.len() - 2] == '/')) {
        lemma_trim_end_len(x.drop_last());
    }
}

proof fn lemma_trim_end_idem(x: Seq<char>)
    ensures
        trim_end_spec(trim_end_spec(x)) == trim_end_spec(x),
    decreases x.len(),
{
    if x.len() >= 2 && (x.last() == '/' || (x.last() == '.' && x[x.len() - 2] == '/')) {
        lemma_trim_end_idem(x.drop_last());
    }
}

/// The parent of a path is left as it is by trimming its end.
pub proof fn lemma_parent_trimmed(p: Seq<char>)
    ensures
        trim_end_spec(spec_parent(p)) == spec_parent(p),
{
    let q = trim_end_spec(p);
    let i = last_index_of(q, '/');
    if i > 0 {
        lemma_trim_end_idem(q.take(i));
    }
}

/// Pushing a valid file name onto a path whose end is trimmed gives a path
/// with that file name whose parent is the path.
pub proof fn lemma_push_file_name(b: Seq<char>, name: Seq<char>)
    requires
        valid_part(name),
        name != seq!['.', '.'],
        trim_end_spec(b) == b,
    ensures
        spec_file_name(spec_push(b, name)) == Some(name),
        spec_parent(spec_push(b, name)) == b,
{
    assert(name[0] != '/') by { assert(!name.contains('/')); }
    assert(name.last() != '/') by { assert(name[name.len() - 1] == name.last()); }
    lemma_split_no_sep(name, '/');
    if b.len() == 0 {
        assert(spec_push(b, name) == name);
        assert(normal_parts(seq![name]) == normal_parts(Seq::<Seq<char>>::empty()).push(name)) by {
            lemma_normal_push(Seq::<Seq<char>>::empty(), name);
            assert(Seq::<Seq<char>>::empty().push(name) == seq![name]);
        }
        if name.len() >= 2 && name.last() == '.' {
            assert(name[name.len() - 2] != '/') by { assert(!name.contains('/')); }
        }
        lemma_last_index_suffix(Seq::<char>::empty(), name, '/');
        assert(Seq::<char>::empty() + name == name);
    } else {
        let a: Seq<char> = if b.last() == '/' { Seq::<char>::empty() } else { b };
        if b.last() == '/' {
            lemma_trim_end_len(b.drop_last());
            assert(b.len() < 2);
            assert(b == seq!['/']);
            assert(spec_push(b, name) == a + seq!['/'] + name);
        } else {
            assert(spec_push(b, name) == a + seq!['/'] + name);
        }
        let q = a + seq!['/'] + name;
        lemma_split_append(a, name, '/');
        lemma_normal_push(split_spec(a, '/'), name);
        assert(q.last() == name.last());
        if name.len() >= 2 {
            assert(q[q.len() - 2] == name[name.len() - 2]);
            assert(name[name.len() - 2] != '/') by { assert(!name.contains('/')); }
        } else {
            assert(q[q.len() - 2] == '/');
            assert(name != seq!['.']);
            assert(name.last() != '.') by { assert(name == seq![name[0]]); }
        }
        assert(trim_end_spec(q) == q);
        lemma_last_index_suffix(a + seq!['/'], name, '/');
        assert(a + seq!['/'] + name == (a + seq!['/']) + name);
        assert(last_index_of(a + seq!['/'], '/') == a.len());
        assert(q.take(a.len() as int) == a);
    }
}

/// Splitting a path with text appended that holds no separator extends its
/// last segment.
proof fn lemma_split_extend(p: Seq<char>, t: Seq<char>)
    requires
        !t.contains('/'),
    ensures
        split_spec(p + t, '/') == split_spec(p, '/').drop_last().push(split_spec(p, '/').last() + t),
    decreases t.len(),
{
    crate::text::lemma_split_nonempty(p, '/');
    if t.len() == 0 {
        assert(p + t == p);
        assert(split_spec(p, '/').last() + t == split_spec(p, '/').last());
        assert(split_spec(p, '/').drop_last().push(split_spec(p, '/').last()) == split_spec(p, '/'));
    } else {
        assert(!t.drop_last().contains('/')) by {
            if t.drop_last().contains('/') {
                let j = choose|j: int| 0 <= j < t.drop_last().len() && t.drop_last()[j] == '/';
                assert(t[j] == '/');
            }
        }
        lemma_split_extend(p, t.drop_last());
        assert((p + t).drop_last() == p + t.drop_last());
        assert((p + t).last() == t.last());
        assert(t.last() != '/') by { assert(t[t.len() - 1] == t.last()); }
        let r = split_spec(p + t.drop_last(), '/');
        let sp = split_spec(p, '/');
        assert(r.update(r.len() - 1, r.last().push(t.last())) == sp.drop_last().push(sp.last() + t)) by {
            assert(sp.last() + t.drop_last() + seq![t.last()] == sp.last() + t) by {
                assert(t.drop_last().push(t.last()) == t);
            }
            assert((sp.last() + t.drop_last()).push(t.last()) == sp.last() + t.drop_last() + seq![t.last()]);
        }
    }
}

proof fn lemma_root_has_no_parts()
    ensures
        path_parts(seq!['/']).len() == 0,
{
    let e = Seq::<char>::empty();
    assert(seq!['/'] == e + seq!['/'] + e);
    lemma_split_append(e, e, '/');
    assert(split_spec(e, '/') == seq![e]);
    let sp = split_spec(seq!['/'], '/');
    assert(sp == seq![e, e]);
    assert(sp.drop_last() == seq![e]);
    assert(sp.last() == e);
    assert(seq![e].drop_last() == Seq::<Seq<char>>::empty());
    assert(seq![e].last() == e);
    assert(normal_parts(seq![e]) == normal_parts(Seq::<Seq<char>>::empty()));
}

proof fn lemma_dot_has_no_parts()
    ensures
        path_parts(seq!['.']).len() == 0,
{
    let d = seq!['.'];
    assert(!d.contains('/')) by { assert(d[0] == '.'); }
    lemma_split_no_sep(d, '/');
    lemma_normal_skip(Seq::<Seq<char>>::empty(), d);
    assert(Seq::<Seq<char>>::empty().push(d) == seq![d]);
}

/// The last segment of a path with a file name and a trimmed end is its
/// file name.
proof fn lemma_last_segment_is_file_name(p: Seq<char>)
    requires
        spec_file_name(p) is Some,
        trim_end_spec(p) == p,
    ensures
        valid_part(split_spec(p, '/').last()),
        split_spec(p, '/').last() == spec_file_name(p)->0,
        split_spec(p, '/').len() >= 1,
{
    let sp = split_spec(p, '/');
    crate::text::lemma_split_nonempty(p, '/');
    lemma_split_segments(p, '/');
    assert(p.len() > 0) by {
        if p.len() == 0 {
            assert(sp == seq![Seq::<char>::empty()]);
            lemma_normal_skip(Seq::<Seq<char>>::empty(), Seq::<char>::empty());
            assert(Seq::<Seq<char>>::empty().push(Seq::<char>::empty()) == seq![Seq::<char>::empty()]);
        }
    }
    assert(p.last() != '/') by {
        if p.last() == '/' {
            lemma_trim_end_len(p.drop_last());
            assert(p == seq!['/']);
            lemma_root_has_no_parts();
        }
    }
    let r = split_spec(p.drop_last(), '/');
    crate::text::lemma_split_nonempty(p.drop_last(), '/');
    assert(sp.last() == r.last().push(p.last()));
    assert(sp.last() != seq!['.']) by {
        if sp.last() == seq!['.'] {
            assert(r.last().push(p.last()).len() == r.last().len() + 1);
            assert(r.last().len() == 0);
            assert(r.last().push(p.last())[0] == p.last());
            assert(p.last() == '.');
            if p.len() >= 2 {
                let pd = p.drop_last();
                if pd.last() != '/' {
                    let r2 = split_spec(pd.drop_last(), '/');
                    crate::text::lemma_split_nonempty(pd.drop_last(), '/');
                    assert(r == r2.update(r2.len() - 1, r2.last().push(pd.last())));
                    assert(r.last().len() > 0);
                }
                assert(p[p.len() - 2] == pd.last());
                lemma_trim_end_len(p.drop_last());
                assert(trim_end_spec(p) == trim_end_spec(p.drop_last()));
            } else {
                assert(p == seq!['.']);
                lemma_dot_has_no_parts();
            }
        }
    }
    assert(!sp.last().contains('/')) by {
        assert(sp.last() == sp[sp.len() - 1]);
    }
    assert(sp == sp.drop_last().push(sp.last()));
    lemma_normal_push(sp.drop_last(), sp.last());
}

/// Appending text without a separator to a path whose end is trimmed
/// appends it to the file name and keeps the parent.
pub proof fn lemma_append_to_file_name(p: Seq<char>, t: Seq<char>)
    requires
        spec_file_name(p) is Some,
        trim_end_spec(p) == p,
        !t.contains('/'),
        t.len() > 0,
        t.last() != '/',
        t.last() != '.',
    ensures
        spec_file_name(p + t) == Some(spec_file_name(p)->0 + t),
        spec_parent(p + t) == spec_parent(p),
{
    let n = spec_file_name(p)->0;
    let sp = split_spec(p, '/');
    lemma_last_segment_is_file_name(p);
    lemma_split_extend(p, t);
    assert(!(n + t).contains('/')) by {
        if (n + t).contains('/') {
            let j = choose|j: int| 0 <= j < (n + t).len() && (n + t)[j] == '/';
            if j < n.len() {
                assert(n[j] == '/');
            } else {
                assert(t[j - n.len()] == '/');
            }
        }
    }
    assert((n + t) != seq!['.']) by { assert((n + t).len() >= 2); }
    lemma_normal_push(sp.drop_last(), n + t);
    assert((n + t) != seq!['.', '.']) by {
        if (n + t) == seq!['.', '.'] {
            assert((n + t).last() == t.last());
        }
    }
    let q = p + t;
    assert(q.last() == t.last());
    assert(trim_end_spec(q) == q);
    lemma_last_index_suffix(p, t, '/');
    crate::text::lemma_last_index_of(p, '/');
    let i = last_index_of(p, '/');
    if i > 0 {
        assert(q.take(i) == p.take(i));
    }
}

} // verus!
