//! Data-file conventions: which files are data, annotation sidecars, YAML
//! front matter, column names, cell references and output paths.

use vstd::prelude::*;
use crate::error::VVError;
use crate::path::{
    extension, file_name, file_stem, push_chars, spec_extension, spec_file_name, spec_file_stem, spec_push,
    spec_with_file_name, with_file_name,
};
use crate::text::{
    char_is_alphanumeric, chars_eq, chars_of, contains_char, ends_with, find_chars, find_spec, is_prefix,
    is_suffix, starts_with, string_from_chars, sub_chars, to_ascii_lower, trim_blanks, trim_blanks_spec,
    trim_start_chars, trim_start_spec, alphanumeric, ascii_lower, is_digit, extend, string_views,
};

verus! {

/// Type of annotation on a data value or markdown line.
#[derive(Debug, Clone, PartialEq)]
pub enum AnnotationType {
    Comment,
    Question,
    Issue,
    Suggestion { suggested: String },
}

/// Status of an annotation.
#[derive(Debug, Clone, PartialEq)]
pub enum Status {
    Open,
    InProgress,
    Resolved,
    Accepted,
    Rejected,
}

/// A reply to an annotation.
#[derive(Debug, Clone, PartialEq)]
pub struct Reply {
    pub author: String,
    pub text: String,
    pub created: String,
}

/// An annotation on a data value, as an annotation sidecar file holds it.
#[derive(Debug, Clone, PartialEq)]
pub struct AnnotationData {
    pub ann_type: AnnotationType,
    pub author: String,
    pub text: String,
    pub status: Status,
    pub tags: Vec<String>,
    pub replies: Vec<Reply>,
}

/// An annotation on a range of markdown lines, as a sidecar file holds it.
#[derive(Debug, Clone, PartialEq)]
pub struct MarkdownAnnotationData {
    pub ann_type: AnnotationType,
    pub author: String,
    pub text: String,
    pub status: Status,
    pub line: usize,
    pub line_end: Option<usize>,
    pub char_start: Option<usize>,
    pub char_end: Option<usize>,
    pub tags: Vec<String>,
    pub replies: Vec<Reply>,
}

/// The extensions of data files: text, binary, tabular and markdown formats.
pub open spec fn is_data_extension(e: Seq<char>) -> bool {
    ||| e == seq!['j', 's', 'o', 'n']
    ||| e == seq!['t', 'o', 'm', 'l']
    ||| e == seq!['r', 'o', 'n']
    ||| e == seq!['y', 'a', 'm', 'l']
    ||| e == seq!['y', 'm', 'l']
    ||| e == seq!['m', 's', 'g', 'p', 'a', 'c', 'k']
    ||| e == seq!['m', 'p']
    ||| e == seq!['p', 'i', 'c', 'k', 'l', 'e']
    ||| e == seq!['p', 'k', 'l']
    ||| e == seq!['c', 'b', 'o', 'r']
    ||| e == seq!['b', 's', 'o', 'n']
    ||| e == seq!['c', 's', 'v']
    ||| e == seq!['x', 'l', 's', 'x']
    ||| e == seq!['m', 'd']
}

/// Decides `is_data_extension`.
pub fn is_data_extension_chars(e: &[char]) -> (res: bool)
    ensures
        res == is_data_extension(e@),
{
    let json: [char; 4] = ['j', 's', 'o', 'n'];
    let toml: [char; 4] = ['t', 'o', 'm', 'l'];
    let ron: [char; 3] = ['r', 'o', 'n'];
    let yaml: [char; 4] = ['y', 'a', 'm', 'l'];
    let yml: [char; 3] = ['y', 'm', 'l'];
    let msgpack: [char; 7] = ['m', 's', 'g', 'p', 'a', 'c', 'k'];
    let mp: [char; 2] = ['m', 'p'];
    let pickle: [char; 6] = ['p', 'i', 'c', 'k', 'l', 'e'];
    let pkl: [char; 3] = ['p', 'k', 'l'];
    let cbor: [char; 4] = ['c', 'b', 'o', 'r'];
    let bson: [char; 4] = ['b', 's', 'o', 'n'];
    let csv: [char; 3] = ['c', 's', 'v'];
    let xlsx: [char; 4] = ['x', 'l', 's', 'x'];
    let md: [char; 2] = ['m', 'd'];
    chars_eq(e, &json) || chars_eq(e, &toml) || chars_eq(e, &ron) || chars_eq(e, &yaml) || chars_eq(e, &yml)
        || chars_eq(e, &msgpack) || chars_eq(e, &mp) || chars_eq(e, &pickle) || chars_eq(e, &pkl)
        || chars_eq(e, &cbor) || chars_eq(e, &bson) || chars_eq(e, &csv) || chars_eq(e, &xlsx)
        || chars_eq(e, &md)
}

/// Whether `path` has the extension of a supported data file.
pub fn is_supported_data_file_type(path: &str) -> (res: bool)
    ensures
        res == (match spec_extension(path@) {
            Some(e) => is_data_extension(e),
            None => false,
        }),
{
    match extension(path) {
        Some(e) => {
            let ec = chars_of(e.as_str());
            is_data_extension_chars(ec.as_slice())
        },
        None => false,
    }
}

/// The extension of `path`.
pub fn get_extension(path: &str) -> (res: Option<String>)
    ensures
        match res {
            Some(e) => spec_extension(path@) == Some(e@),
            None => spec_extension(path@) is None,
        },
{
    extension(path)
}

/// The suffix of annotation sidecar files.
pub open spec fn sidecar_suffix() -> Seq<char> {
    seq!['.', 'a', 'n', 'n', 'o', 't', 'a', 't', 'i', 'o', 'n', 's', '.', 'r', 'o', 'n']
}

fn sidecar_suffix_chars() -> (res: Vec<char>)
    ensures
        res@ == sidecar_suffix(),
{
    let v: Vec<char> = vec!['.', 'a', 'n', 'n', 'o', 't', 'a', 't', 'i', 'o', 'n', 's', '.', 'r', 'o', 'n'];
    assert(v@ == sidecar_suffix());
    v
}

/// Where the annotations of a data file live: beside a markdown file, its
/// whole name followed by `.annotations.ron`; beside any other file, its
/// stem followed by `.annotations.ron`.
pub open spec fn spec_sidecar_path(p: Seq<char>) -> Seq<char> {
    if spec_extension(p) == Some(seq!['m', 'd']) {
        p + sidecar_suffix()
    } else {
        let stem = match spec_file_stem(p) {
            Some(s) => s,
            None => Seq::<char>::empty(),
        };
        spec_with_file_name(p, stem + sidecar_suffix())
    }
}

/// The annotation sidecar path of a data file.
pub fn annotation_sidecar_path(data_path: &str) -> (res: String)
    ensures
        res@ == spec_sidecar_path(data_path@),
{
    let suffix = sidecar_suffix_chars();
    let md: [char; 2] = ['m', 'd'];
    let is_md = match extension(data_path) {
        Some(e) => {
            let ec = chars_of(e.as_str());
            chars_eq(ec.as_slice(), &md)
        },
        None => false,
    };
    if is_md {
        let mut r = chars_of(data_path);
        extend(&mut r, suffix.as_slice());
        string_from_chars(r.as_slice())
    } else {
        let mut name: Vec<char> = match file_stem(data_path) {
            Some(s) => chars_of(s.as_str()),
            None => Vec::new(),
        };
        extend(&mut name, suffix.as_slice());
        let n = string_from_chars(name.as_slice());
        with_file_name(data_path, n.as_str())
    }
}

/// An annotation sidecar lies beside its data file: the path
/// `annotation_sidecar_path` gives for a path with a file name names a
/// sidecar, and has the same parent. A markdown path whose end is not
/// trimmed (`/a/readme.md/`) is left out: its sidecar lands inside it.
pub proof fn lemma_sidecar_beside_data_file(p: Seq<char>)
    requires
        spec_file_name(p) is Some,
        spec_extension(p) == Some(seq!['m', 'd']) ==> crate::path::trim_end_spec(p) == p,
    ensures
        spec_is_sidecar(spec_sidecar_path(p)),
        crate::path::spec_parent(spec_sidecar_path(p)) == crate::path::spec_parent(p),
{
    let sfx = sidecar_suffix();
    assert(!sfx.contains('/')) by {
        if sfx.contains('/') {
            let j = choose|j: int| 0 <= j < sfx.len() && sfx[j] == '/';
        }
    }
    let n = spec_file_name(p)->0;
    crate::path::lemma_parts_valid(p);
    assert(crate::path::valid_part(n)) by {
        let parts = crate::path::path_parts(p);
        assert(n == parts[parts.len() - 1]);
    }
    if spec_extension(p) == Some(seq!['m', 'd']) {
        assert(sfx.last() == 'n');
        crate::path::lemma_append_to_file_name(p, sfx);
        let m = n + sfx;
        assert(m.skip(m.len() - sfx.len()) == sfx);
    } else {
        let stem = crate::path::spec_stem_ext(n).0;
        let name = stem + sfx;
        crate::text::lemma_last_index_of(n, '.');
        assert(stem.len() <= n.len());
        assert(forall|j: int| 0 <= j < stem.len() ==> stem[j] == n[j]);
        assert(!stem.contains('/')) by {
            if stem.contains('/') {
                let j = choose|j: int| 0 <= j < stem.len() && stem[j] == '/';
                assert(n[j] == '/');
            }
        }
        assert(!name.contains('/')) by {
            if name.contains('/') {
                let j = choose|j: int| 0 <= j < name.len() && name[j] == '/';
                if j < stem.len() {
                    assert(stem[j] == '/');
                } else {
                    assert(sfx[j - stem.len()] == '/');
                }
            }
        }
        assert(name.len() >= 16);
        assert(name != seq!['.']);
        assert(name != seq!['.', '.']);
        crate::path::lemma_parent_trimmed(p);
        crate::path::lemma_push_file_name(crate::path::spec_parent(p), name);
        assert(name.skip(name.len() - sfx.len()) == sfx);
    }
}

/// The path names an annotation sidecar: its file name ends with
/// `.annotations.ron`.
pub open spec fn spec_is_sidecar(path: Seq<char>) -> bool {
    match spec_file_name(path) {
        Some(n) => is_suffix(sidecar_suffix(), n),
        None => false,
    }
}

/// Whether `path` names an annotation sidecar file.
pub fn is_annotation_sidecar(path: &str) -> (res: bool)
    ensures
        res == spec_is_sidecar(path@),
{
    match file_name(path) {
        Some(n) => {
            let nc = chars_of(n.as_str());
            let suffix = sidecar_suffix_chars();
            ends_with(nc.as_slice(), suffix.as_slice())
        },
        None => false,
    }
}

/// `s` with one leading line break (`\n` or `\r\n`) removed, if it has one.
pub open spec fn strip_newline(s: Seq<char>) -> Option<Seq<char>> {
    if is_prefix(seq!['\n'], s) {
        Some(s.skip(1))
    } else if is_prefix(seq!['\r', '\n'], s) {
        Some(s.skip(2))
    } else {
        None
    }
}

/// The YAML front matter and the body of a markdown text: the text, its
/// leading whitespace aside, opens with `---` and the rest of that line is
/// blank; the front matter runs up to the next line that starts with `---`
/// and holds a `:`; the body starts on the line after that delimiter, the
/// rest of the delimiter line skipped as far as it is blank.
pub open spec fn spec_front_matter_and_body(content: Seq<char>) -> Option<(Seq<char>, Seq<char>)> {
    let t = trim_start_spec(content);
    if !is_prefix(seq!['-', '-', '-'], t) {
        None
    } else {
        match strip_newline(trim_blanks_spec(t.skip(3))) {
            None => None,
            Some(af) => {
                let pos = match find_spec(af, seq!['\n', '-', '-', '-']) {
                    Some(i) => Some(i),
                    None => find_spec(af, seq!['\r', '\n', '-', '-', '-']),
                };
                match pos {
                    None => None,
                    Some(p) => {
                        let yaml = af.take(p);
                        if !yaml.contains(':') {
                            None
                        } else {
                            let after = af.skip(p);
                            let start: int = if is_prefix(seq!['\r', '\n', '-', '-', '-'], after) { 5 } else { 4 };
                            let rest = trim_blanks_spec(after.skip(start));
                            let body = match strip_newline(rest) {
                                Some(b) => b,
                                None => rest,
                            };
                            Some((yaml, body))
                        }
                    },
                }
            },
        }
    }
}

fn strip_newline_chars(s: &[char]) -> (res: Option<Vec<char>>)
    ensures
        match res {
            Some(v) => strip_newline(s@) == Some(v@),
            None => strip_newline(s@) is None,
        },
{
    let lf: [char; 1] = ['\n'];
    let crlf: [char; 2] = ['\r', '\n'];
    assert(lf@ == seq!['\n']);
    assert(crlf@ == seq!['\r', '\n']);
    if starts_with(s, &lf) {
        let r = sub_chars(s, 1, s.len());
        assert(r@ == s@.skip(1));
        Some(r)
    } else if starts_with(s, &crlf) {
        let r = sub_chars(s, 2, s.len());
        assert(r@ == s@.skip(2));
        Some(r)
    } else {
        None
    }
}

/// Extracts YAML front matter and body content from a markdown text.
pub fn extract_front_matter_and_body(content: &str) -> (res: Option<(String, String)>)
    ensures
        match res {
            Some((y, b)) => spec_front_matter_and_body(content@) == Some((y@, b@)),
            None => spec_front_matter_and_body(content@) is None,
        },
{
    let c = chars_of(content);
    let t = trim_start_chars(c.as_slice());
    let dashes: [char; 3] = ['-', '-', '-'];
    if !starts_with(t.as_slice(), &dashes) {
        return None;
    }
    let after_dashes = sub_chars(t.as_slice(), 3, t.len());
    assert(after_dashes@ == t@.skip(3));
    let blanks = trim_blanks(after_dashes.as_slice());
    let af = match strip_newline_chars(blanks.as_slice()) {
        Some(v) => v,
        None => return None,
    };
    let lf_dashes: [char; 4] = ['\n', '-', '-', '-'];
    let crlf_dashes: [char; 5] = ['\r', '\n', '-', '-', '-'];
    let pos = match find_chars(af.as_slice(), &lf_dashes) {
        Some(i) => Some(i),
        None => find_chars(af.as_slice(), &crlf_dashes),
    };
    let p = match pos {
        Some(p) => p,
        None => return None,
    };
    proof {
        crate::text::lemma_find_bound(af@, seq!['\n', '-', '-', '-']);
        crate::text::lemma_find_bound(af@, seq!['\r', '\n', '-', '-', '-']);
    }
    let yaml = sub_chars(af.as_slice(), 0, p);
    assert(yaml@ == af@.take(p as int));
    if !contains_char(yaml.as_slice(), ':') {
        return None;
    }
    let after = sub_chars(af.as_slice(), p, af.len());
    assert(after@ == af@.skip(p as int));
    let start: usize = if starts_with(after.as_slice(), &crlf_dashes) { 5 } else { 4 };
    proof {
        crate::text::lemma_find_occurs(af@, seq!['\n', '-', '-', '-']);
        crate::text::lemma_find_occurs(af@, seq!['\r', '\n', '-', '-', '-']);
    }
    let tail = sub_chars(after.as_slice(), start, after.len());
    assert(tail@ == after@.skip(start as int));
    let rest = trim_blanks(tail.as_slice());
    let body = match strip_newline_chars(rest.as_slice()) {
        Some(b) => b,
        None => rest,
    };
    Some((string_from_chars(yaml.as_slice()), string_from_chars(body.as_slice())))
}

/// Extracts the YAML front matter of a text that may have trailing markdown.
pub fn extract_front_matter(content: &str) -> (res: Option<String>)
    ensures
        match res {
            Some(y) => spec_front_matter_and_body(content@) is Some
                && spec_front_matter_and_body(content@).unwrap().0 == y@,
            None => spec_front_matter_and_body(content@) is None,
        },
{
    match extract_front_matter_and_body(content) {
        Some((y, b)) => {
            assert(spec_front_matter_and_body(content@) == Some((y@, b@)));
            Some(y)
        },
        None => None,
    }
}

/// Sanitizes one character of a column name.
pub open spec fn sanitize_char(c: char) -> char {
    if alphanumeric(c) {
        ascii_lower(c)
    } else {
        '_'
    }
}

/// A column header as an identifier: alphanumeric characters lower-cased
/// (ASCII letters only), every other character `_`, and a `_` in front when
/// the result starts with an ASCII digit.
pub open spec fn spec_sanitize(name: Seq<char>) -> Seq<char> {
    let s = name.map_values(|c: char| sanitize_char(c));
    if s.len() > 0 && is_digit(s[0]) {
        seq!['_'] + s
    } else {
        s
    }
}

/// Sanitizes a column header (or sheet name) to a valid identifier.
pub fn sanitize_column_name(name: &str) -> (res: String)
    ensures
        res@ == spec_sanitize(name@),
        forall|i: int| 0 <= i < name@.len() && (name@[i] as u32) < 128
            ==> (alphanumeric(#[trigger] name@[i]) <==> (is_digit(name@[i]) || crate::text::is_ascii_letter(name@[i]))),
{
    let c = chars_of(name);
    let mut s: Vec<char> = Vec::new();
    let mut i: usize = 0;
    while i < c.len()
        invariant
            i <= c.len(),
            c@ == name@,
            forall|k: int| 0 <= k < i && (c@[k] as u32) < 128
                ==> (alphanumeric(#[trigger] c@[k]) <==> (is_digit(c@[k]) || crate::text::is_ascii_letter(c@[k]))),
            s@ == c@.take(i as int).map_values(|x: char| sanitize_char(x)),
        decreases c.len() - i,
    {
        let ch = c[i];
        let out = if char_is_alphanumeric(ch) { to_ascii_lower(ch) } else { '_' };
        s.push(out);
        assert(c@.take(i + 1) == c@.take(i as int).push(ch));
        assert(c@.take(i + 1).map_values(|x: char| sanitize_char(x)) =~= c@.take(i as int).map_values(
            |x: char| sanitize_char(x),
        ).push(sanitize_char(ch)));
        i = i + 1;
    }
    assert(c@.take(c.len() as int) == c@);
    if s.len() > 0 && '0' <= s[0] && s[0] <= '9' {
        let mut r: Vec<char> = Vec::new();
        r.push('_');
        extend(&mut r, s.as_slice());
        string_from_chars(r.as_slice())
    } else {
        string_from_chars(s.as_slice())
    }
}

/// The (row, column) an Excel cell reference such as `B3` names, both
/// counted from 1: letters give the column in base 26 (`A` = 1, case
/// ignored), digits the row in base 10, other characters are skipped.
pub open spec fn spec_cell_ref(s: Seq<char>) -> (int, int)
    decreases s.len(),
{
    if s.len() == 0 {
        (0, 0)
    } else {
        let (row, col) = spec_cell_ref(s.drop_last());
        let ch = s.last();
        if crate::text::is_ascii_letter(ch) {
            (row, col * 26 + (crate::text::ascii_upper(ch) as int - 'A' as int + 1))
        } else if is_digit(ch) {
            (row * 10 + (ch as int - '0' as int), col)
        } else {
            (row, col)
        }
    }
}

proof fn lemma_cell_ref_grows(s: Seq<char>, k: int)
    requires
        0 <= k <= s.len(),
    ensures
        0 <= spec_cell_ref(s.take(k)).0 <= spec_cell_ref(s).0,
        0 <= spec_cell_ref(s.take(k)).1 <= spec_cell_ref(s).1,
    decreases s.len(),
{
    if k == s.len() {
        assert(s.take(k) == s);
        lemma_cell_ref_nonneg(s);
    } else {
        lemma_cell_ref_grows(s.drop_last(), k);
        assert(s.drop_last().take(k) == s.take(k));
        lemma_cell_ref_nonneg(s.drop_last());
    }
}

proof fn lemma_cell_ref_nonneg(s: Seq<char>)
    ensures
        spec_cell_ref(s).0 >= 0,
        spec_cell_ref(s).1 >= 0,
    decreases s.len(),
{
    if s.len() > 0 {
        lemma_cell_ref_nonneg(s.drop_last());
    }
}

/// Parses an Excel cell reference to (row, column), both counted from 1;
/// `None` where either number would not fit in a `usize`.
pub fn parse_cell_ref_checked(cell_ref: &str) -> (res: Option<(usize, usize)>)
    ensures
        match res {
            Some((r, c)) => spec_cell_ref(cell_ref@) == (r as int, c as int),
            None => spec_cell_ref(cell_ref@).0 > usize::MAX || spec_cell_ref(cell_ref@).1 > usize::MAX,
        },
{
    let s = chars_of(cell_ref);
    let mut row: usize = 0;
    let mut col: usize = 0;
    let mut i: usize = 0;
    while i < s.len()
        invariant
            i <= s.len(),
            s@ == cell_ref@,
            spec_cell_ref(s@.take(i as int)) == (row as int, col as int),
        decreases s.len() - i,
    {
        let ch = s[i];
        assert(s@.take(i + 1).drop_last() == s@.take(i as int));
        assert(s@.take(i + 1).last() == ch);
        if ('a' <= ch && ch <= 'z') || ('A' <= ch && ch <= 'Z') {
            let up = crate::text::to_ascii_upper(ch);
            let d: usize = (up as u32 - 'A' as u32 + 1) as usize;
            assert(d as int == crate::text::ascii_upper(ch) as int - 'A' as int + 1);
            assert(spec_cell_ref(s@.take(i + 1)) == (row as int, col as int * 26 + d as int));
            match col.checked_mul(26) {
                Some(m) => match m.checked_add(d) {
                    Some(n) => { col = n; },
                    None => {
                        proof { lemma_cell_ref_grows(s@, i + 1); }
                        return None;
                    },
                },
                None => {
                    proof { lemma_cell_ref_grows(s@, i + 1); }
                    return None;
                },
            }
        } else if '0' <= ch && ch <= '9' {
            let d: usize = (ch as u32 - '0' as u32) as usize;
            assert(d as int == ch as int - '0' as int);
            assert(spec_cell_ref(s@.take(i + 1)) == (row as int * 10 + d as int, col as int));
            match row.checked_mul(10) {
                Some(m) => match m.checked_add(d) {
                    Some(n) => { row = n; },
                    None => {
                        proof { lemma_cell_ref_grows(s@, i + 1); }
                        return None;
                    },
                },
                None => {
                    proof { lemma_cell_ref_grows(s@, i + 1); }
                    return None;
                },
            }
        }
        i = i + 1;
    }
    assert(s@.take(s.len() as int) == s@);
    Some((row, col))
}

/// Parses an Excel cell reference such as `B3` to (row, column), both
/// counted from 1.
pub fn parse_cell_ref(cell_ref: &str) -> (res: (usize, usize))
    requires
        spec_cell_ref(cell_ref@).0 <= usize::MAX,
        spec_cell_ref(cell_ref@).1 <= usize::MAX,
    ensures
        spec_cell_ref(cell_ref@) == (res.0 as int, res.1 as int),
{
    match parse_cell_ref_checked(cell_ref) {
        Some(rc) => rc,
        None => (0, 0),
    }
}

/// The pieces of `s` between occurrences of `pat` (`str::split` with a
/// non-empty string pattern).
pub open spec fn split_on(s: Seq<char>, pat: Seq<char>) -> Seq<Seq<char>>
    decreases s.len(),
{
    if pat.len() == 0 {
        seq![s]
    } else {
        match find_spec(s, pat) {
            Some(i) => {
                proof { crate::text::lemma_find_bound(s, pat); }
                seq![s.take(i)] + split_on(s.skip(i + pat.len()), pat)
            },
            None => seq![s],
        }
    }
}

/// Pushes each of `segs` onto `base`, in order.
pub open spec fn push_all(base: Seq<char>, segs: Seq<Seq<char>>) -> Seq<char>
    decreases segs.len(),
{
    if segs.len() == 0 {
        base
    } else {
        spec_push(push_all(base, segs.drop_last()), segs.last())
    }
}

/// The output file of a template: its name split at `::`, each piece a
/// directory level below `output_dir`, the last the file.
pub open spec fn spec_output_path(output_dir: Seq<char>, template_name: Seq<char>) -> Seq<char> {
    push_all(output_dir, split_on(template_name, seq![':', ':']))
}

/// Computes `split_on` for a non-empty pattern.
pub fn split_on_chars(s: &[char], pat: &[char]) -> (res: Vec<Vec<char>>)
    requires
        pat.len() > 0,
    ensures
        crate::text::views(res@) == split_on(s@, pat@),
{
    let mut res: Vec<Vec<char>> = Vec::new();
    let mut rest: Vec<char> = crate::text::copy_chars(s);
    loop
        invariant
            pat.len() > 0,
            crate::text::views(res@) + split_on(rest@, pat@) == split_on(s@, pat@),
        decreases rest.len(),
    {
        match find_chars(rest.as_slice(), pat) {
            Some(i) => {
                proof { crate::text::lemma_find_bound(rest@, pat@); }
                let piece = sub_chars(rest.as_slice(), 0, i);
                let next = sub_chars(rest.as_slice(), i + pat.len(), rest.len());
                assert(piece@ == rest@.take(i as int));
                assert(next@ == rest@.skip(i + pat.len()));
                let ghost before = crate::text::views(res@);
                res.push(piece);
                assert(crate::text::views(res@) == before.push(piece@));
                assert(split_on(rest@, pat@) == seq![piece@] + split_on(next@, pat@));
                assert(before.push(piece@) + split_on(next@, pat@) =~= before + (seq![piece@] + split_on(next@, pat@)));
                rest = next;
            },
            None => {
                let ghost before = crate::text::views(res@);
                res.push(rest);
                assert(crate::text::views(res@) =~= before + seq![rest@]);
                return res;
            },
        }
    }
}

/// Builds the output file path of a template.
pub fn build_output_path(output_dir: &str, template_name: &str) -> (res: String)
    ensures
        res@ == spec_output_path(output_dir@, template_name@),
{
    let name = chars_of(template_name);
    let sep: [char; 2] = [':', ':'];
    let segs = split_on_chars(name.as_slice(), &sep);
    assert(sep@ == seq![':', ':']);
    let mut out = chars_of(output_dir);
    let mut i: usize = 0;
    while i < segs.len()
        invariant
            i <= segs.len(),
            out@ == push_all(output_dir@, crate::text::views(segs@).take(i as int)),
        decreases segs.len() - i,
    {
        assert(crate::text::views(segs@).take(i + 1).drop_last() == crate::text::views(segs@).take(i as int));
        out = push_chars(out.as_slice(), segs[i].as_slice());
        i = i + 1;
    }
    assert(crate::text::views(segs@).take(segs.len() as int) == crate::text::views(segs@));
    string_from_chars(out.as_slice())
}

/// What `csv::Reader` reads from `bytes` with its default settings: the
/// header record and every later record, each field as text; or the text
/// of the first error (of the headers, or of a record).
pub uninterp spec fn csv_records(bytes: Seq<u8>) -> Result<(Seq<Seq<char>>, Seq<Seq<Seq<char>>>), Seq<char>>;

/// `csv::Reader::from_reader` over the bytes, then `Reader::headers` and
/// `Reader::records` read to the end: the fields as text, or the text of
/// the first error.
#[verifier::external_body]
fn read_csv(bytes: &[u8]) -> (res: Result<(Vec<String>, Vec<Vec<String>>), String>)
    ensures
        match res {
            Ok((h, r)) => csv_records(bytes@) == Ok::<(Seq<Seq<char>>, Seq<Seq<Seq<char>>>), Seq<char>>((string_views(h@), crate::xlsx::rows_view(r@))),
            Err(m) => csv_records(bytes@) == Err::<(Seq<Seq<char>>, Seq<Seq<Seq<char>>>), Seq<char>>(m@),
        },
{
    let mut reader = csv::Reader::from_reader(bytes);
    let headers: Vec<String> = reader.headers().map_err(|e| e.to_string())?.iter().map(String::from).collect();
    let rows: Result<Vec<Vec<String>>, csv::Error> = reader.records().map(|r| r.map(|x| x.iter().map(String::from).collect())).collect();
    Ok((headers, rows.map_err(|e| e.to_string())?))
}

/// Reads a CSV file into a table of text cells: its header record with each
/// column name sanitized, and its records as rows; a CSV parse error with
/// the reader's message when it fails.
pub fn parse_csv_table(bytes: &[u8]) -> (res: Result<crate::xlsx::SheetTable, VVError>)
    ensures
        match csv_records(bytes@) {
            Ok((h, r)) => res matches Ok(t) && string_views(t.headers@) == h.map_values(|x: Seq<char>| spec_sanitize(x))
                && crate::xlsx::rows_view(t.rows@) == r,
            Err(m) => res matches Err(VVError::Parse { format, message }) && format@ == seq!['C', 'S', 'V'] && message@ == m,
        },
{
    match read_csv(bytes) {
        Ok((h, rows)) => {
            let mut headers: Vec<String> = Vec::new();
            let mut i: usize = 0;
            while i < h.len()
                invariant
                    i <= h.len(),
                    string_views(headers@) == string_views(h@).take(i as int).map_values(|x: Seq<char>| spec_sanitize(x)),
                decreases h.len() - i,
            {
                let ghost before = string_views(headers@);
                headers.push(sanitize_column_name(h[i].as_str()));
                proof {
                    assert(string_views(headers@) == before.push(spec_sanitize(h@[i as int]@)));
                    assert(string_views(h@).take(i + 1) == string_views(h@).take(i as int).push(h@[i as int]@));
                }
                i = i + 1;
            }
            assert(string_views(h@).take(h.len() as int) == string_views(h@));
            Ok(crate::xlsx::SheetTable { headers, rows })
        },
        Err(m) => {
            let csv: [char; 3] = ['C', 'S', 'V'];
            assert(csv@ == seq!['C', 'S', 'V']);
            Err(VVError::Parse { format: string_from_chars(&csv), message: m })
        },
    }
}

} // verus!
