//! Keys a data value provides.
//!
//! Maps provide one key per leaf, nested keys joined by dots, entries whose
//! name starts with `_` skipped; tables provide their rows, headers and one
//! key per column; markdown provides its content and front matter.

use vstd::prelude::*;
use crate::text::{chars_of, extend, string_from_chars, string_views};

verus! {

/// The shape of a loaded data value, as far as key extraction reads it:
/// scalars and sequences are leaves.
pub enum KeyTree {
    Leaf,
    Entries(Vec<(String, KeyTree)>),
    Table(Vec<String>),
    Markdown(Option<Box<KeyTree>>),
}

/// `prefix` followed by a dot and `key`.
pub open spec fn dotted(prefix: Seq<char>, key: Seq<char>) -> Seq<char> {
    prefix + seq!['.'] + key
}

/// The keys a value provides under `prefix`; `None` for a leaf.
pub open spec fn spec_extract_keys(v: KeyTree, prefix: Seq<char>) -> Option<Seq<Seq<char>>>
    decreases v,
{
    match v {
        KeyTree::Leaf => None,
        KeyTree::Entries(es) => Some(entries_keys(es@, prefix)),
        KeyTree::Table(h) => Some(
            seq![dotted(prefix, seq!['r', 'o', 'w']), dotted(prefix, seq!['h', 'e', 'a', 'd', 'e', 'r', 's'])]
                + string_views(h@).map_values(|x: Seq<char>| dotted(dotted(prefix, seq!['c', 'o', 'l']), x)),
        ),
        KeyTree::Markdown(fm) => {
            let base = seq![dotted(prefix, seq!['c', 'o', 'n', 't', 'e', 'n', 't'])];
            match fm {
                Some(b) => {
                    let fp = dotted(prefix, seq!['f', 'r', 'o', 'n', 't', '_', 'm', 'a', 't', 't', 'e', 'r']);
                    match spec_extract_keys(*b, fp) {
                        Some(ks) => Some(base + ks),
                        None => Some(base.push(fp)),
                    }
                },
                None => Some(base),
            }
        },
    }
}

/// The keys the entries of a map provide under `prefix`, in entry order.
pub open spec fn entries_keys(es: Seq<(String, KeyTree)>, prefix: Seq<char>) -> Seq<Seq<char>>
    decreases es,
{
    if es.len() == 0 {
        Seq::<Seq<char>>::empty()
    } else {
        let rest = entries_keys(es.subrange(0, es.len() - 1), prefix);
        let k = es[es.len() - 1].0@;
        if k.len() > 0 && k[0] == '_' {
            rest
        } else {
            let full = dotted(prefix, k);
            rest + match spec_extract_keys(es[es.len() - 1].1, full) {
                Some(n) => n,
                None => seq![full],
            }
        }
    }
}

/// A map entry whose name does not start with `_`.
pub open spec fn visible_entry(e: (String, KeyTree)) -> bool {
    !(e.0@.len() > 0 && e.0@[0] == '_')
}

/// Entries whose name starts with `_` provide nothing: a map provides the
/// same keys as the map of its other entries alone.
pub proof fn lemma_hidden_entries_provide_nothing(es: Seq<(String, KeyTree)>, prefix: Seq<char>)
    ensures
        entries_keys(es, prefix) == entries_keys(es.filter(|e: (String, KeyTree)| visible_entry(e)), prefix),
    decreases es.len(),
{
    let pred = |e: (String, KeyTree)| visible_entry(e);
    if es.len() > 0 {
        let s = es.subrange(0, es.len() - 1);
        let x = es[es.len() - 1];
        lemma_hidden_entries_provide_nothing(s, prefix);
        assert(es == s.push(x));
        s.lemma_filter_push(x, pred);
        let fs = s.filter(pred);
        if pred(x) {
            let fx = fs.push(x);
            assert(fx.subrange(0, fx.len() - 1) == fs);
            assert(fx[fx.len() - 1] == x);
        }
    }
}

/// `prefix` followed by a dot and `key`.
pub fn dotted_chars(prefix: &[char], key: &[char]) -> (res: Vec<char>)
    ensures
        res@ == dotted(prefix@, key@),
{
    let mut r: Vec<char> = Vec::new();
    extend(&mut r, prefix);
    r.push('.');
    extend(&mut r, key);
    r
}

/// Computes `spec_extract_keys`.
#[verifier::loop_isolation(false)]
fn extract_keys(value: &KeyTree, prefix: &[char]) -> (res: Option<Vec<Vec<char>>>)
    ensures
        match res {
            Some(v) => spec_extract_keys(*value, prefix@) == Some(crate::text::views(v@)),
            None => spec_extract_keys(*value, prefix@) is None,
        },
    decreases value,
{
    match value {
        KeyTree::Leaf => None,
        KeyTree::Entries(es) => {
            let mut keys: Vec<Vec<char>> = Vec::new();
            let mut i: usize = 0;
            while i < es.len()
                invariant
                    i <= es.len(),
                    crate::text::views(keys@) == entries_keys(es@.subrange(0, i as int), prefix@),
                decreases es.len() - i,
            {
                let ghost sub = es@.subrange(0, i + 1);
                assert(sub.subrange(0, sub.len() - 1) == es@.subrange(0, i as int));
                assert(sub[sub.len() - 1] == es@[i as int]);
                let k = chars_of(es[i].0.as_str());
                if !(k.len() > 0 && k[0] == '_') {
                    let full = dotted_chars(prefix, k.as_slice());
                    let ghost before = crate::text::views(keys@);
                    proof {
                        assert(decreases_to!(es@ => es@[i as int]));
                        assert(decreases_to!(es@[i as int] => es@[i as int].1));
                    }
                    match extract_keys(&es[i].1, full.as_slice()) {
                        Some(nested) => {
                            let mut j: usize = 0;
                            while j < nested.len()
                                invariant
                                    j <= nested.len(),
                                    crate::text::views(keys@) == before + crate::text::views(nested@).take(j as int),
                                decreases nested.len() - j,
                            {
                                let ghost b2 = crate::text::views(keys@);
                                keys.push(crate::text::copy_chars(nested[j].as_slice()));
                                assert(crate::text::views(keys@) == b2.push(nested@[j as int]@));
                                assert(crate::text::views(nested@).take(j + 1) == crate::text::views(nested@).take(j as int).push(nested@[j as int]@));
                                j = j + 1;
                            }
                            assert(crate::text::views(nested@).take(nested.len() as int) == crate::text::views(nested@));
                        },
                        None => {
                            keys.push(full);
                            assert(crate::text::views(keys@) =~= before + seq![full@]);
                        },
                    }
                }
                i = i + 1;
            }
            assert(es@.subrange(0, es.len() as int) == es@);
            Some(keys)
        },
        KeyTree::Table(h) => {
            let mut keys: Vec<Vec<char>> = Vec::new();
            let row: Vec<char> = vec!['r', 'o', 'w'];
            let headers: Vec<char> = vec!['h', 'e', 'a', 'd', 'e', 'r', 's'];
            let col: Vec<char> = vec!['c', 'o', 'l'];
            keys.push(dotted_chars(prefix, row.as_slice()));
            keys.push(dotted_chars(prefix, headers.as_slice()));
            let colp = dotted_chars(prefix, col.as_slice());
            let ghost base = crate::text::views(keys@);
            assert(base == seq![dotted(prefix@, seq!['r', 'o', 'w']), dotted(prefix@, seq!['h', 'e', 'a', 'd', 'e', 'r', 's'])]);
            let mut j: usize = 0;
            while j < h.len()
                invariant
                    j <= h.len(),
                    colp@ == dotted(prefix@, seq!['c', 'o', 'l']),
                    crate::text::views(keys@) == base + string_views(h@).take(j as int).map_values(|x: Seq<char>| dotted(colp@, x)),
                decreases h.len() - j,
            {
                let ghost b2 = crate::text::views(keys@);
                let hj = chars_of(h[j].as_str());
                keys.push(dotted_chars(colp.as_slice(), hj.as_slice()));
                assert(crate::text::views(keys@) == b2.push(dotted(colp@, h@[j as int]@)));
                assert(string_views(h@).take(j + 1).map_values(|x: Seq<char>| dotted(colp@, x)) =~= string_views(h@).take(j as int).map_values(|x: Seq<char>| dotted(colp@, x)).push(dotted(colp@, h@[j as int]@)));
                j = j + 1;
            }
            assert(string_views(h@).take(h.len() as int) == string_views(h@));
            Some(keys)
        },
        KeyTree::Markdown(fm) => {
            let content: Vec<char> = vec!['c', 'o', 'n', 't', 'e', 'n', 't'];
            let mut keys: Vec<Vec<char>> = Vec::new();
            keys.push(dotted_chars(prefix, content.as_slice()));
            match fm {
                Some(b) => {
                    let fmn: Vec<char> = vec!['f', 'r', 'o', 'n', 't', '_', 'm', 'a', 't', 't', 'e', 'r'];
                    let fp = dotted_chars(prefix, fmn.as_slice());
                    let ghost before = crate::text::views(keys@);
                    match extract_keys(b, fp.as_slice()) {
                        Some(nested) => {
                            let mut j: usize = 0;
                            while j < nested.len()
                                invariant
                                    j <= nested.len(),
                                    crate::text::views(keys@) == before + crate::text::views(nested@).take(j as int),
                                decreases nested.len() - j,
                            {
                                let ghost b2 = crate::text::views(keys@);
                                keys.push(crate::text::copy_chars(nested[j].as_slice()));
                                assert(crate::text::views(keys@) == b2.push(nested@[j as int]@));
                                assert(crate::text::views(nested@).take(j + 1) == crate::text::views(nested@).take(j as int).push(nested@[j as int]@));
                                j = j + 1;
                            }
                            assert(crate::text::views(nested@).take(nested.len() as int) == crate::text::views(nested@));
                        },
                        None => {
                            keys.push(fp);
                        },
                    }
                },
                None => {},
            }
            Some(keys)
        },
    }
}

/// Strings from character vectors.
pub fn strings_from(v: &Vec<Vec<char>>) -> (res: Vec<String>)
    ensures
        string_views(res@) == crate::text::views(v@),
{
    let mut res: Vec<String> = Vec::new();
    let mut i: usize = 0;
    while i < v.len()
        invariant
            i <= v.len(),
            string_views(res@) == crate::text::views(v@).take(i as int),
        decreases v.len() - i,
    {
        let ghost before = string_views(res@);
        res.push(string_from_chars(v[i].as_slice()));
        assert(string_views(res@) == before.push(v@[i as int]@));
        assert(crate::text::views(v@).take(i + 1) == crate::text::views(v@).take(i as int).push(v@[i as int]@));
        i = i + 1;
    }
    assert(crate::text::views(v@).take(v.len() as int) == crate::text::views(v@));
    res
}

/// Extracts all leaf keys with their full path prefix from a value; `None`
/// for a value that is itself a leaf.
pub fn provides(value: &KeyTree, prefix: &str) -> (res: Option<Vec<String>>)
    ensures
        match res {
            Some(v) => spec_extract_keys(*value, prefix@) == Some(string_views(v@)),
            None => spec_extract_keys(*value, prefix@) is None,
        },
{
    let p = chars_of(prefix);
    match extract_keys(value, p.as_slice()) {
        Some(v) => Some(strings_from(&v)),
        None => None,
    }
}

} // verus!
