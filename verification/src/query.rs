//! Questions a host program asks of a parsed document: which keys carry an
//! annotation, the tags of a key, and the top-level keys.

use vstd::prelude::*;
use crate::annotation::{AnnModel, AnnotationArg, ArgModel};
use crate::editor::{any_named, has_name};
use crate::hover::{tag_chars, tag_of, tag_pairs};
use crate::parser::{anns_model, Document};
use crate::text::{chars_of, eq_lit, seq_eq, string_from, strings_model, to_chars};
use crate::value::dict_get;

verus! {

pub open spec fn pairs_view(v: Seq<(String, String)>) -> Seq<(Seq<char>, Seq<char>)> {
    v.map_values(|p: (String, String)| (p.0@, p.1@))
}

pub open spec fn dep_view(v: Seq<(String, Option<String>)>) -> Seq<(Seq<char>, Option<Seq<char>>)> {
    v.map_values(
        |p: (String, Option<String>)|
            (
                p.0@,
                match p.1 {
                    Some(s) => Some(s@),
                    None => None,
                },
            ),
    )
}

/// Whether the key carries an annotation of that name.
pub fn has_annotation(doc: &Document, key_path: &str, name: &str) -> (r: bool)
    ensures
        r == (dict_get(doc@.meta, key_path@) matches Some(anns) && has_name(anns, name@)),
{
    proof {
        crate::parser::lemma_meta_find(doc.meta.model(), key_path@, 0);
        crate::value::lemma_dict_find_from_bound(doc.meta.model(), key_path@, 0);
    }
    match doc.meta.get(key_path) {
        Some(anns) => any_named(anns, name),
        None => false,
    }
}

/// The annotations on a key, in the order they were written; none for a key
/// that carries none.
pub fn annotations<'a>(doc: &'a Document, key_path: &str) -> (r: &'a [crate::annotation::Annotation])
    ensures
        anns_model(r@) == match dict_get(doc@.meta, key_path@) {
            Some(anns) => anns,
            None => Seq::empty(),
        },
{
    proof {
        crate::parser::lemma_meta_find(doc.meta.model(), key_path@, 0);
        crate::value::lemma_dict_find_from_bound(doc.meta.model(), key_path@, 0);
    }
    match doc.meta.get(key_path) {
        Some(anns) => anns.as_slice(),
        None => {
            let none: &[crate::annotation::Annotation] = &[];
            assert(anns_model(none@) =~= Seq::<AnnModel>::empty());
            none
        },
    }
}

/// The `(key, value)` of each `@tag` of a key, in annotation order.
pub fn tags(doc: &Document, key_path: &str) -> (r: Vec<(String, String)>)
    ensures
        pairs_view(r@) == match dict_get(doc@.meta, key_path@) {
            Some(anns) => tag_pairs(anns),
            None => Seq::empty(),
        },
{
    proof {
        crate::parser::lemma_meta_find(doc.meta.model(), key_path@, 0);
        crate::value::lemma_dict_find_from_bound(doc.meta.model(), key_path@, 0);
    }
    let mut out: Vec<(String, String)> = Vec::new();
    match doc.meta.get(key_path) {
        Some(anns) => {
            let ghost am = anns_model(anns@);
            let mut i: usize = 0;
            assert(am.take(0) =~= Seq::<AnnModel>::empty());
            while i < anns.len()
                invariant
                    am == anns_model(anns@),
                    i <= am.len(),
                    pairs_view(out@) == tag_pairs(am.take(i as int)),
                decreases am.len() - i,
            {
                assert(am.take(i + 1).drop_last() =~= am.take(i as int));
                assert(am.take(i + 1).last() == anns@[i as int]@);
                let ghost before = out@;
                match tag_chars(&anns[i]) {
                    Some((k, v)) => {
                        out.push((string_from(k.as_slice()), string_from(v.as_slice())));
                        assert(pairs_view(out@) =~= pairs_view(before).push((k@, v@)));
                    },
                    None => {},
                }
                assert(pairs_view(out@) =~= tag_pairs(am.take(i + 1)));
                i = i + 1;
            }
            assert(am.take(i as int) =~= am);
        },
        None => {
            assert(pairs_view(out@) =~= Seq::<(Seq<char>, Seq<char>)>::empty());
        },
    }
    out
}

/// Keys annotated `@required`, in annotation-table order.
pub open spec fn required_model(m: Seq<(Seq<char>, Seq<AnnModel>)>) -> Seq<Seq<char>>
    decreases m.len(),
{
    if m.len() == 0 {
        Seq::empty()
    } else {
        required_model(m.drop_last()) + if has_name(m.last().1, "required"@) {
            seq![m.last().0]
        } else {
            Seq::empty()
        }
    }
}

/// All key paths annotated with `@required`.
pub fn required_keys(doc: &Document) -> (r: Vec<String>)
    ensures
        strings_model(r@) == required_model(doc@.meta),
{
    let ghost ms = doc@.meta;
    let mut out: Vec<String> = Vec::new();
    let mut i: usize = 0;
    assert(ms.take(0) =~= Seq::<(Seq<char>, Seq<AnnModel>)>::empty());
    while i < doc.meta.len()
        invariant
            ms == doc@.meta,
            ms.len() == doc.meta.model().len(),
            i <= ms.len(),
            strings_model(out@) == required_model(ms.take(i as int)),
        decreases ms.len() - i,
    {
        let k = doc.meta.key_at(i);
        let anns = doc.meta.value_at(i);
        assert(ms[i as int] == (k@, anns_model(anns@)));
        assert(ms.take(i + 1).drop_last() =~= ms.take(i as int));
        let ghost before = out@;
        if any_named(anns, "required") {
            out.push(k.clone());
            assert(strings_model(out@) =~= strings_model(before).push(k@));
        }
        assert(strings_model(out@) =~= required_model(ms.take(i + 1)));
        i = i + 1;
    }
    assert(ms.take(i as int) =~= ms);
    out
}

/// `(key, message)` for each `@deprecated` annotation of a key.
pub open spec fn dep_in(k: Seq<char>, anns: Seq<AnnModel>) -> Seq<(Seq<char>, Option<Seq<char>>)>
    decreases anns.len(),
{
    if anns.len() == 0 {
        Seq::empty()
    } else {
        dep_in(k, anns.drop_last()) + if anns.last().name == "deprecated"@ {
            seq![
                (
                    k,
                    match anns.last().arg {
                        ArgModel::Str(s) => Some(s),
                        _ => None,
                    },
                ),
            ]
        } else {
            Seq::empty()
        }
    }
}

pub open spec fn deprecated_model(m: Seq<(Seq<char>, Seq<AnnModel>)>) -> Seq<(Seq<char>, Option<Seq<char>>)>
    decreases m.len(),
{
    if m.len() == 0 {
        Seq::empty()
    } else {
        deprecated_model(m.drop_last()) + dep_in(m.last().0, m.last().1)
    }
}

/// `(key, message)` for every `@deprecated` annotation; the message is the
/// string argument when there is one.
pub fn deprecated_keys(doc: &Document) -> (r: Vec<(String, Option<String>)>)
    ensures
        dep_view(r@) == deprecated_model(doc@.meta),
{
    let ghost ms = doc@.meta;
    let mut out: Vec<(String, Option<String>)> = Vec::new();
    let mut i: usize = 0;
    assert(ms.take(0) =~= Seq::<(Seq<char>, Seq<AnnModel>)>::empty());
    while i < doc.meta.len()
        invariant
            ms == doc@.meta,
            ms.len() == doc.meta.model().len(),
            i <= ms.len(),
            dep_view(out@) == deprecated_model(ms.take(i as int)),
        decreases ms.len() - i,
    {
        let k = doc.meta.key_at(i);
        let anns = doc.meta.value_at(i);
        let ghost am = anns_model(anns@);
        assert(ms[i as int] == (k@, am));
        let ghost mid = dep_view(out@);
        let mut j: usize = 0;
        assert(am.take(0) =~= Seq::<AnnModel>::empty());
        assert(dep_view(out@) =~= mid + dep_in(k@, am.take(0)));
        while j < anns.len()
            invariant
                am == anns_model(anns@),
                j <= am.len(),
                dep_view(out@) == mid + dep_in(k@, am.take(j as int)),
            decreases am.len() - j,
        {
            assert(am.take(j + 1).drop_last() =~= am.take(j as int));
            assert(am.take(j + 1).last() == anns@[j as int]@);
            let ghost before = out@;
            if eq_lit(chars_of(&anns[j].name).as_slice(), "deprecated") {
                let msg = match &anns[j].arg {
                    AnnotationArg::String(s) => Some(s.clone()),
                    _ => None,
                };
                out.push((k.clone(), msg));
                assert(dep_view(out@) =~= dep_view(before).push(dep_view(out@).last()));
            }
            assert(dep_view(out@) =~= mid + dep_in(k@, am.take(j + 1)));
            j = j + 1;
        }
        assert(am.take(j as int) =~= am);
        assert(ms.take(i + 1).drop_last() =~= ms.take(i as int));
        assert(dep_view(out@) =~= deprecated_model(ms.take(i + 1)));
        i = i + 1;
    }
    assert(ms.take(i as int) =~= ms);
    out
}

/// `(key, value)` for each `@tag` of a key whose tag name is `name`.
pub open spec fn tagged_in(k: Seq<char>, anns: Seq<AnnModel>, name: Seq<char>) -> Seq<(Seq<char>, Seq<char>)>
    decreases anns.len(),
{
    if anns.len() == 0 {
        Seq::empty()
    } else {
        tagged_in(k, anns.drop_last(), name) + match tag_of(anns.last()) {
            Some(p) => if p.0 == name {
                seq![(k, p.1)]
            } else {
                Seq::empty()
            },
            None => Seq::empty(),
        }
    }
}

pub open spec fn tagged_model(m: Seq<(Seq<char>, Seq<AnnModel>)>, name: Seq<char>) -> Seq<(Seq<char>, Seq<char>)>
    decreases m.len(),
{
    if m.len() == 0 {
        Seq::empty()
    } else {
        tagged_model(m.drop_last(), name) + tagged_in(m.last().0, m.last().1, name)
    }
}

/// `(key, value)` for every key carrying `@tag: <tag_name> = value`.
pub fn keys_with_tag(doc: &Document, tag_name: &str) -> (r: Vec<(String, String)>)
    ensures
        pairs_view(r@) == tagged_model(doc@.meta, tag_name@),
{
    let tn = to_chars(tag_name);
    let ghost ms = doc@.meta;
    let mut out: Vec<(String, String)> = Vec::new();
    let mut i: usize = 0;
    assert(ms.take(0) =~= Seq::<(Seq<char>, Seq<AnnModel>)>::empty());
    while i < doc.meta.len()
        invariant
            ms == doc@.meta,
            ms.len() == doc.meta.model().len(),
            i <= ms.len(),
            tn@ == tag_name@,
            pairs_view(out@) == tagged_model(ms.take(i as int), tag_name@),
        decreases ms.len() - i,
    {
        let k = doc.meta.key_at(i);
        let anns = doc.meta.value_at(i);
        let ghost am = anns_model(anns@);
        assert(ms[i as int] == (k@, am));
        let ghost mid = pairs_view(out@);
        let mut j: usize = 0;
        assert(am.take(0) =~= Seq::<AnnModel>::empty());
        assert(pairs_view(out@) =~= mid + tagged_in(k@, am.take(0), tag_name@));
        while j < anns.len()
            invariant
                am == anns_model(anns@),
                j <= am.len(),
                tn@ == tag_name@,
                pairs_view(out@) == mid + tagged_in(k@, am.take(j as int), tag_name@),
            decreases am.len() - j,
        {
            assert(am.take(j + 1).drop_last() =~= am.take(j as int));
            assert(am.take(j + 1).last() == anns@[j as int]@);
            let ghost before = out@;
            match tag_chars(&anns[j]) {
                Some((tk, tv)) => {
                    if seq_eq(tk.as_slice(), tn.as_slice()) {
                        out.push((k.clone(), string_from(tv.as_slice())));
                        assert(pairs_view(out@) =~= pairs_view(before).push((k@, tv@)));
                    }
                },
                None => {},
            }
            assert(pairs_view(out@) =~= mid + tagged_in(k@, am.take(j + 1), tag_name@));
            j = j + 1;
        }
        assert(am.take(j as int) =~= am);
        assert(ms.take(i + 1).drop_last() =~= ms.take(i as int));
        assert(pairs_view(out@) =~= tagged_model(ms.take(i + 1), tag_name@));
        i = i + 1;
    }
    assert(ms.take(i as int) =~= ms);
    out
}

/// The top-level keys in key order.
pub fn keys(doc: &Document) -> (r: Vec<String>)
    ensures
        strings_model(r@) == doc@.config.map_values(|e: (Seq<char>, crate::value::ValueModel)| e.0),
{
    let ghost m = doc@.config;
    let mut out: Vec<String> = Vec::new();
    let mut i: usize = 0;
    while i < doc.config.len()
        invariant
            m == doc@.config,
            m.len() == doc.config.model().len(),
            i <= m.len(),
            strings_model(out@) == m.take(i as int).map_values(|e: (Seq<char>, crate::value::ValueModel)| e.0),
            out@.len() == i,
        decreases m.len() - i,
    {
        let k = doc.config.key_at(i);
        let ghost before = out@;
        out.push(k.clone());
        assert forall|q: int| 0 <= q < i + 1 implies #[trigger] strings_model(out@)[q] == m.take(i + 1).map_values(
            |e: (Seq<char>, crate::value::ValueModel)| e.0,
        )[q] by {
            if q < i {
                assert(out@[q] == before[q]);
                assert(strings_model(before)[q] == m.take(i as int).map_values(
                    |e: (Seq<char>, crate::value::ValueModel)| e.0,
                )[q]);
            }
        }
        assert(strings_model(out@) =~= m.take(i + 1).map_values(|e: (Seq<char>, crate::value::ValueModel)| e.0));
        i = i + 1;
    }
    assert(m.take(i as int) =~= m);
    out
}

} // verus!
