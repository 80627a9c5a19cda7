//! Schema-driven generator for multilingual text resources.
//!
//! Given the documents of a set of per-locale definition files, the
//! library derives a canonical schema from the designated default locale,
//! validates every other locale's document against it, fills missing
//! values by falling back to the default, and emits a source-text
//! artifact holding one record type per schema record, one constructor
//! per locale, and a dispatch table from locale identifier to
//! constructor.

pub mod emit;
pub mod errors;
pub mod merge;
pub mod order;
pub mod raw;
pub mod schema;
pub mod sources;
pub mod stability;
pub mod trust;
pub mod validate;

use vstd::prelude::*;
use crate::emit::{artifact_text, emit_artifact};
use crate::errors::{err_view, ErrV, GenError};
use crate::merge::{covers_node, lemma_build_covers, merge, merge_node, trees_view, tree_view, TreeV, ValueTree};
use crate::raw::{entries_view, RawMapping, RawVal};
use crate::order::sort_entries;
use crate::schema::{build_schema, root_schema, schema_view, sorted_copy_entries, sorted_each, SchemaNode, SchemaV};
use crate::sources::{classify_sources, classify_spec, lemma_locale_files_view_index, locale_files_view};
use crate::trust::{canonical_tag, normalize_tag, parse_mapping, parsed_doc};
use crate::validate::{validate, validate_node};

verus! {

/// The identifier-and-document view of the parsed locale set.
pub open spec fn docs_view(ds: Seq<(String, RawMapping)>) -> Seq<
    (Seq<char>, Seq<(Seq<char>, RawVal)>),
>
    decreases ds,
{
    if ds.len() == 0 {
        Seq::empty()
    } else {
        docs_view(ds.drop_last()).push((ds.last().0@, entries_view(ds.last().1.entries@)))
    }
}

pub proof fn lemma_docs_view_index(ds: Seq<(String, RawMapping)>)
    ensures
        docs_view(ds).len() == ds.len(),
        forall|i: int| #![trigger docs_view(ds)[i]]
            0 <= i < ds.len() ==> docs_view(ds)[i] == (ds[i].0@, entries_view(ds[i].1.entries@)),
    decreases ds,
{
    if ds.len() > 0 {
        lemma_docs_view_index(ds.drop_last());
    }
}

/// The first shape violation over the locale documents, in their given
/// order.
pub open spec fn validate_all(
    n: SchemaV,
    ds: Seq<(Seq<char>, Seq<(Seq<char>, RawVal)>)>,
) -> Option<ErrV>
    decreases ds,
{
    if ds.len() == 0 {
        None
    } else {
        match validate_node(n, RawVal::Nested(ds[0].1)) {
            Some(e) => Some(e),
            None => validate_all(n, ds.drop_first()),
        }
    }
}

/// The merged value tree of every locale, in their given order.
pub open spec fn trees_of(
    n: SchemaV,
    dflt: Seq<(Seq<char>, RawVal)>,
    ds: Seq<(Seq<char>, Seq<(Seq<char>, RawVal)>)>,
) -> Seq<(Seq<char>, TreeV)> {
    Seq::new(
        ds.len(),
        |i: int|
            (ds[i].0, merge_node(n, RawVal::Nested(dflt), Some(RawVal::Nested(ds[i].1)))),
    )
}

/// `root_schema`'s field list, for stating `covers`.
pub open spec fn build_fields_result(s: Seq<(Seq<char>, RawVal)>) -> Result<
    Seq<(Seq<char>, SchemaV)>,
    ErrV,
> {
    crate::schema::build_fields(s, true, Seq::empty())
}

/// The whole generation over parsed documents: derive the schema from
/// the default document in canonical order, validate every document,
/// merge every document against the default, and emit the artifact.
pub open spec fn gen_docs_spec(
    ds: Seq<(Seq<char>, Seq<(Seq<char>, RawVal)>)>,
    default_ix: int,
) -> Result<Seq<char>, ErrV> {
    let dflt = sort_entries(sorted_each(ds[default_ix].1));
    match root_schema(dflt) {
        Err(e) => Err(e),
        Ok(n) => match validate_all(n, ds) {
            Some(e) => Err(e),
            None => Ok(artifact_text(n, trees_of(n, dflt, ds), ds[default_ix].0)),
        },
    }
}

/// Runs schema derivation, validation, fallback merging and emission
/// over the parsed documents. The result is a function of the documents
/// alone: two runs on equal inputs give byte-identical artifacts.
pub fn generate_docs(docs: &Vec<(String, RawMapping)>, default_ix: usize) -> (r: Result<
    String,
    GenError,
>)
    requires
        default_ix < docs@.len(),
    ensures
        match r {
            Ok(t) => gen_docs_spec(docs_view(docs@), default_ix as int) == Ok::<Seq<char>, ErrV>(
                t@,
            ),
            Err(e) => gen_docs_spec(docs_view(docs@), default_ix as int) == Err::<Seq<char>, ErrV>(
                err_view(e),
            ),
        },
{
    let ghost dv = docs_view(docs@);
    proof {
        lemma_docs_view_index(docs@);
    }
    let dflt = RawMapping { entries: sorted_copy_entries(&docs[default_ix].1.entries) };
    let schema = match build_schema(&dflt) {
        Ok(n) => n,
        Err(e) => {
            return Err(e);
        },
    };
    let ghost nv = schema_view(schema);
    let ghost dsv = sort_entries(sorted_each(dv[default_ix as int].1));
    proof {
        assert(dsv == entries_view(dflt.entries@));
        assert(root_schema(dsv) == Ok::<SchemaV, ErrV>(nv));
    }
    let mut i: usize = 0;
    proof {
        assert(dv.skip(0) =~= dv);
    }
    loop
        invariant
            i <= docs@.len(),
            dv == docs_view(docs@),
            dv.len() == docs@.len(),
            default_ix < docs@.len(),
            nv == schema_view(schema),
            dsv == sort_entries(sorted_each(dv[default_ix as int].1)),
            root_schema(dsv) == Ok::<SchemaV, ErrV>(nv),
            validate_all(nv, dv) == validate_all(nv, dv.skip(i as int)),
        ensures
            i == docs@.len(),
            validate_all(nv, dv) == validate_all(nv, dv.skip(i as int)),
        decreases docs@.len() - i,
    {
        if i >= docs.len() {
            break;
        }
        proof {
            lemma_docs_view_index(docs@);
            assert(dv.skip(i as int)[0] == dv[i as int]);
            assert(dv.skip(i as int).drop_first() =~= dv.skip(i as int + 1));
        }
        match validate(&schema, &docs[i].1) {
            Ok(_) => {},
            Err(e) => {
                return Err(e);
            },
        }
        i += 1;
    }
    proof {
        assert(dv.skip(i as int) =~= Seq::<(Seq<char>, Seq<(Seq<char>, RawVal)>)>::empty());
    }
    let mut trees: Vec<(String, ValueTree)> = Vec::new();
    let mut i: usize = 0;
    proof {
        assert(trees_view(trees@) =~= Seq::<(Seq<char>, TreeV)>::empty());
        assert(trees_of(nv, entries_view(dflt.entries@), dv).take(0) =~= Seq::<
            (Seq<char>, TreeV),
        >::empty());
        match build_fields_result(entries_view(dflt.entries@)) {
            Ok(fs) => {
                lemma_build_covers(entries_view(dflt.entries@), true, Seq::empty(), fs);
            },
            Err(_) => {},
        }
    }
    loop
        invariant
            i <= docs@.len(),
            dv == docs_view(docs@),
            dv.len() == docs@.len(),
            default_ix < docs@.len(),
            nv == schema_view(schema),
            covers_node(nv, RawVal::Nested(entries_view(dflt.entries@))),
            trees_view(trees@) == trees_of(nv, entries_view(dflt.entries@), dv).take(i as int),
        ensures
            i == docs@.len(),
            trees_view(trees@) == trees_of(nv, entries_view(dflt.entries@), dv).take(i as int),
        decreases docs@.len() - i,
    {
        if i >= docs.len() {
            break;
        }
        proof {
            lemma_docs_view_index(docs@);
        }
        let t = merge(&schema, &dflt, &docs[i].1);
        let ghost trees_pre = trees@;
        let ghost tval = tree_view(t);
        let ident = docs[i].0.clone();
        trees.push((ident, t));
        proof {
            crate::merge::lemma_trees_view_index(trees@);
            crate::merge::lemma_trees_view_index(trees_pre);
            assert(trees_view(trees@) =~= trees_view(trees_pre).push((
                docs@[i as int].0@,
                tval,
            )));
            assert(trees_of(nv, entries_view(dflt.entries@), dv).take(i as int + 1) =~= trees_of(
                nv,
                entries_view(dflt.entries@),
                dv,
            ).take(i as int).push(
                (
                    dv[i as int].0,
                    merge_node(
                        nv,
                        RawVal::Nested(entries_view(dflt.entries@)),
                        Some(RawVal::Nested(dv[i as int].1)),
                    ),
                ),
            ));
        }
        i += 1;
    }
    proof {
        assert(trees_of(nv, entries_view(dflt.entries@), dv).take(i as int) =~= trees_of(
            nv,
            entries_view(dflt.entries@),
            dv,
        ));
    }
    let text = emit_artifact(&schema, &trees, &docs[default_ix].0);
    Ok(text)
}


/// Determinism and idempotence: the generator's outcome is a function
/// of the documents and the default's position alone, so two runs on
/// unchanged inputs yield byte-identical artifacts.
pub proof fn lemma_generation_deterministic(
    ds: Seq<(Seq<char>, Seq<(Seq<char>, RawVal)>)>,
    default_ix: int,
    t1: Seq<char>,
    t2: Seq<char>,
)
    requires
        gen_docs_spec(ds, default_ix) == Ok::<Seq<char>, ErrV>(t1),
        gen_docs_spec(ds, default_ix) == Ok::<Seq<char>, ErrV>(t2),
    ensures
        t1 == t2,
{
}

/// The names of the given files, in order.
pub open spec fn names_of(fs: Seq<(String, String)>) -> Seq<Seq<char>> {
    Seq::new(fs.len(), |i: int| fs[i].0@)
}

/// The names and contents of the given files, as character sequences.
pub open spec fn files_view(fs: Seq<(String, String)>) -> Seq<(Seq<char>, Seq<char>)> {
    Seq::new(fs.len(), |i: int| (fs[i].0@, fs[i].1@))
}

/// The content of the first file with the given name.
pub open spec fn content_of(fs: Seq<(Seq<char>, Seq<char>)>, name: Seq<char>) -> Option<Seq<char>>
    decreases fs,
{
    if fs.len() == 0 {
        None
    } else if fs[0].0 == name {
        Some(fs[0].1)
    } else {
        content_of(fs.drop_first(), name)
    }
}

/// The position of the first classified file marked as the default.
pub open spec fn first_default(locs: Seq<(Seq<char>, bool, Seq<char>)>) -> Option<int>
    decreases locs,
{
    if locs.len() == 0 {
        None
    } else if locs[0].1 {
        Some(0int)
    } else {
        match first_default(locs.drop_first()) {
            Some(j) => Some(j + 1),
            None => None,
        }
    }
}

proof fn lemma_first_default_at(locs: Seq<(Seq<char>, bool, Seq<char>)>, i: int)
    requires
        0 <= i < locs.len(),
        locs[i].1,
        forall|q: int| #![trigger locs[q]] 0 <= q < i ==> !locs[q].1,
    ensures
        first_default(locs) == Some(i),
    decreases i,
{
    if i > 0 {
        assert(forall|q: int| #![trigger locs.drop_first()[q]]
            0 <= q < locs.len() - 1 ==> locs.drop_first()[q] == locs[q + 1]);
        lemma_first_default_at(locs.drop_first(), i - 1);
    }
}

proof fn lemma_first_default_none(locs: Seq<(Seq<char>, bool, Seq<char>)>)
    requires
        forall|q: int| #![trigger locs[q]] 0 <= q < locs.len() ==> !locs[q].1,
    ensures
        first_default(locs) is None,
    decreases locs,
{
    if locs.len() > 0 {
        assert(forall|q: int| #![trigger locs.drop_first()[q]]
            0 <= q < locs.len() - 1 ==> locs.drop_first()[q] == locs[q + 1]);
        lemma_first_default_none(locs.drop_first());
    }
}

/// Loads and parses every classified file, in order; the first failure
/// is fatal.
pub open spec fn parse_docs(
    fs: Seq<(Seq<char>, Seq<char>)>,
    locs: Seq<(Seq<char>, bool, Seq<char>)>,
) -> Result<Seq<(Seq<char>, Seq<(Seq<char>, RawVal)>)>, ErrV>
    decreases locs,
{
    if locs.len() == 0 {
        Ok(Seq::empty())
    } else {
        match content_of(fs, locs[0].2) {
            None => Err(ErrV::FileUnreadable(locs[0].2)),
            Some(c) => match parsed_doc(c) {
                None => Err(ErrV::DocumentParseError(locs[0].2)),
                Some(d) => match parse_docs(fs, locs.drop_first()) {
                    Ok(rest) => Ok(seq![(locs[0].0, d)] + rest),
                    Err(e) => Err(e),
                },
            },
        }
    }
}

/// The whole generation over a directory listing: classify the names,
/// load and parse each classified file (the first unreadable or
/// unparseable one is fatal), then derive the schema, validate, merge
/// and emit.
pub open spec fn gen_spec(fs: Seq<(Seq<char>, Seq<char>)>) -> Result<Seq<char>, ErrV> {
    match classify_spec(Seq::new(fs.len(), |i: int| fs[i].0)) {
        Err(e) => Err(e),
        Ok(locs) => match first_default(locs) {
            None => Err(ErrV::NoDefaultLocale),
            Some(ix) => match parse_docs(fs, locs) {
                Err(e) => Err(e),
                Ok(ds) => gen_docs_spec(ds, ix),
            },
        },
    }
}

/// Determinism of the whole pipeline: the outcome is a function of the
/// file names and contents alone, so two runs on unchanged inputs
/// yield byte-identical artifacts.
pub proof fn lemma_pipeline_deterministic(
    fs: Seq<(Seq<char>, Seq<char>)>,
    t1: Seq<char>,
    t2: Seq<char>,
)
    requires
        gen_spec(fs) == Ok::<Seq<char>, ErrV>(t1),
        gen_spec(fs) == Ok::<Seq<char>, ErrV>(t2),
    ensures
        t1 == t2,
{
}

/// Runs the whole generation over a directory listing: each file as a
/// name and its text content, in directory order. The outcome is
/// `gen_spec` of the listing, exactly: every fatal condition aborts
/// with its error, in file-enumeration order, and nothing else is
/// returned.
pub fn generate(files: &Vec<(String, String)>) -> (r: Result<String, GenError>)
    ensures
        match r {
            Ok(t) => gen_spec(files_view(files@)) == Ok::<Seq<char>, ErrV>(t@),
            Err(e) => gen_spec(files_view(files@)) == Err::<Seq<char>, ErrV>(err_view(e)),
        },
{
    let ghost fv = files_view(files@);
    let mut names: Vec<String> = Vec::new();
    let mut i: usize = 0;
    proof {
        assert(names.deep_view() =~= Seq::<Seq<char>>::empty());
        assert(names_of(files@).take(0) =~= Seq::<Seq<char>>::empty());
    }
    loop
        invariant
            i <= files@.len(),
            names@.len() == i,
            names.deep_view() == names_of(files@).take(i as int),
        ensures
            i == files@.len(),
            names.deep_view() == names_of(files@).take(i as int),
        decreases files@.len() - i,
    {
        if i >= files.len() {
            break;
        }
        let ghost pre = names.deep_view();
        names.push(files[i].0.clone());
        proof {
            assert(names.deep_view() =~= pre.push(files@[i as int].0@));
            assert(names_of(files@).take(i as int + 1) =~= names_of(files@).take(i as int).push(
                files@[i as int].0@,
            ));
        }
        i += 1;
    }
    proof {
        assert(names_of(files@).take(i as int) =~= names_of(files@));
        assert(names.deep_view() == names_of(files@));
        assert(Seq::new(fv.len(), |i: int| fv[i].0) =~= names_of(files@));
    }
    let locs = match classify_sources(&names) {
        Ok(ls) => ls,
        Err(e) => {
            return Err(e);
        },
    };
    let ghost lvv = locale_files_view(locs@);
    proof {
        lemma_locale_files_view_index(locs@);
    }
    let mut i: usize = 0;
    loop
        invariant
            i <= locs@.len(),
            lvv == locale_files_view(locs@),
            lvv.len() == locs@.len(),
            forall|q: int| #![trigger lvv[q]] 0 <= q < i ==> !lvv[q].1,
        ensures
            i <= locs@.len(),
            forall|q: int| #![trigger lvv[q]] 0 <= q < i ==> !lvv[q].1,
            i < locs@.len() ==> lvv[i as int].1,
        decreases locs@.len() - i,
    {
        if i >= locs.len() {
            break;
        }
        proof {
            lemma_locale_files_view_index(locs@);
        }
        if locs[i].is_default {
            break;
        }
        i += 1;
    }
    if i >= locs.len() {
        proof {
            lemma_first_default_none(lvv);
        }
        return Err(GenError::NoDefaultLocale);
    }
    let default_ix = i;
    proof {
        lemma_first_default_at(lvv, default_ix as int);
    }
    let mut docs: Vec<(String, RawMapping)> = Vec::new();
    let mut i: usize = 0;
    proof {
        assert(docs_view(docs@) =~= Seq::<(Seq<char>, Seq<(Seq<char>, RawVal)>)>::empty());
        assert(lvv.skip(0) =~= lvv);
    }
    loop
        invariant
            i <= locs@.len(),
            docs@.len() == i,
            fv == files_view(files@),
            lvv == locale_files_view(locs@),
            lvv.len() == locs@.len(),
            classify_spec(names_of(files@)) == Ok::<Seq<(Seq<char>, bool, Seq<char>)>, ErrV>(lvv),
            (Seq::new(fv.len(), |i: int| fv[i].0)) == names_of(files@),
            first_default(lvv) == Some(default_ix as int),
            default_ix < locs@.len(),
            parse_docs(fv, lvv) == (match parse_docs(fv, lvv.skip(i as int)) {
                Ok(rest) => Ok::<Seq<(Seq<char>, Seq<(Seq<char>, RawVal)>)>, ErrV>(
                    docs_view(docs@) + rest,
                ),
                Err(e) => Err(e),
            }),
        ensures
            docs@.len() == locs@.len(),
            parse_docs(fv, lvv) == Ok::<Seq<(Seq<char>, Seq<(Seq<char>, RawVal)>)>, ErrV>(
                docs_view(docs@),
            ),
        decreases locs@.len() - i,
    {
        if i >= locs.len() {
            proof {
                assert(lvv.skip(i as int) =~= Seq::<(Seq<char>, bool, Seq<char>)>::empty());
                assert(docs_view(docs@) + Seq::<
                    (Seq<char>, Seq<(Seq<char>, RawVal)>),
                >::empty() =~= docs_view(docs@));
            }
            break;
        }
        let ghost rest = lvv.skip(i as int);
        proof {
            lemma_locale_files_view_index(locs@);
            assert(rest[0] == lvv[i as int]);
            assert(rest.drop_first() =~= lvv.skip(i as int + 1));
        }
        let content = match find_content(files, &locs[i].name) {
            Some(c) => c,
            None => {
                return Err(GenError::FileUnreadable { name: locs[i].name.clone() });
            },
        };
        let m = match parse_mapping(content.as_str()) {
            Some(m) => m,
            None => {
                return Err(GenError::DocumentParseError { name: locs[i].name.clone() });
            },
        };
        let ghost docs_pre = docs@;
        docs.push((locs[i].identifier.clone(), m));
        proof {
            lemma_docs_view_index(docs@);
            lemma_docs_view_index(docs_pre);
            assert(docs_view(docs@) =~= docs_view(docs_pre).push((
                lvv[i as int].0,
                entries_view(m.entries@),
            )));
            match parse_docs(fv, lvv.skip(i as int + 1)) {
                Ok(r2) => {
                    assert(docs_view(docs@) + r2 =~= docs_view(docs_pre) + (seq![
                        (lvv[i as int].0, entries_view(m.entries@)),
                    ] + r2));
                },
                Err(_) => {},
            }
        }
        i += 1;
    }
    generate_docs(&docs, default_ix)
}

/// The content of the first file with the given name, as `content_of`
/// finds it.
fn find_content(files: &Vec<(String, String)>, name: &String) -> (r: Option<String>)
    ensures
        match r {
            Some(c) => content_of(files_view(files@), name@) == Some(c@),
            None => content_of(files_view(files@), name@) is None,
        },
{
    let ghost fv = files_view(files@);
    let mut i: usize = 0;
    proof {
        assert(fv.skip(0) =~= fv);
    }
    loop
        invariant
            i <= files@.len(),
            fv == files_view(files@),
            fv.len() == files@.len(),
            content_of(fv, name@) == content_of(fv.skip(i as int), name@),
        ensures
            i == files@.len(),
            content_of(fv, name@) == content_of(fv.skip(i as int), name@),
        decreases files@.len() - i,
    {
        if i >= files.len() {
            break;
        }
        proof {
            assert(fv.skip(i as int)[0] == fv[i as int]);
            assert(fv.skip(i as int).drop_first() =~= fv.skip(i as int + 1));
        }
        if files[i].0.eq(name) {
            return Some(files[i].1.clone());
        }
        i += 1;
    }
    proof {
        assert(fv.skip(i as int) =~= Seq::<(Seq<char>, Seq<char>)>::empty());
    }
    None
}

/// Looks a locale identifier up in the dispatch table: the first tree
/// whose identifier is the canonical form of `tag`, `None` where the
/// tag is malformed or unknown. A miss is a recoverable result, not a
/// failure.
pub fn lookup(table: &Vec<(String, ValueTree)>, tag: &str) -> (r: Option<usize>)
    ensures
        match canonical_tag(tag@) {
            None => r is None,
            Some(t) => match r {
                Some(j) => j < table@.len() && trees_view(table@)[j as int].0 == t
                    && (forall|q: int| #![trigger trees_view(table@)[q]]
                        0 <= q < j ==> trees_view(table@)[q].0 != t),
                None => forall|j: int| #![trigger trees_view(table@)[j]]
                    0 <= j < table@.len() ==> trees_view(table@)[j].0 != t,
            },
        },
{
    let norm = match normalize_tag(tag) {
        Some(t) => t,
        None => {
            return None;
        },
    };
    let mut i: usize = 0;
    loop
        invariant
            i <= table@.len(),
            forall|j: int| #![trigger table@[j]] 0 <= j < i ==> table@[j].0@ != norm@,
        ensures
            i <= table@.len(),
            forall|j: int| #![trigger table@[j]] 0 <= j < i ==> table@[j].0@ != norm@,
            i < table@.len() ==> table@[i as int].0@ == norm@,
        decreases table@.len() - i,
    {
        if i >= table.len() {
            break;
        }
        if table[i].0.eq(&norm) {
            break;
        }
        i += 1;
    }
    proof {
        crate::merge::lemma_trees_view_index(table@);
    }
    if i < table.len() {
        Some(i)
    } else {
        None
    }
}

} // verus!
