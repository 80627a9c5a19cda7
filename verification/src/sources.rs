use vstd::prelude::*;
use crate::errors::{err_view, ErrV, GenError};
use crate::trust::{canonical_tag, normalize_tag};

verus! {

/// The part of a file name before the first `.`; the whole name where
/// it has none.
pub open spec fn prefix_spec(name: Seq<char>) -> Seq<char>
    decreases name.len(),
{
    if name.len() == 0 {
        name
    } else if name[0] == '.' {
        Seq::empty()
    } else {
        seq![name[0]] + prefix_spec(name.drop_first())
    }
}

proof fn lemma_prefix_take(name: Seq<char>, i: int)
    requires
        0 <= i <= name.len(),
        forall|j: int| 0 <= j < i ==> name[j] != '.',
        i < name.len() ==> name[i] == '.',
    ensures
        prefix_spec(name) == name.take(i),
    decreases i,
{
    if i == 0 {
        assert(name.take(0) =~= Seq::<char>::empty());
        if name.len() > 0 {
            assert(prefix_spec(name) == Seq::<char>::empty());
        } else {
            assert(prefix_spec(name) == name);
            assert(name =~= name.take(0));
        }
    } else {
        lemma_prefix_take(name.drop_first(), i - 1);
        assert(seq![name[0]] + name.drop_first().take(i - 1) =~= name.take(i));
    }
}

/// The identifier conveyed by a locale file's name: the portion before
/// the first `.`.
pub fn file_prefix(name: &str) -> (r: String)
    ensures
        r@ == prefix_spec(name@),
{
    let len = name.unicode_len();
    let mut i: usize = 0;
    loop
        invariant
            i <= len,
            len == name@.len(),
            forall|j: int| 0 <= j < i ==> name@[j] != '.',
        ensures
            i <= len,
            forall|j: int| 0 <= j < i ==> name@[j] != '.',
            i < len ==> name@[i as int] == '.',
        decreases len - i,
    {
        if i >= len {
            break;
        }
        if name.get_char(i) == '.' {
            break;
        }
        i += 1;
    }
    proof {
        lemma_prefix_take(name@, i as int);
    }
    let p = name.substring_char(0, i);
    proof {
        assert(p@ =~= name@.take(i as int));
    }
    String::from_str(p)
}

/// Compares two strings character by character.
pub fn str_eq(a: &str, b: &str) -> (r: bool)
    ensures
        r == (a@ == b@),
{
    let la = a.unicode_len();
    let lb = b.unicode_len();
    if la != lb {
        proof {
            assert(a@ != b@);
        }
        return false;
    }
    let mut i: usize = 0;
    loop
        invariant
            i <= la,
            la == a@.len(),
            lb == b@.len(),
            la == lb,
            forall|j: int| 0 <= j < i ==> a@[j] == b@[j],
        ensures
            i <= la,
            forall|j: int| 0 <= j < i ==> a@[j] == b@[j],
            i < la ==> a@[i as int] != b@[i as int],
        decreases la - i,
    {
        if i >= la {
            break;
        }
        if a.get_char(i) != b.get_char(i) {
            break;
        }
        i += 1;
    }
    if i >= la {
        proof {
            assert(a@ =~= b@);
        }
        true
    } else {
        false
    }
}

/// Whether `name` ends with `suffix`.
fn ends_with(name: &str, suffix: &str) -> (r: bool)
    ensures
        r == (name@.len() >= suffix@.len() && name@.skip(name@.len() - suffix@.len())
            == suffix@),
{
    let ln = name.unicode_len();
    let ls = suffix.unicode_len();
    if ln < ls {
        return false;
    }
    let tail = name.substring_char(ln - ls, ln);
    proof {
        assert(tail@ =~= name@.skip(name@.len() - suffix@.len()));
    }
    str_eq(tail, suffix)
}

/// The recognized resource extension, with a nonempty stem before it.
pub open spec fn is_resource_name(name: Seq<char>) -> bool {
    name.len() > ".yml"@.len() && name.skip(name.len() - ".yml"@.len()) == ".yml"@
}

/// The default-marker convention: a component literally equal to
/// `default` immediately before the extension, with a nonempty tag
/// before it.
pub open spec fn is_default_name(name: Seq<char>) -> bool {
    name.len() > ".default.yml"@.len() && name.skip(name.len() - ".default.yml"@.len())
        == ".default.yml"@
}

pub fn check_resource_name(name: &str) -> (r: bool)
    ensures
        r == is_resource_name(name@),
{
    let suffix = ".yml";
    let ln = name.unicode_len();
    let ls = suffix.unicode_len();
    if ln <= ls {
        return false;
    }
    ends_with(name, suffix)
}

pub fn check_default_name(name: &str) -> (r: bool)
    ensures
        r == is_default_name(name@),
{
    let suffix = ".default.yml";
    let ln = name.unicode_len();
    let ls = suffix.unicode_len();
    if ln <= ls {
        return false;
    }
    ends_with(name, suffix)
}

/// One discovered locale file: its (normalized) identifier, whether it
/// is the default, and the file name it came from.
#[derive(Debug)]
pub struct LocaleFile {
    pub identifier: String,
    pub is_default: bool,
    pub name: String,
}

pub open spec fn locale_file_view(f: LocaleFile) -> (Seq<char>, bool, Seq<char>) {
    (f.identifier@, f.is_default, f.name@)
}

pub open spec fn locale_files_view(fs: Seq<LocaleFile>) -> Seq<(Seq<char>, bool, Seq<char>)>
    decreases fs,
{
    if fs.len() == 0 {
        Seq::empty()
    } else {
        locale_files_view(fs.drop_last()).push(locale_file_view(fs.last()))
    }
}

pub proof fn lemma_locale_files_view_index(fs: Seq<LocaleFile>)
    ensures
        locale_files_view(fs).len() == fs.len(),
        forall|i: int| #![trigger locale_files_view(fs)[i]]
            0 <= i < fs.len() ==> locale_files_view(fs)[i] == locale_file_view(fs[i]),
    decreases fs,
{
    if fs.len() > 0 {
        lemma_locale_files_view_index(fs.drop_last());
    }
}

/// How many names look like the default locale's file.
pub open spec fn count_defaults(names: Seq<Seq<char>>) -> int
    decreases names,
{
    if names.len() == 0 {
        0int
    } else {
        count_defaults(names.drop_last()) + if is_resource_name(names.last()) && is_default_name(
            names.last(),
        ) {
            1int
        } else {
            0int
        }
    }
}

/// The classified source files, given exactly one default: resource
/// names in their given order, each with its identifier; the first
/// non-default name whose identifier is no valid language tag fails.
pub open spec fn classify_files(names: Seq<Seq<char>>) -> Result<
    Seq<(Seq<char>, bool, Seq<char>)>,
    ErrV,
>
    decreases names,
{
    if names.len() == 0 {
        Ok(Seq::empty())
    } else {
        let n = names[0];
        if !is_resource_name(n) {
            classify_files(names.drop_first())
        } else if is_default_name(n) {
            match classify_files(names.drop_first()) {
                Ok(rest) => Ok(seq![(prefix_spec(n), true, n)] + rest),
                Err(e) => Err(e),
            }
        } else {
            match canonical_tag(prefix_spec(n)) {
                None => Err(ErrV::InvalidLocaleTag(prefix_spec(n))),
                Some(t) => match classify_files(names.drop_first()) {
                    Ok(rest) => Ok(seq![(t, false, n)] + rest),
                    Err(e) => Err(e),
                },
            }
        }
    }
}

/// The whole classification: exactly one default, then per-file
/// identifiers.
pub open spec fn classify_spec(names: Seq<Seq<char>>) -> Result<
    Seq<(Seq<char>, bool, Seq<char>)>,
    ErrV,
> {
    if count_defaults(names) == 0 {
        Err(ErrV::NoDefaultLocale)
    } else if count_defaults(names) != 1 {
        Err(ErrV::AmbiguousDefaultLocale)
    } else {
        classify_files(names)
    }
}

/// Classifies the file names of one source directory, in their given
/// order.
pub fn classify_sources(names: &Vec<String>) -> (r: Result<Vec<LocaleFile>, GenError>)
    ensures
        match r {
            Ok(fs) => classify_spec(names.deep_view()) == Ok::<
                Seq<(Seq<char>, bool, Seq<char>)>,
                ErrV,
            >(locale_files_view(fs@)),
            Err(e) => classify_spec(names.deep_view()) == Err::<
                Seq<(Seq<char>, bool, Seq<char>)>,
                ErrV,
            >(err_view(e)),
        },
{
    let ghost nv = names.deep_view();
    let mut count: usize = 0;
    let mut i: usize = 0;
    proof {
        assert(nv.take(0) =~= Seq::<Seq<char>>::empty());
    }
    loop
        invariant
            i <= names@.len(),
            nv == names.deep_view(),
            nv.len() == names@.len(),
            count <= i,
            count == count_defaults(nv.take(i as int)),
        ensures
            count == count_defaults(nv),
        decreases names@.len() - i,
    {
        if i >= names.len() {
            proof {
                assert(nv.take(i as int) =~= nv);
            }
            break;
        }
        proof {
            assert(names.deep_view()[i as int] == names@[i as int]@);
            assert(nv.take(i as int + 1).drop_last() =~= nv.take(i as int));
            assert(nv.take(i as int + 1).last() == nv[i as int]);
        }
        let n = &names[i];
        if check_resource_name(n.as_str()) && check_default_name(n.as_str()) {
            count += 1;
        }
        i += 1;
    }
    if count == 0 {
        return Err(GenError::NoDefaultLocale);
    }
    if count != 1 {
        return Err(GenError::AmbiguousDefaultLocale);
    }
    let mut out: Vec<LocaleFile> = Vec::new();
    let mut i: usize = 0;
    proof {
        assert(nv.skip(0) =~= nv);
        assert(locale_files_view(out@) =~= Seq::<(Seq<char>, bool, Seq<char>)>::empty());
    }
    loop
        invariant
            i <= names@.len(),
            nv == names.deep_view(),
            nv.len() == names@.len(),
            count_defaults(nv) == 1,
            classify_files(nv) == (match classify_files(nv.skip(i as int)) {
                Ok(rest) => Ok::<Seq<(Seq<char>, bool, Seq<char>)>, ErrV>(
                    locale_files_view(out@) + rest,
                ),
                Err(e) => Err(e),
            }),
        ensures
            i == names@.len(),
            classify_files(nv) == (match classify_files(nv.skip(i as int)) {
                Ok(rest) => Ok::<Seq<(Seq<char>, bool, Seq<char>)>, ErrV>(
                    locale_files_view(out@) + rest,
                ),
                Err(e) => Err(e),
            }),
        decreases names@.len() - i,
    {
        if i >= names.len() {
            break;
        }
        let ghost rest = nv.skip(i as int);
        proof {
            assert(names.deep_view()[i as int] == names@[i as int]@);
            assert(rest[0] == nv[i as int]);
            assert(rest.drop_first() =~= nv.skip(i as int + 1));
        }
        let n = &names[i];
        if check_resource_name(n.as_str()) {
            let ident = file_prefix(n.as_str());
            if check_default_name(n.as_str()) {
                let ghost out_pre = out@;
                out.push(LocaleFile { identifier: ident, is_default: true, name: n.clone() });
                proof {
                    lemma_locale_files_view_index(out@);
                    lemma_locale_files_view_index(out_pre);
                    assert(locale_files_view(out@) =~= locale_files_view(out_pre).push((
                        prefix_spec(nv[i as int]),
                        true,
                        nv[i as int],
                    )));
                    match classify_files(nv.skip(i as int + 1)) {
                        Ok(r2) => {
                            assert(locale_files_view(out@) + r2 =~= locale_files_view(out_pre) + (
                            seq![(prefix_spec(nv[i as int]), true, nv[i as int])] + r2));
                        },
                        Err(_) => {},
                    }
                }
            } else {
                match normalize_tag(ident.as_str()) {
                    None => {
                        return Err(GenError::InvalidLocaleTag { raw: ident });
                    },
                    Some(t) => {
                        let ghost out_pre = out@;
                        let ghost tv = t@;
                        out.push(LocaleFile { identifier: t, is_default: false, name: n.clone() });
                        proof {
                            lemma_locale_files_view_index(out@);
                            lemma_locale_files_view_index(out_pre);
                            assert(locale_files_view(out@) =~= locale_files_view(out_pre).push((
                                tv,
                                false,
                                nv[i as int],
                            )));
                            match classify_files(nv.skip(i as int + 1)) {
                                Ok(r2) => {
                                    assert(locale_files_view(out@) + r2 =~= locale_files_view(
                                        out_pre,
                                    ) + (seq![(tv, false, nv[i as int])] + r2));
                                },
                                Err(_) => {},
                            }
                        }
                    },
                }
            }
        }
        i += 1;
    }
    proof {
        assert(nv.skip(i as int) =~= Seq::<Seq<char>>::empty());
        assert(locale_files_view(out@) + Seq::<(Seq<char>, bool, Seq<char>)>::empty()
            =~= locale_files_view(out@));
    }
    Ok(out)
}

} // verus!
