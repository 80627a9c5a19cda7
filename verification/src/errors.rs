use vstd::prelude::*;

verus! {

/// The kind of a document value, as shape mismatches report it.
#[derive(Clone, Copy, Debug, PartialEq, Eq, Structural)]
pub enum ValueKind {
    ScalarKind,
    MappingKind,
    OtherKind,
}

/// A fatal generation-time error. Generation aborts on the first one;
/// no partial artifact is emitted.
#[derive(Debug, PartialEq, Eq)]
pub enum GenError {
    /// The source directory could not be read (reported by the caller
    /// that scans the directory).
    DirectoryUnreadable,
    /// A locale file could not be read (reported by the caller that
    /// loads the files).
    FileUnreadable { name: String },
    /// A document is not a well-formed mapping of unique string keys.
    DocumentParseError { name: String },
    /// No file matches the default-marker convention.
    NoDefaultLocale,
    /// More than one file matches the default-marker convention.
    AmbiguousDefaultLocale,
    /// A file's derived identifier fails language-tag validation.
    InvalidLocaleTag { raw: String },
    /// A value is neither scalar text nor a nested mapping.
    InvalidValueKind { path: Vec<String> },
    /// A user-supplied key collides with the implicit identifier field.
    ReservedKeyConflict { path: Vec<String> },
    /// Two sibling records derive the same type name.
    TypeNameCollision { path: Vec<String> },
    /// A locale's value shape disagrees with the schema at a path.
    ShapeMismatch { path: Vec<String>, expected: ValueKind, found: ValueKind },
}

/// Mathematical image of a `GenError`.
pub enum ErrV {
    DirectoryUnreadable,
    FileUnreadable(Seq<char>),
    DocumentParseError(Seq<char>),
    NoDefaultLocale,
    AmbiguousDefaultLocale,
    InvalidLocaleTag(Seq<char>),
    InvalidValueKind(Seq<Seq<char>>),
    ReservedKeyConflict(Seq<Seq<char>>),
    TypeNameCollision(Seq<Seq<char>>),
    ShapeMismatch(Seq<Seq<char>>, ValueKind, ValueKind),
}

pub open spec fn err_view(e: GenError) -> ErrV {
    match e {
        GenError::DirectoryUnreadable => ErrV::DirectoryUnreadable,
        GenError::FileUnreadable { name } => ErrV::FileUnreadable(name@),
        GenError::DocumentParseError { name } => ErrV::DocumentParseError(name@),
        GenError::NoDefaultLocale => ErrV::NoDefaultLocale,
        GenError::AmbiguousDefaultLocale => ErrV::AmbiguousDefaultLocale,
        GenError::InvalidLocaleTag { raw } => ErrV::InvalidLocaleTag(raw@),
        GenError::InvalidValueKind { path } => ErrV::InvalidValueKind(path.deep_view()),
        GenError::ReservedKeyConflict { path } => ErrV::ReservedKeyConflict(path.deep_view()),
        GenError::TypeNameCollision { path } => ErrV::TypeNameCollision(path.deep_view()),
        GenError::ShapeMismatch { path, expected, found } => ErrV::ShapeMismatch(
            path.deep_view(),
            expected,
            found,
        ),
    }
}

/// Prefixes the error's path, if it carries one, with the key under
/// which the error arose.
pub open spec fn errp(k: Seq<char>, e: ErrV) -> ErrV {
    match e {
        ErrV::InvalidValueKind(p) => ErrV::InvalidValueKind(seq![k] + p),
        ErrV::ReservedKeyConflict(p) => ErrV::ReservedKeyConflict(seq![k] + p),
        ErrV::TypeNameCollision(p) => ErrV::TypeNameCollision(seq![k] + p),
        ErrV::ShapeMismatch(p, x, f) => ErrV::ShapeMismatch(seq![k] + p, x, f),
        _ => e,
    }
}

/// The executable counterpart of `errp`: pushes the key onto the front
/// of the error's path.
pub fn prepend_key(k: String, e: GenError) -> (r: GenError)
    ensures
        err_view(r) == errp(k@, err_view(e)),
{
    match e {
        GenError::InvalidValueKind { path } => {
            let path = push_front(k, path);
            GenError::InvalidValueKind { path }
        },
        GenError::ReservedKeyConflict { path } => {
            let path = push_front(k, path);
            GenError::ReservedKeyConflict { path }
        },
        GenError::TypeNameCollision { path } => {
            let path = push_front(k, path);
            GenError::TypeNameCollision { path }
        },
        GenError::ShapeMismatch { path, expected, found } => {
            let path = push_front(k, path);
            GenError::ShapeMismatch { path, expected, found }
        },
        other => other,
    }
}

fn push_front(k: String, path: Vec<String>) -> (r: Vec<String>)
    ensures
        r.deep_view() == seq![k@] + path.deep_view(),
{
    let mut out = path;
    let ghost pre = out.deep_view();
    out.insert(0, k);
    proof {
        assert(out.deep_view() =~= seq![k@] + pre);
    }
    out
}

} // verus!
