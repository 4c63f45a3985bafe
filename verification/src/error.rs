use vstd::prelude::*;

verus! {

#[derive(Debug)]
/// What can go wrong while loading a configuration, locating values, or writing them.
pub enum EmuxError {
    /// The file at `path` could not be read.
    Unreadable { path: String },
    /// The file at `path` does not hold valid JSON; `message` is the parser's.
    InvalidJson { path: String, message: String },
    /// A JSON selector names no key.
    EmptySelector,
    /// While locating: `key`, a key of `selector`, is not in the document.
    KeyNotInSelector { key: String, selector: String },
    /// While writing: `key` is not in the document.
    KeyNotFound { key: String },
    /// While writing: the value that should receive `key` is neither an object nor `null`.
    NotAnObject { key: String },
    /// `restore` reached the entry `entry`, which declares no base value.
    MissingBase { entry: String },
    /// A configuration value that must be a table (`context`) is a value of type `found`.
    NotATable { context: String, found: String },
    /// A configuration value that must be a string (the field `key`, or a key of the
    /// configuration table, `Cfg`) is neither a string nor a number.
    NotAString { key: String },
    /// A filter table names a kind that does not exist.
    UnknownFilterKind { kind: String },
    /// An overrider table names a kind that does not exist.
    UnknownOverriderKind { kind: String },
}

/// The mathematical form of an error: its kind and the text it names.
pub enum ErrorView {
    Unreadable(Seq<char>),
    InvalidJson(Seq<char>, Seq<char>),
    EmptySelector,
    KeyNotInSelector(Seq<char>, Seq<char>),
    KeyNotFound(Seq<char>),
    NotAnObject(Seq<char>),
    MissingBase(Seq<char>),
    NotATable(Seq<char>, Seq<char>),
    NotAString(Seq<char>),
    UnknownFilterKind(Seq<char>),
    UnknownOverriderKind(Seq<char>),
}

impl View for EmuxError {
    type V = ErrorView;

    open spec fn view(&self) -> ErrorView {
        match self {
            EmuxError::Unreadable { path } => ErrorView::Unreadable(path@),
            EmuxError::InvalidJson { path, message } => ErrorView::InvalidJson(path@, message@),
            EmuxError::EmptySelector => ErrorView::EmptySelector,
            EmuxError::KeyNotInSelector { key, selector } => ErrorView::KeyNotInSelector(
                key@,
                selector@,
            ),
            EmuxError::KeyNotFound { key } => ErrorView::KeyNotFound(key@),
            EmuxError::NotAnObject { key } => ErrorView::NotAnObject(key@),
            EmuxError::MissingBase { entry } => ErrorView::MissingBase(entry@),
            EmuxError::NotATable { context, found } => ErrorView::NotATable(context@, found@),
            EmuxError::UnknownFilterKind { kind } => ErrorView::UnknownFilterKind(kind@),
            EmuxError::UnknownOverriderKind { kind } => ErrorView::UnknownOverriderKind(kind@),
            EmuxError::NotAString { key } => ErrorView::NotAString(key@),
        }
    }
}

} // verus!
