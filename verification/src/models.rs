//! The data that a context map is made of.
use vstd::prelude::*;

verus! {

/// The kind of a source symbol.
#[derive(Clone, Copy, Debug, PartialEq, Eq, Structural)]
pub enum SymbolKind {
    Class,
    Interface,
    Type,
    Method,
    Function,
    Variable,
    Other,
}

/// One symbol found in a source file.
#[derive(Debug)]
pub struct Symbol {
    pub name: String,
    pub kind: SymbolKind,
    pub line: usize,
    pub signature: Option<String>,
}

/// The symbols of one file, under the file's path relative to the root.
#[derive(Debug)]
pub struct FileMap {
    pub path: String,
    pub symbols: Vec<Symbol>,
}

/// A whole map: the root it was made from and its files.
#[derive(Debug)]
pub struct ContextMap {
    pub root: String,
    pub files: Vec<FileMap>,
}

/// Mathematical value of a [`Symbol`].
pub struct SymbolView {
    pub name: Seq<char>,
    pub kind: SymbolKind,
    pub line: usize,
    pub signature: Option<Seq<char>>,
}

/// Mathematical value of a [`FileMap`].
pub struct FileMapView {
    pub path: Seq<char>,
    pub symbols: Seq<SymbolView>,
}

/// Mathematical value of a [`ContextMap`].
pub struct ContextMapView {
    pub root: Seq<char>,
    pub files: Seq<FileMapView>,
}

pub open spec fn opt_string_view(s: Option<String>) -> Option<Seq<char>> {
    match s {
        Some(v) => Some(v@),
        None => None,
    }
}

impl View for Symbol {
    type V = SymbolView;

    open spec fn view(&self) -> SymbolView {
        SymbolView {
            name: self.name@,
            kind: self.kind,
            line: self.line,
            signature: opt_string_view(self.signature),
        }
    }
}

impl View for FileMap {
    type V = FileMapView;

    open spec fn view(&self) -> FileMapView {
        FileMapView { path: self.path@, symbols: self.symbols@.map_values(|s: Symbol| s@) }
    }
}

impl View for ContextMap {
    type V = ContextMapView;

    open spec fn view(&self) -> ContextMapView {
        ContextMapView { root: self.root@, files: self.files@.map_values(|f: FileMap| f@) }
    }
}

impl Clone for Symbol {
    fn clone(&self) -> (res: Self)
        ensures
            res@ == self@,
    {
        let signature = match &self.signature {
            Some(s) => Some(s.clone()),
            None => None,
        };
        Symbol { name: self.name.clone(), kind: self.kind, line: self.line, signature }
    }
}

impl Symbol {
    /// A new symbol from its parts.
    pub fn new(name: String, kind: SymbolKind, line: usize, signature: Option<String>) -> (res: Symbol)
        ensures
            res.name == name,
            res.kind == kind,
            res.line == line,
            res.signature == signature,
    {
        Symbol { name, kind, line, signature }
    }
}

} // verus!
