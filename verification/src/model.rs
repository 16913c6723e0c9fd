//! The rows of a project index that the analyses read.
use vstd::prelude::*;
use crate::text;

verus! {

/// What one place in a file does with a name.
#[derive(Debug, Clone, Copy, PartialEq, Eq, Structural)]
pub enum ReferenceKind {
    Import,
    ImportBinding,
    Include,
    Call,
    Instantiation,
    Inheritance,
    TraitUse,
    TypeHint,
    RouteHandler,
}

/// What a file is for.
#[derive(Debug, Clone, Copy, PartialEq, Eq, Structural)]
pub enum FileCategory {
    Source,
    Test,
    Config,
}

/// A list of texts. Two lists that hold the same texts are equal.
#[derive(Debug)]
pub enum Notes {
    End,
    Note(String, Box<Notes>),
}

impl View for Notes {
    type V = Seq<Seq<char>>;

    open spec fn view(&self) -> Seq<Seq<char>> {
        noted(*self)
    }
}

/// The texts of a list.
pub open spec fn noted(n: Notes) -> Seq<Seq<char>>
    decreases n,
{
    match n {
        Notes::End => Seq::empty(),
        Notes::Note(first, rest) => seq![first@] + noted(*rest),
    }
}

impl Clone for Notes {
    fn clone(&self) -> (out: Self)
        ensures
            out == *self,
        decreases self,
    {
        match self {
            Notes::End => Notes::End,
            Notes::Note(first, rest) => Notes::Note(first.clone(), Box::new((&**rest).clone())),
        }
    }
}

impl Notes {
    /// The list of some texts, in their order.
    pub fn of(texts: &Vec<String>) -> (out: Notes)
        ensures
            out@ == text::views(texts@),
    {
        broadcast use text::group_views;
        let mut out = Notes::End;
        let mut i: usize = texts.len();
        assert(text::views(texts@).skip(texts@.len() as int) =~= out@);
        while i > 0
            invariant
                i <= texts@.len(),
                out@ == text::views(texts@).skip(i as int),
            decreases i,
        {
            broadcast use text::group_views;
            i -= 1;
            assert(text::views(texts@).skip(i as int) =~= seq![texts@[i as int]@] + out@);
            out = Notes::Note(texts[i].clone(), Box::new(out));
        }
        assert(text::views(texts@).skip(0) =~= text::views(texts@));
        out
    }

    /// The texts of the list, in their order.
    pub fn texts(&self) -> (out: Vec<String>)
        ensures
            text::views(out@) == self@,
    {
        broadcast use text::group_views;
        let mut out: Vec<String> = Vec::new();
        let mut at = self;
        assert(text::views(out@) + at@ =~= self@);
        loop
            invariant
                text::views(out@) + at@ == self@,
            ensures
                text::views(out@) == self@,
            decreases at,
        {
            broadcast use text::group_views;
            match at {
                Notes::End => {
                    assert(text::views(out@) + at@ =~= text::views(out@));
                    break;
                },
                Notes::Note(first, rest) => {
                    let ghost before = text::views(out@);
                    assert(before + at@ =~= before.push(first@) + (*rest)@);
                    out.push(first.clone());
                    at = &**rest;
                },
            }
        }
        out
    }
}

/// A definition. `kind` is its label, such as `function` or `class`.
#[derive(Debug)]
pub struct Symbol {
    pub name: String,
    pub qualified_name: String,
    pub kind: String,
    pub file_path: String,
    pub line_start: u32,
    pub line_end: u32,
    pub col_start: u32,
    pub col_end: u32,
    /// The notes beside it that say why it is as it is.
    pub rationale: Notes,
}

impl Clone for Symbol {
    fn clone(&self) -> (out: Self)
        ensures
            out == *self,
    {
        Symbol {
            name: self.name.clone(),
            qualified_name: self.qualified_name.clone(),
            kind: self.kind.clone(),
            file_path: self.file_path.clone(),
            line_start: self.line_start,
            line_end: self.line_end,
            col_start: self.col_start,
            col_end: self.col_end,
            rationale: self.rationale.clone(),
        }
    }
}

/// What identifies a definition: its file, its qualified name and its line.
pub type SymbolKey = (Seq<char>, Seq<char>, u32);

impl Symbol {
    pub open spec fn key(self) -> SymbolKey {
        (self.file_path@, self.qualified_name@, self.line_start)
    }
}

/// One place in a file where a name is used.
#[derive(Debug)]
pub struct Reference {
    pub from_file: String,
    pub from_symbol: Option<String>,
    pub to_name: String,
    pub kind: ReferenceKind,
    pub line: u32,
    pub col: u32,
}

impl Clone for Reference {
    fn clone(&self) -> (out: Self)
        ensures
            out == *self,
    {
        Reference {
            from_file: self.from_file.clone(),
            from_symbol: clone_opt(&self.from_symbol),
            to_name: self.to_name.clone(),
            kind: self.kind,
            line: self.line,
            col: self.col,
        }
    }
}

/// A copy of an optional string.
pub fn clone_opt(s: &Option<String>) -> (out: Option<String>)
    ensures
        out == *s,
{
    match s {
        Some(x) => Some(x.clone()),
        None => None,
    }
}

} // verus!
