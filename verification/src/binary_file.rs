//! The payload of one dependency-tree node: a binary, or a declared name
//! that resolved to no file.

use vstd::prelude::*;
use vstd::string::StringExecFns;

use crate::errors::AnalyzeError;

verus! {

/// Mathematical value of a [`BinaryFile`]: the same five fields over
/// sequences of characters.
pub ghost struct BinaryFileView {
    pub name: Seq<char>,
    pub real_path: Option<Seq<char>>,
    pub interpreter: Option<Seq<char>>,
    pub is_root: bool,
    pub is_executable: bool,
}

/// One node of the dependency tree: a binary (or a declared dependency name
/// that never resolved to a binary on disk).
///
/// * `name` is the dependency name as declared by its referencer: a bare
///   file name for non-root nodes, the caller-supplied path for the root.
/// * `real_path` is the absolute path at which the file was found, or `None`
///   for an unresolved dependency (and for the root, which is addressed by
///   `name` directly).
/// * `interpreter` is populated only on the root node.
/// * `is_root` holds exactly for the tree's root.
/// * `is_executable` holds if the binary contains an executable segment.
pub struct BinaryFile {
    pub name: String,
    pub real_path: Option<String>,
    pub interpreter: Option<String>,
    pub is_root: bool,
    pub is_executable: bool,
}

pub open spec fn view_of_opt_string(o: Option<String>) -> Option<Seq<char>> {
    match o {
        Option::Some(s) => Option::Some(s@),
        Option::None => Option::None,
    }
}

impl View for BinaryFile {
    type V = BinaryFileView;

    open spec fn view(&self) -> BinaryFileView {
        BinaryFileView {
            name: self.name@,
            real_path: view_of_opt_string(self.real_path),
            interpreter: view_of_opt_string(self.interpreter),
            is_root: self.is_root,
            is_executable: self.is_executable,
        }
    }
}

impl BinaryFile {
    /// A fresh, unresolved, non-root entry for the given declared name.
    pub fn new(path: String) -> (r: Result<BinaryFile, AnalyzeError>)
        ensures
            r is Ok,
            r.unwrap()@ == (BinaryFileView {
                name: path@,
                real_path: Option::None,
                interpreter: Option::None,
                is_root: false,
                is_executable: false,
            }),
    {
        Ok(BinaryFile {
            name: path,
            real_path: None,
            interpreter: None,
            is_root: false,
            is_executable: false,
        })
    }

    /// Marks this entry as the tree's root; all other fields are kept.
    pub fn set_root(&mut self)
        ensures
            final(self)@ == (BinaryFileView { is_root: true, ..old(self)@ }),
    {
        self.is_root = true;
    }

    /// The display form of this entry: its name.
    pub fn display_string(&self) -> (r: String)
        ensures
            r@ == self@.name,
    {
        self.name.clone()
    }

    /// The diagnostic form of this entry: its name with the resolution
    /// outcome, `name(path)` for a resolved one and `name(None)` otherwise.
    pub fn debug_string(&self) -> (r: String)
        ensures
            r@ == self@.name + "("@ + (match self@.real_path {
                Option::Some(p) => p,
                Option::None => "None"@,
            }) + ")"@,
    {
        let mut s = self.name.clone();
        s.append("(");
        match &self.real_path {
            Some(p) => s.append(p.as_str()),
            None => s.append("None"),
        }
        s.append(")");
        s
    }
}

} // verus!
