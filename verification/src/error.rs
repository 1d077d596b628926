use vstd::prelude::*;

verus! {

/// A diagnostic produced while turning source text into bytecode:
/// lexical, syntactic, or code-generation trouble, with its position.
#[derive(Debug, Clone)]
pub struct CompileError {
    pub filename: String,
    pub line: usize,
    pub col: usize,
    pub message: String,
}

impl CompileError {
    pub fn new(filename: &str, line: usize, col: usize, message: &str) -> (e: Self)
        ensures
            e.filename@ == filename@,
            e.line == line,
            e.col == col,
            e.message@ == message@,
    {
        CompileError {
            filename: filename.to_owned(),
            line,
            col,
            message: message.to_owned(),
        }
    }
}

} // verus!
