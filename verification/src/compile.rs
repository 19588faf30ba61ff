//! The whole compiler: read a term from the text, close the net with the
//! term's wire as its root, and give the image.

use vstd::prelude::*;
use crate::close::{close_result, CloseFailure};
use crate::parse::term_result;
use crate::state::{Model, ParseError, State};

verus! {

/// Why compiling stopped.
#[derive(Debug)]
pub enum CompileError {
    /// Reading the term failed.
    Parse(ParseError),
    /// Closing the net failed, after writing part of the image.
    Close(CloseFailure),
}

/// Compiles the text of a term into the bytes of its net image: the term
/// is read as a non-binder from a fresh state with the largest budget, and
/// its wire becomes the root when the net is closed. The errors say which
/// step failed.
pub fn compile(input: Vec<char>) -> (r: Result<Vec<u8>, CompileError>)
    ensures
        ({
            let (m1, t) = term_result(Model::start(input@, u64::MAX), false);
            match t {
                Err(e) => r matches Err(CompileError::Parse(pe)) && pe == e,
                Ok(root) => {
                    let (_m2, bytes, err) = close_result(m1, root);
                    match err {
                        None => r matches Ok(b) && b@ == bytes,
                        Some(ce) => r matches Err(CompileError::Close(f)) && f.error == ce && f.written@ == bytes,
                    }
                },
            }
        }),
{
    let mut state = State::new(input);
    let root = match state.parse_term(false) {
        Ok(w) => w,
        Err(e) => {
            return Err(CompileError::Parse(e));
        },
    };
    match state.close(root) {
        Ok(bytes) => Ok(bytes),
        Err(f) => Err(CompileError::Close(f)),
    }
}

} // verus!
