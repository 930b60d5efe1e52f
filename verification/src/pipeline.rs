//! From tokens to a program that is ready to run.

use vstd::prelude::*;
use std::collections::HashMap;
use crate::defined::lemma_program_defined;
use crate::naming::{all_plain, stmts_named};
use crate::parser::{ParseError, Parser, program_rest};
use crate::resolved::{lemma_program_recorded, top_level};
use crate::resolver::{ResolveError, Resolver};
use crate::scanner::Token;
use crate::shape::{lemma_parsed_is_plain, tokens_plain};
use crate::scoping::stmts_fit;
use crate::statements::{Stmt, stmts_view};

verus! {

/// Why a list of tokens is no program.
#[derive(Debug)]
pub enum CompileError {
    /// The tokens do not follow the grammar.
    Parse(ParseError),
    /// The program breaks a rule of scoping.
    Resolve(ResolveError),
}

/// A program with the depths of its references.
#[derive(Debug)]
pub struct Program {
    pub stmts: Vec<Stmt>,
    pub locals: HashMap<u64, usize>,
}

/// Parses the tokens and resolves the program that they spell. The result
/// is what the parser makes of the tokens, with what the resolver records
/// for it from the top level; every depth that is recorded is smaller than
/// the number of scopes around its reference. Of tokens that are spelled as
/// a scanner spells them the program is plain, and in a plain program the
/// depth recorded for a read leads to a scope that has defined the name
/// when the read is run. The first syntax error, or else the first error of
/// scoping, is the result if there is one.
pub fn compile(tokens: Vec<Token>) -> (r: Result<Program, CompileError>)
    ensures
        match program_rest(tokens@, 0, 0, Seq::empty()) {
            Ok(parsed) => match r {
                Ok(program) => {
                    &&& stmts_view(program.stmts@) == parsed.value
                    &&& top_level().resolve_stmts(program.stmts@, 0) matches Ok(resolved)
                        && resolved.locals == program.locals@
                    &&& stmts_fit(program.stmts@, 0, 0, program.locals@)
                    &&& tokens_plain(tokens@) ==> all_plain(program.stmts@, 0)
                    &&& all_plain(program.stmts@, 0) ==> stmts_named(
                        program.stmts@,
                        0,
                        Seq::empty(),
                        program.locals@,
                    )
                },
                Err(CompileError::Resolve(e)) => exists|stmts: Seq<Stmt>|
                    #![trigger top_level().resolve_stmts(stmts, 0)]
                    stmts_view(stmts) == parsed.value && top_level().resolve_stmts(stmts, 0)
                        == Err::<crate::resolver::Resolution, ResolveError>(e),
                Err(CompileError::Parse(_)) => false,
            },
            Err(e) => r matches Err(CompileError::Parse(found)) && found == e,
        },
{
    let ghost given = tokens@;
    let mut parser = Parser::new(tokens);
    let stmts = match parser.parse() {
        Ok(stmts) => stmts,
        Err(e) => {
            return Err(CompileError::Parse(e));
        },
    };
    let mut resolver = Resolver::new(Vec::new());
    assert(resolver@ == top_level()) by {
        assert(resolver@.scopes =~= Seq::empty());
    }
    match resolver.resolve_stmts(&stmts) {
        Ok(()) => {},
        Err(e) => {
            return Err(CompileError::Resolve(e));
        },
    }
    proof {
        lemma_program_recorded(stmts@);
        if tokens_plain(given) {
            lemma_parsed_is_plain(given, stmts@);
        }
        if all_plain(stmts@, 0) {
            lemma_program_defined(stmts@);
        }
    }
    Ok(Program { stmts, locals: resolver.locals() })
}

} // verus!
