use vstd::prelude::*;
use crate::emitter::{spec_emit, Emitter};
use crate::error::CompilerError;
use crate::options::CompileOptions;
use crate::parser::{
    elems_view, indentation_message, spec_parse, spec_parse_block, unterminated_attrs_message,
    Parsed, Parser, ScanState,
};
use crate::tokenizer::{indent_scan, Tokenizer};

verus! {

/// The path type of std, declared so that signatures may carry it; the
/// library never looks inside a path.
#[verifier::external_type_specification]
#[verifier::external_body]
pub struct ExPath(std::path::Path);

/// Compiles every source file under a directory. Walking the directory is
/// the caller's concern; nothing is compiled here yet.
pub fn build_all(options: CompileOptions, directory: &std::path::Path) -> (r: Result<
    (),
    CompilerError,
>)
    ensures
        r is Ok,
{
    Ok(())
}

/// Compiles one source text into its emitted document.
///
/// The document must start at indentation zero: any other first reading
/// yields an `IndentationError`. An attribute list still open at the end of
/// the input yields a `ParseError` — and nothing else does. On success the
/// result is exactly the serialization (`spec_emit`) of the tree that the
/// source means (`spec_parse`), so the output is a function of the source
/// text and the pretty flag alone.
pub fn build_source_string(options: CompileOptions, source: String) -> (r: Result<
    String,
    CompilerError,
>)
    ensures
        indent_scan(source@, 0).0 != 0 <==> r matches Err(CompilerError::IndentationError(_)),
        match r {
            Ok(out) => spec_parse(source@) matches Parsed::Success(pr) && out@ == spec_emit(
                pr.0,
                options.pretty,
            ),
            Err(CompilerError::IndentationError(m)) => m@ == indentation_message(
                indent_scan(source@, 0).0,
            ),
            Err(CompilerError::ParseError(m)) => spec_parse(source@) is Error && m@
                == unterminated_attrs_message(),
        },
        r matches Ok(out) ==> out@.len() >= crate::emitter::doctype().len() && out@.subrange(
            0,
            crate::emitter::doctype().len() as int,
        ) == crate::emitter::doctype(),
        (indent_scan(source@, 0).0 == 0 && indent_scan(source@, 0).2 == source@.len())
            ==> match r {
            Ok(out) => out@ == crate::emitter::doctype(),
            Err(_) => false,
        },
{
    let mut tokenizer = Tokenizer::new(source.as_str());
    let mut parser = Parser::new();
    proof {
        assert(spec_parse(source@) == spec_parse_block(
            source@,
            ScanState { pos: indent_scan(source@, 0).2, reading: None },
            0,
            parser.frames_view(),
        ));
    }
    let elements = match parser.parse(&mut tokenizer) {
        Ok(elements) => elements,
        Err(e) => {
            return Err(e);
        },
    };
    let ghost evs = elems_view(elements@);
    let mut emitter = Emitter::new(options);
    let out = emitter.emit(elements);
    proof {
        broadcast use crate::parser::lemma_elems_view_len, crate::parser::lemma_elems_view_index;

        assert(out@ == spec_emit(evs, options.pretty));
        assert(spec_parse(source@) matches Parsed::Success(pr) && pr.0 == evs);
        assert(out@.subrange(0, crate::emitter::doctype().len() as int) =~= crate::emitter::doctype());
        if evs.len() == 0 {
            assert(out@ =~= crate::emitter::doctype());
        }
    }
    Ok(out)
}

} // verus!
