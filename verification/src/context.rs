//! The compiler's front end for one piece of code: tokens, the syntax
//! check and its report, and lexemes once the syntax is correct.
use vstd::prelude::*;
use crate::lexer::{Lexeme, LexerError, LexState, Lexer, lex_run, lexeme_text_views};
use crate::report::{Reporter, can_draw, drawable, syntax_report};
use crate::syntax::{SyntaxAnalyzer, SyntaxError, error_views, spec_analyze};
use crate::text::byte_len;
use crate::tokenizer::{Token, spec_tokenize, token_views, tokenize};

verus! {

/// The code being compiled and how its reports are shown.
pub struct CompilerContext {
    pub code: String,
    pub pretty_output: bool,
}

/// The syntax errors of `code`.
pub open spec fn syntax_errors_of(code: Seq<char>) -> Seq<crate::syntax::ErrorView> {
    spec_analyze(spec_tokenize(code))
}

/// The syntax report of `code` can be produced: every error's position can
/// be shown, and, when the report is pretty, marked under the code.
pub open spec fn reportable(code: Seq<char>, pretty: bool) -> bool {
    &&& forall|k: int| 0 <= k < syntax_errors_of(code).len() ==> #[trigger] syntax_errors_of(code)[k].token.start < usize::MAX
    &&& pretty ==> drawable(byte_len(code) as int, syntax_errors_of(code))
}

impl CompilerContext {
    /// A context with no code yet.
    pub fn new(pretty_output: bool) -> (r: Self)
        ensures
            r.code@ == Seq::<char>::empty(),
            r.pretty_output == pretty_output,
    {
        Self { code: String::new(), pretty_output }
    }

    fn tokenize(&self) -> (r: Vec<Token>)
        ensures
            token_views(r@) == spec_tokenize(self.code@),
    {
        tokenize(self.code.as_str())
    }

    fn check_syntax(&self) -> (r: Vec<SyntaxError>)
        ensures
            error_views(r@) == syntax_errors_of(self.code@),
    {
        let tokens = self.tokenize();
        SyntaxAnalyzer::new(&tokens).analyze()
    }

    /// Whether the syntax report of the code can be produced (see
    /// [`reportable`]).
    pub fn is_reportable(&self) -> (r: bool)
        ensures
            r == reportable(self.code@, self.pretty_output),
    {
        let errors = self.check_syntax();
        let ghost es = syntax_errors_of(self.code@);
        let mut k: usize = 0;
        while k < errors.len()
            invariant
                error_views(errors@) == es,
                es == syntax_errors_of(self.code@),
                es.len() == errors@.len(),
                k <= errors.len(),
                forall|j: int| 0 <= j < k ==> #[trigger] es[j].token.start < usize::MAX,
            decreases errors.len() - k,
        {
            assert(es[k as int].token.start == errors@[k as int].token.position.start);
            if errors[k].token.position.start == usize::MAX {
                return false;
            }
            k += 1;
        }
        !self.pretty_output || can_draw(self.code.as_str().len(), errors.as_slice())
    }

    /// The syntax report of the code (see [`syntax_report`]).
    pub fn syntax_report(&self) -> (r: String)
        requires
            reportable(self.code@, self.pretty_output),
        ensures
            r@ == syntax_report(self.code@, self.pretty_output, syntax_errors_of(self.code@)),
    {
        let errors = self.check_syntax();
        proof {
            assert forall|k: int| 0 <= k < errors@.len() implies #[trigger] errors@[k].token.position.start < usize::MAX by {
                assert(error_views(errors@)[k].token.start == errors@[k].token.position.start);
            }
        }
        Reporter::new().syntax(self.code.as_str(), self.pretty_output, errors.as_slice())
    }

    /// The lexemes of the code when its syntax is correct; otherwise the
    /// syntax report.
    pub fn create_lexemes(&self) -> (r: Result<Result<Vec<Lexeme<String>>, LexerError>, String>)
        requires
            reportable(self.code@, self.pretty_output),
        ensures
            syntax_errors_of(self.code@).len() > 0 ==> r is Err && r->Err_0@ == syntax_report(
                self.code@,
                self.pretty_output,
                syntax_errors_of(self.code@),
            ),
            syntax_errors_of(self.code@).len() == 0 ==> r is Ok && match lex_run(
                spec_tokenize(self.code@),
                LexState { index: 0, in_string: false, buffer: Seq::empty(), out: Seq::empty() },
            ) {
                Ok(s) => r->Ok_0 is Ok && lexeme_text_views(r->Ok_0->Ok_0@) == s.out,
                Err(e) => r->Ok_0 is Err && r->Ok_0->Err_0@ == e,
            },
    {
        let tokens = self.tokenize();
        let syntax_errors = self.check_syntax();
        if syntax_errors.len() > 0 {
            return Err(self.syntax_report());
        }
        let mut lexer = Lexer::new(tokens);
        let lexemes = lexer.run();
        Ok(lexemes)
    }
}

} // verus!
