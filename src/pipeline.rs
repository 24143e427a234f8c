//! A compiler pipeline whose stages are types: scanning, then parsing, then evaluating, each
//! stage reachable only from the one before, and a builder that cannot build without a source.
use vstd::prelude::*;
use vstd::string::*;
use core::marker::PhantomData;
use crate::text::{char_is_white_space, is_white_space};

verus! {

/// Where the run of non-white-space characters that starts at `i` ends.
pub open spec fn word_end(s: Seq<char>, i: int) -> int
    decreases s.len() - i,
{
    if 0 <= i < s.len() && !is_white_space(s[i]) {
        word_end(s, i + 1)
    } else {
        i
    }
}

/// The words of `s`: its maximal runs of non-white-space characters, in order.
pub open spec fn words(s: Seq<char>) -> Seq<Seq<char>>
    decreases s.len(),
{
    if s.len() == 0 {
        seq![]
    } else if is_white_space(s[0]) {
        words(s.skip(1))
    } else {
        let k = word_end(s, 0);
        if 0 < k <= s.len() {
            seq![s.take(k)] + words(s.skip(k))
        } else {
            seq![]
        }
    }
}

proof fn lemma_word_end_shift(s: Seq<char>, i: int, j: int)
    requires
        0 <= i <= j <= s.len(),
    ensures
        word_end(s.skip(i), j - i) + i == word_end(s, j),
        j <= word_end(s, j) <= s.len(),
    decreases s.len() - j,
{
    if j < s.len() && !is_white_space(s[j]) {
        lemma_word_end_shift(s, i, j + 1);
    }
}

#[derive(Debug)]
pub struct Token<'c>(pub &'c str);

#[derive(Debug)]
pub struct Ast<'c>(pub &'c str);

pub struct Scanner<'c>(pub &'c str);

pub struct Parser<'c>(pub Vec<Token<'c>>);

pub struct Evaluator<'c>(pub Vec<Ast<'c>>);

pub struct CompilerResult;

/// A compiler at stage `S`, with the choice of printing tokens and syntax trees.
pub struct Compiler<S> {
    pub stage: S,
    pub print_tokens: bool,
    pub print_ast: bool,
}

impl<'compiler> Compiler<Scanner<'compiler>> {
    pub fn new(source: &'compiler str, print_tokens: bool, print_ast: bool) -> (r: Self)
        ensures
            r.stage.0@ == source@,
            r.print_tokens == print_tokens,
            r.print_ast == print_ast,
    {
        Compiler { stage: Scanner(source), print_tokens, print_ast }
    }

    /// Splits the source into tokens at white space.
    pub fn scan(&self) -> (r: Compiler<Parser<'compiler>>)
        ensures
            r.stage.0@.map_values(|t: Token| t.0@) == words(self.stage.0@),
            r.print_tokens == self.print_tokens,
            r.print_ast == self.print_ast,
    {
        let source = self.stage.0;
        let n = source.unicode_len();
        let mut tokens: Vec<Token<'compiler>> = Vec::new();
        let mut i: usize = 0;
        assert(source@.skip(0) =~= source@);
        assert(tokens@.map_values(|t: Token| t.0@) + words(source@) =~= words(source@));
        while i < n
            invariant
                n == source@.len(),
                i <= n,
                words(source@) == tokens@.map_values(|t: Token| t.0@) + words(source@.skip(i as int)),
            decreases n - i,
        {
            let ghost rest = source@.skip(i as int);
            if char_is_white_space(source.get_char(i)) {
                proof {
                    assert(rest.skip(1) =~= source@.skip(i + 1));
                }
                i = i + 1;
            } else {
                let mut j = i + 1;
                while j < n && !char_is_white_space(source.get_char(j))
                    invariant
                        n == source@.len(),
                        i < j <= n,
                        word_end(source@, j as int) == word_end(source@, i as int),
                    decreases n - j,
                {
                    j = j + 1;
                }
                let word = source.substring_char(i, j);
                let ghost before = tokens@;
                tokens.push(Token(word));
                proof {
                    lemma_word_end_shift(source@, i as int, i as int);
                    assert(word_end(rest, 0) == j - i);
                    assert(rest.take(j - i) =~= word@);
                    assert(rest.skip(j - i) =~= source@.skip(j as int));
                    assert(tokens@.map_values(|t: Token| t.0@) =~= before.map_values(
                        |t: Token| t.0@,
                    ).push(word@));
                    assert(before.map_values(|t: Token| t.0@) + words(rest) =~= before.map_values(
                        |t: Token| t.0@,
                    ).push(word@) + words(source@.skip(j as int)));
                }
                i = j;
            }
        }
        proof {
            assert(source@.skip(i as int).len() == 0);
            assert(tokens@.map_values(|t: Token| t.0@) + seq![] =~= tokens@.map_values(
                |t: Token| t.0@,
            ));
        }
        Compiler {
            stage: Parser(tokens),
            print_tokens: self.print_tokens,
            print_ast: self.print_ast,
        }
    }
}

impl<'c> Compiler<Parser<'c>> {
    /// Makes one syntax tree of each token.
    pub fn parse(&self) -> (r: Compiler<Evaluator<'c>>)
        ensures
            r.stage.0@.map_values(|a: Ast| a.0@) == self.stage.0@.map_values(|t: Token| t.0@),
            r.print_tokens == self.print_tokens,
            r.print_ast == self.print_ast,
    {
        let mut ast: Vec<Ast<'c>> = Vec::new();
        let mut i: usize = 0;
        while i < self.stage.0.len()
            invariant
                i <= self.stage.0@.len(),
                ast@.map_values(|a: Ast| a.0@) == self.stage.0@.take(i as int).map_values(
                    |t: Token| t.0@,
                ),
            decreases self.stage.0.len() - i,
        {
            let ghost prev = ast@;
            ast.push(Ast(self.stage.0[i].0));
            assert(ast@.map_values(|a: Ast| a.0@) =~= prev.map_values(|a: Ast| a.0@).push(
                self.stage.0@[i as int].0@,
            ));
            assert(self.stage.0@.take(i + 1).map_values(|t: Token| t.0@) =~= self.stage.0@.take(
                i as int,
            ).map_values(|t: Token| t.0@).push(self.stage.0@[i as int].0@));
            i = i + 1;
        }
        assert(self.stage.0@.take(i as int) =~= self.stage.0@);
        Compiler { stage: Evaluator(ast), print_tokens: self.print_tokens, print_ast: self.print_ast }
    }
}

impl<'c> Compiler<Evaluator<'c>> {
    /// The text that evaluating the syntax trees writes, one line per tree.
    pub fn output(&self) -> (r: Vec<&'c str>)
        ensures
            r@.map_values(|s: &str| s@) == self.stage.0@.map_values(|a: Ast| a.0@),
    {
        let mut out: Vec<&'c str> = Vec::new();
        let mut i: usize = 0;
        while i < self.stage.0.len()
            invariant
                i <= self.stage.0@.len(),
                out@.map_values(|s: &str| s@) == self.stage.0@.take(i as int).map_values(
                    |a: Ast| a.0@,
                ),
            decreases self.stage.0.len() - i,
        {
            let ghost prev = out@;
            out.push(self.stage.0[i].0);
            assert(out@.map_values(|s: &str| s@) =~= prev.map_values(|s: &str| s@).push(
                self.stage.0@[i as int].0@,
            ));
            assert(self.stage.0@.take(i + 1).map_values(|a: Ast| a.0@) =~= self.stage.0@.take(
                i as int,
            ).map_values(|a: Ast| a.0@).push(self.stage.0@[i as int].0@));
            i = i + 1;
        }
        assert(self.stage.0@.take(i as int) =~= self.stage.0@);
        out
    }

    /// Moves on to the final stage.
    pub fn evaluate(&self) -> (r: Compiler<CompilerResult>)
        ensures
            r.print_tokens == self.print_tokens,
            r.print_ast == self.print_ast,
    {
        Compiler { stage: CompilerResult, print_tokens: self.print_tokens, print_ast: self.print_ast }
    }
}

/// The builder has no source yet.
pub struct BuilderNoSource;

/// The builder has a source.
pub struct BuilderSource;

/// Builds a compiler; `build` exists only once a source was given.
pub struct CompilerBuilder<'b, T> {
    pub source: Option<&'b str>,
    pub print_tokens: bool,
    pub print_ast: bool,
    pub marker: PhantomData<T>,
}

impl<'b> CompilerBuilder<'b, BuilderNoSource> {
    pub fn new() -> (r: CompilerBuilder<'b, BuilderNoSource>)
        ensures
            r.source is None,
            !r.print_tokens,
            !r.print_ast,
    {
        CompilerBuilder { source: None, print_tokens: false, print_ast: false, marker: PhantomData }
    }

    pub fn with_source(self, source: &'b str) -> (r: CompilerBuilder<'b, BuilderSource>)
        ensures
            r.source matches Some(s) && s@ == source@,
            r.print_tokens == self.print_tokens,
            r.print_ast == self.print_ast,
    {
        CompilerBuilder {
            source: Some(source),
            print_tokens: self.print_tokens,
            print_ast: self.print_ast,
            marker: PhantomData,
        }
    }
}

impl<'b, T> CompilerBuilder<'b, T> {
    pub fn print_tokens(self) -> (r: Self)
        ensures
            r.print_tokens,
            r.print_ast == self.print_ast,
            r.source == self.source,
    {
        CompilerBuilder { source: self.source, print_tokens: true, print_ast: self.print_ast, marker: PhantomData }
    }

    pub fn print_ast(self) -> (r: Self)
        ensures
            r.print_ast,
            r.print_tokens == self.print_tokens,
            r.source == self.source,
    {
        CompilerBuilder { source: self.source, print_tokens: self.print_tokens, print_ast: true, marker: PhantomData }
    }
}

impl<'b> CompilerBuilder<'b, BuilderSource> {
    pub fn build(self) -> (r: Compiler<Scanner<'b>>)
        requires
            self.source is Some,
        ensures
            r.stage.0@ == self.source.unwrap()@,
            r.print_tokens == self.print_tokens,
            r.print_ast == self.print_ast,
    {
        match self.source {
            Some(s) => Compiler::new(s, self.print_tokens, self.print_ast),
            None => Compiler::new("", self.print_tokens, self.print_ast),
        }
    }
}

} // verus!
