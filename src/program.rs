use vstd::prelude::*;
use crate::lexer::{lex_line, tokenize_chars, LexError};
use crate::text::{chars_of, string_of};
use crate::token::{line_model, lines_model, Token, TokenModel};

verus! {

/// A line ended by a line feed, without the carriage return of a CRLF break.
pub open spec fn without_cr(line: Seq<char>) -> Seq<char> {
    if line.len() > 0 && line.last() == '\r' {
        line.drop_last()
    } else {
        line
    }
}

/// Scans `s` left to right, returning the finished lines and the line in progress. A line
/// ends at a line feed or at a carriage return followed by a line feed.
pub open spec fn scan_lines(s: Seq<char>) -> (Seq<Seq<char>>, Seq<char>)
    decreases s.len(),
{
    if s.len() == 0 {
        (seq![], seq![])
    } else {
        let (done, cur) = scan_lines(s.drop_last());
        if s.last() == '\n' {
            (done.push(without_cr(cur)), seq![])
        } else {
            (done, cur.push(s.last()))
        }
    }
}

/// The lines of `s`: the pieces between LF or CRLF breaks, the last one included.
pub open spec fn source_lines(s: Seq<char>) -> Seq<Seq<char>> {
    let (done, cur) = scan_lines(s);
    done.push(cur)
}

/// The tokenized lines of `ls` that hold tokens, in order; or the first line that fails,
/// with its offending fragment.
pub open spec fn program_of(ls: Seq<Seq<char>>) -> Result<
    Seq<Seq<TokenModel>>,
    (Seq<char>, Seq<char>),
>
    decreases ls.len(),
{
    if ls.len() == 0 {
        Ok(seq![])
    } else {
        match program_of(ls.drop_last()) {
            Err(e) => Err(e),
            Ok(p) => match lex_line(ls.last()) {
                Err(f) => Err((ls.last(), f)),
                Ok(ts) => if ts.len() > 0 {
                    Ok(p.push(ts))
                } else {
                    Ok(p)
                },
            },
        }
    }
}

/// The tokens of each line of `ls`, for lines that lex.
pub open spec fn line_tokens(ls: Seq<Seq<char>>) -> Seq<Seq<TokenModel>> {
    ls.map_values(|l: Seq<char>| lex_line(l)->Ok_0)
}

/// A program keeps the source order: its lines are the tokens of every source line that
/// has tokens, in the order of those lines, and every source line lexes.
pub proof fn program_keeps_line_order(ls: Seq<Seq<char>>)
    requires
        program_of(ls) is Ok,
    ensures
        forall|i: int| 0 <= i < ls.len() ==> lex_line(#[trigger] ls[i]) is Ok,
        program_of(ls)->Ok_0 == line_tokens(ls).filter(|t: Seq<TokenModel>| t.len() > 0),
    decreases ls.len(),
{
    if ls.len() > 0 {
        let p = ls.drop_last();
        program_keeps_line_order(p);
        assert(line_tokens(ls) =~= line_tokens(p).push(lex_line(ls.last())->Ok_0));
        line_tokens(p).lemma_filter_push(
            lex_line(ls.last())->Ok_0,
            |t: Seq<TokenModel>| t.len() > 0,
        );
        assert forall|i: int| 0 <= i < ls.len() implies lex_line(#[trigger] ls[i]) is Ok by {
            if i < ls.len() - 1 {
                assert(ls[i] == p[i]);
            }
        }
    } else {
        reveal(Seq::filter);
        assert(line_tokens(ls) =~= seq![]);
    }
}

/// An assembly program: its tokenized lines, blank and comment lines left out.
pub struct Program {
    lines: Vec<Vec<Token>>,
}

impl View for Program {
    type V = Seq<Seq<TokenModel>>;

    closed spec fn view(&self) -> Seq<Seq<TokenModel>> {
        lines_model(self.lines@)
    }
}

proof fn lemma_program_err_prefix(ls: Seq<Seq<char>>, k: int)
    requires
        0 <= k <= ls.len(),
        program_of(ls.take(k)) is Err,
    ensures
        program_of(ls) == program_of(ls.take(k)),
    decreases ls.len() - k,
{
    if k < ls.len() {
        assert(ls.take(k + 1).drop_last() =~= ls.take(k));
        lemma_program_err_prefix(ls, k + 1);
    } else {
        assert(ls.take(k) =~= ls);
    }
}

/// Tokenizes `line` and appends its tokens to `lines` if there are any.
fn add_line(lines: &mut Vec<Vec<Token>>, line: &Vec<char>) -> (r: Result<(), LexError>)
    ensures
        r is Ok <==> lex_line(line@) is Ok,
        r is Ok ==> lines_model(final(lines)@) == (if lex_line(line@)->Ok_0.len() > 0 {
            lines_model(old(lines)@).push(lex_line(line@)->Ok_0)
        } else {
            lines_model(old(lines)@)
        }),
        r matches Err(e) ==> e.line@ == line@ && e.fragment@ == lex_line(line@)->Err_0,
{
    match tokenize_chars(line) {
        Err(fragment) => {
            assert(line@.subrange(0, line@.len() as int) =~= line@);
            Err(LexError { line: string_of(line, 0, line.len()), fragment })
        },
        Ok(tokens) => {
            if tokens.len() > 0 {
                let ghost before = lines_model(lines@);
                lines.push(tokens);
                assert(lines_model(lines@) =~= before.push(line_model(tokens@)));
            }
            Ok(())
        },
    }
}

impl Program {
    pub fn new(lines: Vec<Vec<Token>>) -> (r: Self)
        ensures
            r@ == lines_model(lines@),
    {
        Program { lines }
    }

    /// The tokenized lines.
    pub fn lines(&self) -> (r: &Vec<Vec<Token>>)
        ensures
            lines_model(r@) == self@,
    {
        &self.lines
    }

    /// Builds a program from source text: each line is tokenized on its own, and the lines
    /// that give no tokens are dropped. The first line that cannot be tokenized fails the whole.
    pub fn from_source(source: &str) -> (r: Result<Program, LexError>)
        ensures
            r is Ok <==> program_of(source_lines(source@)) is Ok,
            r matches Ok(p) ==> p@ == program_of(source_lines(source@))->Ok_0,
            r matches Err(e) ==> program_of(source_lines(source@)) == Err::<
                Seq<Seq<TokenModel>>,
                (Seq<char>, Seq<char>),
            >((e.line@, e.fragment@)),
    {
        let chars = chars_of(source);
        let ghost s = source@;
        let mut lines: Vec<Vec<Token>> = Vec::new();
        let mut cur: Vec<char> = Vec::new();
        let ghost mut done: Seq<Seq<char>> = seq![];
        let mut i: usize = 0;
        assert(lines_model(lines@) =~= seq![]);
        while i < chars.len()
            invariant
                i <= chars@.len(),
                chars@ == s,
                s == source@,
                scan_lines(s.take(i as int)) == (done, cur@),
                program_of(done) == Ok::<Seq<Seq<TokenModel>>, (Seq<char>, Seq<char>)>(
                    lines_model(lines@),
                ),
            decreases chars.len() - i,
        {
            assert(s.take(i + 1).drop_last() =~= s.take(i as int));
            if chars[i] == '\n' {
                if cur.len() > 0 && cur[cur.len() - 1] == '\r' {
                    cur.pop();
                }
                let ghost finished = done.push(cur@);
                assert(finished.drop_last() =~= done);
                match add_line(&mut lines, &cur) {
                    Err(e) => {
                        proof {
                            assert(scan_lines(s.take(i + 1)) == (finished, Seq::<char>::empty()));
                            lemma_lines_extend(s, i + 1);
                            lemma_program_err_prefix(source_lines(s), finished.len() as int);
                        }
                        return Err(e);
                    },
                    Ok(()) => {},
                }
                proof {
                    done = finished;
                }
                cur = Vec::new();
                assert(cur@ =~= seq![]);
            } else {
                cur.push(chars[i]);
            }
            i += 1;
        }
        assert(s.take(i as int) =~= s);
        let ghost finished = done.push(cur@);
        assert(finished.drop_last() =~= done);
        match add_line(&mut lines, &cur) {
            Err(e) => {
                assert(finished.take(finished.len() as int) =~= finished);
                return Err(e);
            },
            Ok(()) => {},
        }
        Ok(Program { lines })
    }
}

/// The lines scanned from a prefix of `s` are a prefix of the lines of `s`.
proof fn lemma_lines_extend(s: Seq<char>, k: int)
    requires
        0 <= k <= s.len(),
    ensures
        source_lines(s).take(scan_lines(s.take(k)).0.len() as int) == scan_lines(s.take(k)).0,
        scan_lines(s.take(k)).0.len() < source_lines(s).len(),
    decreases s.len() - k,
{
    if k < s.len() {
        lemma_lines_extend(s, k + 1);
        assert(s.take(k + 1).drop_last() =~= s.take(k));
        let d = scan_lines(s.take(k)).0;
        let d1 = scan_lines(s.take(k + 1)).0;
        assert(d1.take(d.len() as int) =~= d);
        assert(source_lines(s).take(d.len() as int) =~= d1.take(d.len() as int));
    } else {
        assert(s.take(k) =~= s);
        assert(source_lines(s).take(scan_lines(s).0.len() as int) =~= scan_lines(s).0);
    }
}

} // verus!
