use vstd::prelude::*;
use crate::text::{chars_of, string_of};
use crate::token::{line_model, Token, TokenModel};

verus! {

/// The magnitude bound of a signed 64-bit integer: `2^63`.
pub const MAGNITUDE_LIMIT: u64 = 9223372036854775808;

/// ASCII whitespace: space, tab, line feed, form feed and carriage return.
pub open spec fn is_space(c: char) -> bool {
    c == ' ' || c == '\t' || c == '\n' || c == '\x0C' || c == '\r'
}

/// Scans `s` left to right, returning the finished fragments and the fragment in progress.
pub open spec fn scan_fragments(s: Seq<char>) -> (Seq<Seq<char>>, Seq<char>)
    decreases s.len(),
{
    if s.len() == 0 {
        (seq![], seq![])
    } else {
        let (done, cur) = scan_fragments(s.drop_last());
        if is_space(s.last()) {
            if cur.len() > 0 {
                (done.push(cur), seq![])
            } else {
                (done, seq![])
            }
        } else {
            (done, cur.push(s.last()))
        }
    }
}

/// The maximal runs of non-whitespace characters of `s`, in order.
pub open spec fn fragments(s: Seq<char>) -> Seq<Seq<char>> {
    let (done, cur) = scan_fragments(s);
    if cur.len() > 0 {
        done.push(cur)
    } else {
        done
    }
}

pub open spec fn is_digit(c: char) -> bool {
    '0' <= c && c <= '9'
}

/// The value of a string of decimal digits.
pub open spec fn digits_value(d: Seq<char>) -> int
    decreases d.len(),
{
    if d.len() == 0 {
        0
    } else {
        digits_value(d.drop_last()) * 10 + (d.last() as int - '0' as int)
    }
}

pub open spec fn all_digits(d: Seq<char>) -> bool {
    d.len() > 0 && forall|i: int| 0 <= i < d.len() ==> is_digit(#[trigger] d[i])
}

/// The integer written by `f`: an optional `+` or `-` followed by one or more decimal digits.
pub open spec fn literal_value(f: Seq<char>) -> Option<int> {
    if f.len() > 0 && (f[0] == '-' || f[0] == '+') {
        if all_digits(f.drop_first()) {
            if f[0] == '-' {
                Some(-digits_value(f.drop_first()))
            } else {
                Some(digits_value(f.drop_first()))
            }
        } else {
            None
        }
    } else if all_digits(f) {
        Some(digits_value(f))
    } else {
        None
    }
}

/// The signed 64-bit integer written by `f`, if it is one.
pub open spec fn number_of(f: Seq<char>) -> Option<i64> {
    match literal_value(f) {
        Some(v) => if i64::MIN <= v <= i64::MAX {
            Some(v as i64)
        } else {
            None
        },
        None => None,
    }
}

/// A fragment that opens a full-line comment.
pub open spec fn is_comment(f: Seq<char>) -> bool {
    f.len() >= 2 && f[0] == '/' && f[1] == '/'
}

/// The token of a fragment in operand position: a `%` register, or a number.
pub open spec fn lex_operand(f: Seq<char>) -> Option<TokenModel> {
    if f.len() > 0 && f[0] == '%' {
        Some(TokenModel::Register(f.drop_first()))
    } else {
        match number_of(f) {
            Some(n) => Some(TokenModel::Number(n)),
            None => None,
        }
    }
}

/// The tokens of operand fragments, or the first fragment that is no operand.
pub open spec fn lex_operands(fs: Seq<Seq<char>>) -> Result<Seq<TokenModel>, Seq<char>>
    decreases fs.len(),
{
    if fs.len() == 0 {
        Ok(seq![])
    } else {
        match lex_operands(fs.drop_last()) {
            Err(e) => Err(e),
            Ok(ts) => match lex_operand(fs.last()) {
                Some(t) => Ok(ts.push(t)),
                None => Err(fs.last()),
            },
        }
    }
}

/// The tokens of one source line, or the fragment that cannot be lexed.
pub open spec fn lex_line(line: Seq<char>) -> Result<Seq<TokenModel>, Seq<char>> {
    let fs = fragments(line);
    if fs.len() == 0 || is_comment(fs[0]) {
        Ok(seq![])
    } else {
        match lex_operands(fs.drop_first()) {
            Ok(ts) => Ok(seq![TokenModel::Mnemonic(fs[0])] + ts),
            Err(e) => Err(e),
        }
    }
}

proof fn lemma_spaces_scan(line: Seq<char>)
    requires
        forall|i: int| 0 <= i < line.len() ==> is_space(#[trigger] line[i]),
    ensures
        scan_fragments(line) == (Seq::<Seq<char>>::empty(), Seq::<char>::empty()),
    decreases line.len(),
{
    if line.len() > 0 {
        let p = line.drop_last();
        assert forall|i: int| 0 <= i < p.len() implies is_space(#[trigger] p[i]) by {
            assert(is_space(line[i]));
        }
        lemma_spaces_scan(p);
        assert(is_space(line[line.len() - 1]));
    }
}

/// A line made only of whitespace has no tokens.
pub proof fn blank_line_has_no_tokens(line: Seq<char>)
    requires
        forall|i: int| 0 <= i < line.len() ==> is_space(#[trigger] line[i]),
    ensures
        lex_line(line) == Ok::<Seq<TokenModel>, Seq<char>>(seq![]),
{
    lemma_spaces_scan(line);
}

/// Scanning on from a prefix whose only fragment so far is `c0` (unfinished) keeps `c0` at
/// the start of the first fragment.
proof fn lemma_first_fragment_kept(a: Seq<char>, b: Seq<char>)
    requires
        scan_fragments(a).0.len() == 0,
        scan_fragments(a).1.len() > 0,
    ensures
        ({
            let c0 = scan_fragments(a).1;
            let (d, c) = scan_fragments(a + b);
            (d.len() > 0 && d[0].len() >= c0.len() && d[0].take(c0.len() as int) == c0) || (
            d.len() == 0 && c.len() >= c0.len() && c.take(c0.len() as int) == c0)
        }),
    decreases b.len(),
{
    let c0 = scan_fragments(a).1;
    if b.len() == 0 {
        assert(a + b =~= a);
        assert(c0.take(c0.len() as int) =~= c0);
    } else {
        lemma_first_fragment_kept(a, b.drop_last());
        assert((a + b).drop_last() =~= a + b.drop_last());
        let (d1, c1) = scan_fragments(a + b.drop_last());
        let x = (a + b).last();
        if d1.len() == 0 && !is_space(x) {
            assert(c1.push(x).take(c0.len() as int) =~= c1.take(c0.len() as int));
        }
    }
}

/// A line whose first non-blank characters are `//` is a comment: it has no tokens.
pub proof fn comment_line_has_no_tokens(blank: Seq<char>, rest: Seq<char>)
    requires
        forall|i: int| 0 <= i < blank.len() ==> is_space(#[trigger] blank[i]),
    ensures
        lex_line(blank + seq!['/', '/'] + rest) == Ok::<Seq<TokenModel>, Seq<char>>(seq![]),
{
    let a = blank + seq!['/', '/'];
    lemma_spaces_scan(blank);
    assert(a.drop_last().drop_last() =~= blank);
    assert(scan_fragments(a.drop_last()).1 =~= seq!['/']);
    assert(scan_fragments(a).1 =~= seq!['/', '/']);
    lemma_first_fragment_kept(a, rest);
    assert(blank + seq!['/', '/'] + rest =~= a + rest);
    let fs = fragments(a + rest);
    assert(fs.len() > 0);
    assert(fs[0].take(2) =~= seq!['/', '/']);
    assert(is_comment(fs[0]));
}

/// A nonempty run of characters without whitespace.
pub open spec fn is_word(w: Seq<char>) -> bool {
    w.len() > 0 && forall|i: int| 0 <= i < w.len() ==> !is_space(#[trigger] w[i])
}

proof fn lemma_scan_word(a: Seq<char>, w: Seq<char>)
    requires
        forall|i: int| 0 <= i < w.len() ==> !is_space(#[trigger] w[i]),
    ensures
        scan_fragments(a + w) == (scan_fragments(a).0, scan_fragments(a).1 + w),
    decreases w.len(),
{
    if w.len() > 0 {
        let p = w.drop_last();
        assert forall|i: int| 0 <= i < p.len() implies !is_space(#[trigger] p[i]) by {
            assert(!is_space(w[i]));
        }
        lemma_scan_word(a, p);
        assert((a + w).drop_last() =~= a + p);
        assert(!is_space(w[w.len() - 1]));
        assert(scan_fragments(a).1 + w =~= (scan_fragments(a).1 + p).push(w.last()));
    } else {
        assert(a + w =~= a);
        assert(scan_fragments(a).1 + w =~= scan_fragments(a).1);
    }
}

/// The line `m f`, two words apart, has the fragments `m` and `f`.
proof fn lemma_two_fragments(m: Seq<char>, f: Seq<char>)
    requires
        is_word(m),
        is_word(f),
    ensures
        fragments(m + seq![' '] + f) == seq![m, f],
{
    let e = Seq::<char>::empty();
    lemma_scan_word(e, m);
    assert(e + m =~= m);
    assert(scan_fragments(e) == (Seq::<Seq<char>>::empty(), e));
    assert(scan_fragments(m).1 =~= m);
    let a = m + seq![' '];
    assert(a.drop_last() =~= m);
    assert(scan_fragments(a) == (seq![m], e));
    lemma_scan_word(a, f);
    assert(e + f =~= f);
    assert(fragments(m + seq![' '] + f) =~= seq![m, f]);
}

/// The line `m f`, with `m` a mnemonic, lexes as `m` followed by the token of `f`; it fails,
/// on `f`, exactly when `f` is neither a register nor an integer.
pub proof fn operand_line_lexes(m: Seq<char>, f: Seq<char>)
    requires
        is_word(m),
        is_word(f),
        !is_comment(m),
    ensures
        lex_line(m + seq![' '] + f) == match lex_operand(f) {
            Some(t) => Ok(seq![TokenModel::Mnemonic(m), t]),
            None => Err(f),
        },
{
    lemma_two_fragments(m, f);
    let fs = fragments(m + seq![' '] + f);
    let ops = fs.drop_first();
    assert(ops =~= seq![f]);
    assert(ops.drop_last() =~= Seq::<Seq<char>>::empty());
    assert(lex_operands(ops.drop_last()) == Ok::<Seq<TokenModel>, Seq<char>>(seq![]));
    assert(ops.last() == f);
    assert(fs[0] == m);
    match lex_operand(f) {
        Some(t) => {
            assert(seq![TokenModel::Mnemonic(m)] + seq![t] =~= seq![TokenModel::Mnemonic(m), t]);
            assert(Seq::<TokenModel>::empty().push(t) =~= seq![t]);
        },
        None => {},
    }
}

/// A fragment starting with `%` is a register named by the rest of the fragment, also as
/// the operand of the line `m f`.
pub proof fn percent_fragment_is_register(m: Seq<char>, f: Seq<char>)
    requires
        f.len() > 0,
        f[0] == '%',
    ensures
        lex_operand(f) == Some(TokenModel::Register(f.drop_first())),
        is_word(m) && is_word(f) && !is_comment(m) ==> lex_line(m + seq![' '] + f) == Ok::<
            Seq<TokenModel>,
            Seq<char>,
        >(seq![TokenModel::Mnemonic(m), TokenModel::Register(f.drop_first())]),
{
    if is_word(m) && is_word(f) && !is_comment(m) {
        operand_line_lexes(m, f);
    }
}

/// A fragment that reads as a signed 64-bit integer, and does not start with `%`, is that
/// number, also as the operand of the line `m f`.
pub proof fn integer_fragment_is_number(m: Seq<char>, f: Seq<char>, n: i64)
    requires
        number_of(f) == Some(n),
        !(f.len() > 0 && f[0] == '%'),
    ensures
        lex_operand(f) == Some(TokenModel::Number(n)),
        is_word(m) && is_word(f) && !is_comment(m) ==> lex_line(m + seq![' '] + f) == Ok::<
            Seq<TokenModel>,
            Seq<char>,
        >(seq![TokenModel::Mnemonic(m), TokenModel::Number(n)]),
{
    if is_word(m) && is_word(f) && !is_comment(m) {
        operand_line_lexes(m, f);
    }
}

proof fn lemma_operands_fail(ops: Seq<Seq<char>>, k: int)
    requires
        0 <= k < ops.len(),
        lex_operand(ops[k]) is None,
    ensures
        lex_operands(ops) is Err,
    decreases ops.len(),
{
    if k < ops.len() - 1 {
        lemma_operands_fail(ops.drop_last(), k);
    }
}

/// A line that is no comment fails to lex when a fragment after the first is neither a
/// register nor an integer.
pub proof fn bad_operand_fails_line(line: Seq<char>, k: int)
    requires
        1 <= k < fragments(line).len(),
        !is_comment(fragments(line)[0]),
        lex_operand(fragments(line)[k]) is None,
    ensures
        lex_line(line) is Err,
{
    let fs = fragments(line);
    lemma_operands_fail(fs.drop_first(), k - 1);
}

/// As the operand of the line `m f`, a fragment that is neither `%`-prefixed nor an integer
/// fails the line, and the error names it.
pub proof fn bad_fragment_fails_line(m: Seq<char>, f: Seq<char>)
    requires
        is_word(m),
        is_word(f),
        !is_comment(m),
        f[0] != '%',
        number_of(f) is None,
    ensures
        lex_line(m + seq![' '] + f) == Err::<Seq<TokenModel>, Seq<char>>(f),
{
    operand_line_lexes(m, f);
}

/// A fragment that could not be lexed, with the line it stands in.
#[derive(Debug, PartialEq, Eq)]
pub struct LexError {
    pub line: String,
    pub fragment: String,
}

pub fn is_space_char(c: char) -> (r: bool)
    ensures
        r == is_space(c),
{
    c == ' ' || c == '\t' || c == '\n' || c == '\x0C' || c == '\r'
}

/// Splits `s` into its whitespace-separated fragments.
pub fn split_fragments(s: &Vec<char>) -> (r: Vec<Vec<char>>)
    ensures
        r.deep_view() == fragments(s@),
        r@.len() == fragments(s@).len(),
        forall|k: int| 0 <= k < r@.len() ==> #[trigger] r@[k]@ == fragments(s@)[k],
{
    let mut done: Vec<Vec<char>> = Vec::new();
    let mut cur: Vec<char> = Vec::new();
    let mut i: usize = 0;
    while i < s.len()
        invariant
            i <= s@.len(),
            scan_fragments(s@.take(i as int)) == (done.deep_view(), cur@),
        decreases s.len() - i,
    {
        let c = s[i];
        assert(s@.take(i + 1).drop_last() =~= s@.take(i as int));
        if is_space_char(c) {
            if cur.len() > 0 {
                let ghost before = done.deep_view();
                let ghost cv = cur@;
                done.push(cur);
                assert(done@.last().deep_view() =~= cv);
                assert(done.deep_view() =~= before.push(cv));
                cur = Vec::new();
                assert(cur@ =~= seq![]);
            } else {
                assert(cur@ =~= seq![]);
            }
        } else {
            cur.push(c);
        }
        i += 1;
    }
    assert(s@.take(s@.len() as int) =~= s@);
    if cur.len() > 0 {
        let ghost before = done.deep_view();
        let ghost cv = cur@;
        done.push(cur);
        assert(done@.last().deep_view() =~= cv);
        assert(done.deep_view() =~= before.push(cv));
    }
    assert forall|k: int| 0 <= k < done@.len() implies #[trigger] done@[k]@ == fragments(s@)[k] by {
        assert(done@[k]@ =~= done.deep_view()[k]);
    }
    done
}

/// The token of an operand fragment, if it is one.
fn lex_operand_token(f: &Vec<char>) -> (r: Option<Token>)
    ensures
        r is None <==> lex_operand(f@) is None,
        r matches Some(t) ==> lex_operand(f@) == Some(t@),
{
    if f.len() > 0 && f[0] == '%' {
        let text = string_of(f, 1, f.len());
        assert(f@.subrange(1, f@.len() as int) =~= f@.drop_first());
        Some(Token::Register(text))
    } else {
        match parse_number(f) {
            Some(n) => Some(Token::Number(n)),
            None => None,
        }
    }
}

/// Tokenizes the characters of one line; on failure returns the offending fragment.
pub(crate) fn tokenize_chars(line: &Vec<char>) -> (r: Result<Vec<Token>, String>)
    ensures
        r is Ok <==> lex_line(line@) is Ok,
        r matches Ok(v) ==> line_model(v@) == lex_line(line@)->Ok_0,
        r matches Err(f) ==> f@ == lex_line(line@)->Err_0,
{
    let fs = split_fragments(line);
    let ghost all = fragments(line@);
    if fs.len() == 0 {
        let empty: Vec<Token> = Vec::new();
        assert(line_model(empty@) =~= seq![]);
        return Ok(empty);
    }
    let first = &fs[0];
    assert(first@ == all[0]);
    if first.len() >= 2 && first[0] == '/' && first[1] == '/' {
        let empty: Vec<Token> = Vec::new();
        assert(line_model(empty@) =~= seq![]);
        return Ok(empty);
    }
    let ghost ops = all.drop_first();
    let mut tokens: Vec<Token> = Vec::new();
    tokens.push(Token::Mnemonic(string_of(first, 0, first.len())));
    assert(first@.subrange(0, first@.len() as int) =~= first@);
    assert(ops.take(0) =~= seq![]);
    assert(line_model(tokens@).drop_first() =~= seq![]);
    let mut i: usize = 1;
    while i < fs.len()
        invariant
            1 <= i <= fs@.len() == all.len(),
            ops == all.drop_first(),
            all == fragments(line@),
            !is_comment(all[0]),
            forall|k: int| 0 <= k < fs@.len() ==> #[trigger] fs@[k]@ == all[k],
            tokens@.len() >= 1,
            line_model(tokens@)[0] == TokenModel::Mnemonic(all[0]),
            lex_operands(ops.take(i - 1)) == Ok::<Seq<TokenModel>, Seq<char>>(line_model(tokens@).drop_first()),
        decreases fs.len() - i,
    {
        let frag = &fs[i];
        assert(frag@ == all[i as int]);
        assert(ops.take(i as int).drop_last() =~= ops.take(i - 1));
        assert(ops.take(i as int).last() == all[i as int]);
        match lex_operand_token(frag) {
            Some(t) => {
                let ghost before = line_model(tokens@);
                tokens.push(t);
                assert(line_model(tokens@) =~= before.push(t@));
                assert(line_model(tokens@).drop_first() =~= before.drop_first().push(t@));
            },
            None => {
                assert(lex_operands(ops.take(i as int)) == Err::<Seq<TokenModel>, Seq<char>>(all[i as int]));
                assert(ops.take(fs@.len() - 1) =~= ops);
                assert(frag@.subrange(0, frag@.len() as int) =~= frag@);
                proof {
                    lemma_operands_err_prefix(ops, i as int);
                }
                return Err(string_of(frag, 0, frag.len()));
            },
        }
        i += 1;
    }
    assert(ops.take(fs@.len() - 1) =~= ops);
    assert(line_model(tokens@) =~= seq![TokenModel::Mnemonic(all[0])] + line_model(tokens@).drop_first());
    Ok(tokens)
}

/// Once a prefix of the operands fails, every longer prefix fails with the same fragment.
proof fn lemma_operands_err_prefix(ops: Seq<Seq<char>>, k: int)
    requires
        0 < k <= ops.len(),
        lex_operands(ops.take(k)) is Err,
    ensures
        lex_operands(ops) == lex_operands(ops.take(k)),
    decreases ops.len() - k,
{
    if k < ops.len() {
        assert(ops.take(k + 1).drop_last() =~= ops.take(k));
        lemma_operands_err_prefix(ops, k + 1);
    } else {
        assert(ops.take(k) =~= ops);
    }
}

/// Splits one line of source text into tokens.
///
/// A blank line, and a line whose first fragment starts with `//`, give no tokens. Otherwise
/// the first fragment is the mnemonic, and each further fragment is a register (`%` and its
/// name) or a signed 64-bit integer; any other fragment is an error.
pub fn tokenize_line(line: &str) -> (r: Result<Vec<Token>, LexError>)
    ensures
        r is Ok <==> lex_line(line@) is Ok,
        r matches Ok(v) ==> line_model(v@) == lex_line(line@)->Ok_0,
        r matches Err(e) ==> e.fragment@ == lex_line(line@)->Err_0 && e.line@ == line@,
{
    let chars = chars_of(line);
    match tokenize_chars(&chars) {
        Ok(v) => Ok(v),
        Err(fragment) => {
            assert(chars@.subrange(0, chars@.len() as int) =~= chars@);
            Err(LexError { line: string_of(&chars, 0, chars.len()), fragment })
        },
    }
}

proof fn lemma_digits_grow(d: Seq<char>, k: int)
    requires
        all_digits(d),
        0 < k <= d.len(),
    ensures
        digits_value(d.take(k)) <= digits_value(d),
        digits_value(d.take(k)) >= 0,
    decreases d.len(),
{
    if k < d.len() {
        let p = d.drop_last();
        assert(is_digit(d[d.len() - 1]));
        assert(p.take(k) =~= d.take(k));
        assert forall|i: int| 0 <= i < p.len() implies is_digit(#[trigger] p[i]) by {
            assert(is_digit(d[i]));
        }
        lemma_digits_grow(p, k);
    } else {
        assert(d.take(k) =~= d);
        lemma_digits_nonneg(d);
    }
}

proof fn lemma_digits_nonneg(d: Seq<char>)
    requires
        forall|i: int| 0 <= i < d.len() ==> is_digit(#[trigger] d[i]),
    ensures
        digits_value(d) >= 0,
    decreases d.len(),
{
    if d.len() > 0 {
        let p = d.drop_last();
        assert(is_digit(d[d.len() - 1]));
        assert forall|i: int| 0 <= i < p.len() implies is_digit(#[trigger] p[i]) by {
            assert(is_digit(d[i]));
        }
        lemma_digits_nonneg(p);
    }
}

/// A digit string whose first `k` digits already exceed `2^63` writes no signed 64-bit integer.
proof fn lemma_magnitude_too_large(f: Seq<char>, start: int, k: int)
    requires
        start == 0 || start == 1,
        start == 1 <==> (f.len() > 0 && (f[0] == '-' || f[0] == '+')),
        0 < k <= f.len() - start,
        digits_value(f.subrange(start, f.len() as int).take(k)) > MAGNITUDE_LIMIT,
    ensures
        number_of(f) is None,
{
    let d = f.subrange(start, f.len() as int);
    if all_digits(d) {
        lemma_digits_grow(d, k);
        if start == 1 {
            assert(d =~= f.drop_first());
        } else {
            assert(d =~= f);
        }
    }
}

/// Reads `f` as a signed 64-bit decimal integer: an optional sign and one or more digits.
pub fn parse_number(f: &Vec<char>) -> (r: Option<i64>)
    ensures
        r == number_of(f@),
{
    let n = f.len();
    if n == 0 {
        return None;
    }
    let neg = f[0] == '-';
    let start: usize = if f[0] == '-' || f[0] == '+' { 1 } else { 0 };
    let ghost d = f@.subrange(start as int, n as int);
    proof {
        if start == 1 {
            assert(d =~= f@.drop_first());
        } else {
            assert(d =~= f@);
        }
    }
    if start == n {
        assert(!all_digits(d));
        return None;
    }
    let mut acc: u64 = 0;
    let mut i: usize = start;
    while i < n
        invariant
            start <= i <= n == f@.len(),
            start <= 1,
            d == f@.subrange(start as int, n as int),
            start == 1 ==> d == f@.drop_first(),
            start == 0 ==> d == f@,
            start == 1 <==> (f@[0] == '-' || f@[0] == '+'),
            neg == (f@[0] == '-'),
            acc as int == digits_value(d.take(i - start)),
            acc <= MAGNITUDE_LIMIT,
            forall|j: int| 0 <= j < i - start ==> is_digit(#[trigger] d[j]),
        decreases n - i,
    {
        let c = f[i];
        assert(d[i - start] == c);
        if !('0' <= c && c <= '9') {
            assert(!is_digit(d[i - start]));
            assert(!all_digits(d));
            return None;
        }
        let dv = (c as u32 - '0' as u32) as u64;
        assert(d.take(i - start + 1).drop_last() =~= d.take(i - start));
        if acc > MAGNITUDE_LIMIT / 10 {
            proof {
                assert(d.take(i - start + 1).last() == c);
                lemma_magnitude_too_large(f@, start as int, i - start + 1);
            }
            return None;
        }
        let next = acc * 10 + dv;
        if next > MAGNITUDE_LIMIT {
            proof {
                assert(d.take(i - start + 1).last() == c);
                lemma_magnitude_too_large(f@, start as int, i - start + 1);
            }
            return None;
        }
        acc = next;
        i += 1;
    }
    assert(d.take(n - start) =~= d);
    if neg {
        if acc == MAGNITUDE_LIMIT {
            Some(i64::MIN)
        } else {
            Some(-(acc as i64))
        }
    } else if acc > i64::MAX as u64 {
        None
    } else {
        Some(acc as i64)
    }
}

} // verus!
