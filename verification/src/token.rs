//! The tokenizer: splits a raw byte buffer into a flat sequence of
//! length-delimited tokens (structural brackets, keys, scalar contents).
//!
//! Tokens are separated by a single space. A token that is not one of the
//! bracket markers `[` and `]` is written as its own byte length in decimal,
//! one space, and then exactly that many raw bytes, which may themselves
//! contain spaces or brackets: the length prefix makes every token boundary
//! unambiguous without escaping.

use vstd::prelude::*;

use crate::errors::DecodeError;

verus! {

broadcast use {vstd::seq::group_seq_axioms, vstd::seq_lib::group_seq_lib_default};

/// The space separator.
pub const SP: u8 = 32;

/// The opening group marker `[`.
pub const LB: u8 = 91;

/// The closing group marker `]`.
pub const RB: u8 = 93;

/// The digit `0`.
pub const D0: u8 = 48;

/// The digit `9`.
pub const D9: u8 = 57;

/// Mathematical model of a token.
pub enum TokenView {
    Open,
    Close,
    Chunk(Seq<u8>),
}

/// A token: a structural marker, or an opaque byte string (a key or a scalar
/// content) whose bytes are arbitrary.
#[derive(Debug)]
pub enum Token {
    Open,
    Close,
    Chunk(Vec<u8>),
}

impl View for Token {
    type V = TokenView;

    open spec fn view(&self) -> TokenView {
        match self {
            Token::Open => TokenView::Open,
            Token::Close => TokenView::Close,
            Token::Chunk(c) => TokenView::Chunk(c@),
        }
    }
}

/// The models of a sequence of tokens.
pub open spec fn tokens_view(ts: Seq<Token>) -> Seq<TokenView> {
    ts.map_values(|t: Token| t@)
}

/// Index of the first occurrence of `b` in `s`, or `s.len()` when `b` does
/// not occur.
pub open spec fn find_first(s: Seq<u8>, b: u8) -> int
    decreases s.len(),
{
    if s.len() == 0 {
        0
    } else if s[0] == b {
        0
    } else {
        1 + find_first(s.skip(1), b)
    }
}

/// Bounds and meaning of `find_first`.
pub proof fn lemma_find_first(s: Seq<u8>, b: u8)
    ensures
        0 <= find_first(s, b) <= s.len(),
        forall|m: int| 0 <= m < find_first(s, b) ==> s[m] != b,
        find_first(s, b) < s.len() ==> s[find_first(s, b)] == b,
    decreases s.len(),
{
    if s.len() > 0 && s[0] != b {
        lemma_find_first(s.skip(1), b);
        assert forall|m: int| 0 <= m < find_first(s, b) implies s[m] != b by {
            if m >= 1 {
                assert(s.skip(1)[m - 1] == s[m]);
            }
        };
        if find_first(s, b) < s.len() {
            assert(s.skip(1)[find_first(s, b) - 1] == s[find_first(s, b)]);
        }
    }
}

/// `find_first` is determined by its meaning.
pub proof fn lemma_find_first_at(s: Seq<u8>, b: u8, j: int)
    requires
        0 <= j <= s.len(),
        forall|m: int| 0 <= m < j ==> s[m] != b,
        j == s.len() || s[j] == b,
    ensures
        find_first(s, b) == j,
    decreases s.len(),
{
    if s.len() > 0 && s[0] != b {
        lemma_find_first_at(s.skip(1), b, j - 1);
    }
}

/// Whether `s` is a well-formed non-negative decimal integer: non-empty and
/// made of decimal digits only.
pub open spec fn is_decimal(s: Seq<u8>) -> bool {
    s.len() > 0 && forall|j: int| 0 <= j < s.len() ==> D0 <= #[trigger] s[j] <= D9
}

/// The integer a decimal digit string denotes.
pub open spec fn dec_value(s: Seq<u8>) -> int
    decreases s.len(),
{
    if s.len() == 0 {
        0
    } else {
        10 * dec_value(s.drop_last()) + (s.last() - D0)
    }
}

/// A digit string denotes a non-negative integer.
pub proof fn lemma_dec_value_nonneg(s: Seq<u8>)
    requires
        forall|j: int| 0 <= j < s.len() ==> D0 <= #[trigger] s[j] <= D9,
    ensures
        dec_value(s) >= 0,
    decreases s.len(),
{
    if s.len() > 0 {
        lemma_dec_value_nonneg(s.drop_last());
    }
}

/// A prefix of a digit string denotes no more than the whole string.
pub proof fn lemma_dec_value_prefix(s: Seq<u8>, i: int)
    requires
        forall|j: int| 0 <= j < s.len() ==> D0 <= #[trigger] s[j] <= D9,
        0 <= i <= s.len(),
    ensures
        dec_value(s.take(i)) <= dec_value(s),
    decreases s.len() - i,
{
    if i == s.len() {
        assert(s.take(i) =~= s);
    } else {
        lemma_dec_value_prefix(s, i + 1);
        assert(s.take(i + 1).drop_last() =~= s.take(i));
        lemma_dec_value_nonneg(s.take(i));
        assert(dec_value(s.take(i + 1)) == 10 * dec_value(s.take(i)) + (s[i] - D0));
    }
}

/// Prepends a token to a tokenization outcome.
pub open spec fn tok_cons(t: TokenView, r: Result<Seq<TokenView>, DecodeError>) -> Result<
    Seq<TokenView>,
    DecodeError,
> {
    match r {
        Ok(ts) => Ok(seq![t] + ts),
        Err(e) => Err(e),
    }
}

/// The token sequence a byte buffer denotes, or the error that rejects it.
///
/// The buffer is split at single spaces. A part that is exactly `[` or `]`
/// is a structural marker. Any other part must be a decimal length, whose
/// content is the following run of exactly that many raw bytes; one space
/// separates the content from the next token. A part that is not a
/// well-formed decimal (or a missing separator after a content run) is a
/// `MalformedLengthPrefix`; a length that runs past the end of the buffer is
/// a `TruncatedInput`.
pub open spec fn spec_tokenize(s: Seq<u8>) -> Result<Seq<TokenView>, DecodeError>
    decreases s.len(),
    via spec_tokenize_dec
{
    if s.len() == 0 {
        Ok(Seq::empty())
    } else {
        let sp = find_first(s, SP);
        let part = s.subrange(0, sp);
        let rest = if sp == s.len() {
            Seq::<u8>::empty()
        } else {
            s.subrange(sp + 1, s.len() as int)
        };
        if part == seq![LB] {
            tok_cons(TokenView::Open, spec_tokenize(rest))
        } else if part == seq![RB] {
            tok_cons(TokenView::Close, spec_tokenize(rest))
        } else if !is_decimal(part) {
            Err(DecodeError::MalformedLengthPrefix)
        } else {
            let n = dec_value(part);
            if n > rest.len() {
                Err(DecodeError::TruncatedInput)
            } else {
                let content = rest.subrange(0, n);
                let after = rest.subrange(n, rest.len() as int);
                if after.len() == 0 {
                    Ok(seq![TokenView::Chunk(content)])
                } else if after[0] == SP {
                    tok_cons(
                        TokenView::Chunk(content),
                        spec_tokenize(after.subrange(1, after.len() as int)),
                    )
                } else {
                    Err(DecodeError::MalformedLengthPrefix)
                }
            }
        }
    }
}

#[via_fn]
proof fn spec_tokenize_dec(s: Seq<u8>) {
    if s.len() != 0 {
        lemma_find_first(s, SP);
        let sp = find_first(s, SP);
        let part = s.subrange(0, sp);
        if is_decimal(part) {
            lemma_dec_value_nonneg(part);
        }
    }
}

/// Prepending a token to the accumulated prefix commutes with `tok_cons`.
pub proof fn lemma_tok_concat_step(
    pre: Seq<TokenView>,
    t: TokenView,
    r: Result<Seq<TokenView>, DecodeError>,
)
    ensures
        tok_concat(pre, tok_cons(t, r)) == tok_concat(pre.push(t), r),
{
    match r {
        Ok(ts) => {
            assert(pre + (seq![t] + ts) =~= pre.push(t) + ts);
        },
        Err(_) => {},
    }
}

/// Appending a tokenization outcome after an accumulated prefix.
pub open spec fn tok_concat(pre: Seq<TokenView>, r: Result<Seq<TokenView>, DecodeError>) -> Result<
    Seq<TokenView>,
    DecodeError,
> {
    match r {
        Ok(ts) => Ok(pre + ts),
        Err(e) => Err(e),
    }
}

/// The models of a pushed token sequence.
pub proof fn lemma_tokens_view_push(ts: Seq<Token>, t: Token)
    ensures
        tokens_view(ts.push(t)) == tokens_view(ts).push(t@),
{
    assert(tokens_view(ts.push(t)) =~= tokens_view(ts).push(t@));
}

/// First position of `b` in `v` at or after `from`, or the length of `v`.
pub(crate) fn find_byte(v: &[u8], from: usize, b: u8) -> (j: usize)
    requires
        from <= v@.len(),
    ensures
        from <= j <= v@.len(),
        forall|m: int| from <= m < j ==> v@[m] != b,
        j < v@.len() ==> v@[j as int] == b,
{
    let mut j = from;
    let len = v.len();
    #[verifier::loop_isolation(false)]
    while j < len
        invariant
            from <= j <= len,
            len == v@.len(),
            forall|m: int| from <= m < j ==> v@[m] != b,
        decreases len - j,
    {
        if v[j] == b {
            return j;
        }
        j = j + 1;
    }
    j
}

/// Copy of `v[from..to]`.
fn copy_range(v: &[u8], from: usize, to: usize) -> (r: Vec<u8>)
    requires
        from <= to <= v@.len(),
    ensures
        r@ == v@.subrange(from as int, to as int),
{
    let mut r: Vec<u8> = Vec::new();
    let mut m = from;
    #[verifier::loop_isolation(false)]
    while m < to
        invariant
            from <= m <= to,
            to <= v@.len(),
            r@ == v@.subrange(from as int, m as int),
        decreases to - m,
    {
        r.push(v[m]);
        m = m + 1;
        proof {
            assert(r@ =~= v@.subrange(from as int, m as int));
        }
    }
    r
}

/// Reads `v[from..to]` as a decimal length, refusing one that is not a
/// well-formed decimal and one whose value exceeds `cap`.
fn parse_len(v: &[u8], from: usize, to: usize, cap: usize) -> (r: Result<usize, DecodeError>)
    requires
        from <= to <= v@.len(),
    ensures
        ({
            let part = v@.subrange(from as int, to as int);
            match r {
                Ok(n) => is_decimal(part) && n as int == dec_value(part) && n <= cap,
                Err(e) => (e == DecodeError::MalformedLengthPrefix && !is_decimal(part)) || (e
                    == DecodeError::TruncatedInput && is_decimal(part) && dec_value(part)
                    > cap as int),
            }
        }),
{
    let ghost part = v@.subrange(from as int, to as int);
    if from == to {
        return Err(DecodeError::MalformedLengthPrefix);
    }
    let mut m = from;
    #[verifier::loop_isolation(false)]
    while m < to
        invariant
            from <= m <= to,
            forall|j: int| from <= j < m ==> D0 <= #[trigger] v@[j] <= D9,
        decreases to - m,
    {
        let c = v[m];
        if c < D0 || c > D9 {
            proof {
                assert(part[m - from] == v@[m as int]);
                assert(!is_decimal(part));
            }
            return Err(DecodeError::MalformedLengthPrefix);
        }
        m = m + 1;
    }
    proof {
        assert forall|j: int| 0 <= j < part.len() implies D0 <= #[trigger] part[j] <= D9 by {
            assert(part[j] == v@[from + j]);
        };
        assert(is_decimal(part));
    }
    let capw: u128 = cap as u128;
    let mut val: u128 = 0;
    let mut i = from;
    #[verifier::loop_isolation(false)]
    while i < to
        invariant
            from <= i <= to,
            is_decimal(part),
            forall|j: int| 0 <= j < part.len() ==> D0 <= #[trigger] part[j] <= D9,
            val as int == dec_value(part.take(i - from)),
            val <= capw,
            capw == cap as u128,
        decreases to - i,
    {
        let d = v[i];
        proof {
            assert(part[i - from] == v@[i as int]);
            assert(part.take(i - from + 1).drop_last() =~= part.take(i - from));
            assert(part.take(i - from + 1).last() == part[i - from]);
        }
        let next = val * 10 + ((d - D0) as u128);
        proof {
            assert(next as int == dec_value(part.take(i - from + 1)));
        }
        if next > capw {
            proof {
                lemma_dec_value_prefix(part, i - from + 1);
            }
            return Err(DecodeError::TruncatedInput);
        }
        val = next;
        i = i + 1;
    }
    proof {
        assert(part.take(to - from) =~= part);
    }
    Ok(val as usize)
}

/// Splits a byte buffer into its tokens, exactly as `spec_tokenize` says.
#[verifier::rlimit(80)]
pub fn split_string(data: &[u8]) -> (r: Result<Vec<Token>, DecodeError>)
    ensures
        match r {
            Ok(ts) => spec_tokenize(data@) == Ok::<Seq<TokenView>, DecodeError>(tokens_view(ts@)),
            Err(e) => spec_tokenize(data@) == Err::<Seq<TokenView>, DecodeError>(e),
        },
{
    let mut acc: Vec<Token> = Vec::new();
    let mut i: usize = 0;
    let len = data.len();
    proof {
        assert(data@.skip(0) =~= data@);
        assert(tokens_view(acc@) =~= Seq::<TokenView>::empty());
    }
    #[verifier::loop_isolation(false)]
    while i < len
        invariant
            i <= len,
            len == data@.len(),
            spec_tokenize(data@) == tok_concat(
                tokens_view(acc@),
                spec_tokenize(data@.skip(i as int)),
            ),
        decreases len - i,
    {
        let ghost s = data@.skip(i as int);
        let j = find_byte(data, i, SP);
        proof {
            assert forall|m: int| 0 <= m < j - i implies s[m] != SP by {
                assert(s[m] == data@[i + m]);
            };
            if (j as int) < data@.len() {
                assert(s[j - i] == data@[j as int]);
            }
            lemma_find_first_at(s, SP, j - i);
        }
        let ghost sp = (j - i) as int;
        let ghost part = s.subrange(0, sp);
        let ghost rest = if sp == s.len() {
            Seq::<u8>::empty()
        } else {
            s.subrange(sp + 1, s.len() as int)
        };
        proof {
            assert forall|m: int| 0 <= m < part.len() implies part[m] == data@[i + m] by {
                assert(part[m] == s[m]);
            };
            assert(part =~= data@.subrange(i as int, j as int));
        }
        if j == i {
            proof {
                assert(part.len() == 0);
                assert(!is_decimal(part));
                assert(part != seq![LB] && part != seq![RB]);
            }
            return Err(DecodeError::MalformedLengthPrefix);
        }
        if j == i + 1 && (data[i] == LB || data[i] == RB) {
            let t = if data[i] == LB {
                Token::Open
            } else {
                Token::Close
            };
            proof {
                assert(part =~= seq![data@[i as int]]);
                if data@[i as int] == LB {
                    assert(part == seq![LB]);
                } else {
                    assert(part != seq![LB] && part == seq![RB]);
                }
            }
            let inew = if j < len {
                j + 1
            } else {
                j
            };
            proof {
                assert(rest =~= data@.skip(inew as int));
                assert(spec_tokenize(s) == tok_cons(t@, spec_tokenize(rest)));
                lemma_tok_concat_step(tokens_view(acc@), t@, spec_tokenize(rest));
                lemma_tokens_view_push(acc@, t);
            }
            acc.push(t);
            i = inew;
            continue ;
        }
        proof {
            if part == seq![LB] {
                assert(part.len() == 1);
                assert(part[0] == LB);
                assert(false);
            }
            if part == seq![RB] {
                assert(part.len() == 1);
                assert(part[0] == RB);
                assert(false);
            }
        }
        let rem = if j < len {
            len - j - 1
        } else {
            0
        };
        proof {
            assert(rem as int == rest.len());
        }
        let n = match parse_len(data, i, j, rem) {
            Ok(n) => n,
            Err(e) => {
                return Err(e);
            },
        };
        if j == len {
            proof {
                assert(n == 0);
                let content = rest.subrange(0, n as int);
                let after = rest.subrange(n as int, rest.len() as int);
                assert(content =~= Seq::<u8>::empty());
                assert(after.len() == 0);
                assert(spec_tokenize(s) == Ok::<Seq<TokenView>, DecodeError>(
                    seq![TokenView::Chunk(content)],
                ));
                assert(spec_tokenize(s) == tok_cons(
                    TokenView::Chunk(content),
                    Ok::<Seq<TokenView>, DecodeError>(Seq::empty()),
                )) by {
                    assert(seq![TokenView::Chunk(content)] =~= seq![TokenView::Chunk(content)]
                        + Seq::<TokenView>::empty());
                }
            }
            let cv: Vec<u8> = Vec::new();
            let t = Token::Chunk(cv);
            proof {
                assert(data@.skip(len as int) =~= Seq::<u8>::empty());
                assert(spec_tokenize(data@.skip(len as int)) == Ok::<
                    Seq<TokenView>,
                    DecodeError,
                >(Seq::empty()));
                lemma_tok_concat_step(tokens_view(acc@), t@, spec_tokenize(data@.skip(len as int)));
                lemma_tokens_view_push(acc@, t);
            }
            acc.push(t);
            i = len;
            continue ;
        }
        let base = j + 1;
        let end = base + n;
        proof {
            assert(end <= len);
        }
        let cv = copy_range(data, base, end);
        let ghost content = rest.subrange(0, n as int);
        let ghost after = rest.subrange(n as int, rest.len() as int);
        proof {
            assert forall|m: int| 0 <= m < rest.len() implies rest[m] == data@[base + m] by {
                assert(rest[m] == s[sp + 1 + m]);
            };
            assert(cv@ =~= content);
        }
        let t = Token::Chunk(cv);
        if end == len {
            proof {
                assert(after.len() == 0);
                assert(spec_tokenize(s) == Ok::<Seq<TokenView>, DecodeError>(
                    seq![TokenView::Chunk(content)],
                ));
                assert(spec_tokenize(s) == tok_cons(
                    TokenView::Chunk(content),
                    Ok::<Seq<TokenView>, DecodeError>(Seq::empty()),
                )) by {
                    assert(seq![TokenView::Chunk(content)] =~= seq![TokenView::Chunk(content)]
                        + Seq::<TokenView>::empty());
                }
                assert(data@.skip(len as int) =~= Seq::<u8>::empty());
                lemma_tok_concat_step(tokens_view(acc@), t@, spec_tokenize(data@.skip(len as int)));
                lemma_tokens_view_push(acc@, t);
            }
            acc.push(t);
            i = len;
        } else if data[end] == SP {
            proof {
                assert(after[0] == rest[n as int]);
                assert(after[0] == SP);
                assert(after.subrange(1, after.len() as int) =~= data@.skip(end + 1));
                assert(spec_tokenize(s) == tok_cons(
                    TokenView::Chunk(content),
                    spec_tokenize(after.subrange(1, after.len() as int)),
                ));
                lemma_tok_concat_step(tokens_view(acc@), t@, spec_tokenize(data@.skip(end + 1)));
                lemma_tokens_view_push(acc@, t);
            }
            acc.push(t);
            i = end + 1;
        } else {
            proof {
                assert(after[0] == rest[n as int]);
                assert(after[0] != SP && after.len() > 0);
            }
            return Err(DecodeError::MalformedLengthPrefix);
        }
    }
    proof {
        assert(data@.skip(len as int) =~= Seq::<u8>::empty());
        assert(spec_tokenize(data@) == Ok::<Seq<TokenView>, DecodeError>(tokens_view(acc@)))
            by {
            assert(tokens_view(acc@) + Seq::<TokenView>::empty() =~= tokens_view(acc@));
        }
    }
    Ok(acc)
}

} // verus!
