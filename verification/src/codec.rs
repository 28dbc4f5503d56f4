//! The decoder and the encoder.
//!
//! The decoder turns a byte buffer into a group tree: the buffer is
//! tokenized, the leading root-group marker is discarded, and the token
//! sequence is parsed recursively, each nested call reporting where its group
//! ended so the enclosing call can resume after it. The encoder walks a tree
//! recursively and renders the token stream back into bytes.

use vstd::prelude::*;

use crate::errors::DecodeError;
use crate::token::is_decimal;
use crate::token::dec_value;
use crate::token::spec_tokenize;
use crate::token::split_string;
use crate::token::tokens_view;
use crate::token::Token;
use crate::token::TokenView;
use crate::token::D0;
use crate::token::D9;
use crate::token::LB;
use crate::token::RB;
use crate::token::SP;
use crate::tree::clone_bytes;
use crate::tree::pairs_view;
use crate::tree::TreeView;
use crate::tree::ValueType;

verus! {

broadcast use {
    vstd::std_specs::vec::axiom_vec_index_decreases,
    vstd::map::group_map_axioms,
    vstd::seq::group_seq_axioms,
};

/// What parsing one group yields: the tokens left after its closing marker,
/// and the mapping the group describes.
pub type ParseOut = (Seq<TokenView>, Map<Seq<u8>, TreeView>);

/// Adds an earlier binding to the mapping of the pairs that follow it: the
/// binding counts only where no later pair took the same key, so the last
/// occurrence of a key wins.
pub open spec fn bind_first(k: Seq<u8>, v: TreeView, m: Map<Seq<u8>, TreeView>) -> Map<
    Seq<u8>,
    TreeView,
> {
    if m.dom().contains(k) {
        m
    } else {
        m.insert(k, v)
    }
}

/// Parses one group out of the front of a token sequence, after its opening
/// marker: key/value pairs up to the matching closing marker.
///
/// Reaching the end of the tokens before the closing marker is an
/// `UnexpectedEndOfInput`; so is a structural marker standing where the
/// format admits none (an opening marker in key position, or a closing
/// marker where a value is owed).
pub open spec fn spec_parse_group(toks: Seq<TokenView>) -> Result<ParseOut, DecodeError>
    decreases toks.len(),
{
    if toks.len() == 0 {
        Err(DecodeError::UnexpectedEndOfInput)
    } else {
        match toks[0] {
            TokenView::Close => Ok((toks.skip(1), Map::empty())),
            TokenView::Open => Err(DecodeError::UnexpectedEndOfInput),
            TokenView::Chunk(key) => {
                if toks.len() < 2 {
                    Err(DecodeError::UnexpectedEndOfInput)
                } else {
                    match toks[1] {
                        TokenView::Close => Err(DecodeError::UnexpectedEndOfInput),
                        TokenView::Chunk(val) => match spec_parse_group(toks.skip(2)) {
                            Ok(out) => Ok(
                                (out.0, bind_first(key, TreeView::Scalar(val), out.1)),
                            ),
                            Err(e) => Err(e),
                        },
                        TokenView::Open => match spec_parse_group(toks.skip(2)) {
                            Ok(inner) => {
                                if inner.0.len() < toks.len() {
                                    match spec_parse_group(inner.0) {
                                        Ok(out) => Ok(
                                            (
                                                out.0,
                                                bind_first(key, TreeView::Group(inner.1), out.1),
                                            ),
                                        ),
                                        Err(e) => Err(e),
                                    }
                                } else {
                                    Err(DecodeError::UnexpectedEndOfInput)
                                }
                            },
                            Err(e) => Err(e),
                        },
                    }
                }
            },
        }
    }
}

/// The tree a byte buffer decodes to, or the error that rejects the buffer.
///
/// The buffer must be valid UTF-8 text, tokenize cleanly, and begin with the
/// root-group marker; the tokens of the root group follow, and tokens after
/// the root group's closing marker are ignored.
pub open spec fn spec_decode(s: Seq<u8>) -> Result<TreeView, DecodeError> {
    if !vstd::utf8::valid_utf8(s) {
        Err(DecodeError::EncodingError)
    } else {
        match spec_tokenize(s) {
            Err(e) => Err(e),
            Ok(toks) => {
                if toks.len() == 0 || toks[0] != TokenView::Open {
                    Err(DecodeError::UnexpectedEndOfInput)
                } else {
                    match spec_parse_group(toks.skip(1)) {
                        Ok(out) => Ok(TreeView::Group(out.1)),
                        Err(e) => Err(e),
                    }
                }
            },
        }
    }
}

/// Folds the bindings of the pairs from index `i` on over a mapping of later
/// bindings: what an enclosing parse sees after these pairs.
pub open spec fn pairs_onto(
    ps: Seq<(Vec<u8>, ValueType)>,
    i: int,
    m: Map<Seq<u8>, TreeView>,
) -> Map<Seq<u8>, TreeView>
    decreases ps.len() - i,
{
    if i < 0 || i >= ps.len() {
        m
    } else {
        bind_first(ps[i].0@, ps[i].1@, pairs_onto(ps, i + 1, m))
    }
}

/// Over an empty tail the fold of the pairs is exactly the mapping the pairs
/// describe.
pub proof fn lemma_pairs_onto_empty(ps: Seq<(Vec<u8>, ValueType)>, i: int)
    ensures
        pairs_onto(ps, i, Map::empty()) == pairs_view(ps, i),
    decreases ps.len() - i,
{
    if 0 <= i < ps.len() {
        lemma_pairs_onto_empty(ps, i + 1);
    }
}

/// Folding over one more later binding is folding over the extended pairs.
pub proof fn lemma_pairs_onto_push(
    ps: Seq<(Vec<u8>, ValueType)>,
    p: (Vec<u8>, ValueType),
    i: int,
    m: Map<Seq<u8>, TreeView>,
)
    requires
        0 <= i <= ps.len(),
    ensures
        pairs_onto(ps.push(p), i, m) == pairs_onto(ps, i, bind_first(p.0@, p.1@, m)),
    decreases ps.len() - i,
{
    if i < ps.len() {
        assert(ps.push(p)[i] == ps[i]);
        lemma_pairs_onto_push(ps, p, i + 1, m);
    } else {
        assert(ps.push(p)[i] == p);
        assert(pairs_onto(ps.push(p), i + 1, m) == m);
    }
}

/// Parses the pairs of one group, starting at `start`, up to and including
/// the group's closing marker; returns the index just after that marker and
/// the pairs, exactly as `spec_parse_group` says on the remaining tokens.
pub fn parse_list(toks: &Vec<Token>, start: usize) -> (r: Result<
    (usize, Vec<(Vec<u8>, ValueType)>),
    DecodeError,
>)
    requires
        start <= toks@.len(),
    ensures
        ({
            let tv = tokens_view(toks@);
            match r {
                Ok(out) => start < out.0 <= toks@.len() && spec_parse_group(
                    tv.skip(start as int),
                ) == Ok::<ParseOut, DecodeError>((tv.skip(out.0 as int), pairs_view(out.1@, 0))),
                Err(e) => spec_parse_group(tv.skip(start as int)) == Err::<ParseOut, DecodeError>(
                    e,
                ),
            }
        }),
    decreases toks@.len() - start,
{
    let ghost tv = tokens_view(toks@);
    proof {
        assert(tv.len() == toks@.len());
        assert forall|m: int| 0 <= m < toks@.len() implies tv[m] == toks@[m]@ by {};
    }
    let mut pairs: Vec<(Vec<u8>, ValueType)> = Vec::new();
    let mut index = start;
    let len = toks.len();
    #[verifier::loop_isolation(false)]
    while index < len
        invariant
            start <= index <= len,
            len == toks@.len(),
            tv == tokens_view(toks@),
            spec_parse_group(tv.skip(start as int)) == (match spec_parse_group(
                tv.skip(index as int),
            ) {
                Ok(out) => Ok::<ParseOut, DecodeError>((out.0, pairs_onto(pairs@, 0, out.1))),
                Err(e) => Err::<ParseOut, DecodeError>(e),
            }),
        decreases len - index,
    {
        let ghost s = tv.skip(index as int);
        proof {
            assert(s[0] == tv[index as int]);
            if index + 1 < len {
                assert(s[1] == tv[index + 1]);
            }
        }
        let key = match &toks[index] {
            Token::Close => {
                proof {
                    assert(spec_parse_group(s) == Ok::<ParseOut, DecodeError>(
                        (s.skip(1), Map::empty()),
                    ));
                    assert(s.skip(1) =~= tv.skip(index + 1));
                    lemma_pairs_onto_empty(pairs@, 0);
                }
                return Ok((index + 1, pairs));
            },
            Token::Open => {
                return Err(DecodeError::UnexpectedEndOfInput);
            },
            Token::Chunk(c) => clone_bytes(c),
        };
        if index + 1 == len {
            proof {
                assert(s.len() == 1);
            }
            return Err(DecodeError::UnexpectedEndOfInput);
        }
        let ghost kview = key@;
        match &toks[index + 1] {
            Token::Close => {
                return Err(DecodeError::UnexpectedEndOfInput);
            },
            Token::Chunk(c) => {
                let val = clone_bytes(c);
                proof {
                    assert(s.skip(2) =~= tv.skip(index + 2));
                }
                let p = (key, ValueType::STRING(val));
                proof {
                    assert(p.1@ == TreeView::Scalar(c@));
                    match spec_parse_group(tv.skip(index + 2)) {
                        Ok(out) => {
                            lemma_pairs_onto_push(pairs@, p, 0, out.1);
                        },
                        Err(_) => {},
                    }
                }
                pairs.push(p);
                index = index + 2;
            },
            Token::Open => {
                proof {
                    assert(s.skip(2) =~= tv.skip(index + 2));
                }
                let sub = match parse_list(toks, index + 2) {
                    Ok(x) => x,
                    Err(e) => {
                        return Err(e);
                    },
                };
                let (sub_end, sub_pairs) = sub;
                let p = (key, ValueType::LIST(sub_pairs));
                proof {
                    assert(tv.skip(sub_end as int).len() < s.len());
                    assert(p.1@ == TreeView::Group(pairs_view(sub_pairs@, 0)));
                    match spec_parse_group(tv.skip(sub_end as int)) {
                        Ok(out) => {
                            lemma_pairs_onto_push(pairs@, p, 0, out.1);
                        },
                        Err(_) => {},
                    }
                }
                pairs.push(p);
                index = sub_end;
            },
        }
    }
    proof {
        assert(tv.skip(len as int).len() == 0);
    }
    Err(DecodeError::UnexpectedEndOfInput)
}

/// The decimal digit string that denotes `n`.
pub open spec fn dec_repr(n: int) -> Seq<u8>
    decreases n,
{
    if n < 10 {
        seq![(D0 + n) as u8]
    } else {
        dec_repr(n / 10).push((D0 + n % 10) as u8)
    }
}

/// The decimal rendering of a non-negative integer is a well-formed decimal
/// that denotes it.
pub proof fn lemma_dec_repr(n: int)
    requires
        n >= 0,
    ensures
        is_decimal(dec_repr(n)),
        dec_value(dec_repr(n)) == n,
    decreases n,
{
    if n < 10 {
        let s = dec_repr(n);
        assert(s.len() == 1);
        assert(s.drop_last() =~= Seq::<u8>::empty());
        assert(s.last() as int == D0 + n) by {
            assert(0 <= D0 + n < 256);
        };
        assert(dec_value(Seq::<u8>::empty()) == 0);
        assert(dec_value(s) == 10 * dec_value(s.drop_last()) + (s.last() - D0));
    } else {
        lemma_dec_repr(n / 10);
        vstd::arithmetic::div_mod::lemma_fundamental_div_mod(n, 10);
        let s = dec_repr(n);
        assert(s.drop_last() =~= dec_repr(n / 10));
        assert(s.last() == (D0 + n % 10) as u8);
        assert(s.last() as int == D0 + n % 10) by {
            assert(0 <= n % 10 < 10);
            assert(0 <= D0 + n % 10 < 256);
        };
        assert(dec_value(s) == 10 * dec_value(s.drop_last()) + (s.last() - D0));
        assert(dec_value(s) == 10 * (n / 10) + n % 10);
        assert forall|j: int| 0 <= j < s.len() implies D0 <= #[trigger] s[j] <= D9 by {
            if j < s.len() - 1 {
                assert(s[j] == dec_repr(n / 10)[j]);
            }
        };
    }
}

/// The bytes that a tree serializes to: the group marker, then every
/// key/value pair in pair order, then the closing marker. A scalar is
/// rendered as its byte length in decimal, a space, and its content.
pub open spec fn encode_tree(t: ValueType) -> Seq<u8>
    decreases t, 0int,
{
    match t {
        ValueType::STRING(s) => dec_repr(s@.len() as int) + seq![SP] + s@,
        ValueType::LIST(ps) => seq![LB] + encode_pairs(ps, 0) + seq![SP, RB],
    }
}

/// The bytes of the pairs of a group from index `i` on: each pair is a
/// space, the key's length in decimal, a space, the key, a space, and the
/// rendering of the value.
pub open spec fn encode_pairs(ps: Vec<(Vec<u8>, ValueType)>, i: int) -> Seq<u8>
    decreases ps, ps@.len() - i,
{
    if i < 0 || i >= ps@.len() {
        Seq::empty()
    } else {
        seq![SP] + dec_repr(ps@[i].0@.len() as int) + seq![SP] + ps@[i].0@ + seq![SP] + encode_tree(
            ps@[i].1,
        ) + encode_pairs(ps, i + 1)
    }
}

/// Appends the decimal rendering of `n`.
fn push_decimal(out: &mut Vec<u8>, n: usize)
    ensures
        final(out)@ == old(out)@ + dec_repr(n as int),
    decreases n,
{
    if n < 10 {
        out.push(D0 + (n as u8));
        proof {
            assert(final(out)@ =~= old(out)@ + dec_repr(n as int));
        }
    } else {
        push_decimal(out, n / 10);
        out.push(D0 + ((n % 10) as u8));
        proof {
            assert(final(out)@ =~= old(out)@ + dec_repr(n as int));
        }
    }
}

/// Appends a copy of the given bytes.
fn push_bytes(out: &mut Vec<u8>, s: &[u8])
    ensures
        final(out)@ == old(out)@ + s@,
{
    let mut m: usize = 0;
    let n = s.len();
    #[verifier::loop_isolation(false)]
    while m < n
        invariant
            m <= n,
            n == s@.len(),
            out@ == old(out)@ + s@.subrange(0, m as int),
        decreases n - m,
    {
        out.push(s[m]);
        m = m + 1;
        proof {
            assert(old(out)@ + s@.subrange(0, m - 1) + seq![s@[m - 1]] =~= old(out)@ + s@.subrange(
                0,
                m as int,
            ));
        }
    }
    proof {
        assert(old(out)@ + s@.subrange(0, n as int) =~= old(out)@ + s@);
    }
}

/// Serializes the pairs of a group as one bracketed token stream.
pub fn write_list(ps: &Vec<(Vec<u8>, ValueType)>) -> (r: Vec<u8>)
    ensures
        r@ == seq![LB] + encode_pairs(*ps, 0) + seq![SP, RB],
    decreases *ps,
{
    let mut out: Vec<u8> = Vec::new();
    out.push(LB);
    let n = ps.len();
    let mut i: usize = 0;
    #[verifier::loop_isolation(false)]
    while i < n
        invariant
            i <= n,
            n == ps@.len(),
            out@ + encode_pairs(*ps, i as int) =~= seq![LB] + encode_pairs(*ps, 0),
        decreases n - i,
    {
        let ghost before = out@;
        out.push(SP);
        push_decimal(&mut out, ps[i].0.len());
        out.push(SP);
        push_bytes(&mut out, ps[i].0.as_slice());
        out.push(SP);
        proof {
            assert(decreases_to!(*ps => ps@));
            assert(decreases_to!(ps@ => ps@[i as int]));
            assert(decreases_to!(ps@[i as int] => ps@[i as int].1));
            assert(decreases_to!(*ps => ps@[i as int].1));
        }
        encode_into(&ps[i].1, &mut out);
        proof {
            assert(out@ =~= before + (seq![SP] + dec_repr(ps@[i as int].0@.len() as int)
                + seq![SP] + ps@[i as int].0@ + seq![SP] + encode_tree(ps@[i as int].1)));
            assert(out@ + encode_pairs(*ps, i + 1) =~= before + encode_pairs(*ps, i as int));
        }
        i = i + 1;
    }
    out.push(SP);
    out.push(RB);
    proof {
        assert(encode_pairs(*ps, n as int) =~= Seq::<u8>::empty());
        assert(out@ =~= seq![LB] + encode_pairs(*ps, 0) + seq![SP, RB]);
    }
    out
}

/// Appends the serialized form of a tree.
fn encode_into(t: &ValueType, out: &mut Vec<u8>)
    ensures
        final(out)@ == old(out)@ + encode_tree(*t),
    decreases *t,
{
    match t {
        ValueType::STRING(s) => {
            push_decimal(out, s.len());
            out.push(SP);
            push_bytes(out, s.as_slice());
            proof {
                assert(final(out)@ =~= old(out)@ + encode_tree(*t));
            }
        },
        ValueType::LIST(ps) => {
            proof {
                assert(decreases_to!(*t => *ps));
            }
            let rendered = write_list(ps);
            push_bytes(out, rendered.as_slice());
        },
    }
}

/// Serializes a tree to bytes, exactly as `encode_tree` says. The root must
/// be a group: handing a scalar root to the encoder is a usage error that
/// this contract excludes.
pub fn to_byte_vec(data: ValueType) -> (r: Vec<u8>)
    requires
        data is LIST,
    ensures
        r@ == encode_tree(data),
{
    match &data {
        ValueType::LIST(ps) => write_list(ps),
        ValueType::STRING(_) => {
            proof {
                assert(false);
            }
            Vec::new()
        },
    }
}

/// Relies on `std::str::from_utf8`: it returns `Ok` exactly when the byte
/// slice is valid UTF-8.
#[verifier::external_body]
fn utf8_ok(v: &[u8]) -> (r: bool)
    ensures
        r == vstd::utf8::valid_utf8(v@),
{
    std::str::from_utf8(v).is_ok()
}

/// Decodes a byte buffer into a tree, exactly as `spec_decode` says: the
/// result is the root group on success, and the error that rejects the
/// buffer otherwise.
pub fn from_byte_vec(data: Vec<u8>) -> (r: Result<ValueType, DecodeError>)
    ensures
        match r {
            Ok(t) => spec_decode(data@) == Ok::<TreeView, DecodeError>(t@),
            Err(e) => spec_decode(data@) == Err::<TreeView, DecodeError>(e),
        },
{
    if !utf8_ok(data.as_slice()) {
        return Err(DecodeError::EncodingError);
    }
    let toks = match split_string(data.as_slice()) {
        Ok(ts) => ts,
        Err(e) => {
            return Err(e);
        },
    };
    let ghost tv = tokens_view(toks@);
    if toks.len() == 0 {
        return Err(DecodeError::UnexpectedEndOfInput);
    }
    proof {
        assert(tv[0] == toks@[0]@);
    }
    let root_open = match &toks[0] {
        Token::Open => true,
        _ => false,
    };
    if !root_open {
        return Err(DecodeError::UnexpectedEndOfInput);
    }
    match parse_list(&toks, 1) {
        Ok(out) => {
            let (_end, pairs) = out;
            let t = ValueType::LIST(pairs);
            proof {
                assert(t@ == TreeView::Group(pairs_view(pairs@, 0)));
            }
            Ok(t)
        },
        Err(e) => Err(e),
    }
}

} // verus!
