//! The round-trip law: decoding an encoded group yields an equal tree.

use vstd::prelude::*;

use crate::codec::encode_pairs;
use crate::codec::encode_tree;
use crate::codec::dec_repr;
use crate::codec::lemma_dec_repr;
use crate::codec::spec_decode;
use crate::codec::spec_parse_group;
use crate::codec::ParseOut;
use crate::errors::DecodeError;
use crate::token::dec_value;
use crate::token::find_first;
use crate::token::is_decimal;
use crate::token::lemma_find_first_at;
use crate::token::spec_tokenize;
use crate::token::tok_cons;
use crate::token::TokenView;
use crate::token::D0;
use crate::token::D9;
use crate::token::LB;
use crate::token::RB;
use crate::token::SP;
use crate::tree::pairs_view;
use crate::tree::TreeView;
use crate::tree::ValueType;

verus! {

broadcast use {
    vstd::std_specs::vec::axiom_vec_index_decreases,
    vstd::map::group_map_axioms,
    vstd::seq::group_seq_axioms,
};

/// The bytes of one token on the wire.
pub open spec fn tok_bytes(t: TokenView) -> Seq<u8> {
    match t {
        TokenView::Open => seq![LB],
        TokenView::Close => seq![RB],
        TokenView::Chunk(c) => dec_repr(c.len() as int) + seq![SP] + c,
    }
}

/// The bytes of a token sequence on the wire: the tokens' bytes joined by
/// single spaces.
pub open spec fn render(ts: Seq<TokenView>) -> Seq<u8>
    decreases ts.len(),
{
    if ts.len() == 0 {
        Seq::empty()
    } else if ts.len() == 1 {
        tok_bytes(ts[0])
    } else {
        tok_bytes(ts[0]) + seq![SP] + render(ts.skip(1))
    }
}

/// The rendering of one token holds no space before its content: its length
/// prefix and markers are made of digits and brackets.
proof fn lemma_tok_bytes_head(t: TokenView)
    ensures
        tok_bytes(t).len() > 0,
        match t {
            TokenView::Open => tok_bytes(t) == seq![LB],
            TokenView::Close => tok_bytes(t) == seq![RB],
            TokenView::Chunk(c) => {
                let d = dec_repr(c.len() as int);
                &&& is_decimal(d)
                &&& dec_value(d) == c.len()
                &&& tok_bytes(t) == d + seq![SP] + c
            },
        },
{
    match t {
        TokenView::Chunk(c) => {
            lemma_dec_repr(c.len() as int);
        },
        _ => {},
    }
}

/// Tokenizing the rendering of any token sequence gives those tokens back.
pub proof fn lemma_tokenize_render(ts: Seq<TokenView>)
    ensures
        spec_tokenize(render(ts)) == Ok::<Seq<TokenView>, DecodeError>(ts),
    decreases ts.len(),
{
    if ts.len() == 0 {
        assert(render(ts) =~= Seq::<u8>::empty());
        assert(spec_tokenize(render(ts)) == Ok::<Seq<TokenView>, DecodeError>(Seq::empty()));
        assert(ts =~= Seq::<TokenView>::empty());
    } else {
        let rest = ts.skip(1);
        lemma_tokenize_render(rest);
        lemma_tok_bytes_head(ts[0]);
        let s = render(ts);
        let tail: Seq<u8> = if ts.len() == 1 {
            Seq::empty()
        } else {
            seq![SP] + render(rest)
        };
        assert(s =~= tok_bytes(ts[0]) + tail);
        match ts[0] {
            TokenView::Open => {
                lemma_marker_case(ts, LB);
                assert(spec_tokenize(s) == tok_cons(TokenView::Open, Ok::<
                    Seq<TokenView>,
                    DecodeError,
                >(rest)));
                assert(seq![TokenView::Open] + rest =~= ts);
            },
            TokenView::Close => {
                lemma_marker_case(ts, RB);
                assert(spec_tokenize(s) == tok_cons(TokenView::Close, Ok::<
                    Seq<TokenView>,
                    DecodeError,
                >(rest)));
                assert(seq![TokenView::Close] + rest =~= ts);
            },
            TokenView::Chunk(c) => {
                let d = dec_repr(c.len() as int);
                assert(s =~= d + seq![SP] + (c + tail));
                assert forall|m: int| 0 <= m < d.len() implies s[m] != SP by {
                    assert(s[m] == d[m]);
                    assert(D0 <= d[m] <= D9);
                };
                assert(s[d.len() as int] == SP);
                lemma_find_first_at(s, SP, d.len() as int);
                let part = s.subrange(0, d.len() as int);
                assert(part =~= d);
                assert(part != seq![LB] && part != seq![RB]) by {
                    if part == seq![LB] {
                        assert(part[0] == LB && D0 <= part[0] <= D9);
                    }
                    if part == seq![RB] {
                        assert(part[0] == RB && D0 <= part[0] <= D9);
                    }
                };
                let rb = s.subrange(d.len() as int + 1, s.len() as int);
                assert(rb =~= c + tail);
                assert(dec_value(part) == c.len());
                assert(rb.subrange(0, c.len() as int) =~= c);
                let after = rb.subrange(c.len() as int, rb.len() as int);
                assert(after =~= tail);
                if ts.len() == 1 {
                    assert(after.len() == 0);
                    assert(spec_tokenize(s) == Ok::<Seq<TokenView>, DecodeError>(
                        seq![TokenView::Chunk(c)],
                    ));
                    assert(seq![TokenView::Chunk(c)] =~= ts);
                } else {
                    assert(after[0] == SP);
                    assert(after.subrange(1, after.len() as int) =~= render(rest));
                    assert(spec_tokenize(s) == tok_cons(TokenView::Chunk(c), Ok::<
                        Seq<TokenView>,
                        DecodeError,
                    >(rest)));
                    assert(seq![TokenView::Chunk(c)] + rest =~= ts);
                }
            },
        }
    }
}

/// The marker case of `lemma_tokenize_render`: the rendering of a marker
/// token is followed either by nothing or by a separating space.
proof fn lemma_marker_case(ts: Seq<TokenView>, mark: u8)
    requires
        ts.len() > 0,
        mark == LB || mark == RB,
        tok_bytes(ts[0]) == seq![mark],
        spec_tokenize(render(ts.skip(1))) == Ok::<Seq<TokenView>, DecodeError>(ts.skip(1)),
    ensures
        spec_tokenize(render(ts)) == tok_cons(
            if mark == LB {
                TokenView::Open
            } else {
                TokenView::Close
            },
            Ok::<Seq<TokenView>, DecodeError>(ts.skip(1)),
        ),
{
    let s = render(ts);
    let rest = ts.skip(1);
    if ts.len() == 1 {
        assert(s =~= seq![mark]);
        assert(s[0] != SP);
        lemma_find_first_at(s, SP, 1);
        let part = s.subrange(0, 1);
        assert(part =~= seq![mark]);
        assert(render(rest) =~= Seq::<u8>::empty());
    } else {
        assert(s =~= seq![mark] + seq![SP] + render(rest));
        assert(s[0] == mark && s[0] != SP);
        assert(s[1] == SP);
        lemma_find_first_at(s, SP, 1);
        let part = s.subrange(0, 1);
        assert(part =~= seq![mark]);
        assert(s.subrange(2, s.len() as int) =~= render(rest));
    }
}

/// The structural tokens of a tree on the wire: a scalar is one opaque
/// chunk; a group is the opening marker, its pairs' tokens, and the closing
/// marker.
pub open spec fn tree_tokens(t: ValueType) -> Seq<TokenView>
    decreases t, 0int,
{
    match t {
        ValueType::STRING(s) => seq![TokenView::Chunk(s@)],
        ValueType::LIST(ps) => seq![TokenView::Open] + pairs_tokens(ps, 0) + seq![TokenView::Close],
    }
}

/// The tokens of the pairs of a group from index `i` on: each pair is its
/// key chunk followed by the tokens of its value.
pub open spec fn pairs_tokens(ps: Vec<(Vec<u8>, ValueType)>, i: int) -> Seq<TokenView>
    decreases ps, ps@.len() - i,
{
    if i < 0 || i >= ps@.len() {
        Seq::empty()
    } else {
        seq![TokenView::Chunk(ps@[i].0@)] + tree_tokens(ps@[i].1) + pairs_tokens(ps, i + 1)
    }
}

/// A tree always has at least one token.
proof fn lemma_tree_tokens_nonempty(t: ValueType)
    ensures
        tree_tokens(t).len() >= 1,
{
    match t {
        ValueType::STRING(_) => {},
        ValueType::LIST(_) => {},
    }
}

/// Rendering distributes over concatenation, with a separating space.
proof fn lemma_render_concat(a: Seq<TokenView>, b: Seq<TokenView>)
    requires
        a.len() > 0,
        b.len() > 0,
    ensures
        render(a + b) == render(a) + seq![SP] + render(b),
    decreases a.len(),
{
    assert((a + b)[0] == a[0]);
    if a.len() == 1 {
        assert((a + b).skip(1) =~= b);
        assert(render(a + b) =~= render(a) + seq![SP] + render(b));
    } else {
        lemma_render_concat(a.skip(1), b);
        assert((a + b).skip(1) =~= a.skip(1) + b);
        assert(render(a + b) =~= render(a) + seq![SP] + render(b));
    }
}

/// The serialized bytes of a tree are exactly the rendering of its tokens.
pub proof fn lemma_encode_render(t: ValueType)
    ensures
        encode_tree(t) == render(tree_tokens(t)),
    decreases t, 0int,
{
    match t {
        ValueType::STRING(s) => {
            assert(tree_tokens(t).len() == 1);
            assert(render(tree_tokens(t)) == tok_bytes(TokenView::Chunk(s@)));
            assert(encode_tree(t) =~= render(tree_tokens(t)));
        },
        ValueType::LIST(ps) => {
            lemma_encode_render_pairs(ps, 0);
            let pt = pairs_tokens(ps, 0);
            let tt = tree_tokens(t);
            if pt.len() == 0 {
                assert(tt =~= seq![TokenView::Open, TokenView::Close]);
                assert(tt.len() == 2);
                assert(tt[0] == TokenView::Open);
                assert(tt.skip(1) =~= seq![TokenView::Close]);
                assert(render(tt.skip(1)) == tok_bytes(tt.skip(1)[0]));
                assert(tt.skip(1)[0] == TokenView::Close);
                assert(render(tt) == tok_bytes(tt[0]) + seq![SP] + render(tt.skip(1)));
                assert(render(tt) =~= seq![LB] + seq![SP] + seq![RB]);
                assert(encode_tree(t) =~= seq![LB] + seq![SP] + seq![RB]);
            } else {
                let bc = pt + seq![TokenView::Close];
                lemma_render_concat(seq![TokenView::Open], bc);
                lemma_render_concat(pt, seq![TokenView::Close]);
                assert(tt =~= seq![TokenView::Open] + bc);
                assert(render(seq![TokenView::Open]) == tok_bytes(TokenView::Open));
                assert(render(seq![TokenView::Close]) == tok_bytes(TokenView::Close));
                assert(render(tt) =~= seq![LB] + seq![SP] + render(pt) + seq![SP] + seq![RB]);
                assert(encode_tree(t) =~= seq![LB] + (seq![SP] + render(pt)) + seq![SP, RB]);
                assert(encode_tree(t) =~= render(tt));
            }
        },
    }
}

/// The serialized bytes of a group's pairs are the rendering of their
/// tokens, led by the space that separates them from what came before.
proof fn lemma_encode_render_pairs(ps: Vec<(Vec<u8>, ValueType)>, i: int)
    ensures
        pairs_tokens(ps, i).len() == 0 ==> encode_pairs(ps, i) == Seq::<u8>::empty(),
        pairs_tokens(ps, i).len() > 0 ==> encode_pairs(ps, i) == seq![SP] + render(
            pairs_tokens(ps, i),
        ),
    decreases ps, ps@.len() - i,
{
    if 0 <= i < ps@.len() {
        lemma_encode_render_pairs(ps, i + 1);
        lemma_encode_render(ps@[i].1);
        lemma_tree_tokens_nonempty(ps@[i].1);
        let key = ps@[i].0@;
        let kc = seq![TokenView::Chunk(key)];
        let tv = tree_tokens(ps@[i].1);
        let rest = pairs_tokens(ps, i + 1);
        lemma_render_concat(kc, tv);
        assert(render(kc) == tok_bytes(TokenView::Chunk(key)));
        if rest.len() == 0 {
            assert(pairs_tokens(ps, i) =~= kc + tv);
            assert(seq![SP] + render(kc + tv) =~= seq![SP] + (dec_repr(key.len() as int)
                + seq![SP] + key) + seq![SP] + render(tv));
            assert(encode_pairs(ps, i) =~= seq![SP] + render(pairs_tokens(ps, i)));
        } else {
            lemma_render_concat(tv, rest);
            lemma_render_concat(kc, tv + rest);
            assert(pairs_tokens(ps, i) =~= kc + (tv + rest));
            assert(render(kc + (tv + rest)) =~= render(kc) + seq![SP] + render(tv) + seq![SP]
                + render(rest));
            assert(encode_pairs(ps, i) =~= seq![SP] + dec_repr(key.len() as int) + seq![SP] + key
                + seq![SP] + render(tv) + (seq![SP] + render(rest)));
            assert(encode_pairs(ps, i) =~= seq![SP] + render(pairs_tokens(ps, i)));
        }
    }
}

/// Parsing the tokens of a group's pairs, followed by the closing marker and
/// any further tokens, yields exactly the mapping those pairs describe and
/// leaves the further tokens untouched.
pub proof fn lemma_parse_pairs(ps: Vec<(Vec<u8>, ValueType)>, i: int, extra: Seq<TokenView>)
    requires
        0 <= i <= ps@.len(),
    ensures
        spec_parse_group(pairs_tokens(ps, i) + seq![TokenView::Close] + extra) == Ok::<
            ParseOut,
            DecodeError,
        >((extra, pairs_view(ps@, i))),
    decreases ps, ps@.len() - i,
{
    let toks = pairs_tokens(ps, i) + seq![TokenView::Close] + extra;
    if i == ps@.len() {
        assert(toks =~= seq![TokenView::Close] + extra);
        assert(toks[0] == TokenView::Close);
        assert(toks.skip(1) =~= extra);
        assert(pairs_view(ps@, i) =~= Map::<Seq<u8>, TreeView>::empty());
        assert(spec_parse_group(toks) == Ok::<ParseOut, DecodeError>((extra, Map::empty())));
    } else {
        let key = ps@[i].0@;
        let val = ps@[i].1;
        let tv = tree_tokens(val);
        let rest = pairs_tokens(ps, i + 1);
        lemma_tree_tokens_nonempty(val);
        assert(toks =~= seq![TokenView::Chunk(key)] + tv + rest + seq![TokenView::Close] + extra);
        assert(toks[0] == TokenView::Chunk(key));
        assert(toks[1] == tv[0]);
        assert(toks.len() >= 2);
        match val {
            ValueType::STRING(sv) => {
                assert(tv =~= seq![TokenView::Chunk(sv@)]);
                assert(toks[1] == TokenView::Chunk(sv@));
                assert(toks.skip(2) =~= rest + seq![TokenView::Close] + extra);
                lemma_parse_pairs(ps, i + 1, extra);
                assert(spec_parse_group(toks.skip(2)) == Ok::<ParseOut, DecodeError>(
                    (extra, pairs_view(ps@, i + 1)),
                ));
                assert(val@ == TreeView::Scalar(sv@));
                assert(spec_parse_group(toks) == Ok::<ParseOut, DecodeError>(
                    (extra, pairs_view(ps@, i)),
                ));
            },
            ValueType::LIST(qs) => {
                proof_decreases_helper(ps, i);
                assert(tv =~= seq![TokenView::Open] + pairs_tokens(qs, 0) + seq![TokenView::Close]);
                assert(toks[1] == TokenView::Open);
                let extra2 = rest + seq![TokenView::Close] + extra;
                assert(toks.skip(2) =~= pairs_tokens(qs, 0) + seq![TokenView::Close] + extra2);
                lemma_parse_pairs(qs, 0, extra2);
                assert(spec_parse_group(toks.skip(2)) == Ok::<ParseOut, DecodeError>(
                    (extra2, pairs_view(qs@, 0)),
                ));
                assert(extra2.len() < toks.len());
                lemma_parse_pairs(ps, i + 1, extra);
                assert(extra2 =~= pairs_tokens(ps, i + 1) + seq![TokenView::Close] + extra);
                assert(spec_parse_group(extra2) == Ok::<ParseOut, DecodeError>(
                    (extra, pairs_view(ps@, i + 1)),
                ));
                assert(val@ == TreeView::Group(pairs_view(qs@, 0)));
                assert(spec_parse_group(toks) == Ok::<ParseOut, DecodeError>(
                    (extra, pairs_view(ps@, i)),
                ));
            },
        }
    }
}

/// Ties the pairs of a group to their nested values for the termination of
/// the induction over the tree.
proof fn proof_decreases_helper(ps: Vec<(Vec<u8>, ValueType)>, i: int)
    requires
        0 <= i < ps@.len(),
    ensures
        decreases_to!(ps => ps@[i].1),
{
    assert(decreases_to!(ps => ps@));
    assert(decreases_to!(ps@ => ps@[i]));
    assert(decreases_to!(ps@[i] => ps@[i].1));
}

/// Whether every key and every scalar content in the tree is valid UTF-8
/// text, so that the serialized form is itself valid text.
pub open spec fn tree_text(t: ValueType) -> bool
    decreases t, 0int,
{
    match t {
        ValueType::STRING(s) => vstd::utf8::valid_utf8(s@),
        ValueType::LIST(ps) => pairs_text(ps, 0),
    }
}

/// Whether every key and every value of the pairs from index `i` on holds
/// valid UTF-8 text only.
pub open spec fn pairs_text(ps: Vec<(Vec<u8>, ValueType)>, i: int) -> bool
    decreases ps, ps@.len() - i,
{
    if i < 0 || i >= ps@.len() {
        true
    } else {
        vstd::utf8::valid_utf8(ps@[i].0@) && tree_text(ps@[i].1) && pairs_text(ps, i + 1)
    }
}

/// A single byte below 0x80 is valid UTF-8 on its own.
proof fn lemma_ascii_byte_valid(b: u8)
    requires
        b < 0x80,
    ensures
        vstd::utf8::valid_utf8(seq![b]),
{
    let s = seq![b];
    assert(vstd::utf8::is_leading_byte_width_1(s[0]));
    assert(vstd::utf8::length_of_first_scalar(s) == 1);
    assert(vstd::utf8::decode_first_codepoint(s) == vstd::utf8::leading_bits_width_1(b));
    assert((b & 0x7f) == b) by (bit_vector)
        requires
            b < 0x80,
    ;
    assert(vstd::utf8::decode_first_codepoint(s) == b as u32);
    assert(vstd::utf8::not_surrogate(b as u32));
    assert(vstd::utf8::pop_first_scalar(s) =~= Seq::<u8>::empty());
    assert(vstd::utf8::valid_utf8(Seq::<u8>::empty()));
}

/// A sequence of bytes below 0x80 is valid UTF-8.
proof fn lemma_ascii_valid(s: Seq<u8>)
    requires
        forall|j: int| 0 <= j < s.len() ==> #[trigger] s[j] < 0x80,
    ensures
        vstd::utf8::valid_utf8(s),
    decreases s.len(),
{
    broadcast use vstd::utf8::valid_utf8_concat;

    if s.len() > 0 {
        lemma_ascii_byte_valid(s[0]);
        lemma_ascii_valid(s.skip(1));
        assert(s =~= seq![s[0]] + s.skip(1));
        assert(vstd::utf8::valid_utf8(seq![s[0]] + s.skip(1)));
    }
}

/// The serialized form of a text tree is valid UTF-8.
pub proof fn lemma_encode_valid(t: ValueType)
    requires
        tree_text(t),
    ensures
        vstd::utf8::valid_utf8(encode_tree(t)),
    decreases t, 0int,
{
    broadcast use vstd::utf8::valid_utf8_concat;

    match t {
        ValueType::STRING(s) => {
            lemma_dec_repr(s@.len() as int);
            let d = dec_repr(s@.len() as int);
            assert(forall|j: int| 0 <= j < d.len() ==> #[trigger] d[j] < 0x80);
            lemma_ascii_valid(d + seq![SP]);
            assert(vstd::utf8::valid_utf8((d + seq![SP]) + s@));
            assert(encode_tree(t) =~= (d + seq![SP]) + s@);
        },
        ValueType::LIST(ps) => {
            lemma_encode_valid_pairs(ps, 0);
            lemma_ascii_valid(seq![LB]);
            lemma_ascii_valid(seq![SP, RB]);
            assert(vstd::utf8::valid_utf8(seq![LB] + encode_pairs(ps, 0)));
            assert(vstd::utf8::valid_utf8((seq![LB] + encode_pairs(ps, 0)) + seq![SP, RB]));
            assert(encode_tree(t) =~= (seq![LB] + encode_pairs(ps, 0)) + seq![SP, RB]);
        },
    }
}

/// The serialized pairs of a text tree are valid UTF-8.
proof fn lemma_encode_valid_pairs(ps: Vec<(Vec<u8>, ValueType)>, i: int)
    requires
        pairs_text(ps, i),
    ensures
        vstd::utf8::valid_utf8(encode_pairs(ps, i)),
    decreases ps, ps@.len() - i,
{
    broadcast use vstd::utf8::valid_utf8_concat;

    if 0 <= i < ps@.len() {
        lemma_encode_valid_pairs(ps, i + 1);
        lemma_encode_valid(ps@[i].1);
        let key = ps@[i].0@;
        lemma_dec_repr(key.len() as int);
        let d = dec_repr(key.len() as int);
        assert(forall|j: int| 0 <= j < d.len() ==> #[trigger] d[j] < 0x80);
        lemma_ascii_valid(seq![SP] + d + seq![SP]);
        assert(vstd::utf8::valid_utf8((seq![SP] + d + seq![SP]) + key));
        lemma_ascii_valid(seq![SP]);
        assert(vstd::utf8::valid_utf8(((seq![SP] + d + seq![SP]) + key) + seq![SP]));
        assert(vstd::utf8::valid_utf8((((seq![SP] + d + seq![SP]) + key) + seq![SP]) + encode_tree(
            ps@[i].1,
        )));
        assert(vstd::utf8::valid_utf8(((((seq![SP] + d + seq![SP]) + key) + seq![SP]) + encode_tree(
            ps@[i].1,
        )) + encode_pairs(ps, i + 1)));
        assert(encode_pairs(ps, i) =~= ((((seq![SP] + d + seq![SP]) + key) + seq![SP]) + encode_tree(
            ps@[i].1,
        )) + encode_pairs(ps, i + 1));
    }
}

/// Round trip: for every group tree whose keys and scalar contents are valid
/// text, decoding its serialized form succeeds and yields a structurally
/// equal tree. Serialized byte order may depend on pair order, but the
/// decoded tree is the same mapping.
pub proof fn lemma_round_trip(t: ValueType)
    requires
        t is LIST,
        tree_text(t),
    ensures
        spec_decode(encode_tree(t)) == Ok::<TreeView, DecodeError>(t@),
{
    lemma_encode_valid(t);
    lemma_encode_render(t);
    lemma_tokenize_render(tree_tokens(t));
    match t {
        ValueType::LIST(ps) => {
            let toks = tree_tokens(t);
            assert(toks[0] == TokenView::Open);
            assert(toks.skip(1) =~= pairs_tokens(ps, 0) + seq![TokenView::Close]
                + Seq::<TokenView>::empty());
            lemma_parse_pairs(ps, 0, Seq::empty());
            assert(spec_parse_group(toks.skip(1)) == Ok::<ParseOut, DecodeError>(
                (Seq::empty(), pairs_view(ps@, 0)),
            ));
            assert(t@ == TreeView::Group(pairs_view(ps@, 0)));
        },
        ValueType::STRING(_) => {},
    }
}

/// Decode determinism: one byte buffer decodes to one tree. Two successful
/// decodes of the same bytes yield structurally equal trees.
pub proof fn lemma_decode_deterministic(s: Seq<u8>, t1: TreeView, t2: TreeView)
    requires
        spec_decode(s) == Ok::<TreeView, DecodeError>(t1),
        spec_decode(s) == Ok::<TreeView, DecodeError>(t2),
    ensures
        t1 == t2,
{
}

} // verus!
