//! The pretty printer: renders a tree as indented multi-line text for human
//! inspection. Not a round-trip format: the decoder cannot read it back.

use vstd::prelude::*;

use crate::token::LB;
use crate::token::RB;
use crate::token::SP;
use crate::tree::clone_bytes;
use crate::tree::ValueType;

verus! {

broadcast use {vstd::std_specs::vec::axiom_vec_index_decreases, vstd::seq::group_seq_axioms};

/// The line feed.
pub const LF: u8 = 10;

/// The diagnostic rendering of a tree under an indent prefix: a scalar is
/// its content and a line break; a group is `[`, each pair on its own line
/// one two-space level deeper, and `]` back at the enclosing level.
pub open spec fn spec_pretty(t: ValueType, ind: Seq<u8>) -> Seq<u8>
    decreases t, 0int,
{
    match t {
        ValueType::STRING(s) => s@ + seq![LF],
        ValueType::LIST(ps) => seq![LB, LF] + pretty_pairs(ps, 0, ind) + ind + seq![RB, LF],
    }
}

/// The rendering of the pairs of a group from index `i` on: for each pair
/// the deeper indent, the key, a space, and the rendering of the value.
pub open spec fn pretty_pairs(ps: Vec<(Vec<u8>, ValueType)>, i: int, ind: Seq<u8>) -> Seq<u8>
    decreases ps, ps@.len() - i,
{
    if i < 0 || i >= ps@.len() {
        Seq::empty()
    } else {
        ind + seq![SP, SP] + ps@[i].0@ + seq![SP] + spec_pretty(ps@[i].1, ind + seq![SP, SP])
            + pretty_pairs(ps, i + 1, ind)
    }
}

/// Appends the diagnostic rendering of a tree under the given indent.
pub fn write_tree(node: &ValueType, out: &mut Vec<u8>, ind: &Vec<u8>)
    ensures
        final(out)@ == old(out)@ + spec_pretty(*node, ind@),
    decreases *node,
{
    match node {
        ValueType::STRING(s) => {
            let mut m: usize = 0;
            let n = s.len();
            #[verifier::loop_isolation(false)]
            while m < n
                invariant
                    m <= n,
                    n == s@.len(),
                    out@ == old(out)@ + s@.subrange(0, m as int),
                decreases n - m,
            {
                out.push(s[m]);
                m = m + 1;
                proof {
                    assert(out@ =~= old(out)@ + s@.subrange(0, m as int));
                }
            }
            out.push(LF);
            proof {
                assert(out@ =~= old(out)@ + spec_pretty(*node, ind@));
            }
        },
        ValueType::LIST(ps) => {
            out.push(LB);
            out.push(LF);
            let mut deeper = clone_bytes(ind);
            deeper.push(SP);
            deeper.push(SP);
            proof {
                assert(deeper@ =~= ind@ + seq![SP, SP]);
            }
            let n = ps.len();
            let mut i: usize = 0;
            #[verifier::loop_isolation(false)]
            while i < n
                invariant
                    i <= n,
                    n == ps@.len(),
                    deeper@ == ind@ + seq![SP, SP],
                    out@ + pretty_pairs(*ps, i as int, ind@) =~= old(out)@ + seq![LB, LF]
                        + pretty_pairs(*ps, 0, ind@),
                decreases n - i,
            {
                let ghost before = out@;
                let mut m: usize = 0;
                let dn = deeper.len();
                #[verifier::loop_isolation(false)]
                while m < dn
                    invariant
                        m <= dn,
                        dn == deeper@.len(),
                        out@ == before + deeper@.subrange(0, m as int),
                    decreases dn - m,
                {
                    out.push(deeper[m]);
                    m = m + 1;
                    proof {
                        assert(out@ =~= before + deeper@.subrange(0, m as int));
                    }
                }
                proof {
                    assert(out@ =~= before + deeper@);
                }
                let ghost before2 = out@;
                let key = &ps[i].0;
                let mut m2: usize = 0;
                let kn = key.len();
                #[verifier::loop_isolation(false)]
                while m2 < kn
                    invariant
                        m2 <= kn,
                        kn == key@.len(),
                        out@ == before2 + key@.subrange(0, m2 as int),
                    decreases kn - m2,
                {
                    out.push(key[m2]);
                    m2 = m2 + 1;
                    proof {
                        assert(out@ =~= before2 + key@.subrange(0, m2 as int));
                    }
                }
                out.push(SP);
                proof {
                    assert(decreases_to!(*node => *ps));
                    assert(decreases_to!(*ps => ps@));
                    assert(decreases_to!(ps@ => ps@[i as int]));
                    assert(decreases_to!(ps@[i as int] => ps@[i as int].1));
                    assert(decreases_to!(*node => ps@[i as int].1));
                }
                write_tree(&ps[i].1, out, &deeper);
                proof {
                    assert(out@ =~= before + (ind@ + seq![SP, SP] + ps@[i as int].0@ + seq![SP]
                        + spec_pretty(ps@[i as int].1, ind@ + seq![SP, SP])));
                    assert(out@ + pretty_pairs(*ps, i + 1, ind@) =~= before + pretty_pairs(
                        *ps,
                        i as int,
                        ind@,
                    ));
                }
                i = i + 1;
            }
            let mut m3: usize = 0;
            let ghost before3 = out@;
            let inn = ind.len();
            #[verifier::loop_isolation(false)]
            while m3 < inn
                invariant
                    m3 <= inn,
                    inn == ind@.len(),
                    out@ == before3 + ind@.subrange(0, m3 as int),
                decreases inn - m3,
            {
                out.push(ind[m3]);
                m3 = m3 + 1;
                proof {
                    assert(out@ =~= before3 + ind@.subrange(0, m3 as int));
                }
            }
            out.push(RB);
            out.push(LF);
            proof {
                assert(pretty_pairs(*ps, n as int, ind@) =~= Seq::<u8>::empty());
                assert(before3 =~= old(out)@ + seq![LB, LF] + pretty_pairs(*ps, 0, ind@));
                assert(out@ =~= old(out)@ + spec_pretty(*node, ind@));
            }
        },
    }
}

/// Relies on `String::from_utf8_lossy`: on valid UTF-8 input it returns the
/// decoded text unchanged.
#[verifier::external_body]
fn bytes_to_text_lossy(v: &Vec<u8>) -> (r: String)
    ensures
        vstd::utf8::valid_utf8(v@) ==> r@ == vstd::utf8::decode_utf8(v@),
{
    String::from_utf8_lossy(v.as_slice()).into_owned()
}

/// Renders a tree as indented text for diagnostics. When the rendering is
/// valid UTF-8 (it is whenever every key and scalar is valid UTF-8), the
/// string is exactly the decoded rendering; bytes that are not valid UTF-8
/// are replaced.
pub fn pretty_print(t: &ValueType) -> (r: String)
    ensures
        vstd::utf8::valid_utf8(spec_pretty(*t, Seq::empty())) ==> r@ == vstd::utf8::decode_utf8(
            spec_pretty(*t, Seq::empty()),
        ),
{
    let mut out: Vec<u8> = Vec::new();
    let ind: Vec<u8> = Vec::new();
    write_tree(t, &mut out, &ind);
    proof {
        assert(out@ =~= spec_pretty(*t, Seq::empty()));
    }
    bytes_to_text_lossy(&out)
}

} // verus!
