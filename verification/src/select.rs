use vstd::prelude::*;

use base64::Engine;

use crate::error::Error;
use crate::group::lemma_filter_push;

verus! {

/// Names the bytes that the standard-alphabet base64 decoder yields for a
/// text, when it accepts the text.
pub uninterp spec fn base64_decode_of(s: Seq<char>) -> Option<Seq<u8>>;

/// Names the canonical binary form that the content-identifier parser
/// yields for a byte string, when it accepts it.
pub uninterp spec fn cid_canon_of(b: Seq<u8>) -> Option<Seq<u8>>;

/// Relies on base64's `Engine::decode` with the standard alphabet
/// (`general_purpose::STANDARD`): whether a text decodes, and to which
/// bytes, depends on the text alone.
#[verifier::external_body]
fn base64_decode(s: &str) -> (r: Option<Vec<u8>>)
    ensures
        r is Some <==> base64_decode_of(s@) is Some,
        r matches Some(b) ==> Option::Some(b@) == base64_decode_of(s@),
{
    base64::engine::general_purpose::STANDARD.decode(s).ok()
}

/// Relies on cid's `Cid::try_from` on raw bytes and `Cid::to_bytes`:
/// whether bytes parse as a content identifier, and the parsed identifier's
/// re-encoded form, depend on the bytes alone.
#[verifier::external_body]
fn cid_canonical(b: &Vec<u8>) -> (r: Option<Vec<u8>>)
    ensures
        r is Some <==> cid_canon_of(b@) is Some,
        r matches Some(c) ==> Option::Some(c@) == cid_canon_of(b@),
{
    cid::Cid::try_from(b.as_slice()).ok().map(|c| c.to_bytes())
}

/// The canonical identifier one selection line encodes, if the line is
/// base64 text for a well-formed identifier.
pub open spec fn line_identifier(s: Seq<char>) -> Option<Seq<u8>> {
    match base64_decode_of(s) {
        Option::Some(b) => cid_canon_of(b),
        Option::None => Option::None,
    }
}

/// Decode base64 lines into canonical identifiers; any line that is not
/// base64 for a well-formed identifier fails the whole list.
#[verifier::loop_isolation(false)]
pub fn parse_identifiers(lines: &Vec<String>) -> (r: Result<Vec<Vec<u8>>, Error>)
    ensures
        r is Ok <==> (forall|i: int|
            0 <= i < lines@.len() ==> line_identifier((#[trigger] lines@[i])@) is Some),
        r matches Ok(ids) ==> ids@.len() == lines@.len() && (forall|i: int|
            0 <= i < lines@.len() ==> Option::Some((#[trigger] ids@[i])@) == line_identifier(
                lines@[i]@,
            )),
        r matches Err(e) ==> e is InvalidIdentifier,
{
    let mut out: Vec<Vec<u8>> = Vec::new();
    let mut i: usize = 0;
    while i < lines.len()
        invariant
            i <= lines@.len(),
            out@.len() == i,
            forall|k: int|
                0 <= k < i ==> Option::Some((#[trigger] out@[k])@) == line_identifier(lines@[k]@),
        decreases lines@.len() - i,
    {
        match base64_decode(lines[i].as_str()) {
            Option::Some(b) => {
                match cid_canonical(&b) {
                    Option::Some(c) => {
                        out.push(c);
                    },
                    Option::None => {
                        proof {
                            assert(line_identifier(lines@[i as int]@) is None);
                        }
                        return Err(Error::InvalidIdentifier);
                    },
                }
            },
            Option::None => {
                proof {
                    assert(line_identifier(lines@[i as int]@) is None);
                }
                return Err(Error::InvalidIdentifier);
            },
        }
        i = i + 1;
    }
    proof {
        assert forall|t: int| 0 <= t < lines@.len() implies line_identifier(
            (#[trigger] lines@[t])@,
        ) is Some by {
            assert(Option::Some(out@[t]@) == line_identifier(lines@[t]@));
        }
    }
    Ok(out)
}

pub open spec fn bytes_list_view(s: Seq<Vec<u8>>) -> Seq<Seq<u8>>
    decreases s,
{
    if s.len() == 0 {
        Seq::empty()
    } else {
        seq![s[0]@] + bytes_list_view(s.drop_first())
    }
}

pub broadcast proof fn lemma_bytes_list_view(s: Seq<Vec<u8>>)
    ensures
        (#[trigger] bytes_list_view(s)).len() == s.len(),
        forall|i: int| 0 <= i < s.len() ==> #[trigger] bytes_list_view(s)[i] == s[i]@,
    decreases s.len(),
{
    if s.len() > 0 {
        lemma_bytes_list_view(s.drop_first());
        assert forall|i: int| 0 <= i < s.len() implies #[trigger] bytes_list_view(s)[i]
            == s[i]@ by {
            if i > 0 {
                assert(bytes_list_view(s.drop_first())[i - 1] == s.drop_first()[i - 1]@);
                assert(s.drop_first()[i - 1] == s[i]);
            }
        }
    }
}

pub open spec fn blocks_view(s: Seq<(Vec<u8>, Vec<u8>)>) -> Seq<(Seq<u8>, Seq<u8>)>
    decreases s,
{
    if s.len() == 0 {
        Seq::empty()
    } else {
        seq![(s[0].0@, s[0].1@)] + blocks_view(s.drop_first())
    }
}

pub broadcast proof fn lemma_blocks_view(s: Seq<(Vec<u8>, Vec<u8>)>)
    ensures
        (#[trigger] blocks_view(s)).len() == s.len(),
        forall|i: int| 0 <= i < s.len() ==> #[trigger] blocks_view(s)[i] == (s[i].0@, s[i].1@),
    decreases s.len(),
{
    if s.len() > 0 {
        lemma_blocks_view(s.drop_first());
        assert forall|i: int| 0 <= i < s.len() implies #[trigger] blocks_view(s)[i] == (
        s[i].0@,
        s[i].1@,
        ) by {
            if i > 0 {
                assert(blocks_view(s.drop_first())[i - 1] == (
                    s.drop_first()[i - 1].0@,
                    s.drop_first()[i - 1].1@,
                ));
                assert(s.drop_first()[i - 1] == s[i]);
            }
        }
    }
}

/// Whether an identifier is among the wanted ones.
pub open spec fn id_in(wanted: Seq<Seq<u8>>, id: Seq<u8>) -> bool {
    exists|j: int| 0 <= j < wanted.len() && #[trigger] wanted[j] == id
}

/// Membership test for a block, by its identifier.
pub open spec fn block_pred(wanted: Seq<Seq<u8>>) -> spec_fn((Seq<u8>, Seq<u8>)) -> bool {
    |b: (Seq<u8>, Seq<u8>)| id_in(wanted, b.0)
}

/// Decides byte-string equality.
pub fn bytes_eq(a: &Vec<u8>, b: &Vec<u8>) -> (r: bool)
    ensures
        r == (a@ == b@),
{
    if a.len() != b.len() {
        return false;
    }
    let mut i: usize = 0;
    while i < a.len()
        invariant
            i <= a@.len(),
            a@.len() == b@.len(),
            forall|k: int| 0 <= k < i ==> a@[k] == b@[k],
        decreases a@.len() - i,
    {
        if a[i] != b[i] {
            return false;
        }
        i = i + 1;
    }
    proof {
        assert(a@ =~= b@);
    }
    true
}

#[verifier::loop_isolation(false)]
fn contains_id(wanted: &Vec<Vec<u8>>, id: &Vec<u8>) -> (r: bool)
    ensures
        r == id_in(bytes_list_view(wanted@), id@),
{
    proof {
        lemma_bytes_list_view(wanted@);
    }
    let mut j: usize = 0;
    while j < wanted.len()
        invariant
            j <= wanted@.len(),
            forall|k: int| 0 <= k < j ==> bytes_list_view(wanted@)[k] != id@,
        decreases wanted@.len() - j,
    {
        if bytes_eq(&wanted[j], id) {
            proof {
                assert(bytes_list_view(wanted@)[j as int] == id@);
            }
            return true;
        }
        j = j + 1;
    }
    proof {
        if id_in(bytes_list_view(wanted@), id@) {
            let w: int = choose|w: int|
                0 <= w < bytes_list_view(wanted@).len() && bytes_list_view(wanted@)[w] == id@;
            assert(false);
        }
    }
    false
}

/// Keep exactly the blocks whose identifier is among the wanted ones, in
/// their original relative order.
#[verifier::loop_isolation(false)]
pub fn select_blocks(blocks: Vec<(Vec<u8>, Vec<u8>)>, wanted: &Vec<Vec<u8>>) -> (out: Vec<
    (Vec<u8>, Vec<u8>),
>)
    ensures
        blocks_view(out@) == blocks_view(blocks@).filter(block_pred(bytes_list_view(wanted@))),
{
    let ghost orig: Seq<(Vec<u8>, Vec<u8>)> = blocks@;
    let ghost pred = block_pred(bytes_list_view(wanted@));
    let mut rest = blocks;
    let mut out: Vec<(Vec<u8>, Vec<u8>)> = Vec::new();
    proof {
        lemma_blocks_view(orig);
        assert(orig.take(0) =~= Seq::<(Vec<u8>, Vec<u8>)>::empty());
        assert(blocks_view(orig.take(0)) =~= Seq::<(Seq<u8>, Seq<u8>)>::empty());
        reveal(Seq::filter);
        assert(blocks_view(out@) =~= blocks_view(orig.take(0)).filter(pred));
    }
    while rest.len() > 0
        invariant
            rest@.len() <= orig.len(),
            rest@ == orig.skip(orig.len() - rest@.len()),
            blocks_view(out@) == blocks_view(orig.take(orig.len() - rest@.len())).filter(pred),
        decreases rest@.len(),
    {
        let ghost p: int = orig.len() - rest@.len();
        let blk = rest.remove(0);
        proof {
            assert(blk == orig[p]);
            assert(rest@ =~= orig.skip(p + 1));
            assert(orig.take(p + 1) =~= orig.take(p).push(orig[p]));
            lemma_blocks_view(orig.take(p));
            lemma_blocks_view(orig.take(p + 1));
            assert(blocks_view(orig.take(p + 1)) =~= blocks_view(orig.take(p)).push(
                (orig[p].0@, orig[p].1@),
            ));
            lemma_filter_push(blocks_view(orig.take(p)), (orig[p].0@, orig[p].1@), pred);
        }
        let keep = contains_id(wanted, &blk.0);
        if keep {
            let ghost before: Seq<(Vec<u8>, Vec<u8>)> = out@;
            out.push(blk);
            proof {
                lemma_blocks_view(before);
                lemma_blocks_view(out@);
                assert(blocks_view(out@) =~= blocks_view(before).push((orig[p].0@, orig[p].1@)));
                assert(pred((orig[p].0@, orig[p].1@)));
            }
        } else {
            proof {
                assert(!pred((orig[p].0@, orig[p].1@)));
            }
        }
    }
    proof {
        assert(orig.take(orig.len() as int) =~= orig);
    }
    out
}

} // verus!
