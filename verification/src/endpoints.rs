//! What the request handlers compute: the name that a request path stands
//! for, the answer to a query, and the reply to a vote.

use percent_encoding_rfc3986::PercentDecode;
use vstd::pervasive::unreached;
use vstd::prelude::*;
use vstd::utf8::{decode_utf8, encode_utf8, valid_utf8};
use crate::entry::{fold, Entry};
use crate::model::{answer, can_vote, vote_entry, voted};
use crate::procedures::get::{GetPrefixError, Output};
use crate::procedures::vote::VoteResult;
use crate::tree::Tree;

verus! {

/// The value of a hexadecimal digit, in either case.
pub open spec fn hex_value(byte: u8) -> Option<u8> {
    if 0x30 <= byte <= 0x39 {
        Some((byte - 0x30) as u8)
    } else if 0x41 <= byte <= 0x46 {
        Some((byte - 0x41 + 10) as u8)
    } else if 0x61 <= byte <= 0x66 {
        Some((byte - 0x61 + 10) as u8)
    } else {
        None
    }
}

/// The bytes that percent-encoded bytes stand for: a percent sign with the
/// two hexadecimal digits behind it stands for the byte of that value, any
/// other byte for itself. There are none if a percent sign is not followed
/// by two hexadecimal digits.
pub open spec fn unescaped(bytes: Seq<u8>) -> Option<Seq<u8>>
    decreases bytes.len(),
{
    if bytes.len() == 0 {
        Some(Seq::empty())
    } else if bytes[0] != 0x25 {
        match unescaped(bytes.skip(1)) {
            Some(rest) => Some(seq![bytes[0]] + rest),
            None => None,
        }
    } else if bytes.len() >= 3 && hex_value(bytes[1]) is Some && hex_value(bytes[2]) is Some {
        match unescaped(bytes.skip(3)) {
            Some(rest) => Some(seq![(hex_value(bytes[1])->0 * 16 + hex_value(bytes[2])->0) as u8] + rest),
            None => None,
        }
    } else {
        None
    }
}

/// The name that a request path stands for: the path with its percent
/// encoding undone, or the path as it is where it is not validly encoded or
/// does not decode to text.
pub open spec fn decoded_name(path: Seq<char>) -> Seq<char> {
    match unescaped(encode_utf8(path)) {
        Some(bytes) => if valid_utf8(bytes) {
            decode_utf8(bytes)
        } else {
            path
        },
        None => path,
    }
}

/// The decoder that `percent_encoding_rfc3986::percent_decode` hands out.
/// Nothing is known of it but the bytes that it yields.
#[verifier::external_type_specification]
#[verifier::external_body]
pub struct ExPercentDecode<'a>(PercentDecode<'a>);

/// The bytes that a decoder yields.
pub uninterp spec fn decoded_bytes(decoder: PercentDecode<'_>) -> Seq<u8>;

/// Stands for `percent_encoding_rfc3986::percent_decode`: it accepts the
/// input exactly if every percent sign in it is followed by two hexadecimal
/// digits, and the decoder then yields the input with each such triple
/// replaced by the byte of that value.
#[verifier::external_body]
fn percent_decode(input: &[u8]) -> (decoder: Option<PercentDecode<'_>>)
    ensures
        match decoder {
            Some(decoder) => unescaped(input@) == Some(decoded_bytes(decoder)),
            None => unescaped(input@) is None,
        },
{
    match percent_encoding_rfc3986::percent_decode(input) {
        Ok(decoder) => Some(decoder),
        Err(_) => None,
    }
}

/// Stands for `PercentDecode::decode_utf8`: the text that the decoder's bytes
/// encode, or nothing if they are not well-formed UTF-8.
#[verifier::external_body]
fn decode_text(decoder: PercentDecode<'_>) -> (text: Option<String>)
    ensures
        match text {
            Some(text) => valid_utf8(decoded_bytes(decoder)) && text@ == decode_utf8(
                decoded_bytes(decoder),
            ),
            None => !valid_utf8(decoded_bytes(decoder)),
        },
{
    match decoder.decode_utf8() {
        Ok(text) => Some(text.into_owned()),
        Err(_) => None,
    }
}

/// The name that a request path stands for.
pub fn parse_name(path: String) -> (name: String)
    ensures
        name@ == decoded_name(path@),
{
    let decoded = match percent_decode(path.as_str().as_bytes()) {
        Some(decoder) => decode_text(decoder),
        None => None,
    };
    match decoded {
        Some(name) => name,
        None => path,
    }
}

/// The answer to a query for the prefix that `path` stands for. A prefix
/// without a node has the empty answer.
pub fn get_entries(path: String, tree: &Tree) -> (output: Output)
    requires
        tree.wf(),
    ensures
        output.values() == if tree@.contains_key(fold(decoded_name(path@))) {
            answer(tree@[fold(decoded_name(path@))], tree.suggestions())
        } else {
            Seq::empty()
        },
        output.values().len() <= tree.suggestions(),
{
    let name = parse_name(path);
    match tree.get_top(name.as_str()) {
        Ok(output) => output,
        Err(GetPrefixError::NotFound(_)) => Output::default(),
    }
}

/// The answer to a query for the empty prefix: the best entries of the whole tree.
pub fn get_top_entries(tree: &Tree) -> (output: Output)
    requires
        tree.wf(),
    ensures
        output.values() == answer(tree@[Seq::<char>::empty()], tree.suggestions()),
        output.values().len() <= tree.suggestions(),
{
    let empty = String::new();
    proof {
        tree.lemma_filed(0);
        assert(tree.key_at(0) =~= Seq::<char>::empty());
        assert(fold(empty@) =~= Seq::<char>::empty());
    }
    match tree.get_top(empty.as_str()) {
        Ok(output) => output,
        Err(GetPrefixError::NotFound(_)) => Output::default(),
    }
}

/// The body of a vote request.
#[derive(Debug)]
pub struct Input {
    pub name: String,
}

/// The reply to a vote request.
#[derive(Debug)]
pub enum VoteOutput {
    /// The name is unknown: the reply has no body.
    BadRequest,
    /// The vote was counted: the reply holds the entry.
    Created(Entry),
}

impl VoteOutput {
    /// The status code of the reply: 400 for an unknown name, 201 for a counted vote.
    pub fn status(&self) -> (code: u16)
        ensures
            code == match self {
                VoteOutput::BadRequest => 400u16,
                VoteOutput::Created(_) => 201u16,
            },
    {
        match self {
            VoteOutput::BadRequest => 400,
            VoteOutput::Created(_) => 201,
        }
    }
}

impl VoteResult {
    /// The reply that stands for the result of a whole vote. The result of a
    /// single step has none.
    pub fn into_output(self) -> (output: VoteOutput)
        requires
            !(self is Next),
        ensures
            match output {
                VoteOutput::BadRequest => self is NotFound,
                VoteOutput::Created(entry) => self == VoteResult::Success(entry),
            },
    {
        match self {
            VoteResult::NotFound => VoteOutput::BadRequest,
            VoteResult::Success(entry) => VoteOutput::Created(entry),
            VoteResult::Next(_) => unreached(),
        }
    }
}

/// Counts the vote of a request and gives the reply.
pub fn vote(request: Input, tree: &mut Tree) -> (output: VoteOutput)
    requires
        old(tree).wf(),
        can_vote(old(tree)@, request.name@) ==> old(tree)@[fold(request.name@)].times < u64::MAX,
    ensures
        final(tree).wf(),
        final(tree).suggestions() == old(tree).suggestions(),
        match output {
            VoteOutput::Created(entry) => {
                &&& can_vote(old(tree)@, request.name@)
                &&& entry@ == vote_entry(old(tree)@, request.name@)
                &&& final(tree)@ == voted(old(tree)@, request.name@, old(tree).suggestions())
            },
            VoteOutput::BadRequest => {
                &&& !can_vote(old(tree)@, request.name@)
                &&& final(tree)@ == old(tree)@
            },
        },
{
    let result = tree.vote(request.name.as_str());
    result.into_output()
}

} // verus!
