//! Blocks as text: reading a list of networks in CIDR notation, one to a
//! line, and writing a block out again.
//!
//! The notation of a single network is the business of the `ipnet` crate;
//! what it reads from a piece of text and what it writes for a network are
//! named here and not described. Lines, white space, and the rule that a
//! network must be canonical are this library's own.

use vstd::prelude::*;
use vstd::std_specs::iter::IteratorSpec;
use crate::block::{canonical, canonicalize, rejection, Block, InvalidBlockError};
use crate::family::Family;
use crate::lines::{entries, next_line};

verus! {

/// A family, an address and a prefix length as read from text, before
/// anything is known of the host bits.
#[derive(Clone, Copy, Debug, PartialEq, Eq, Structural)]
pub struct ParsedNet {
    pub family: Family,
    pub address: u128,
    pub prefix_len: u8,
}

/// Why a piece of text is not a block.
#[derive(Clone, Copy, Debug, PartialEq, Eq, Structural)]
pub enum ParseErrorKind {
    /// The text is not a network in CIDR notation.
    Syntax,
    /// The text is a network, but not a canonical block.
    Invalid(InvalidBlockError),
}

/// The first entry of a list that is not a block, and why.
#[derive(Debug, PartialEq, Eq)]
pub struct ParseError {
    /// The entry, without the white space around it.
    pub text: String,
    pub kind: ParseErrorKind,
}

/// What `ipnet` reads from a piece of text: a network, or nothing where the
/// text is not a network in CIDR notation.
pub uninterp spec fn ipnet_parse(text: Seq<char>) -> Option<ParsedNet>;

/// What `ipnet` writes for the network of a family with the given address
/// and prefix length.
pub uninterp spec fn ipnet_text(family: Family, address: u128, prefix_len: u8) -> Seq<char>;

/// Calls the `FromStr` implementation of `ipnet::IpNet` (`str::parse`) and
/// hands back the parts of the network it read. Assumed: the outcome is a
/// function of the text alone. Nothing is assumed of which texts are
/// networks, nor of the parts.
#[verifier::external_body]
fn parse_net(text: &str) -> (r: Option<ParsedNet>)
    ensures
        r == ipnet_parse(text@),
{
    let parsed = text.parse::<ipnet::IpNet>();
    match parsed {
        Ok(ipnet::IpNet::V4(n)) => {
            let address: u128 = u32::from(n.addr()).into();
            Some(ParsedNet { family: Family::V4, address, prefix_len: n.prefix_len() })
        },
        Ok(ipnet::IpNet::V6(n)) => {
            let address: u128 = n.addr().into();
            Some(ParsedNet { family: Family::V6, address, prefix_len: n.prefix_len() })
        },
        Err(_) => None,
    }
}

/// Calls the `Display` implementation of `ipnet::IpNet` (`to_string`) on
/// the network made of the given parts. Assumed: the text is a function of
/// the parts alone. Nothing is assumed of the notation.
#[verifier::external_body]
fn net_text(family: Family, address: u128, prefix_len: u8) -> (text: String)
    requires
        canonical(family, address as int, prefix_len as nat),
    ensures
        text@ == ipnet_text(family, address, prefix_len),
{
    let net = match family {
        Family::V4 => ipnet::IpNet::V4(
            ipnet::Ipv4Net::new((address as u32).into(), prefix_len).unwrap(),
        ),
        Family::V6 => ipnet::IpNet::V6(ipnet::Ipv6Net::new(address.into(), prefix_len).unwrap()),
    };
    net.to_string()
}

/// `String::push` appends one character to the string.
pub assume_specification[ String::push ](s: &mut String, ch: char)
    ensures
        final(s)@ == old(s)@.push(ch),
;

/// What becomes of a piece of text that `ipnet` has read: the parts of a
/// block, or the reason why there is none.
pub open spec fn outcome(parsed: Option<ParsedNet>) -> Result<ParsedNet, ParseErrorKind> {
    match parsed {
        None => Err(ParseErrorKind::Syntax),
        Some(p) => match rejection(p.family, p.address as int, p.prefix_len as nat) {
            Some(e) => Err(ParseErrorKind::Invalid(e)),
            None => Ok(p),
        },
    }
}

/// The block `b` is made of the parts `p`.
pub open spec fn made_of(b: Block, p: ParsedNet) -> bool {
    b.wf() && b.family() == p.family && b.address() == p.address && b.prefix_len() == p.prefix_len
}

/// `r` is what `expected` asks for: the block of those parts, or that error.
pub open spec fn agrees(
    r: Result<Block, ParseErrorKind>,
    expected: Result<ParsedNet, ParseErrorKind>,
) -> bool {
    match expected {
        Ok(p) => r matches Ok(b) && made_of(b, p),
        Err(kind) => r == Err::<Block, ParseErrorKind>(kind),
    }
}

/// Turns what was read from a piece of text into a block: a text that is no
/// network is a syntax error, a network that is not canonical is invalid.
pub fn block_from_parsed(parsed: Option<ParsedNet>) -> (r: Result<Block, ParseErrorKind>)
    ensures
        agrees(r, outcome(parsed)),
{
    match parsed {
        None => Err(ParseErrorKind::Syntax),
        Some(p) => match canonicalize(p.family, p.address, p.prefix_len) {
            Ok(b) => Ok(b),
            Err(e) => Err(ParseErrorKind::Invalid(e)),
        },
    }
}

/// Reads one block from text in CIDR notation. White space is not skipped.
pub fn parse_block(text: &str) -> (r: Result<Block, ParseErrorKind>)
    ensures
        agrees(r, outcome(ipnet_parse(text@))),
{
    block_from_parsed(parse_net(text))
}

impl Block {
    /// The block in CIDR notation: its address, a slash, its prefix length.
    pub fn to_text(&self) -> (text: String)
        ensures
            text@ == ipnet_text(self.family(), self.address(), self.prefix_len()),
    {
        proof {
            use_type_invariant(self);
        }
        net_text(self.family(), self.address(), self.prefix_len())
    }
}

/// The characters `lo .. hi` of `chars` as a string.
fn text_of(chars: &Vec<char>, lo: usize, hi: usize) -> (text: String)
    requires
        lo <= hi <= chars@.len(),
    ensures
        text@ == chars@.subrange(lo as int, hi as int),
{
    let mut text = String::new();
    let mut i = lo;
    proof {
        assert(chars@.subrange(lo as int, lo as int) =~= Seq::<char>::empty());
    }
    while i < hi
        invariant
            lo <= i <= hi <= chars@.len(),
            text@ == chars@.subrange(lo as int, i as int),
        decreases hi - i,
    {
        text.push(chars[i]);
        proof {
            assert(chars@.subrange(lo as int, i + 1) =~= chars@.subrange(lo as int, i as int).push(
                chars@[i as int],
            ));
        }
        i = i + 1;
    }
    text
}

/// The characters of a string.
fn chars_of(text: &str) -> (chars: Vec<char>)
    ensures
        chars@ == text@,
{
    let mut chars: Vec<char> = Vec::new();
    proof {
        vstd::string::axiom_spec_iter(text);
    }
    for c in it: text.chars()
        invariant
            it.seq() == text@,
            chars@ == text@.take(it.index()),
    {
        chars.push(c);
        proof {
            assert(text@.take(it.index() + 1) =~= text@.take(it.index()).push(c));
        }
    }
    proof {
        assert(text@.take(text@.len() as int) =~= text@);
    }
    chars
}

/// What becomes of an entry: the parts of a block, or the reason why the
/// entry is none.
pub open spec fn reads(entry: Seq<char>) -> Result<ParsedNet, ParseErrorKind> {
    outcome(ipnet_parse(entry))
}

/// `r` is what parsing the entries `all` gives: a block for each entry, in
/// order, where every entry is a block; else the first entry that is none,
/// with the reason.
pub open spec fn parses_to(r: Result<Vec<Block>, ParseError>, all: Seq<Seq<char>>) -> bool {
    match r {
        Ok(blocks) => {
            &&& blocks@.len() == all.len()
            &&& forall|i: int|
                0 <= i < all.len() ==> (reads(#[trigger] all[i]) matches Ok(p) && made_of(
                    blocks@[i],
                    p,
                ))
        },
        Err(e) => exists|k: int|
            {
                &&& 0 <= k < all.len()
                &&& forall|i: int| 0 <= i < k ==> reads(#[trigger] all[i]) is Ok
                &&& reads(#[trigger] all[k]) == Err::<ParsedNet, ParseErrorKind>(e.kind)
                &&& e.text@ == all[k]
            },
    }
}

/// An entry that is no block, behind entries that all are blocks, is the
/// first failure of the list.
proof fn lemma_first_failure(
    all: Seq<Seq<char>>,
    seen: Seq<Seq<char>>,
    head: Seq<char>,
    tail: Seq<Seq<char>>,
    kind: ParseErrorKind,
)
    requires
        all == seen.push(head) + tail,
        forall|i: int| 0 <= i < seen.len() ==> reads(#[trigger] seen[i]) is Ok,
        reads(head) == Err::<ParsedNet, ParseErrorKind>(kind),
    ensures
        0 <= seen.len() < all.len(),
        forall|i: int| 0 <= i < seen.len() ==> reads(#[trigger] all[i]) is Ok,
        reads(all[seen.len() as int]) == Err::<ParsedNet, ParseErrorKind>(kind),
        all[seen.len() as int] == head,
{
    assert forall|i: int| 0 <= i < seen.len() implies reads(#[trigger] all[i]) is Ok by {
        assert(all[i] == seen[i]);
    }
    assert(all[seen.len() as int] == head);
}

/// Reads a list of networks, one to a line. White space around a network
/// and lines without one are skipped. The first line that is not a block
/// ends the reading: nothing is returned but that line and the reason.
pub fn parse_nets(text: &str) -> (r: Result<Vec<Block>, ParseError>)
    ensures
        parses_to(r, entries(text@)),
{
    let chars = chars_of(text);
    let n = chars.len();
    let mut out: Vec<Block> = Vec::new();
    let mut pos: usize = 0;
    let mut more = true;
    let ghost all = entries(text@);
    let ghost mut seen: Seq<Seq<char>> = Seq::empty();
    let ghost none = Seq::<Seq<char>>::empty();
    proof {
        assert(chars@.skip(0) =~= text@);
        assert(seen + all =~= all);
    }
    while more
        invariant
            n == chars@.len(),
            pos <= n,
            none == Seq::<Seq<char>>::empty(),
            all == entries(text@),
            all == seen + (if more {
                entries(chars@.skip(pos as int))
            } else {
                none
            }),
            out@.len() == seen.len(),
            forall|i: int|
                0 <= i < seen.len() ==> (reads(#[trigger] seen[i]) matches Ok(p) && made_of(
                    out@[i],
                    p,
                )),
        decreases (n - pos) + (if more { 1int } else { 0int }),
    {
        let (lo, hi, eol) = next_line(&chars, pos);
        let ghost head = chars@.subrange(lo as int, hi as int);
        let ghost tail = if eol < n {
            entries(chars@.skip(eol + 1))
        } else {
            none
        };
        if lo < hi {
            let entry = text_of(&chars, lo, hi);
            let parsed = parse_block(entry.as_str());
            proof {
                assert(all =~= seen.push(head) + tail);
                assert(seen.push(head)[seen.len() as int] == head);
            }
            match parsed {
                Ok(block) => {
                    let ghost before = out@;
                    out.push(block);
                    proof {
                        let grown = seen.push(head);
                        assert forall|i: int| 0 <= i < grown.len() implies (reads(
                            #[trigger] grown[i],
                        ) matches Ok(p) && made_of(out@[i], p)) by {
                            if i < seen.len() {
                                assert(grown[i] == seen[i]);
                                assert(out@[i] == before[i]);
                            }
                        }
                        seen = grown;
                    }
                },
                Err(kind) => {
                    let error = ParseError { text: entry, kind };
                    proof {
                        lemma_first_failure(all, seen, head, tail, kind);
                        assert(error.text@ == all[seen.len() as int]);
                    }
                    return Err(error);
                },
            }
        } else {
            proof {
                assert(none + tail =~= tail);
            }
        }
        if eol < n {
            pos = eol + 1;
        } else {
            more = false;
        }
    }
    proof {
        assert(all =~= seen);
    }
    Ok(out)
}

} // verus!
