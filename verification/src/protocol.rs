//! The line-oriented wire protocol.
//!
//! A client line is either `destination[,destination...]:free-text-body`,
//! routed as a message, or a line without a colon, which is ignored.
//! Deliveries reach a peer as `"<sender>: <body>"` and system lines as
//! `"SYS:<body>"`, each closed by a newline and a carriage return.

use vstd::prelude::*;

use crate::text::first_index_of;
use crate::text::lemma_first_index_of;
use crate::text::split_on;
use crate::text::trim;
use crate::text::trimmed;

verus! {

/// The line a routed message appends to a peer's mailbox.
pub open spec fn delivery_line(from: Seq<char>, msg: Seq<char>) -> Seq<char> {
    from + ": "@ + msg + "\n\r"@
}

/// The line a system message writes to a socket, bypassing the mailboxes.
pub open spec fn sys_line(msg: Seq<char>) -> Seq<char> {
    "SYS:"@ + msg + "\n\r"@
}

/// The system-message body greeting a newly admitted peer.
pub open spec fn welcome_text(name: Seq<char>) -> Seq<char> {
    "Welcome "@ + name + "\n\r"@
}

pub fn format_delivery(from: &str, msg: &str) -> (r: String)
    ensures
        r@ == delivery_line(from@, msg@),
{
    let mut r = String::from_str(from);
    r.append(": ");
    r.append(msg);
    r.append("\n\r");
    r
}

pub fn format_sys(msg: &str) -> (r: String)
    ensures
        r@ == sys_line(msg@),
{
    let mut r = String::from_str("SYS:");
    r.append(msg);
    r.append("\n\r");
    r
}

pub fn welcome_message(name: &str) -> (r: String)
    ensures
        r@ == welcome_text(name@),
{
    let mut r = String::from_str("Welcome ");
    r.append(name);
    r.append("\n\r");
    r
}

/// The destination names of a message line: the pieces of the text before
/// the colon between commas, each trimmed. Duplicates, self-addressing and
/// empty names all pass; the broker drops what it cannot route.
pub open spec fn spec_destinations(dest: Seq<char>) -> Seq<Seq<char>> {
    split_on(dest, ',').map_values(|p: Seq<char>| trimmed(p))
}

/// A client line cut at its first colon: the destination list before it,
/// the trimmed body after it; `None` when no colon occurs and the line is
/// to be ignored.
pub open spec fn spec_parse_message_line(line: Seq<char>) -> Option<(Seq<Seq<char>>, Seq<char>)> {
    match first_index_of(line, ':') {
        None => None,
        Some(i) => Some(
            (
                spec_destinations(line.subrange(0, i)),
                trimmed(line.subrange(i + 1, line.len() as int)),
            ),
        ),
    }
}

/// A parsed message line: where it goes and what it says.
pub struct MessageLine {
    pub to: Vec<String>,
    pub body: String,
}

/// Splits a destination list on commas and trims each entry.
pub fn split_destinations(dest: &str) -> (r: Vec<String>)
    ensures
        r.deep_view() == spec_destinations(dest@),
{
    let n = dest.unicode_len();
    let mut r: Vec<String> = Vec::new();
    let mut pos: usize = 0;
    proof {
        assert(dest@.subrange(0, n as int) =~= dest@);
        assert(r.deep_view() + spec_destinations(dest@) =~= spec_destinations(dest@));
    }
    loop
        invariant_except_break
            pos <= n,
            n == dest@.len(),
            spec_destinations(dest@) == r.deep_view() + spec_destinations(
                dest@.subrange(pos as int, n as int),
            ),
        ensures
            r.deep_view() == spec_destinations(dest@),
        decreases n - pos,
    {
        let ghost old_deep = r.deep_view();
        let sub = dest.substring_char(pos, n);
        let sublen = sub.unicode_len();
        let ghost f = |p: Seq<char>| trimmed(p);
        match crate::text::find_char(sub, ',') {
            None => {
                let piece = trim(sub);
                r.push(String::from_str(piece));
                proof {
                    lemma_first_index_of(sub@, ',');
                    assert(split_on(sub@, ',') == seq![sub@]);
                    assert(seq![sub@].map_values(f) =~= seq![trimmed(sub@)]);
                    assert(r.deep_view() =~= old_deep.push(piece@));
                    assert(r.deep_view() =~= old_deep + seq![trimmed(sub@)]);
                }
                break;
            },
            Some(k) => {
                proof {
                    lemma_first_index_of(sub@, ',');
                }
                let piece = trim(sub.substring_char(0, k));
                r.push(String::from_str(piece));
                proof {
                    let head = sub@.subrange(0, k as int);
                    let rest = sub@.subrange(k + 1, sublen as int);
                    assert(split_on(sub@, ',') == seq![head] + split_on(rest, ','));
                    assert((seq![head] + split_on(rest, ',')).map_values(f) =~= seq![trimmed(head)]
                        + split_on(rest, ',').map_values(f));
                    assert(r.deep_view() =~= old_deep.push(piece@));
                    assert(rest =~= dest@.subrange(pos + k + 1, n as int));
                    assert(old_deep + (seq![trimmed(head)] + spec_destinations(rest))
                        =~= r.deep_view() + spec_destinations(rest));
                }
                pos = pos + k + 1;
            },
        }
    }
    r
}

/// Reads one post-admission client line: `None` ignores a line without a
/// colon, otherwise the text before the first colon names the
/// destinations and the trimmed text after it is the body.
pub fn parse_message_line(line: &str) -> (r: Option<MessageLine>)
    ensures
        (r is Some) == (spec_parse_message_line(line@) is Some),
        r matches Some(m) ==> spec_parse_message_line(line@) == Some(
            (m.to.deep_view(), m.body@),
        ),
{
    let n = line.unicode_len();
    match crate::text::find_char(line, ':') {
        None => None,
        Some(i) => {
            proof {
                lemma_first_index_of(line@, ':');
            }
            let to = split_destinations(line.substring_char(0, i));
            let body = String::from_str(trim(line.substring_char(i + 1, n)));
            Some(MessageLine { to, body })
        },
    }
}

} // verus!
