//! The control protocol: telling commands from data.
//!
//! A datagram is a command when it is text, split at white space it has the
//! right number of words, and its first word is the name of the command.
//! Everything else is data, to be forwarded as it came.

use vstd::prelude::*;
use vstd::slice::{slice_subrange, slice_to_vec};
use vstd::string::StringSliceAdditionalSpecFns;
use vstd::utf8::valid_utf8;

verus! {

/// The largest payload that the relay takes from a datagram, in bytes.
pub const MAX_PACKET_LEN: usize = 1500;

/// The payload of a datagram.
pub type Packet = Vec<u8>;

/// The first word of a request to join a session.
pub const CONNECT_STR: &'static str = "CONNECT";

/// The first word of a request to leave a session.
pub const DISCONNECT_STR: &'static str = "DISCONNECT";

/// The bytes of the word `CONNECT`.
pub open spec fn connect_word() -> Seq<u8> {
    seq![0x43u8, 0x4f, 0x4e, 0x4e, 0x45, 0x43, 0x54]
}

/// The bytes of the word `DISCONNECT`.
pub open spec fn disconnect_word() -> Seq<u8> {
    seq![0x44u8, 0x49, 0x53, 0x43, 0x4f, 0x4e, 0x4e, 0x45, 0x43, 0x54]
}

/// What the relay takes from the payload of a datagram: all of it, up to
/// the first [`MAX_PACKET_LEN`] bytes.
pub open spec fn received(datagram: Seq<u8>) -> Seq<u8> {
    if datagram.len() > MAX_PACKET_LEN {
        datagram.take(MAX_PACKET_LEN as int)
    } else {
        datagram
    }
}

/// The bytes that separate words: space, and the five ASCII control
/// characters from horizontal tab to carriage return.
pub open spec fn is_whitespace(b: u8) -> bool {
    b == 0x20 || (0x09 <= b && b <= 0x0d)
}

/// `s` without the line feeds at its end.
pub open spec fn trimmed(s: Seq<u8>) -> Seq<u8>
    decreases s.len(),
{
    if s.len() > 0 && s.last() == 0x0a {
        trimmed(s.drop_last())
    } else {
        s
    }
}

/// The length of the longest prefix of `s` that holds no white space.
pub open spec fn word_len(s: Seq<u8>) -> nat
    decreases s.len(),
{
    if s.len() == 0 || is_whitespace(s[0]) {
        0
    } else {
        1 + word_len(s.drop_first())
    }
}

/// The words of `s`: its maximal runs of bytes that are not white space,
/// from left to right.
pub open spec fn tokens(s: Seq<u8>) -> Seq<Seq<u8>>
    decreases s.len(),
    via tokens_terminates
{
    if s.len() == 0 {
        Seq::empty()
    } else if is_whitespace(s[0]) {
        tokens(s.drop_first())
    } else {
        seq![s.take(word_len(s) as int)] + tokens(s.skip(word_len(s) as int))
    }
}

#[via_fn]
proof fn tokens_terminates(s: Seq<u8>) {
    lemma_word_len_bounds(s);
}

/// A word is no longer than the text it starts, and not empty where the text
/// starts with a byte that is not white space.
pub proof fn lemma_word_len_bounds(s: Seq<u8>)
    ensures
        word_len(s) <= s.len(),
        s.len() > 0 && !is_whitespace(s[0]) ==> word_len(s) >= 1,
    decreases s.len(),
{
    if s.len() > 0 && !is_whitespace(s[0]) {
        lemma_word_len_bounds(s.drop_first());
    }
}

/// The word at the start of `s` ends where the first white space is, or
/// where `s` ends.
pub proof fn lemma_word_len(s: Seq<u8>, n: int)
    requires
        0 <= n <= s.len(),
        forall|k: int| 0 <= k < n ==> !is_whitespace(s[k]),
        n == s.len() || is_whitespace(s[n]),
    ensures
        word_len(s) == n,
    decreases n,
{
    if n > 0 {
        lemma_word_len(s.drop_first(), n - 1);
    }
}

/// `w` is a word: it is not empty, and holds no white space.
pub open spec fn is_word(w: Seq<u8>) -> bool {
    w.len() > 0 && forall|k: int| 0 <= k < w.len() ==> !is_whitespace(w[k])
}

/// The word at the start of a text holds no white space.
pub proof fn lemma_word_is_solid(s: Seq<u8>, k: int)
    requires
        0 <= k < word_len(s),
    ensures
        k < s.len(),
        !is_whitespace(s[k]),
    decreases s.len(),
{
    if k > 0 {
        lemma_word_is_solid(s.drop_first(), k - 1);
    }
}

/// Every token is a word.
pub proof fn lemma_tokens_are_words(s: Seq<u8>, i: int)
    requires
        0 <= i < tokens(s).len(),
    ensures
        is_word(tokens(s)[i]),
    decreases s.len(),
{
    if s.len() == 0 {
    } else if is_whitespace(s[0]) {
        lemma_tokens_are_words(s.drop_first(), i);
    } else {
        let n = word_len(s) as int;
        lemma_word_len_bounds(s);
        if i == 0 {
            assert forall|k: int| 0 <= k < s.take(n).len() implies !is_whitespace(
                s.take(n)[k],
            ) by {
                lemma_word_is_solid(s, k);
            }
        } else {
            lemma_tokens_are_words(s.skip(n), i - 1);
        }
    }
}

/// A word, followed by white space or by nothing, is the first token of the
/// text.
pub proof fn lemma_tokens_after_word(w: Seq<u8>, rest: Seq<u8>)
    requires
        is_word(w),
        rest.len() == 0 || is_whitespace(rest[0]),
    ensures
        tokens(w + rest) == seq![w] + tokens(rest),
{
    let s = w + rest;
    lemma_word_len(s, w.len() as int);
    assert(s.take(w.len() as int) =~= w);
    assert(s.skip(w.len() as int) =~= rest);
}

/// White space at the start of a text adds no token.
pub proof fn lemma_tokens_after_space(b: u8, rest: Seq<u8>)
    requires
        is_whitespace(b),
    ensures
        tokens(seq![b] + rest) == tokens(rest),
{
    assert((seq![b] + rest).drop_first() =~= rest);
}

/// A text that does not end in a line feed is trimmed already, and line
/// feeds at the end of a text do not change what it is trimmed to.
pub proof fn lemma_trimmed(s: Seq<u8>, feeds: Seq<u8>)
    requires
        s.len() == 0 || s.last() != 0x0a,
        forall|k: int| 0 <= k < feeds.len() ==> feeds[k] == 0x0a,
    ensures
        trimmed(s + feeds) == s,
    decreases feeds.len(),
{
    if feeds.len() == 0 {
        assert(s + feeds =~= s);
    } else {
        assert((s + feeds).drop_last() =~= s + feeds.drop_last());
        lemma_trimmed(s, feeds.drop_last());
    }
}

/// A control command, by its name.
#[derive(Clone, Copy, Debug, PartialEq, Eq, Structural)]
pub enum Command {
    Connect,
    Disconnect,
}

/// The command that `word` names, if it names one.
pub open spec fn command_of(word: Seq<u8>) -> Option<Command> {
    if word == connect_word() {
        Some(Command::Connect)
    } else if word == disconnect_word() {
        Some(Command::Disconnect)
    } else {
        None
    }
}

/// What a datagram is: a request to join a session, a request to leave one,
/// or data.
#[derive(Debug, PartialEq, Eq)]
pub enum Message {
    Connect { secret: Vec<u8>, session: Vec<u8> },
    Disconnect { session: Vec<u8> },
    Data,
}

/// A [`Message`], its byte strings read as sequences.
pub ghost enum MessageView {
    Connect { secret: Seq<u8>, session: Seq<u8> },
    Disconnect { session: Seq<u8> },
    Data,
}

impl View for Message {
    type V = MessageView;

    open spec fn view(&self) -> MessageView {
        match *self {
            Message::Connect { secret, session } => MessageView::Connect {
                secret: secret@,
                session: session@,
            },
            Message::Disconnect { session } => MessageView::Disconnect { session: session@ },
            Message::Data => MessageView::Data,
        }
    }
}

/// What the payload of a datagram is.  A payload that is not UTF-8 is data.
/// One that is, is split into words after the line feeds at its end are
/// dropped: `CONNECT` with two more words asks to join the session that the
/// last word names, with the middle word as the secret; `DISCONNECT` with one
/// more word asks to leave the session that it names; anything else is data.
pub open spec fn classify(payload: Seq<u8>) -> MessageView {
    let words = tokens(trimmed(payload));
    if !valid_utf8(payload) {
        MessageView::Data
    } else if words.len() == 3 && command_of(words[0]) == Some(Command::Connect) {
        MessageView::Connect { secret: words[1], session: words[2] }
    } else if words.len() == 2 && command_of(words[0]) == Some(Command::Disconnect) {
        MessageView::Disconnect { session: words[1] }
    } else {
        MessageView::Data
    }
}

/// The error of `core::str::from_utf8`, of which nothing is read but that
/// it came.
#[verifier::external_type_specification]
#[verifier::external_body]
pub struct ExUtf8Error(core::str::Utf8Error);

/// `core::str::from_utf8` accepts exactly the byte strings that are
/// well-formed UTF-8, and the string it returns has the bytes it was given.
pub assume_specification[ core::str::from_utf8 ](v: &[u8]) -> (r: Result<
    &str,
    core::str::Utf8Error,
>)
    ensures
        r is Ok <==> valid_utf8(v@),
        r matches Ok(s) ==> s.spec_bytes() == v@,
;

/// The bytes of the two command names are what the string constants hold.
pub proof fn lemma_command_words()
    ensures
        CONNECT_STR.spec_bytes() == connect_word(),
        DISCONNECT_STR.spec_bytes() == disconnect_word(),
{
    broadcast use vstd::string::is_ascii_spec_bytes;

    reveal_strlit("CONNECT");
    reveal_strlit("DISCONNECT");
    assert(vstd::string::is_ascii(CONNECT_STR));
    assert(vstd::string::is_ascii(DISCONNECT_STR));
    assert(CONNECT_STR.spec_bytes() =~= connect_word());
    assert(DISCONNECT_STR.spec_bytes() =~= disconnect_word());
}

impl Command {
    /// The command that `word` names, if it names one.
    pub fn parse(word: &[u8]) -> (command: Option<Command>)
        ensures
            command == command_of(word@),
    {
        proof {
            lemma_command_words();
        }
        if bytes_eq(word, CONNECT_STR.as_bytes()) {
            Some(Command::Connect)
        } else if bytes_eq(word, DISCONNECT_STR.as_bytes()) {
            Some(Command::Disconnect)
        } else {
            None
        }
    }
}

/// Whether two byte strings are the same.
pub fn bytes_eq(a: &[u8], b: &[u8]) -> (same: bool)
    ensures
        same == (a@ == b@),
{
    if a.len() != b.len() {
        return false;
    }
    let mut i: usize = 0;
    while i < a.len()
        invariant
            a.len() == b.len(),
            i <= a.len(),
            forall|j: int| 0 <= j < i ==> a@[j] == b@[j],
        decreases a.len() - i,
    {
        if a[i] != b[i] {
            return false;
        }
        i = i + 1;
    }
    assert(a@ =~= b@);
    true
}

/// What the relay takes from the payload of a datagram.
pub fn receive_window(datagram: &[u8]) -> (payload: &[u8])
    ensures
        payload@ == received(datagram@),
{
    if datagram.len() > MAX_PACKET_LEN {
        slice_subrange(datagram, 0, MAX_PACKET_LEN)
    } else {
        datagram
    }
}

/// Whether `b` separates words.
pub fn is_ascii_whitespace(b: u8) -> (yes: bool)
    ensures
        yes == is_whitespace(b),
{
    b == 0x20 || (0x09 <= b && b <= 0x0d)
}

/// `buf` without the line feeds at its end.
pub fn trim_newlines(buf: &[u8]) -> (out: &[u8])
    ensures
        out@ == trimmed(buf@),
{
    let mut end: usize = buf.len();
    proof {
        assert(buf@.take(end as int) =~= buf@);
    }
    while end > 0 && buf[end - 1] == 0x0a
        invariant
            end <= buf.len(),
            trimmed(buf@) == trimmed(buf@.take(end as int)),
        decreases end,
    {
        proof {
            assert(buf@.take(end as int).drop_last() =~= buf@.take(end as int - 1));
        }
        end = end - 1;
    }
    slice_subrange(buf, 0, end)
}

/// The words of `buf`.
pub fn split_whitespace(buf: &[u8]) -> (words: Vec<Vec<u8>>)
    ensures
        words.deep_view() == tokens(buf@),
{
    let mut words: Vec<Vec<u8>> = Vec::new();
    let mut pos: usize = 0;
    proof {
        assert(buf@.skip(0) =~= buf@);
        assert(words.deep_view() =~= Seq::<Seq<u8>>::empty());
        assert(words.deep_view() + tokens(buf@) =~= tokens(buf@));
    }
    while pos < buf.len()
        invariant
            pos <= buf.len(),
            tokens(buf@) == words.deep_view() + tokens(buf@.skip(pos as int)),
        decreases buf.len() - pos,
    {
        let ghost rest = buf@.skip(pos as int);
        if is_ascii_whitespace(buf[pos]) {
            proof {
                assert(rest.drop_first() =~= buf@.skip(pos as int + 1));
            }
            pos = pos + 1;
        } else {
            let start = pos;
            let mut end: usize = pos + 1;
            while end < buf.len() && !is_ascii_whitespace(buf[end])
                invariant
                    start < end <= buf.len(),
                    forall|k: int| start <= k < end ==> !is_whitespace(buf@[k]),
                decreases buf.len() - end,
            {
                end = end + 1;
            }
            let word = slice_to_vec(slice_subrange(buf, start, end));
            proof {
                let n = end - start;
                lemma_word_len(rest, n);
                assert(rest.take(n) =~= buf@.subrange(start as int, end as int));
                assert(rest.skip(n) =~= buf@.skip(end as int));
                let before = words.deep_view();
                assert(words@.push(word).map_values(|w: Vec<u8>| w.deep_view()) =~= before.push(
                    word@,
                )) by {
                    assert(word.deep_view() =~= word@);
                }
                assert(before.push(word@) + tokens(buf@.skip(end as int)) =~= before + (seq![
                    word@,
                ] + tokens(buf@.skip(end as int))));
            }
            words.push(word);
            pos = end;
        }
    }
    proof {
        assert(buf@.skip(pos as int) =~= Seq::<u8>::empty());
        assert(words.deep_view() + Seq::<Seq<u8>>::empty() =~= words.deep_view());
    }
    words
}

/// Classifies the payload of a datagram.
pub fn check_for_command(buf: &[u8]) -> (message: Message)
    ensures
        message@ == classify(buf@),
{
    if core::str::from_utf8(buf).is_err() {
        return Message::Data;
    }
    let mut words = split_whitespace(trim_newlines(buf));
    let ghost all = words.deep_view();
    if words.len() == 0 {
        return Message::Data;
    }
    let command = Command::parse(words[0].as_slice());
    proof {
        assert(words[0]@ == all[0]);
    }
    match command {
        Some(Command::Connect) => {
            if words.len() == 3 {
                proof {
                    assert(words[1]@ == all[1]);
                    assert(words[2]@ == all[2]);
                }
                let session = words.pop().unwrap();
                let secret = words.pop().unwrap();
                Message::Connect { secret, session }
            } else {
                Message::Data
            }
        },
        Some(Command::Disconnect) => {
            if words.len() == 2 {
                proof {
                    assert(words[1]@ == all[1]);
                }
                let session = words.pop().unwrap();
                Message::Disconnect { session }
            } else {
                Message::Data
            }
        },
        None => Message::Data,
    }
}

} // verus!
