//! The commands of the interactive loop: which request a line of input makes.
//!
//! A line is split at whitespace. Its first token names the command, the second
//! is the key and the third the value; a token that is missing counts as empty.

use crate::bytes::bytes_equal;
use crate::codec::{Entry, EntryView};
use vstd::prelude::*;
use vstd::slice::slice_to_vec;
use vstd::utf8::{encode_utf8, encode_utf8_decode_utf8};

verus! {

/// What the first token of a line asks for.
#[derive(Debug, Clone, Copy, PartialEq, Eq, Structural)]
pub enum Command {
    Get,
    Put,
    Invalid,
    Quit,
}

/// The command that a token names: `get`, `put`, and `q` or `quit`. Every
/// other token, the empty one too, is invalid.
pub open spec fn command_of(token: Seq<char>) -> Command {
    if token == "get"@ {
        Command::Get
    } else if token == "put"@ {
        Command::Put
    } else if token == "q"@ || token == "quit"@ {
        Command::Quit
    } else {
        Command::Invalid
    }
}

/// The text of a token that may be missing.
pub open spec fn text_of(maybe_token: Option<&str>) -> Seq<char> {
    match maybe_token {
        Some(token) => token@,
        None => Seq::empty(),
    }
}

fn same_text(a: &str, b: &str) -> (same: bool)
    ensures
        same == (a@ == b@),
{
    proof {
        encode_utf8_decode_utf8(a@);
        encode_utf8_decode_utf8(b@);
    }
    bytes_equal(a.as_bytes(), b.as_bytes())
}

/// Reads a command from the first token of a line.
pub fn parse_command(maybe_token: Option<&str>) -> (command: Command)
    ensures
        command == command_of(text_of(maybe_token)),
{
    let token = maybe_token.unwrap_or("");
    proof {
        reveal_strlit("");
        assert(""@ =~= Seq::<char>::empty());
    }
    if same_text(token, "get") {
        Command::Get
    } else if same_text(token, "put") {
        Command::Put
    } else if same_text(token, "q") || same_text(token, "quit") {
        Command::Quit
    } else {
        Command::Invalid
    }
}

/// What a line of input asks the store to do.
#[derive(Debug, PartialEq, Eq)]
pub enum Request {
    /// Append this entry.
    Put(Entry),
    /// Look this key up.
    Get(Vec<u8>),
    /// The line names no command.
    Invalid,
    /// Leave the loop.
    Quit,
}

impl Clone for Request {
    fn clone(&self) -> (copy: Request)
        ensures
            copy@ == self@,
    {
        match self {
            Request::Put(entry) => Request::Put(entry.clone()),
            Request::Get(key) => Request::Get(key.clone()),
            Request::Invalid => Request::Invalid,
            Request::Quit => Request::Quit,
        }
    }
}

/// A request over byte sequences.
pub enum RequestView {
    Put(EntryView),
    Get(Seq<u8>),
    Invalid,
    Quit,
}

impl View for Request {
    type V = RequestView;

    open spec fn view(&self) -> RequestView {
        match self {
            Request::Put(entry) => RequestView::Put(entry@),
            Request::Get(key) => RequestView::Get(key@),
            Request::Invalid => RequestView::Invalid,
            Request::Quit => RequestView::Quit,
        }
    }
}

/// The token at `index`, or the empty text where the line has fewer tokens.
pub open spec fn token_at(tokens: Seq<Seq<char>>, index: int) -> Seq<char> {
    if 0 <= index < tokens.len() {
        tokens[index]
    } else {
        Seq::empty()
    }
}

/// The request that the tokens of a line make. Keys and values are the UTF-8
/// bytes of their tokens.
pub open spec fn request_of(tokens: Seq<Seq<char>>) -> RequestView {
    let key = encode_utf8(token_at(tokens, 1));
    let value = encode_utf8(token_at(tokens, 2));
    match command_of(token_at(tokens, 0)) {
        Command::Quit => RequestView::Quit,
        Command::Invalid => RequestView::Invalid,
        Command::Put => RequestView::Put(EntryView { key, value }),
        Command::Get => RequestView::Get(key),
    }
}

/// The texts of a sequence of tokens.
pub open spec fn texts_of(tokens: Seq<&str>) -> Seq<Seq<char>> {
    tokens.map_values(|token: &str| token@)
}

fn token_or_empty<'a>(tokens: &[&'a str], index: usize) -> (token: &'a str)
    ensures
        token@ == token_at(texts_of(tokens@), index as int),
{
    proof {
        reveal_strlit("");
        assert(""@ =~= Seq::<char>::empty());
    }
    if index < tokens.len() {
        tokens[index]
    } else {
        ""
    }
}

/// Turns the tokens of a line into a request.
pub fn request_from_tokens(tokens: &[&str]) -> (request: Request)
    ensures
        request@ == request_of(texts_of(tokens@)),
{
    let key = slice_to_vec(token_or_empty(tokens, 1).as_bytes());
    let value = slice_to_vec(token_or_empty(tokens, 2).as_bytes());
    match parse_command(Some(token_or_empty(tokens, 0))) {
        Command::Quit => Request::Quit,
        Command::Invalid => Request::Invalid,
        Command::Put => Request::Put(Entry { key, value }),
        Command::Get => Request::Get(key),
    }
}

/// The tokens that `str::split_whitespace` finds in a line.
pub uninterp spec fn whitespace_tokens(line: Seq<char>) -> Seq<Seq<char>>;

/// Splits a line with `str::split_whitespace` of the standard library. The
/// contract only names what comes back: the tokens are those of
/// `whitespace_tokens`, in their order. What counts as whitespace is left to
/// the standard library and is not proved here.
#[verifier::external_body]
fn split_whitespace<'a>(line: &'a str) -> (tokens: Vec<&'a str>)
    ensures
        texts_of(tokens@) == whitespace_tokens(line@),
{
    line.split_whitespace().collect()
}

/// Reads a line of input as a request.
pub fn interpret(line: &str) -> (request: Request)
    ensures
        request@ == request_of(whitespace_tokens(line@)),
{
    let tokens = split_whitespace(line);
    request_from_tokens(tokens.as_slice())
}

} // verus!
