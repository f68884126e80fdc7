//! The line protocol between client and server.
//!
//! The client sends one query per line. The server answers `OK` or `ERROR` on
//! a line of its own, then the content, then a line `END`. The decoder here
//! takes the answer line by line, as the transport reads them.
use vstd::prelude::*;
use vstd::utf8::encode_utf8;
use crate::text::{trim, trimmed};

verus! {

/// A server answer.
#[derive(Debug)]
pub enum Response {
    Success(String),
    Error(String),
}

/// The text of an answer on the wire.
pub open spec fn response_text(r: Response) -> Seq<char> {
    match r {
        Response::Success(m) => "OK\n"@ + m@ + "\nEND\n"@,
        Response::Error(m) => "ERROR\n"@ + m@ + "\nEND\n"@,
    }
}

/// The query on a line as read from a client: the line without the
/// whitespace at its ends.
pub fn read_query(line: &str) -> (r: String)
    ensures
        r@ == trimmed(line@),
        line@.len() == 0 ==> r@.len() == 0,
{
    trim(line)
}

/// The UTF-8 bytes of a string.
fn utf8_bytes(s: &str) -> (r: Vec<u8>)
    ensures
        r@ == encode_utf8(s@),
{
    let b = s.as_bytes();
    let mut out: Vec<u8> = Vec::with_capacity(b.len());
    let mut i: usize = 0;
    while i < b.len()
        invariant
            0 <= i <= b@.len(),
            out@ =~= b@.subrange(0, i as int),
        decreases b@.len() - i,
    {
        out.push(b[i]);
        i += 1;
    }
    assert(b@.subrange(0, i as int) =~= b@);
    out
}

impl Response {
    /// The bytes sent for this answer.
    pub fn to_bytes(&self) -> (r: Vec<u8>)
        ensures
            r@ == encode_utf8(response_text(*self)),
    {
        let mut text = match self {
            Response::Success(_) => "OK\n".to_string(),
            Response::Error(_) => "ERROR\n".to_string(),
        };
        match self {
            Response::Success(m) => text.append(m.as_str()),
            Response::Error(m) => text.append(m.as_str()),
        }
        text.append("\nEND\n");
        utf8_bytes(text.as_str())
    }
}

/// Content lines collected so far, each with its line end, and what the
/// finished answer holds: the lines joined, without the last line end.
pub open spec fn strip_last_newline(s: Seq<char>) -> Seq<char> {
    if s.len() > 0 && s.last() == '\n' {
        s.drop_last()
    } else {
        s
    }
}

/// The answer for a status line and content, or the error for an unknown
/// status.
pub open spec fn finished(status: Seq<char>, content: Seq<char>) -> Result<
    (bool, Seq<char>),
    Seq<char>,
> {
    if status == "OK"@ {
        Ok((true, strip_last_newline(content)))
    } else if status == "ERROR"@ {
        Ok((false, strip_last_newline(content)))
    } else {
        Err("Invalid response: "@ + status)
    }
}

/// Decodes an answer from the lines of the transport.
pub struct ResponseDecoder {
    pub status: Option<String>,
    pub content: String,
}

impl ResponseDecoder {
    pub fn new() -> (r: Self)
        ensures
            r.status is None,
            r.content@ == Seq::<char>::empty(),
    {
        ResponseDecoder { status: None, content: String::new() }
    }

    /// Takes the next line, as read with its line end. The first line is the
    /// status; later lines are content until a line that trims to `END`,
    /// which finishes the answer.
    pub fn feed_line(&mut self, line: &str) -> (r: Option<Result<Response, String>>)
        ensures
            old(self).status is None ==> r is None && final(self).status is Some
                && final(self).status->Some_0@ == trimmed(line@) && final(self).content
                == old(self).content,
            old(self).status is Some && trimmed(line@) != "END"@ ==> r is None
                && final(self).status == old(self).status && final(self).content@ == old(
                self).content@ + line@,
            old(self).status is Some && trimmed(line@) == "END"@ ==> r is Some && {
                let want = finished(old(self).status->Some_0@, old(self).content@);
                match r->Some_0 {
                    Ok(Response::Success(m)) => want == Ok::<(bool, Seq<char>), Seq<char>>((true, m@)),
                    Ok(Response::Error(m)) => want == Ok::<(bool, Seq<char>), Seq<char>>((false, m@)),
                    Err(e) => want == Err::<(bool, Seq<char>), Seq<char>>(e@),
                }
            },
    {
        if self.status.is_none() {
            self.status = Some(trim(line));
            return None;
        }
        let t = trim(line);
        let end = "END".to_string();
        if t != end {
            self.content.append(line);
            return None;
        }
        let mut content = String::new();
        std::mem::swap(&mut content, &mut self.content);
        let content = strip_newline(content);
        let status = match &self.status {
            Some(s) => s.clone(),
            None => String::new(),
        };
        let ok = "OK".to_string();
        let error = "ERROR".to_string();
        if status == ok {
            Some(Ok(Response::Success(content)))
        } else if status == error {
            Some(Ok(Response::Error(content)))
        } else {
            let mut m = "Invalid response: ".to_string();
            m.append(status.as_str());
            Some(Err(m))
        }
    }

    /// The error for a transport that ends before the answer is complete.
    pub fn end_of_input(&self) -> (r: String)
        ensures
            self.status is None ==> r@ == "Connection closed"@,
            self.status is Some ==> r@ == "Connection closed before END marker"@,
    {
        if self.status.is_none() {
            "Connection closed".to_string()
        } else {
            "Connection closed before END marker".to_string()
        }
    }
}

/// Relies on `String::pop`: removes and returns the last character.
#[verifier::external_body]
fn pop_char(s: &mut String) -> (r: Option<char>)
    ensures
        old(s)@.len() == 0 ==> r is None && final(s)@ == old(s)@,
        old(s)@.len() > 0 ==> r == Some(old(s)@.last()) && final(s)@ == old(s)@.drop_last(),
{
    s.pop()
}

/// Relies on `String::push`: appends one character.
#[verifier::external_body]
fn push_char(s: &mut String, c: char)
    ensures
        final(s)@ == old(s)@.push(c),
{
    s.push(c)
}

/// Removes one trailing line end.
fn strip_newline(s: String) -> (r: String)
    ensures
        r@ == strip_last_newline(s@),
{
    let mut t = s;
    match pop_char(&mut t) {
        Some(c) => {
            if c != '\n' {
                push_char(&mut t, c);
                assert(t@ =~= s@);
            }
        },
        None => {},
    }
    t
}

} // verus!
