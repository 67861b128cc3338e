use vstd::prelude::*;

pub mod buffer;
pub mod model;
mod parser;

pub use buffer::Buffer;
pub use buffer::BufferView;
pub use buffer::BUFFER_SIZE;

use buffer::appended;
use model::shift;

use model::pending;
use model::run;
use model::Outcome;
use model::ParseState;
use model::Value;
use parser::InitParser;
use parser::ParseOutput;
use parser::Parser;

verus! {

/// Why a write or a parse failed.
#[derive(Debug, PartialEq, Eq, Structural)]
pub enum Error {
    /// The bytes were malformed.
    ContentWrong,
    /// A write did not fit in the buffer's free room.
    Overflow,
}

/// A decoded message.
#[derive(Debug, PartialEq, Eq)]
pub enum Message {
    SimpleString(Vec<u8>),
    Error(Vec<u8>),
    Integer(i64),
    Bulk(Option<Vec<u8>>),
    Array(Vec<Message>),
    Inline(Vec<u8>),
}

impl Message {
    /// The message as a mathematical value.
    pub open spec fn value(self) -> Value
        decreases self,
    {
        match self {
            Message::SimpleString(s) => Value::SimpleString(s@),
            Message::Error(s) => Value::Error(s@),
            Message::Integer(i) => Value::Integer(i as int),
            Message::Bulk(b) => Value::Bulk(
                match b {
                    Some(s) => Some(s@),
                    None => None,
                },
            ),
            Message::Array(v) => Value::Array(
                Seq::new(
                    v@.len(),
                    |i: int|
                        if 0 <= i < v@.len() {
                            v@[i].value()
                        } else {
                            Value::Integer(0)
                        },
                ),
            ),
            Message::Inline(s) => Value::Inline(s@),
        }
    }
}

/// One decoding session over a stream of bytes: where it stands inside the
/// message under way.
pub struct RespParser(Parser);

impl RespParser {
    pub closed spec fn wf(&self) -> bool {
        self.0.wf()
    }

    /// The decoder state of the session, given the bytes it has scanned.
    pub closed spec fn state(&self, scanned: Seq<u8>) -> ParseState {
        self.0.model(scanned)
    }

    /// The session stands on exactly the bytes that the buffer holds as scanned.
    pub open spec fn serves(&self, b: BufferView) -> bool {
        &&& self.wf()
        &&& pending(self.state(b.content.take(b.scan as int))) == b.content.take(b.scan as int)
    }

    /// A session before the first byte of a message.
    pub fn new() -> (r: RespParser)
        ensures
            r.wf(),
            r.state(Seq::empty()) == ParseState::Init,
            forall|b: BufferView| b.scan == 0 ==> #[trigger] r.serves(b),
    {
        let r = RespParser(Parser::Init(InitParser));
        assert forall|b: BufferView| b.scan == 0 implies #[trigger] r.serves(b) by {
            assert(b.content.take(0) =~= Seq::<u8>::empty());
        }
        r
    }

    /// Decodes from the buffer's unscanned bytes until a message is complete,
    /// the input is found malformed, or the bytes run out. A complete message and
    /// a malformed one are taken out of the buffer, and the session is back
    /// before the next message; when the bytes run out, those of the message under
    /// way stay in the buffer as scanned, and the session keeps where it stands.
    pub fn parse(&mut self, buffer: &mut Buffer) -> (r: Result<Option<Message>, Error>)
        requires
            old(buffer).wf(),
            old(self).serves(old(buffer)@),
        ensures
            final(buffer).wf(),
            final(self).serves(final(buffer)@),
            final(buffer)@.capacity == old(buffer)@.capacity,
            ({
                let b = old(buffer)@;
                let o = run(old(self).state(b.content.take(b.scan as int)), b.content.skip(b.scan as int));
                &&& o is Done ==> {
                    &&& r is Ok && r->Ok_0 is Some
                    &&& r->Ok_0->Some_0.value() == o->Done_value
                    &&& final(buffer)@.content == b.content.skip((b.scan + o->Done_used) as int)
                    &&& final(buffer)@.scan == 0
                    &&& final(self).state(Seq::empty()) == ParseState::Init
                }
                &&& o is Fail ==> {
                    &&& r == Err::<Option<Message>, Error>(Error::ContentWrong)
                    &&& final(buffer)@.content == b.content.skip((b.scan + o->Fail_used) as int)
                    &&& final(buffer)@.scan == 0
                    &&& final(self).state(Seq::empty()) == ParseState::Init
                }
                &&& b.scan == b.content.len() ==> final(buffer)@ == b
                &&& o is Pending ==> {
                    &&& r == Ok::<Option<Message>, Error>(None)
                    &&& final(buffer)@.content.len() <= b.content.len()
                    &&& final(buffer)@.content == b.content.skip(b.content.len() - final(buffer)@.content.len())
                    &&& final(buffer)@.scan == final(buffer)@.content.len()
                    &&& final(self).state(final(buffer)@.content) == o->Pending_state
                }
            }),
    {
        let ghost before = buffer@;
        let ghost s = self.state(parser::scanned(before));
        let ghost u = before.content.skip(before.scan as int);
        let mut parser = Parser::Init(InitParser);
        std::mem::swap(&mut parser, &mut self.0);
        proof {
            buffer.lemma_bounds();
            assert(before.content.skip(0) =~= before.content);
            assert(u.take(0) =~= Seq::<u8>::empty());
        }
        loop
            invariant
                buffer.wf(),
                before == old(buffer)@,
                u == before.content.skip(before.scan as int),
                s == old(self).state(parser::scanned(before)),
                self.0 == Parser::Init(InitParser),
                buffer@.capacity == before.capacity,
                u.len() == 0 ==> buffer@ == before,
                parser.wf(),
                0 <= before.content.len() - buffer@.content.len(),
                0 <= parser::moved(before, buffer@) <= u.len(),
                buffer@.content == before.content.skip(before.content.len() - buffer@.content.len()),
                run(s, u.take(parser::moved(before, buffer@))) == (Outcome::Pending {
                    state: parser.model(parser::scanned(buffer@)),
                }),
                pending(parser.model(parser::scanned(buffer@))) == parser::scanned(buffer@),
            decreases buffer@.content.len() - buffer@.scan,
        {
            let ghost b1 = buffer@;
            let ghost j = parser::moved(before, b1);
            let ghost c = parser.model(parser::scanned(b1));
            proof {
                buffer.lemma_bounds();
            }
            let out = parser.parse(buffer);
            let ghost k = parser::moved(b1, buffer@);
            proof {
                buffer.lemma_bounds();
                assert(b1.content.skip(b1.scan as int) =~= u.skip(j));
                assert(buffer@.content =~= before.content.skip(before.content.len() - buffer@.content.len()));
                assert(parser::moved(before, buffer@) == j + k);
                parser::lemma_chain(s, u, j, c, k);
                assert(u.take(j + k) + u.skip(j + k) =~= u);
                model::lemma_run_split(s, u.take(j + k), u.skip(j + k));
            }
            match out {
                ParseOutput::Failed(e) => {
                    proof {
                        assert(buffer@.content =~= before.content.skip(before.scan + j + k));
                        assert(buffer@.content.take(0) =~= Seq::<u8>::empty());
                    }
                    return Err(e);
                },
                ParseOutput::Message(m) => {
                    proof {
                        assert(buffer@.content =~= before.content.skip(before.scan + j + k));
                        assert(buffer@.content.take(0) =~= Seq::<u8>::empty());
                    }
                    return Ok(Some(m));
                },
                ParseOutput::Parser(p) => {
                    if buffer.unscanned_len() == 0 {
                        proof {
                            assert(u.take(j + k) =~= u);
                            assert(buffer@.content.take(buffer@.scan as int) =~= buffer@.content);
                        }
                        self.0 = p;
                        return Ok(None);
                    }
                    parser = p;
                },
            }
        }
    }
}

impl Default for RespParser {
    fn default() -> (r: RespParser)
        ensures
            r.wf(),
            r.state(Seq::empty()) == ParseState::Init,
            forall|b: BufferView| b.scan == 0 ==> #[trigger] r.serves(b),
    {
        RespParser::new()
    }
}

/// Bytes written to a buffer that a waiting session has scanned to its end are
/// exactly what the next `parse` reads, and that `parse` goes on as if the bytes
/// of the message so far and the new ones had come in one piece: it yields the
/// message the whole stream holds, at the same byte, or waits or fails alike.
/// With `first` the bytes a session in state `s` has taken and `t` the state it
/// waits in (as `parse` reports when it returns `Ok(None)`), and `waiting` the
/// buffer as that `parse` left it:
pub proof fn lemma_resume_after_write(
    s: ParseState,
    first: Seq<u8>,
    t: ParseState,
    waiting: BufferView,
    more: Seq<u8>,
)
    requires
        run(s, first) == (Outcome::Pending { state: t }),
        waiting.scan == waiting.content.len(),
    ensures
        appended(waiting, more).content.skip(appended(waiting, more).scan as int) == more,
        run(s, first + more) == shift(run(t, more), first.len()),
{
    assert(appended(waiting, more).content.skip(appended(waiting, more).scan as int) =~= more);
    model::lemma_run_split(s, first, more);
}

} // verus!
