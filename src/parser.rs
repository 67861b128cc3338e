use vstd::prelude::*;

use crate::buffer::Buffer;
use crate::buffer::BufferView;
use crate::model::finish_bulk;
use crate::model::lemma_run_split;
use crate::model::number_limit;
use crate::model::open_at;
use crate::model::resting;
use crate::model::pending;
use crate::model::run;
use crate::model::shift;
use crate::model::LineKind;
use crate::model::NumberKind;
use crate::model::Outcome;
use crate::model::ParseState;
use crate::model::Step;
use crate::model::Value;
use crate::model::CR;
use crate::model::LF;
use crate::Error;
use crate::Message;

verus! {

pub(crate) struct InitParser;

pub(crate) struct SimpleStringParser;

pub(crate) struct ErrorParser;

pub(crate) struct InlineParser;

pub(crate) struct IntegerParser {
    pub(crate) negative: bool,
    pub(crate) magnitude: u64,
}

pub(crate) struct BulkSizeParser {
    pub(crate) negative: bool,
    pub(crate) magnitude: u64,
}

pub(crate) struct BulkBodyParser {
    pub(crate) expect: usize,
}

pub(crate) struct ArraySizeParser {
    pub(crate) magnitude: u64,
}

pub(crate) struct ArrayBodyParser {
    pub(crate) expect: usize,
    pub(crate) message: Vec<Message>,
    pub(crate) current: Box<Parser>,
}

/// The live state of one decoding session.
pub(crate) enum Parser {
    Init(InitParser),
    SimpleString(SimpleStringParser),
    Error(ErrorParser),
    Integer(IntegerParser),
    BulkSize(BulkSizeParser),
    BulkBody(BulkBodyParser),
    ArraySize(ArraySizeParser),
    ArrayBody(ArrayBodyParser),
    Inline(InlineParser),
}

/// What one transition of a state hands back.
pub(crate) enum ParseOutput {
    Failed(Error),
    Message(Message),
    Parser(Parser),
}

pub(crate) open spec fn values(ms: Seq<Message>) -> Seq<Value> {
    Seq::new(ms.len(), |i: int| ms[i].value())
}

/// An array message's value lists its elements' values.
pub(crate) proof fn lemma_array_value(v: Vec<Message>)
    ensures
        Message::Array(v).value() == Value::Array(values(v@)),
{
    assert(Message::Array(v).value()->Array_0 =~= values(v@));
}

impl Parser {
    /// Nesting depth of arrays under way.
    pub(crate) open spec fn depth(&self) -> nat
        decreases self,
    {
        match self {
            Parser::ArrayBody(x) => 1 + x.current.depth(),
            _ => 0,
        }
    }

    pub(crate) open spec fn wf(&self) -> bool
        decreases self,
    {
        match self {
            Parser::Integer(x) => x.magnitude <= number_limit(NumberKind::Integer),
            Parser::BulkSize(x) => x.magnitude <= number_limit(NumberKind::BulkSize),
            Parser::BulkBody(x) => x.expect >= 1,
            Parser::ArraySize(x) => x.magnitude <= number_limit(NumberKind::ArraySize),
            // An array is handed out in the same transition that takes its last
            // element, so a pending array always lacks at least one.
            Parser::ArrayBody(x) => x.message@.len() < x.expect && x.current.wf(),
            _ => true,
        }
    }

    /// The decoder state this session stands for, given the bytes it has scanned.
    pub(crate) open spec fn model(&self, p: Seq<u8>) -> ParseState
        decreases self,
    {
        match self {
            Parser::Init(_) => ParseState::Init,
            Parser::SimpleString(_) => ParseState::Line(LineKind::SimpleString, p),
            Parser::Error(_) => ParseState::Line(LineKind::Error, p),
            Parser::Inline(_) => ParseState::Line(LineKind::Inline, p),
            Parser::Integer(x) => ParseState::Number(
                NumberKind::Integer,
                x.negative,
                x.magnitude as nat,
                p,
            ),
            Parser::BulkSize(x) => ParseState::Number(
                NumberKind::BulkSize,
                x.negative,
                x.magnitude as nat,
                p,
            ),
            Parser::BulkBody(x) => ParseState::BulkBody(x.expect as nat, p),
            Parser::ArraySize(x) => ParseState::Number(
                NumberKind::ArraySize,
                false,
                x.magnitude as nat,
                p,
            ),
            Parser::ArrayBody(x) => ParseState::ArrayBody(
                x.expect as nat,
                values(x.message@),
                Box::new(x.current.model(p)),
            ),
        }
    }
}

/// How far the stream has moved on from `before` to `after`: bytes taken out
/// of the buffer plus the movement of the scan cursor.
pub(crate) open spec fn moved(before: BufferView, after: BufferView) -> int {
    (before.content.len() - after.content.len()) + after.scan - before.scan
}

/// One transition of state `s` took the buffer from `before` to `after` and gave `out`.
pub(crate) open spec fn stepped(s: ParseState, before: BufferView, after: BufferView, out: ParseOutput) -> bool {
    let u = before.content.skip(before.scan as int);
    let d = before.content.len() - after.content.len();
    let j = moved(before, after);
    &&& after.capacity == before.capacity
    &&& 0 <= d
    &&& 0 <= j <= u.len()
    &&& after.content == before.content.skip(d)
    &&& (u.len() == 0 ==> after == before)
    &&& forall|i: int| 1 <= i < j ==> #[trigger] open_at(s, u, i)
    &&& match out {
        ParseOutput::Message(m) => {
            &&& after.scan == 0
            &&& 1 <= j
            &&& run(s, u.take(j)) == (Outcome::Done { value: m.value(), used: j as nat })
        },
        ParseOutput::Failed(e) => {
            &&& after.scan == 0
            &&& 1 <= j
            &&& e == Error::ContentWrong
            &&& run(s, u.take(j)) == (Outcome::Fail { used: j as nat })
        },
        ParseOutput::Parser(p) => {
            let q = after.content.take(after.scan as int);
            &&& (u.len() > 0 ==> j > 0)
            &&& (j == u.len() || resting(p.model(q)))
            &&& p.wf()
            &&& run(s, u.take(j)) == (Outcome::Pending { state: p.model(q) })
            &&& pending(p.model(q)) == q
        },
    }
}

/// A run that reaches `t` after `j` bytes continues from `t` on what follows.
pub(crate) proof fn lemma_chain(s: ParseState, u: Seq<u8>, j: int, t: ParseState, k: int)
    requires
        0 <= j,
        0 <= k,
        j + k <= u.len(),
        run(s, u.take(j)) == (Outcome::Pending { state: t }),
    ensures
        run(s, u.take(j + k)) == shift(run(t, u.skip(j).take(k)), j as nat),
{
    assert(u.take(j + k) =~= u.take(j) + u.skip(j).take(k));
    lemma_run_split(s, u.take(j), u.skip(j).take(k));
}

/// What a finished element does to the array around it.
pub(crate) open spec fn lift(expected: nat, items: Seq<Value>, o: Outcome) -> Outcome {
    match o {
        Outcome::Pending { state } => Outcome::Pending {
            state: ParseState::ArrayBody(expected, items, Box::new(state)),
        },
        Outcome::Fail { used } => Outcome::Fail { used },
        Outcome::Done { value, used } => if items.len() + 1 >= expected {
            Outcome::Done { value: Value::Array(items.push(value)), used }
        } else {
            Outcome::Pending {
                state: ParseState::ArrayBody(expected, items.push(value), Box::new(ParseState::Init)),
            }
        },
    }
}

/// An array forwards each byte to the element under way.
pub(crate) proof fn lemma_array_lift(expected: nat, items: Seq<Value>, c: ParseState, bytes: Seq<u8>)
    requires
        run(c, bytes) is Done ==> run(c, bytes)->Done_used == bytes.len(),
        run(c, bytes) is Fail ==> run(c, bytes)->Fail_used == bytes.len(),
    ensures
        run(ParseState::ArrayBody(expected, items, Box::new(c)), bytes) == lift(
            expected,
            items,
            run(c, bytes),
        ),
    decreases bytes.len(),
{
    if bytes.len() > 0 {
        crate::model::lemma_run_used(c, bytes.drop_last());
        lemma_array_lift(expected, items, c, bytes.drop_last());
    }
}

/// No byte brings a decoder back before a tag: only a fresh session is there.
pub(crate) proof fn lemma_run_leaves_init(c: ParseState, v: Seq<u8>)
    requires
        v.len() >= 1,
        run(c, v) is Pending,
    ensures
        !(run(c, v)->Pending_state is Init),
{
    let t = run(c, v.drop_last())->Pending_state;
    let b = v.last();
    match t {
        ParseState::Number(kind, negative, magnitude, p) => {
            if b != LF {
                assert(!(crate::model::number_step(kind, negative, magnitude, p, b) is Next
                    && crate::model::number_step(kind, negative, magnitude, p, b)->Next_0 is Init));
            }
        },
        _ => {},
    }
}

/// A state of the element that is no hand-back point is none for the array either.
pub(crate) proof fn lemma_lift_open(expected: nat, items: Seq<Value>, c: ParseState, v: Seq<u8>, i: int)
    requires
        1 <= i <= v.len(),
        open_at(c, v, i),
    ensures
        open_at(ParseState::ArrayBody(expected, items, Box::new(c)), v, i),
{
    lemma_array_lift(expected, items, c, v.take(i));
    lemma_run_leaves_init(c, v.take(i));
}

/// A bulk body takes bytes without looking at them until the last one due.
pub(crate) proof fn lemma_bulk_run(remaining: nat, p: Seq<u8>, bytes: Seq<u8>)
    requires
        bytes.len() <= remaining,
        1 <= remaining,
    ensures
        bytes.len() < remaining ==> run(ParseState::BulkBody(remaining, p), bytes) == (
        Outcome::Pending { state: ParseState::BulkBody((remaining - bytes.len()) as nat, p + bytes) }),
        bytes.len() == remaining ==> run(ParseState::BulkBody(remaining, p), bytes) == (match finish_bulk(p + bytes) {
            Step::Done(value) => Outcome::Done { value, used: remaining },
            _ => Outcome::Fail { used: remaining },
        }),
    decreases bytes.len(),
{
    if bytes.len() == 0 {
        assert(p + bytes =~= p);
    } else {
        lemma_bulk_run(remaining, p, bytes.drop_last());
        assert(p + bytes =~= (p + bytes.drop_last()).push(bytes.last()));
    }
}

/// The scanned bytes as the session's own, before and after a transition.
pub(crate) open spec fn scanned(b: BufferView) -> Seq<u8> {
    b.content.take(b.scan as int)
}

pub(crate) fn line_parser(kind: LineKind) -> (r: Parser)
    ensures
        r.wf(),
        forall|p: Seq<u8>| #[trigger] r.model(p) == ParseState::Line(kind, p),
{
    match kind {
        LineKind::SimpleString => Parser::SimpleString(SimpleStringParser),
        LineKind::Error => Parser::Error(ErrorParser),
        LineKind::Inline => Parser::Inline(InlineParser),
    }
}

pub(crate) fn line_message(kind: LineKind, data: Vec<u8>) -> (r: Message)
    ensures
        r.value() == crate::model::line_value(kind, data@),
{
    match kind {
        LineKind::SimpleString => Message::SimpleString(data),
        LineKind::Error => Message::Error(data),
        LineKind::Inline => Message::Inline(data),
    }
}

/// Scans to the line feed; a complete line must end in CR LF, which is stripped.
pub(crate) fn parse_line(kind: LineKind, buffer: &mut Buffer) -> (r: ParseOutput)
    requires
        old(buffer).wf(),
    ensures
        final(buffer).wf(),
        stepped(ParseState::Line(kind, scanned(old(buffer)@)), old(buffer)@, final(buffer)@, r),
        r is Parser ==> final(buffer)@.scan == final(buffer)@.content.len(),
{
    let ghost before = buffer@;
    let ghost s = ParseState::Line(kind, scanned(before));
    let ghost u = before.content.skip(before.scan as int);
    proof {
        buffer.lemma_bounds();
    }
    loop
        invariant
            buffer.wf(),
            buffer@.content == before.content,
            buffer@.capacity == before.capacity,
            before.scan <= buffer@.scan <= before.content.len(),
            before == old(buffer)@,
            u == before.content.skip(before.scan as int),
            s == ParseState::Line(kind, scanned(before)),
            run(s, u.take(buffer@.scan - before.scan)) == (Outcome::Pending {
                state: ParseState::Line(kind, scanned(buffer@)),
            }),
            forall|i: int| 1 <= i <= buffer@.scan - before.scan ==> #[trigger] open_at(s, u, i),
        decreases buffer@.content.len() - buffer@.scan,
    {
        let ghost j = buffer@.scan - before.scan;
        let ghost q = scanned(buffer@);
        proof {
            buffer.lemma_bounds();
        }
        match buffer.next() {
            None => {
                let r = line_parser(kind);
                proof {
                    assert(before.content.skip(0) =~= before.content);
                    assert(r.model(scanned(buffer@)) == ParseState::Line(kind, scanned(buffer@)));
                }
                return ParseOutput::Parser(r);
            },
            Some(b) => {
                proof {
                    assert(u[j] == b);
                    assert(u.take(j + 1).drop_last() =~= u.take(j));
                    assert(u.take(j + 1).last() == b);
                    assert(scanned(buffer@) =~= q.push(b));
                }
                if b != LF {
                    assert(open_at(s, u, j + 1));
                }
                if b == LF {
                    let mut data = buffer.pop_scanned_buffer();
                    proof {
                        assert(data@ =~= q.push(b));
                        assert(data@.drop_last() =~= q);
                        assert(buffer@.content =~= before.content.skip(before.scan + j + 1));
                    }
                    data.pop();
                    match data.pop() {
                        Some(c) => {
                            if c == CR {
                                assert(data@ =~= q.drop_last());
                                return ParseOutput::Message(line_message(kind, data));
                            } else {
                                return ParseOutput::Failed(Error::ContentWrong);
                            }
                        },
                        None => {
                            return ParseOutput::Failed(Error::ContentWrong);
                        },
                    }
                }
            },
        }
    }
}

impl InitParser {
    /// Reads the tag byte and opens the state it names; the tag is taken out.
    pub(crate) fn parse(self, buffer: &mut Buffer) -> (r: ParseOutput)
        requires
            old(buffer).wf(),
            old(buffer)@.scan == 0,
        ensures
            final(buffer).wf(),
            stepped(ParseState::Init, old(buffer)@, final(buffer)@, r),
            old(buffer)@.content.len() > 0 ==> {
                &&& final(buffer)@.content == old(buffer)@.content.drop_first()
                &&& final(buffer)@.scan == 0
            },
    {
        let ghost before = buffer@;
        let ghost u = before.content.skip(0);
        proof {
            buffer.lemma_bounds();
        }
        let result = match buffer.next() {
            None => Parser::Init(self),
            Some(input) => {
                if input == 43 {
                    Parser::SimpleString(SimpleStringParser)
                } else if input == 45 {
                    Parser::Error(ErrorParser)
                } else if input == 58 {
                    Parser::Integer(IntegerParser { negative: false, magnitude: 0 })
                } else if input == 36 {
                    Parser::BulkSize(BulkSizeParser { negative: false, magnitude: 0 })
                } else if input == 42 {
                    Parser::ArraySize(ArraySizeParser { magnitude: 0 })
                } else {
                    Parser::Inline(InlineParser)
                }
            },
        };
        let _ = buffer.pop_scanned_buffer();
        proof {
            assert(u =~= before.content);
            if before.content.len() > 0 {
                assert(u.take(1).drop_last() =~= Seq::<u8>::empty());
                assert(run(ParseState::Init, Seq::<u8>::empty()) == (Outcome::Pending { state: ParseState::Init }));
                assert(u.take(1).last() == u[0]);
                assert(run(ParseState::Init, u.take(1)) == (Outcome::Pending { state: result.model(Seq::empty()) }));
            } else {
                assert(u.take(0) =~= Seq::<u8>::empty());
            }
            assert(scanned(buffer@) =~= Seq::<u8>::empty());
        }
        ParseOutput::Parser(result)
    }
}

pub(crate) fn limit_of(kind: NumberKind) -> (r: u64)
    ensures
        r == number_limit(kind),
{
    match kind {
        NumberKind::Integer => i64::MAX as u64 + 1,
        NumberKind::BulkSize => (usize::MAX - 2) as u64,
        NumberKind::ArraySize => usize::MAX as u64,
    }
}

pub(crate) fn number_parser(kind: NumberKind, negative: bool, magnitude: u64) -> (r: Parser)
    requires
        magnitude <= number_limit(kind),
        kind == NumberKind::ArraySize ==> !negative,
    ensures
        r.wf(),
        forall|p: Seq<u8>| #[trigger] r.model(p) == ParseState::Number(kind, negative, magnitude as nat, p),
{
    match kind {
        NumberKind::Integer => Parser::Integer(IntegerParser { negative, magnitude }),
        NumberKind::BulkSize => Parser::BulkSize(BulkSizeParser { negative, magnitude }),
        NumberKind::ArraySize => Parser::ArraySize(ArraySizeParser { magnitude }),
    }
}

/// What a number line turns into once its line feed has come.
pub(crate) fn finish_number(kind: NumberKind, negative: bool, magnitude: u64) -> (r: ParseOutput)
    requires
        magnitude <= number_limit(kind),
    ensures
        crate::model::finish_number(kind, negative, magnitude as nat) is Done ==> {
            &&& r is Message
            &&& r->Message_0.value() == crate::model::finish_number(kind, negative, magnitude as nat)->Done_0
        },
        crate::model::finish_number(kind, negative, magnitude as nat) is Next ==> {
            &&& r is Parser
            &&& r->Parser_0.wf()
            &&& r->Parser_0.model(Seq::empty()) == crate::model::finish_number(kind, negative, magnitude as nat)->Next_0
        },
        crate::model::finish_number(kind, negative, magnitude as nat) is Fail ==> r == ParseOutput::Failed(
            Error::ContentWrong,
        ),
{
    match kind {
        NumberKind::Integer => {
            if !negative && magnitude > i64::MAX as u64 {
                return ParseOutput::Failed(Error::ContentWrong);
            }
            let value: i64 = if magnitude > i64::MAX as u64 {
                i64::MIN
            } else if negative {
                -(magnitude as i64)
            } else {
                magnitude as i64
            };
            let r = Message::Integer(value);
            assert(r.value() == Value::Integer(if negative { -magnitude } else { magnitude as int }));
            ParseOutput::Message(r)
        },
        NumberKind::BulkSize => {
            if magnitude == 0 {
                let r = Message::Bulk(Some(Vec::new()));
                assert(r.value() == Value::Bulk(Some(Seq::<u8>::empty())));
                ParseOutput::Message(r)
            } else if negative {
                ParseOutput::Message(Message::Bulk(None))
            } else {
                let p = Parser::BulkBody(BulkBodyParser { expect: magnitude as usize + 2 });
                assert(p.model(Seq::empty()) == ParseState::BulkBody((magnitude + 2) as nat, Seq::empty()));
                ParseOutput::Parser(p)
            }
        },
        NumberKind::ArraySize => {
            if magnitude == 0 {
                let v: Vec<Message> = Vec::new();
                let r = Message::Array(v);
                proof {
                    lemma_array_value(v);
                    assert(values(v@) =~= Seq::<Value>::empty());
                }
                ParseOutput::Message(r)
            } else {
                let init = Parser::Init(InitParser);
                assert(init.wf() && init.model(Seq::empty()) == ParseState::Init);
                let p = Parser::ArrayBody(
                    ArrayBodyParser {
                        expect: magnitude as usize,
                        message: Vec::new(),
                        current: Box::new(init),
                    },
                );
                assert(values(Seq::<Message>::empty()) =~= Seq::<Value>::empty());
                assert(p.wf());
                assert(p.model(Seq::empty()) == ParseState::ArrayBody(magnitude as nat, Seq::empty(), Box::new(ParseState::Init)));
                ParseOutput::Parser(p)
            }
        },
    }
}

/// Folds the digits of a number line; a minus sign turns the sign over, CR is
/// passed over, and the line feed ends the line.
pub(crate) fn parse_number(kind: NumberKind, negative: bool, magnitude: u64, buffer: &mut Buffer) -> (r: ParseOutput)
    requires
        old(buffer).wf(),
        magnitude <= number_limit(kind),
        kind == NumberKind::ArraySize ==> !negative,
    ensures
        final(buffer).wf(),
        stepped(
            ParseState::Number(kind, negative, magnitude as nat, scanned(old(buffer)@)),
            old(buffer)@,
            final(buffer)@,
            r,
        ),
        r is Parser && (r->Parser_0 is Integer || r->Parser_0 is BulkSize || r->Parser_0 is ArraySize)
            ==> final(buffer)@.scan == final(buffer)@.content.len(),
{
    let ghost before = buffer@;
    let ghost s = ParseState::Number(kind, negative, magnitude as nat, scanned(before));
    let ghost u = before.content.skip(before.scan as int);
    let limit = limit_of(kind);
    let mut neg = negative;
    let mut mag = magnitude;
    proof {
        buffer.lemma_bounds();
    }
    loop
        invariant
            buffer.wf(),
            buffer@.content == before.content,
            buffer@.capacity == before.capacity,
            before.scan <= buffer@.scan <= before.content.len(),
            before == old(buffer)@,
            u == before.content.skip(before.scan as int),
            s == ParseState::Number(kind, negative, magnitude as nat, scanned(before)),
            limit == number_limit(kind),
            mag <= limit,
            kind == NumberKind::ArraySize ==> !neg,
            run(s, u.take(buffer@.scan - before.scan)) == (Outcome::Pending {
                state: ParseState::Number(kind, neg, mag as nat, scanned(buffer@)),
            }),
            forall|i: int| 1 <= i <= buffer@.scan - before.scan ==> #[trigger] open_at(s, u, i),
        decreases buffer@.content.len() - buffer@.scan,
    {
        let ghost j = buffer@.scan - before.scan;
        let ghost q = scanned(buffer@);
        let ghost t = ParseState::Number(kind, neg, mag as nat, q);
        proof {
            buffer.lemma_bounds();
        }
        match buffer.next() {
            None => {
                let r = number_parser(kind, neg, mag);
                proof {
                    assert(before.content.skip(0) =~= before.content);
                    assert(r.model(scanned(buffer@)) == ParseState::Number(kind, neg, mag as nat, scanned(buffer@)));
                }
                return ParseOutput::Parser(r);
            },
            Some(b) => {
                proof {
                    assert(u[j] == b);
                    assert(u.take(j + 1).drop_last() =~= u.take(j));
                    assert(u.take(j + 1).last() == b);
                    assert(scanned(buffer@) =~= q.push(b));
                }
                if b >= 48 && b <= 57 {
                    let digit = (b - 48) as u64;
                    let next = match mag.checked_mul(10) {
                        Some(x) => x.checked_add(digit),
                        None => None,
                    };
                    match next {
                        Some(y) => {
                            if y > limit {
                                let _ = buffer.pop_scanned_buffer();
                                return ParseOutput::Failed(Error::ContentWrong);
                            }
                            mag = y;
                        },
                        None => {
                            let _ = buffer.pop_scanned_buffer();
                            return ParseOutput::Failed(Error::ContentWrong);
                        },
                    }
                } else if b == 45 && !matches!(kind, NumberKind::ArraySize) {
                    neg = !neg;
                } else if b == CR {
                } else if b == LF {
                    let _ = buffer.pop_scanned_buffer();
                    let r = finish_number(kind, neg, mag);
                    proof {
                        assert(buffer@.content =~= before.content.skip(before.scan + j + 1));
                        assert(scanned(buffer@) =~= Seq::<u8>::empty());
                        assert(pending(ParseState::Init) == Seq::<u8>::empty());
                    }
                    return r;
                } else {
                    let _ = buffer.pop_scanned_buffer();
                    return ParseOutput::Failed(Error::ContentWrong);
                }
                assert(open_at(s, u, j + 1));
            },
        }
    }
}

impl IntegerParser {
    pub(crate) fn parse(self, buffer: &mut Buffer) -> (r: ParseOutput)
        requires
            old(buffer).wf(),
            self.magnitude <= number_limit(NumberKind::Integer),
        ensures
            final(buffer).wf(),
            stepped(
                ParseState::Number(NumberKind::Integer, self.negative, self.magnitude as nat, scanned(old(buffer)@)),
                old(buffer)@,
                final(buffer)@,
                r,
            ),
            r is Parser && (r->Parser_0 is Integer || r->Parser_0 is BulkSize || r->Parser_0 is ArraySize)
                ==> final(buffer)@.scan == final(buffer)@.content.len(),
    {
        parse_number(NumberKind::Integer, self.negative, self.magnitude, buffer)
    }
}

impl BulkSizeParser {
    pub(crate) fn parse(self, buffer: &mut Buffer) -> (r: ParseOutput)
        requires
            old(buffer).wf(),
            self.magnitude <= number_limit(NumberKind::BulkSize),
        ensures
            final(buffer).wf(),
            stepped(
                ParseState::Number(NumberKind::BulkSize, self.negative, self.magnitude as nat, scanned(old(buffer)@)),
                old(buffer)@,
                final(buffer)@,
                r,
            ),
            r is Parser && (r->Parser_0 is Integer || r->Parser_0 is BulkSize || r->Parser_0 is ArraySize)
                ==> final(buffer)@.scan == final(buffer)@.content.len(),
    {
        parse_number(NumberKind::BulkSize, self.negative, self.magnitude, buffer)
    }
}

impl ArraySizeParser {
    pub(crate) fn parse(self, buffer: &mut Buffer) -> (r: ParseOutput)
        requires
            old(buffer).wf(),
            self.magnitude <= number_limit(NumberKind::ArraySize),
        ensures
            final(buffer).wf(),
            stepped(
                ParseState::Number(NumberKind::ArraySize, false, self.magnitude as nat, scanned(old(buffer)@)),
                old(buffer)@,
                final(buffer)@,
                r,
            ),
            r is Parser && (r->Parser_0 is Integer || r->Parser_0 is BulkSize || r->Parser_0 is ArraySize)
                ==> final(buffer)@.scan == final(buffer)@.content.len(),
    {
        parse_number(NumberKind::ArraySize, false, self.magnitude, buffer)
    }
}

impl SimpleStringParser {
    pub(crate) fn parse(self, buffer: &mut Buffer) -> (r: ParseOutput)
        requires
            old(buffer).wf(),
        ensures
            final(buffer).wf(),
            stepped(ParseState::Line(LineKind::SimpleString, scanned(old(buffer)@)), old(buffer)@, final(buffer)@, r),
            r is Parser ==> final(buffer)@.scan == final(buffer)@.content.len(),
    {
        parse_line(LineKind::SimpleString, buffer)
    }
}

impl ErrorParser {
    pub(crate) fn parse(self, buffer: &mut Buffer) -> (r: ParseOutput)
        requires
            old(buffer).wf(),
        ensures
            final(buffer).wf(),
            stepped(ParseState::Line(LineKind::Error, scanned(old(buffer)@)), old(buffer)@, final(buffer)@, r),
            r is Parser ==> final(buffer)@.scan == final(buffer)@.content.len(),
    {
        parse_line(LineKind::Error, buffer)
    }
}

impl InlineParser {
    pub(crate) fn parse(self, buffer: &mut Buffer) -> (r: ParseOutput)
        requires
            old(buffer).wf(),
        ensures
            final(buffer).wf(),
            stepped(ParseState::Line(LineKind::Inline, scanned(old(buffer)@)), old(buffer)@, final(buffer)@, r),
            r is Parser ==> final(buffer)@.scan == final(buffer)@.content.len(),
    {
        parse_line(LineKind::Inline, buffer)
    }
}

impl BulkBodyParser {
    /// Takes up to the bytes still due without looking at them; the last due
    /// byte ends the body, which must end in CR LF.
    pub(crate) fn parse(self, buffer: &mut Buffer) -> (r: ParseOutput)
        requires
            old(buffer).wf(),
            self.expect >= 1,
        ensures
            final(buffer).wf(),
            stepped(ParseState::BulkBody(self.expect as nat, scanned(old(buffer)@)), old(buffer)@, final(buffer)@, r),
            r is Parser ==> final(buffer)@.scan == final(buffer)@.content.len(),
    {
        let ghost before = buffer@;
        let ghost u = before.content.skip(before.scan as int);
        proof {
            buffer.lemma_bounds();
        }
        let scanned_len = buffer.consume(self.expect);
        let expect = self.expect - scanned_len;
        proof {
            lemma_bulk_run(self.expect as nat, scanned(before), u.take(scanned_len as int));
            assert(scanned(buffer@) =~= scanned(before) + u.take(scanned_len as int));
            assert(before.content.skip(0) =~= before.content);
            assert forall|i: int| 1 <= i < scanned_len implies #[trigger] open_at(
                ParseState::BulkBody(self.expect as nat, scanned(before)),
                u,
                i,
            ) by {
                lemma_bulk_run(self.expect as nat, scanned(before), u.take(i));
                assert((scanned(before) + u.take(i)).len() >= 1);
            }
        }
        if expect > 0 {
            return ParseOutput::Parser(Parser::BulkBody(BulkBodyParser { expect }));
        }
        let mut data = buffer.pop_scanned_buffer();
        proof {
            assert(buffer@.content =~= before.content.skip(before.scan + scanned_len));
        }
        let len = data.len();
        if len >= 2 && data[len - 2] == CR && data[len - 1] == LF {
            let ghost whole = data@;
            data.pop();
            data.pop();
            assert(data@ =~= whole.take(whole.len() - 2));
            ParseOutput::Message(Message::Bulk(Some(data)))
        } else {
            ParseOutput::Failed(Error::ContentWrong)
        }
    }
}

impl ArrayBodyParser {
    /// Drives the element under way; each finished element is kept, and the
    /// array is done when all of them have come.
    pub(crate) fn parse(self, buffer: &mut Buffer) -> (r: ParseOutput)
        requires
            old(buffer).wf(),
            Parser::ArrayBody(self).wf(),
            pending(Parser::ArrayBody(self).model(scanned(old(buffer)@))) == scanned(old(buffer)@),
        ensures
            final(buffer).wf(),
            stepped(Parser::ArrayBody(self).model(scanned(old(buffer)@)), old(buffer)@, final(buffer)@, r),
        decreases 1 + self.current.depth(), 0nat,
    {
        let ghost before = buffer@;
        let ghost s = Parser::ArrayBody(self).model(scanned(before));
        let ghost u = before.content.skip(before.scan as int);
        let ghost d0 = self.current.depth();
        let ArrayBodyParser { expect, mut message, current } = self;
        let mut current = *current;
        proof {
            buffer.lemma_bounds();
            assert(before.content.skip(0) =~= before.content);
            assert(u.take(0) =~= Seq::<u8>::empty());
        }
        loop
            invariant
                buffer.wf(),
                before == old(buffer)@,
                u == before.content.skip(before.scan as int),
                s == Parser::ArrayBody(self).model(scanned(before)),
                buffer@.capacity == before.capacity,
                u.len() == 0 ==> buffer@ == before,
                message@.len() < expect,
                current.wf(),
                current.depth() <= d0,
                d0 == self.current.depth(),
                0 <= before.content.len() - buffer@.content.len(),
                0 <= moved(before, buffer@) <= u.len(),
                buffer@.content == before.content.skip(before.content.len() - buffer@.content.len()),
                run(s, u.take(moved(before, buffer@))) == (Outcome::Pending {
                    state: ParseState::ArrayBody(
                        expect as nat,
                        values(message@),
                        Box::new(current.model(scanned(buffer@))),
                    ),
                }),
                pending(current.model(scanned(buffer@))) == scanned(buffer@),
                forall|i: int| 1 <= i <= moved(before, buffer@) ==> #[trigger] open_at(s, u, i),
            decreases expect - message@.len(),
        {
            let ghost b1 = buffer@;
            let ghost j = moved(before, b1);
            let ghost c = current.model(scanned(b1));
            let ghost items = values(message@);
            proof {
                buffer.lemma_bounds();
            }
            let out = current.parse(buffer);
            let ghost k = moved(b1, buffer@);
            proof {
                assert(b1.content.skip(b1.scan as int) =~= u.skip(j));
                assert(buffer@.content =~= before.content.skip(before.content.len() - buffer@.content.len()));
                assert(moved(before, buffer@) == j + k);
                lemma_chain(s, u, j, ParseState::ArrayBody(expect as nat, items, Box::new(c)), k);
                lemma_array_lift(expect as nat, items, c, u.skip(j).take(k));
                let ab = ParseState::ArrayBody(expect as nat, items, Box::new(c));
                assert forall|i: int| j < i < j + k implies #[trigger] open_at(s, u, i) by {
                    lemma_chain(s, u, j, ab, i - j);
                    lemma_lift_open(expect as nat, items, c, u.skip(j), i - j);
                }
                if k >= 1 && run(c, u.skip(j).take(k)) is Pending {
                    lemma_run_leaves_init(c, u.skip(j).take(k));
                }
            }
            match out {
                ParseOutput::Failed(e) => {
                    return ParseOutput::Failed(e);
                },
                ParseOutput::Parser(p) => {
                    let r = Parser::ArrayBody(ArrayBodyParser { expect, message, current: Box::new(p) });
                    return ParseOutput::Parser(r);
                },
                ParseOutput::Message(m) => {
                    message.push(m);
                    proof {
                        assert(values(message@) =~= items.push(m.value()));
                    }
                    if message.len() == expect {
                        proof {
                            lemma_array_value(message);
                        }
                        return ParseOutput::Message(Message::Array(message));
                    }
                    current = Parser::Init(InitParser);
                    proof {
                        assert(scanned(buffer@) =~= Seq::<u8>::empty());
                    }
                },
            }
        }
    }
}

impl Parser {
    /// One transition of the session's state against the buffer.
    pub(crate) fn parse(self, buffer: &mut Buffer) -> (r: ParseOutput)
        requires
            old(buffer).wf(),
            self.wf(),
            pending(self.model(scanned(old(buffer)@))) == scanned(old(buffer)@),
        ensures
            final(buffer).wf(),
            stepped(self.model(scanned(old(buffer)@)), old(buffer)@, final(buffer)@, r),
        decreases self.depth(), 1nat,
    {
        proof {
            buffer.lemma_bounds();
        }
        match self {
            Parser::Init(x) => {
                assert(scanned(buffer@).len() == buffer@.scan);
                x.parse(buffer)
            },
            Parser::SimpleString(x) => x.parse(buffer),
            Parser::Error(x) => x.parse(buffer),
            Parser::Integer(x) => x.parse(buffer),
            Parser::BulkSize(x) => x.parse(buffer),
            Parser::BulkBody(x) => x.parse(buffer),
            Parser::ArraySize(x) => x.parse(buffer),
            Parser::ArrayBody(x) => x.parse(buffer),
            Parser::Inline(x) => x.parse(buffer),
        }
    }
}

} // verus!
