use vstd::prelude::*;

verus! {

/// Line feed, the last byte of every line.
pub const LF: u8 = 10;

/// Carriage return, the byte before the line feed.
pub const CR: u8 = 13;

/// A decoded message as a mathematical value.
pub enum Value {
    SimpleString(Seq<u8>),
    Error(Seq<u8>),
    Integer(int),
    Bulk(Option<Seq<u8>>),
    Array(Seq<Value>),
    Inline(Seq<u8>),
}

/// The three forms whose body is one line of text.
#[derive(Clone, Copy, Debug, PartialEq, Eq, Structural)]
pub enum LineKind {
    SimpleString,
    Error,
    Inline,
}

/// The three forms whose line holds a decimal number.
#[derive(Clone, Copy, Debug, PartialEq, Eq, Structural)]
pub enum NumberKind {
    Integer,
    BulkSize,
    ArraySize,
}

/// Where a decoder stands inside a message, with the bytes it has scanned
/// but not yet taken out of the buffer.
pub enum ParseState {
    /// Before the tag byte of a message.
    Init,
    /// Inside a line of the given form.
    Line(LineKind, Seq<u8>),
    /// Inside a number line: whether a minus sign is in force, the magnitude so far.
    Number(NumberKind, bool, nat, Seq<u8>),
    /// Inside a bulk body, with the count of bytes still due (payload and CR LF).
    BulkBody(nat, Seq<u8>),
    /// Inside an array: its length, the elements so far, the element under way.
    ArrayBody(nat, Seq<Value>, Box<ParseState>),
}

/// What one more byte does to a decoder.
pub enum Step {
    Done(Value),
    Fail,
    Next(ParseState),
}

/// What a run of bytes does to a decoder: a message that ends at byte `used`,
/// malformed input detected at byte `used`, or all bytes taken with more to come.
pub enum Outcome {
    Done { value: Value, used: nat },
    Fail { used: nat },
    Pending { state: ParseState },
}

pub open spec fn is_digit(b: u8) -> bool {
    48 <= b <= 57
}

/// The largest magnitude a number line of the given form may hold while it is
/// read; an integer may reach the magnitude of `i64::MIN`, which only a negative
/// sign makes valid when the line ends.
pub open spec fn number_limit(kind: NumberKind) -> nat {
    match kind {
        NumberKind::Integer => i64::MAX as nat + 1,
        NumberKind::BulkSize => (usize::MAX - 2) as nat,
        NumberKind::ArraySize => usize::MAX as nat,
    }
}

pub open spec fn line_value(kind: LineKind, text: Seq<u8>) -> Value {
    match kind {
        LineKind::SimpleString => Value::SimpleString(text),
        LineKind::Error => Value::Error(text),
        LineKind::Inline => Value::Inline(text),
    }
}

/// The state that a tag byte opens.
pub open spec fn state_for_tag(b: u8) -> ParseState {
    if b == 43 {
        ParseState::Line(LineKind::SimpleString, Seq::empty())
    } else if b == 45 {
        ParseState::Line(LineKind::Error, Seq::empty())
    } else if b == 58 {
        ParseState::Number(NumberKind::Integer, false, 0, Seq::empty())
    } else if b == 36 {
        ParseState::Number(NumberKind::BulkSize, false, 0, Seq::empty())
    } else if b == 42 {
        ParseState::Number(NumberKind::ArraySize, false, 0, Seq::empty())
    } else {
        ParseState::Line(LineKind::Inline, Seq::empty())
    }
}

/// A line whose bytes before the line feed are `p`: it must end in CR.
pub open spec fn finish_line(kind: LineKind, p: Seq<u8>) -> Step {
    if p.len() >= 1 && p.last() == CR {
        Step::Done(line_value(kind, p.drop_last()))
    } else {
        Step::Fail
    }
}

/// A number line that has reached its line feed.
pub open spec fn finish_number(kind: NumberKind, negative: bool, magnitude: nat) -> Step {
    match kind {
        NumberKind::Integer => if !negative && magnitude > i64::MAX {
            Step::Fail
        } else {
            Step::Done(
                Value::Integer(
                    if negative {
                        -magnitude
                    } else {
                        magnitude as int
                    },
                ),
            )
        },
        NumberKind::BulkSize => if magnitude == 0 {
            Step::Done(Value::Bulk(Some(Seq::empty())))
        } else if negative {
            Step::Done(Value::Bulk(None))
        } else {
            Step::Next(ParseState::BulkBody(magnitude + 2, Seq::empty()))
        },
        NumberKind::ArraySize => if magnitude == 0 {
            Step::Done(Value::Array(Seq::empty()))
        } else {
            Step::Next(ParseState::ArrayBody(magnitude, Seq::empty(), Box::new(ParseState::Init)))
        },
    }
}

/// A number line takes one byte other than its line feed.
pub open spec fn number_step(kind: NumberKind, negative: bool, magnitude: nat, p: Seq<u8>, b: u8) -> Step {
    if is_digit(b) {
        let m = magnitude * 10 + (b - 48);
        if m > number_limit(kind) {
            Step::Fail
        } else {
            Step::Next(ParseState::Number(kind, negative, m as nat, p.push(b)))
        }
    } else if b == 45 && kind != NumberKind::ArraySize {
        Step::Next(ParseState::Number(kind, !negative, magnitude, p.push(b)))
    } else if b == CR {
        Step::Next(ParseState::Number(kind, negative, magnitude, p.push(b)))
    } else {
        Step::Fail
    }
}

/// The last byte of a bulk body: the body must end in CR LF, which is stripped.
pub open spec fn finish_bulk(d: Seq<u8>) -> Step {
    if d.len() >= 2 && d[d.len() - 2] == CR && d[d.len() - 1] == LF {
        Step::Done(Value::Bulk(Some(d.take(d.len() - 2))))
    } else {
        Step::Fail
    }
}

/// The effect of one byte on a decoder in state `s`.
pub open spec fn step(s: ParseState, b: u8) -> Step
    decreases s,
{
    match s {
        ParseState::Init => Step::Next(state_for_tag(b)),
        ParseState::Line(kind, p) => if b == LF {
            finish_line(kind, p)
        } else {
            Step::Next(ParseState::Line(kind, p.push(b)))
        },
        ParseState::Number(kind, negative, magnitude, p) => if b == LF {
            finish_number(kind, negative, magnitude)
        } else {
            number_step(kind, negative, magnitude, p, b)
        },
        ParseState::BulkBody(remaining, p) => if remaining <= 1 {
            finish_bulk(p.push(b))
        } else {
            Step::Next(ParseState::BulkBody((remaining - 1) as nat, p.push(b)))
        },
        ParseState::ArrayBody(expected, items, child) => match step(*child, b) {
            Step::Fail => Step::Fail,
            Step::Next(c) => Step::Next(ParseState::ArrayBody(expected, items, Box::new(c))),
            Step::Done(v) => if items.len() + 1 >= expected {
                Step::Done(Value::Array(items.push(v)))
            } else {
                Step::Next(ParseState::ArrayBody(expected, items.push(v), Box::new(ParseState::Init)))
            },
        },
    }
}

/// The effect of `bytes`, fed one by one, on a decoder in state `s`; it stops at
/// the first complete message or the first malformed byte.
pub open spec fn run(s: ParseState, bytes: Seq<u8>) -> Outcome
    decreases bytes.len(),
{
    if bytes.len() == 0 {
        Outcome::Pending { state: s }
    } else {
        match run(s, bytes.drop_last()) {
            Outcome::Pending { state } => match step(state, bytes.last()) {
                Step::Done(value) => Outcome::Done { value, used: bytes.len() },
                Step::Fail => Outcome::Fail { used: bytes.len() },
                Step::Next(t) => Outcome::Pending { state: t },
            },
            o => o,
        }
    }
}

/// The decoding of a whole stream from the start of a message.
pub open spec fn decode(bytes: Seq<u8>) -> Outcome {
    run(ParseState::Init, bytes)
}

/// The bytes that a state has scanned and still holds in the buffer.
pub open spec fn pending(s: ParseState) -> Seq<u8>
    decreases s,
{
    match s {
        ParseState::Init => Seq::empty(),
        ParseState::Line(_, p) => p,
        ParseState::Number(_, _, _, p) => p,
        ParseState::BulkBody(_, p) => p,
        ParseState::ArrayBody(_, _, child) => pending(*child),
    }
}

/// A construct has just been opened: by its tag, or by the size line of a bulk
/// string or an array. An array whose element state is before its tag counts
/// only while it has no element yet; once it has taken one, it goes on to the tag
/// of the next.
pub open spec fn just_opened(s: ParseState) -> bool
    decreases s,
{
    match s {
        ParseState::Init => false,
        ParseState::ArrayBody(_, items, child) => if *child is Init {
            items.len() == 0
        } else {
            just_opened(*child)
        },
        _ => true,
    }
}

/// A state in which one transition of a session hands control back though bytes
/// may remain: a construct has just been opened and nothing of it is scanned.
pub open spec fn resting(s: ParseState) -> bool {
    &&& pending(s).len() == 0
    &&& just_opened(s)
}

/// After the first `i` bytes of `u` a decoder in state `s` is still waiting, and
/// not in a state where a transition would have handed control back.
pub open spec fn open_at(s: ParseState, u: Seq<u8>, i: int) -> bool {
    &&& run(s, u.take(i)) is Pending
    &&& !resting(run(s, u.take(i))->Pending_state)
}

/// An outcome whose byte counts are moved on by `n`.
pub open spec fn shift(o: Outcome, n: nat) -> Outcome {
    match o {
        Outcome::Done { value, used } => Outcome::Done { value, used: used + n },
        Outcome::Fail { used } => Outcome::Fail { used: used + n },
        Outcome::Pending { state } => Outcome::Pending { state },
    }
}

/// Feeding `a` and then `b` is feeding `a + b`: a decoder that is still waiting
/// after `a` goes on with `b` exactly as if the two had come in one piece, and one
/// that has finished or failed within `a` is not touched by `b`.
pub proof fn lemma_run_split(s: ParseState, a: Seq<u8>, b: Seq<u8>)
    ensures
        run(s, a + b) == (match run(s, a) {
            Outcome::Pending { state } => shift(run(state, b), a.len()),
            o => o,
        }),
    decreases b.len(),
{
    if b.len() == 0 {
        assert(a + b =~= a);
    } else {
        lemma_run_split(s, a, b.drop_last());
        assert((a + b).drop_last() =~= a + b.drop_last());
        assert((a + b).last() == b.last());
        lemma_run_used(s, a);
    }
}

/// A run that ends within `bytes` ends at a byte of it.
pub proof fn lemma_run_used(s: ParseState, bytes: Seq<u8>)
    ensures
        run(s, bytes) is Done ==> 1 <= run(s, bytes)->Done_used <= bytes.len(),
        run(s, bytes) is Fail ==> 1 <= run(s, bytes)->Fail_used <= bytes.len(),
    decreases bytes.len(),
{
    if bytes.len() > 0 {
        lemma_run_used(s, bytes.drop_last());
    }
}

/// Asking for a message when no new byte has come leaves the decoder where it was.
pub proof fn lemma_run_idle(s: ParseState)
    ensures
        run(s, Seq::empty()) == (Outcome::Pending { state: s }),
{
}

/// The effect of delivering `chunks` one after another, each handed to the
/// decoder as it comes, until a message is complete or the input is malformed.
pub open spec fn feed(s: ParseState, chunks: Seq<Seq<u8>>) -> Outcome
    decreases chunks.len(),
{
    if chunks.len() == 0 {
        Outcome::Pending { state: s }
    } else {
        match run(s, chunks[0]) {
            Outcome::Pending { state } => shift(feed(state, chunks.drop_first()), chunks[0].len()),
            o => o,
        }
    }
}

/// However a stream is cut into chunks, delivering them one by one decodes the
/// same message, at the same byte, as delivering the whole stream at once.
pub proof fn lemma_chunks_decode_alike(s: ParseState, chunks: Seq<Seq<u8>>)
    ensures
        feed(s, chunks) == run(s, chunks.flatten()),
    decreases chunks.len(),
{
    if chunks.len() == 0 {
        lemma_run_idle(s);
    } else {
        let first = chunks[0];
        let rest = chunks.drop_first();
        assert(chunks.flatten() == first + rest.flatten());
        lemma_run_split(s, first, rest.flatten());
        match run(s, first) {
            Outcome::Pending { state } => {
                lemma_chunks_decode_alike(state, rest);
            },
            _ => {},
        }
    }
}

/// A line with no line feed in it leaves a line state waiting, holding its bytes.
pub proof fn lemma_line_waits(kind: LineKind, q: Seq<u8>, text: Seq<u8>)
    requires
        !text.contains(LF),
    ensures
        run(ParseState::Line(kind, q), text) == (Outcome::Pending {
            state: ParseState::Line(kind, q + text),
        }),
    decreases text.len(),
{
    if text.len() == 0 {
        assert(q + text =~= q);
    } else {
        assert(!text.drop_last().contains(LF)) by {
            if text.drop_last().contains(LF) {
                let i = choose|i: int| 0 <= i < text.drop_last().len() && text.drop_last()[i] == LF;
                assert(text[i] == LF);
            }
        }
        lemma_line_waits(kind, q, text.drop_last());
        assert(text.last() != LF) by {
            assert(text[text.len() - 1] == text.last());
        }
        assert(q + text =~= (q + text.drop_last()).push(text.last()));
    }
}

/// The tag byte that opens a line of the given kind; any byte that is not the
/// tag of another form opens an inline line.
pub open spec fn line_tag(kind: LineKind) -> u8 {
    match kind {
        LineKind::SimpleString => 43,
        LineKind::Error => 45,
        LineKind::Inline => 80,
    }
}

/// A line whose text holds no line feed and which ends in CR LF decodes to
/// that text, taking all its bytes.
pub proof fn lemma_line_decodes(kind: LineKind, text: Seq<u8>)
    requires
        !text.contains(LF),
    ensures
        decode(seq![line_tag(kind)] + text + seq![CR, LF]) == (Outcome::Done {
            value: line_value(kind, text),
            used: text.len() + 3,
        }),
{
    let tag = line_tag(kind);
    let with_cr = text.push(CR);
    assert(!with_cr.contains(LF)) by {
        if with_cr.contains(LF) {
            let i = choose|i: int| 0 <= i < with_cr.len() && with_cr[i] == LF;
            if i < text.len() {
                assert(text[i] == LF);
            }
        }
    }
    let head = seq![tag];
    assert(run(ParseState::Init, Seq::<u8>::empty()) == (Outcome::Pending { state: ParseState::Init }));
    assert(head.drop_last() =~= Seq::<u8>::empty());
    assert(run(ParseState::Init, head) == (Outcome::Pending { state: ParseState::Line(kind, Seq::empty()) }));
    lemma_line_waits(kind, Seq::empty(), with_cr);
    lemma_run_split(ParseState::Init, head, with_cr);
    let body = head + with_cr;
    let all = head + text + seq![CR, LF];
    assert(all =~= body.push(LF));
    assert(all.drop_last() =~= body);
    assert(Seq::<u8>::empty() + with_cr =~= with_cr);
    assert(with_cr.drop_last() =~= text);
}

/// A line whose text holds no line feed and which ends in a line feed without
/// the carriage return before it is malformed, and is found so at its line feed.
pub proof fn lemma_line_missing_cr_fails(kind: LineKind, text: Seq<u8>)
    requires
        !text.contains(LF),
        text.len() == 0 || text.last() != CR,
    ensures
        decode(seq![line_tag(kind)] + text + seq![LF]) == (Outcome::Fail { used: text.len() + 2 }),
{
    let tag = line_tag(kind);
    let head = seq![tag];
    assert(run(ParseState::Init, Seq::<u8>::empty()) == (Outcome::Pending { state: ParseState::Init }));
    assert(head.drop_last() =~= Seq::<u8>::empty());
    assert(run(ParseState::Init, head) == (Outcome::Pending { state: ParseState::Line(kind, Seq::empty()) }));
    lemma_line_waits(kind, Seq::empty(), text);
    lemma_run_split(ParseState::Init, head, text);
    let body = head + text;
    let all = head + text + seq![LF];
    assert(all =~= body.push(LF));
    assert(all.drop_last() =~= body);
    assert(Seq::<u8>::empty() + text =~= text);
}

} // verus!
