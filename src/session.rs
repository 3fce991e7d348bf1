//! What one connection does with a batch of parsed commands.
use vstd::prelude::*;
use crate::database::{
    Database, Outbox, Record, deliver, notice, updated, partly_notified,
};
use crate::lexer::{Tok, lex_at};
use crate::parser::{Cmd, Command, Fault, Parser, Val, Value, encoding, command_views, parse_spec};
use crate::parser;
use vstd::utf8::valid_utf8;

verus! {

/// What running one command leaves in the store. A subscription registers
/// a new handle on the connection's queue, which is handed the current
/// value at once.
pub open spec fn apply(m: Map<Seq<char>, Record>, c: Cmd) -> Map<Seq<char>, Record> {
    match c {
        Cmd::Disconnect => m,
        Cmd::Create(k, v) => m.insert(k, Record { value: v, subscribers: Seq::empty() }),
        Cmd::Read(_) => m,
        Cmd::Update(k, v) => if m.contains_key(k) {
            updated(m, k, v)
        } else {
            m
        },
        Cmd::Delete(k) => m.remove(k),
        Cmd::Subscribe(k) => if m.contains_key(k) {
            m.insert(
                k,
                Record {
                    value: m[k].value,
                    subscribers: m[k].subscribers.push(seq![notice(k, m[k].value)]),
                },
            )
        } else {
            m
        },
    }
}

/// The value that running one command answers with.
pub open spec fn response(m: Map<Seq<char>, Record>, c: Cmd) -> Option<Val> {
    match c {
        Cmd::Create(k, _) | Cmd::Read(k) | Cmd::Update(k, _) | Cmd::Delete(k) => if m.contains_key(
            k,
        ) {
            Some(m[k].value)
        } else {
            None
        },
        _ => None,
    }
}

/// What the store holds after running the commands in order.
pub open spec fn apply_all(m: Map<Seq<char>, Record>, cs: Seq<Cmd>) -> Map<Seq<char>, Record>
    decreases cs.len(),
{
    if cs.len() == 0 {
        m
    } else {
        apply(apply_all(m, cs.drop_last()), cs.last())
    }
}

/// The frame queued for an answer, if there is one.
pub open spec fn frames(answer: Option<Val>) -> Seq<Seq<char>> {
    match answer {
        Some(v) => seq![encoding(v)],
        None => seq![],
    }
}

/// The frames that running the commands in order queues: one for each
/// answer, in command order.
pub open spec fn answers(m: Map<Seq<char>, Record>, cs: Seq<Cmd>) -> Seq<Seq<char>>
    decreases cs.len(),
{
    if cs.len() == 0 {
        seq![]
    } else {
        answers(m, cs.drop_last()) + frames(response(apply_all(m, cs.drop_last()), cs.last()))
    }
}

/// The result of running one command.
pub enum Outcome {
    /// The command ran; it answers with this value, if any.
    Reply(Option<Value>),
    /// The command asks to close the connection.
    Disconnect,
    /// An update could not reach a subscriber and was not made.
    Unreachable,
}

/// How a batch ended.
#[derive(Debug, PartialEq, Eq, Structural)]
pub enum BatchEnd {
    /// Every command ran and every answer was queued.
    Completed,
    /// The command at this index asked to close the connection; the ones
    /// after it were not run.
    Disconnected(usize),
    /// The command at this index failed to reach a subscriber, or its answer
    /// could not be queued; the ones after it were not run.
    Stopped(usize),
}

/// How running the commands `cs` on the store `start`, ending as `r`, may
/// leave the store `finish` and the connection's queue log going from
/// `log0` to `log1`. Every command before the one that ended the batch ran
/// and had its answer queued. A command that failed is either an update
/// that reached only some subscribers, leaving the value, or one that ran
/// in full and whose answer was handed to the queue but not taken.
pub open spec fn batch_result(
    start: Map<Seq<char>, Record>,
    cs: Seq<Cmd>,
    finish: Map<Seq<char>, Record>,
    log0: Seq<Seq<char>>,
    log1: Seq<Seq<char>>,
    r: BatchEnd,
) -> bool {
    match r {
        BatchEnd::Completed => {
            &&& forall|j: int| 0 <= j < cs.len() ==> !(#[trigger] cs[j] is Disconnect)
            &&& finish == apply_all(start, cs)
            &&& log1 == log0 + answers(start, cs)
        },
        BatchEnd::Disconnected(i) => {
            &&& i < cs.len()
            &&& cs[i as int] is Disconnect
            &&& forall|j: int| 0 <= j < i ==> !(#[trigger] cs[j] is Disconnect)
            &&& finish == apply_all(start, cs.subrange(0, i as int))
            &&& log1 == log0 + answers(start, cs.subrange(0, i as int))
        },
        BatchEnd::Stopped(i) => {
            let before = apply_all(start, cs.subrange(0, i as int));
            &&& i < cs.len()
            &&& forall|j: int| 0 <= j <= i ==> !(#[trigger] cs[j] is Disconnect)
            &&& ({
                ||| (cs[i as int] is Update && before.contains_key(cs[i as int]->Update_0) && (exists|
                    j: int,
                |
                    1 <= j <= before[cs[i as int]->Update_0].subscribers.len() && finish
                        == #[trigger] partly_notified(
                        before,
                        cs[i as int]->Update_0,
                        cs[i as int]->Update_1,
                        j,
                    )) && log1 == log0 + answers(start, cs.subrange(0, i as int)))
                ||| (response(before, cs[i as int]) is Some && finish == apply_all(
                    start,
                    cs.subrange(0, i + 1),
                ) && log1 == log0 + answers(start, cs.subrange(0, i + 1)))
            })
        },
    }
}

/// Runs one command against the store. A subscription registers a new
/// handle on the queue of `outbox`.
pub fn execute(db: &mut Database, command: Command, outbox: &Outbox) -> (r: Outcome)
    requires
        old(db).wf(),
    ensures
        final(db).wf(),
        command@ is Disconnect <==> r is Disconnect,
        r is Disconnect ==> final(db)@ == old(db)@,
        r is Unreachable ==> command@ is Update && old(db)@.contains_key(command@->Update_0) && (
        exists|j: int|
            1 <= j <= old(db)@[command@->Update_0].subscribers.len() && final(db)@
                == #[trigger] partly_notified(old(db)@, command@->Update_0, command@->Update_1, j)),
        r is Reply ==> final(db)@ == apply(old(db)@, command@) && match r->Reply_0 {
            Some(v) => response(old(db)@, command@) == Some(v@),
            None => response(old(db)@, command@) is None,
        },
        !(command@ is Update) ==> r is Reply || r is Disconnect,
{
    match command {
        Command::Disconnect => Outcome::Disconnect,
        Command::Create(key, value) => Outcome::Reply(db.create(key, value)),
        Command::Read(key) => {
            let found = match db.read(key.as_str()) {
                Some(v) => Some(v.duplicate()),
                None => None,
            };
            Outcome::Reply(found)
        },
        Command::Update(key, value) => match db.update(key.as_str(), value) {
            Ok(prior) => Outcome::Reply(prior),
            Err(_) => Outcome::Unreachable,
        },
        Command::Delete(key) => Outcome::Reply(db.delete(key.as_str())),
        Command::Subscribe(key) => {
            let _ = db.subscribe(key.as_str(), outbox.share());
            proof {
                if old(db)@.contains_key(key@) {
                    assert(Seq::<Seq<char>>::empty().push(notice(key@, old(db)@[key@].value)) =~= seq![
                        notice(key@, old(db)@[key@].value),
                    ]);
                }
            }
            Outcome::Reply(None)
        },
    }
}

/// Runs a batch in order, queueing on `outbox` the wire form of each answer,
/// up to the first command that asks to close the connection.
pub fn run_batch(db: &mut Database, commands: Vec<Command>, outbox: &mut Outbox) -> (r: BatchEnd)
    requires
        old(db).wf(),
    ensures
        final(db).wf(),
        batch_result(old(db)@, command_views(commands@), final(db)@, old(outbox)@, final(outbox)@, r),
{
    let ghost cs = command_views(commands@);
    let ghost start = db@;
    let mut queue = commands;
    let n = queue.len();
    let mut i: usize = 0;
    while i < n
        invariant
            db.wf(),
            start == old(db)@,
            cs == command_views(commands@),
            n == cs.len(),
            i <= n,
            queue@.len() == n - i,
            forall|j: int| 0 <= j < n - i ==> #[trigger] queue@[j]@ == cs[i + j],
            forall|j: int| 0 <= j < i ==> !(#[trigger] cs[j] is Disconnect),
            db@ == apply_all(start, cs.subrange(0, i as int)),
            outbox@ == old(outbox)@ + answers(start, cs.subrange(0, i as int)),
        decreases n - i,
    {
        let ghost prev = queue@;
        let command = queue.remove(0);
        assert(forall|j: int| 0 <= j < n - i - 1 ==> #[trigger] queue@[j] == prev[j + 1]);
        assert(command@ == cs[i as int]);
        assert(cs.subrange(0, i + 1).drop_last() =~= cs.subrange(0, i as int));
        let ghost before = db@;
        let ghost log = outbox@;
        match execute(db, command, outbox) {
            Outcome::Disconnect => return BatchEnd::Disconnected(i),
            Outcome::Unreachable => return BatchEnd::Stopped(i),
            Outcome::Reply(answer) => {
                if let Some(v) = answer {
                    let sent = deliver(outbox, &v.encode());
                    assert(outbox@ =~= old(outbox)@ + answers(start, cs.subrange(0, i + 1)));
                    if !sent {
                        return BatchEnd::Stopped(i);
                    }
                } else {
                    assert(outbox@ =~= old(outbox)@ + answers(start, cs.subrange(0, i + 1)));
                }
            },
        }
        i = i + 1;
    }
    assert(cs.subrange(0, i as int) =~= cs);
    BatchEnd::Completed
}

/// The commands that the bytes of one read stand for, or the fault met.
pub open spec fn request(b: Seq<u8>) -> Result<Seq<Cmd>, Fault> {
    if !valid_utf8(b) {
        Err(Fault::InvalidUTF8)
    } else {
        match lex_at(b, 0) {
            Err(e) => Err(Fault::Syntax(e)),
            Ok((Tok::Array(ts), _)) => parse_spec(ts),
            Ok((t, _)) => Err(Fault::Expected("token array"@, t)),
        }
    }
}

/// Handles the bytes of one read: a request that does not parse is
/// reported and changes nothing; otherwise its batch runs.
pub fn serve(db: &mut Database, bytes: &[u8], outbox: &mut Outbox) -> (r: Result<
    BatchEnd,
    parser::Error,
>)
    requires
        old(db).wf(),
    ensures
        final(db).wf(),
        match request(bytes@) {
            Err(f) => r is Err && r->Err_0@ == f && final(db)@ == old(db)@ && final(outbox)@ == old(
                outbox,
            )@,
            Ok(cs) => r is Ok && batch_result(
                old(db)@,
                cs,
                final(db)@,
                old(outbox)@,
                final(outbox)@,
                r->Ok_0,
            ),
        },
{
    let mut parser = match Parser::from(bytes) {
        Ok(p) => p,
        Err(e) => return Err(e),
    };
    let commands = match parser.parse() {
        Ok(c) => c,
        Err(e) => return Err(e),
    };
    Ok(run_batch(db, commands, outbox))
}

} // verus!
