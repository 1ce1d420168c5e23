//! Writing one line to the current sink.

use crate::line::{format_line, line_text};
use crate::registry::{installs, Registry};
use crate::sink::{took_leading_part, Sink};
use vstd::prelude::*;
use vstd::string::*;
use vstd::utf8::{
    decode_utf8, encode_utf8, encode_utf8_decode_utf8, encode_utf8_valid_utf8, valid_utf8,
};

verus! {

/// Why a line was not written.
#[derive(Debug, PartialEq, Eq)]
pub enum LogError {
    /// No sink has been installed yet.
    Uninitialized,
    /// The sink reported a failure; `reason` is what it reported.
    WriteFailed { reason: String },
}

impl LogError {
    /// What [`LogError::message`] says.
    pub open spec fn text(&self) -> Seq<char> {
        match self {
            LogError::Uninitialized => "Nothing to log to yet, use init() before logging"@,
            LogError::WriteFailed { reason } => "Error writing to logger\nreason: "@ + reason@,
        }
    }

    /// A description fit to abort with. For a failed write it ends with the
    /// sink's reason.
    pub fn message(&self) -> (message: String)
        ensures
            message@ == self.text(),
    {
        match self {
            LogError::Uninitialized => String::from_str(
                "Nothing to log to yet, use init() before logging",
            ),
            LogError::WriteFailed { reason } => {
                let mut message = String::from_str("Error writing to logger\nreason: ");
                message.append(reason.as_str());
                message
            },
        }
    }
}

/// The bytes of the line for `message`, logged at `line` of `file`: the line
/// as text, in UTF-8.
pub open spec fn line_bytes(file: Seq<char>, line: nat, message: Seq<char>) -> Seq<u8> {
    encode_utf8(line_text(file, line, message))
}

/// What [`log`] returns for what the sink's `append` returned: success for
/// success, and for a failure [`LogError::WriteFailed`] with the sink's
/// reason.
pub fn conclude(appended: Result<(), String>) -> (result: Result<(), LogError>)
    ensures
        appended is Ok ==> result is Ok,
        appended matches Err(reason) ==> result == Err::<(), LogError>(
            LogError::WriteFailed { reason },
        ),
{
    match appended {
        Ok(()) => Ok(()),
        Err(reason) => Err(LogError::WriteFailed { reason }),
    }
}

/// What [`log`] does to a registry that held `before`, given a line of
/// `bytes`.
///
/// With no sink installed nothing changes and the call fails with
/// [`LogError::Uninitialized`]. With a sink installed, a call that succeeds
/// has appended exactly `bytes` to it, and a call that fails does so with
/// [`LogError::WriteFailed`], the sink having taken some leading part of
/// `bytes`. A sink that never fails makes the call succeed. Either way the
/// registry still holds a sink, which never fails if it never did.
pub open spec fn logs<S: Sink>(
    before: Option<S>,
    bytes: Seq<u8>,
    after: Option<S>,
    result: Result<(), LogError>,
) -> bool {
    match before {
        None => after is None && result == Err::<(), LogError>(LogError::Uninitialized),
        Some(sink) => {
            &&& after is Some
            &&& after->0.never_fails() == sink.never_fails()
            &&& sink.never_fails() ==> result is Ok
            &&& match result {
                Ok(()) => after->0.written() == sink.written() + bytes,
                Err(error) => error is WriteFailed && took_leading_part(
                    sink.written(),
                    bytes,
                    after->0.written(),
                ),
            }
        },
    }
}

/// Writes the line for `message`, logged at `line` of `file`, to the sink
/// installed in `registry`, in one call of the sink's `append`.
///
/// The registry is held by `&mut` for the length of the call, so neither
/// another `log` nor an [`init`](crate::registry::init) can come between the
/// look at the registry and the end of the write.
pub fn log<S: Sink>(registry: &mut Registry<S>, file: &str, line: u32, message: &str) -> (result:
    Result<(), LogError>)
    ensures
        logs(
            old(registry)@,
            line_bytes(file@, line as nat, message@),
            final(registry)@,
            result,
        ),
{
    match registry.current() {
        None => Err(LogError::Uninitialized),
        Some(sink) => {
            let text = format_line(file, line, message);
            conclude(sink.append(text.as_str().as_bytes()))
        },
    }
}

/// The bytes of a line are well-formed UTF-8 and read back as the text of
/// the line.
pub proof fn lemma_line_bytes_read_back(file: Seq<char>, line: nat, message: Seq<char>)
    ensures
        valid_utf8(line_bytes(file, line, message)),
        decode_utf8(line_bytes(file, line, message)) == line_text(file, line, message),
{
    encode_utf8_valid_utf8(line_text(file, line, message));
    encode_utf8_decode_utf8(line_text(file, line, message));
}

/// The given lines, each whole, one after the other in the order given.
pub open spec fn joined(lines: Seq<Seq<u8>>) -> Seq<u8>
    decreases lines.len(),
{
    if lines.len() == 0 {
        Seq::empty()
    } else {
        joined(lines.drop_last()) + lines.last()
    }
}

/// Where `lines[i]` starts in `joined(lines)`.
pub open spec fn line_start(lines: Seq<Seq<u8>>, i: int) -> int {
    joined(lines.take(i)).len() as int
}

/// Whether `slots`, `lines` and `results` describe a run of log calls on one
/// registry: the call with the line `lines[i]` found the registry holding
/// `slots[i]`, left it holding `slots[i + 1]`, and returned `results[i]`.
pub open spec fn run<S: Sink>(
    slots: Seq<Option<S>>,
    lines: Seq<Seq<u8>>,
    results: Seq<Result<(), LogError>>,
) -> bool {
    &&& slots.len() == lines.len() + 1
    &&& results.len() == lines.len()
    &&& forall|i: int|
        #![trigger lines[i]]
        0 <= i < lines.len() ==> logs(slots[i], lines[i], slots[i + 1], results[i])
}

/// Whether every one of the first `k` results is a success.
pub open spec fn all_ok(results: Seq<Result<(), LogError>>, k: int) -> bool {
    forall|i: int| 0 <= i < k ==> (#[trigger] results[i]) is Ok
}

/// After the first `k` calls of a run that began with a sink installed, a
/// sink is still installed and begins with what it held at the start. If
/// those calls all succeeded, what follows is exactly their lines.
proof fn lemma_run_so_far<S: Sink>(
    slots: Seq<Option<S>>,
    lines: Seq<Seq<u8>>,
    results: Seq<Result<(), LogError>>,
    k: int,
)
    requires
        run(slots, lines, results),
        slots[0] is Some,
        0 <= k <= lines.len(),
    ensures
        slots[k] is Some,
        slots[0]->0.written().is_prefix_of(slots[k]->0.written()),
        all_ok(results, k) ==> slots[k]->0.written() == slots[0]->0.written() + joined(
            lines.take(k),
        ),
    decreases k,
{
    if k == 0 {
        assert(lines.take(0) =~= Seq::<Seq<u8>>::empty());
        assert(slots[0]->0.written() =~= slots[0]->0.written() + joined(lines.take(0)));
    } else {
        lemma_run_so_far(slots, lines, results, k - 1);
        let line = lines[k - 1];
        assert(logs(slots[k - 1], line, slots[k], results[k - 1]));
        assert(slots[k - 1]->0.written().is_prefix_of(slots[k]->0.written()));
        if all_ok(results, k) {
            assert(results[k - 1] is Ok);
            assert(all_ok(results, k - 1));
            assert(lines.take(k).drop_last() =~= lines.take(k - 1));
            assert(lines.take(k).last() == line);
            assert(joined(lines.take(k)) == joined(lines.take(k - 1)) + line);
            assert(slots[k]->0.written() =~= slots[0]->0.written() + joined(lines.take(k)));
        }
    }
}

/// The first `i` lines, joined, are where all of them, joined, begin.
proof fn lemma_joined_begins_with(lines: Seq<Seq<u8>>, i: int)
    requires
        0 <= i <= lines.len(),
    ensures
        joined(lines.take(i)).is_prefix_of(joined(lines)),
    decreases lines.len() - i,
{
    if i == lines.len() {
        assert(lines.take(i) =~= lines);
    } else {
        lemma_joined_begins_with(lines, i + 1);
        assert(lines.take(i + 1).drop_last() =~= lines.take(i));
    }
}

/// Each line stands whole in the join of all lines, at its start.
pub proof fn lemma_line_stands_whole(lines: Seq<Seq<u8>>, i: int)
    requires
        0 <= i < lines.len(),
    ensures
        0 <= line_start(lines, i),
        line_start(lines, i) + lines[i].len() <= joined(lines).len(),
        joined(lines).subrange(line_start(lines, i), line_start(lines, i) + lines[i].len())
            == lines[i],
{
    lemma_joined_begins_with(lines, i + 1);
    assert(lines.take(i + 1).drop_last() =~= lines.take(i));
    assert(lines.take(i + 1).last() == lines[i]);
    let upto = joined(lines.take(i + 1));
    assert(upto == joined(lines.take(i)) + lines[i]);
    assert(upto == joined(lines).subrange(0, upto.len() as int));
    assert forall|j: int| 0 <= j < lines[i].len() implies joined(lines)[line_start(lines, i) + j]
        == lines[i][j] by {
        assert(upto[line_start(lines, i) + j] == lines[i][j]);
    }
    assert(joined(lines).subrange(line_start(lines, i), line_start(lines, i) + lines[i].len())
        =~= lines[i]);
}

/// Lines never interleave: after any run of successful log calls on a
/// registry with a sink installed, the sink holds what it held before and
/// then exactly the lines of those calls, each whole and in one piece, in the
/// order in which the calls got hold of the registry.
///
/// `lines[i]` is the line of the call in place `i` of that order, that is
/// [`line_bytes`] of its file, line number and message.
pub proof fn lemma_lines_never_interleave<S: Sink>(
    slots: Seq<Option<S>>,
    lines: Seq<Seq<u8>>,
    results: Seq<Result<(), LogError>>,
)
    requires
        run(slots, lines, results),
        all_ok(results, lines.len() as int),
        slots[0] is Some,
    ensures
        slots.last() is Some,
        slots.last()->0.written() == slots[0]->0.written() + joined(lines),
        forall|i: int|
            #![trigger lines[i]]
            0 <= i < lines.len() ==> joined(lines).subrange(
                line_start(lines, i),
                line_start(lines, i) + lines[i].len(),
            ) == lines[i],
{
    lemma_run_so_far(slots, lines, results, lines.len() as int);
    assert(lines.take(lines.len() as int) =~= lines);
    assert forall|i: int| #![trigger lines[i]] 0 <= i < lines.len() implies joined(lines).subrange(
        line_start(lines, i),
        line_start(lines, i) + lines[i].len(),
    ) == lines[i] by {
        lemma_line_stands_whole(lines, i);
    }
}

/// A replacement is visible at once: from the moment `sink` is installed,
/// every log call on the registry writes to it, and to nothing else.
///
/// The sink that was current before has left the registry, handed back as it
/// was. Of the run of log calls that follows, whichever way each one ends,
/// none finds the registry empty, and the sink that each one leaves behind
/// begins with what `sink` held when it was installed. If all of them
/// succeed, what follows is exactly their lines.
pub proof fn lemma_replacement_is_visible<S: Sink>(
    before: Option<S>,
    sink: S,
    handed_back: Option<S>,
    slots: Seq<Option<S>>,
    lines: Seq<Seq<u8>>,
    results: Seq<Result<(), LogError>>,
)
    requires
        run(slots, lines, results),
        installs(before, sink, slots[0], handed_back),
    ensures
        handed_back == before,
        forall|i: int|
            0 <= i < lines.len() ==> #[trigger] results[i] != Err::<(), LogError>(
                LogError::Uninitialized,
            ),
        forall|k: int|
            0 <= k <= lines.len() ==> (#[trigger] slots[k]) is Some && sink.written().is_prefix_of(
                slots[k]->0.written(),
            ),
        all_ok(results, lines.len() as int) ==> slots.last()->0.written() == sink.written()
            + joined(lines),
{
    assert forall|k: int| 0 <= k <= lines.len() implies (#[trigger] slots[k]) is Some
        && sink.written().is_prefix_of(slots[k]->0.written()) by {
        lemma_run_so_far(slots, lines, results, k);
    }
    assert forall|i: int| 0 <= i < lines.len() implies #[trigger] results[i] != Err::<
        (),
        LogError,
    >(LogError::Uninitialized) by {
        assert(slots[i] is Some);
        let line = lines[i];
        assert(logs(slots[i], line, slots[i + 1], results[i]));
    }
    lemma_run_so_far(slots, lines, results, lines.len() as int);
    assert(lines.take(lines.len() as int) =~= lines);
}

} // verus!
