//! The line-oriented text format that persists a store: a block per record,
//! delimited by tag lines, with one positional field per line.

use vstd::prelude::*;
use crate::ds::{Metadata, Store, StoreV, Task, TaskV};
use crate::nums::{
    dec_digits, digits_val, is_digit, is_signed_dec, is_unsigned_dec, push_i64_decimal,
    push_u64_decimal, signed_digits, signed_val,
};

verus! {

/// The line that opens the metadata block.
pub open spec fn meta_tag() -> Seq<char> {
    ":metadata"@
}

/// The line that opens a task block.
pub open spec fn task_tag() -> Seq<char> {
    ":task"@
}

/// The line that closes a block.
pub open spec fn end_tag() -> Seq<char> {
    ":end"@
}

/// A label can be written to the format and read back unchanged: it spans a
/// single line and is not itself a block delimiter. The format has no
/// escaping, so this is a stated limitation of the store, not of the codec.
pub open spec fn label_encodable(label: Seq<char>) -> bool {
    &&& !label.contains('\n')
    &&& label != meta_tag()
    &&& label != task_tag()
    &&& label != end_tag()
}

/// Decides whether a label can be stored: no newline, and not a block
/// delimiter line. Callers gate `add_task` and `relabel_task` on this.
pub fn label_fits(label: &str) -> (r: bool)
    ensures
        r == label_encodable(label@),
{
    let len = label.unicode_len();
    let mut i: usize = 0;
    while i < len
        invariant
            i <= len,
            len == label@.len(),
            forall|j: int| 0 <= j < i ==> label@[j] != '\n',
        decreases len - i,
    {
        if label.get_char(i) == '\n' {
            proof {
                assert(label@[i as int] == '\n');
            }
            return false;
        }
        i = i + 1;
    }
    proof {
        assert(!label@.contains('\n')) by {
            if label@.contains('\n') {
                let k = choose|k: int| 0 <= k < label@.len() && label@[k] == '\n';
            }
        }
    }
    let owned = label.to_owned();
    if owned == String::from_str(":metadata") {
        return false;
    }
    if owned == String::from_str(":task") {
        return false;
    }
    if owned == String::from_str(":end") {
        return false;
    }
    true
}

/// The completion-marker field line.
pub open spec fn done_marker(done: bool) -> Seq<char> {
    if done {
        "[x]"@
    } else {
        "[]"@
    }
}

/// The optional completion-time field line: a bare `-` when absent.
pub open spec fn checked_field(c: Option<i64>) -> Seq<char> {
    match c {
        None => "-"@,
        Some(v) => signed_digits(v as int),
    }
}

/// The lines of the metadata block.
pub open spec fn metadata_lines(last_task_id: u32) -> Seq<Seq<char>> {
    seq![meta_tag(), dec_digits(last_task_id as nat), end_tag()]
}

/// The lines of one task block: tag, id, marker, label, creation time,
/// completion time, end.
pub open spec fn task_lines(t: TaskV) -> Seq<Seq<char>> {
    seq![
        task_tag(),
        dec_digits(t.id as nat),
        done_marker(t.done),
        t.label,
        signed_digits(t.date_created as int),
        checked_field(t.date_checked),
        end_tag(),
    ]
}

/// The lines of all task blocks, in store order.
pub open spec fn tasks_lines(ts: Seq<TaskV>) -> Seq<Seq<char>>
    decreases ts.len(),
{
    if ts.len() == 0 {
        Seq::empty()
    } else {
        tasks_lines(ts.drop_last()) + task_lines(ts.last())
    }
}

/// The lines of a whole store: the metadata block, then one block per task.
pub open spec fn store_lines(s: StoreV) -> Seq<Seq<char>> {
    metadata_lines(s.last_task_id) + tasks_lines(s.tasks)
}

/// Lines as persisted text: every line, including the final one, is
/// terminated by a newline.
pub open spec fn join_lines(lines: Seq<Seq<char>>) -> Seq<char>
    decreases lines.len(),
{
    if lines.len() == 0 {
        Seq::empty()
    } else {
        join_lines(lines.drop_last()) + lines.last() + seq!['\n']
    }
}

/// The full persisted text of a store.
pub open spec fn encode_spec(s: StoreV) -> Seq<char> {
    join_lines(store_lines(s))
}

/// Joining distributes over concatenation of line sequences.
pub proof fn lemma_join_append(a: Seq<Seq<char>>, b: Seq<Seq<char>>)
    ensures
        join_lines(a + b) == join_lines(a) + join_lines(b),
    decreases b.len(),
{
    if b.len() == 0 {
        assert(a + b =~= a);
        assert(join_lines(a) + join_lines(b) =~= join_lines(a));
    } else {
        lemma_join_append(a, b.drop_last());
        assert((a + b).drop_last() =~= a + b.drop_last());
        assert((a + b).last() == b.last());
        assert(join_lines(a + b) =~= join_lines(a) + join_lines(b));
    }
}

impl Metadata {
    /// Writes the metadata block into an empty buffer.
    pub fn dump(&self, buffer: &mut String)
        requires
            old(buffer)@.len() == 0,
        ensures
            final(buffer)@ == old(buffer)@ + join_lines(metadata_lines(self.last_task_id)),
    {
        buffer.append(":metadata");
        buffer.append("\n");
        push_u64_decimal(buffer, self.last_task_id as u64);
        buffer.append("\n");
        buffer.append(":end");
        buffer.append("\n");
        proof {
            reveal_strlit("\n");
            reveal_with_fuel(join_lines, 5);
            let ls = metadata_lines(self.last_task_id);
            assert(ls.drop_last() =~= seq![meta_tag(), dec_digits(self.last_task_id as nat)]);
            assert(ls.drop_last().drop_last() =~= seq![meta_tag()]);
            assert(seq![meta_tag()].drop_last() =~= Seq::<Seq<char>>::empty());
            assert("\n"@ =~= seq!['\n']);
            assert(final(buffer)@ =~= old(buffer)@ + join_lines(ls));
        }
    }
}

impl Task {
    /// Writes the record's block at the end of the buffer.
    #[verifier::rlimit(30)]
    pub fn dump(&self, buffer: &mut String)
        ensures
            final(buffer)@ == old(buffer)@ + join_lines(task_lines(self@)),
    {
        buffer.append(":task");
        buffer.append("\n");
        push_u64_decimal(buffer, self.id as u64);
        buffer.append("\n");
        if self.done {
            buffer.append("[x]");
        } else {
            buffer.append("[]");
        }
        buffer.append("\n");
        buffer.append(self.label.as_str());
        buffer.append("\n");
        push_i64_decimal(buffer, self.date_created);
        buffer.append("\n");
        match self.date_checked {
            Some(n) => push_i64_decimal(buffer, n),
            None => buffer.append("-"),
        }
        buffer.append("\n");
        buffer.append(":end");
        buffer.append("\n");
        proof {
            reveal_strlit("\n");
            reveal_with_fuel(join_lines, 9);
            assert("\n"@ =~= seq!['\n']);
            let ls = task_lines(self@);
            let l5 = ls.drop_last();
            let l4 = l5.drop_last();
            let l3 = l4.drop_last();
            let l2 = l3.drop_last();
            let l1 = l2.drop_last();
            let l0 = l1.drop_last();
            assert(l5 =~= seq![
                task_tag(),
                dec_digits(self@.id as nat),
                done_marker(self@.done),
                self@.label,
                signed_digits(self@.date_created as int),
                checked_field(self@.date_checked),
            ]);
            assert(l4 =~= l5.drop_last());
            assert(l3 =~= l4.drop_last());
            assert(l2 =~= l3.drop_last());
            assert(l1 =~= l2.drop_last());
            assert(l0 =~= seq![task_tag()]);
            assert(l0.drop_last() =~= Seq::<Seq<char>>::empty());
            assert(final(buffer)@ =~= old(buffer)@ + join_lines(ls));
        }
    }
}

impl Store {
    /// Encodes the whole store as persisted text: the metadata block first,
    /// then one task block per task in store order. Total: it succeeds for
    /// every in-memory store.
    pub fn encode(&self) -> (out: String)
        ensures
            out@ == encode_spec(self@),
    {
        let mut buffer = String::new();
        self.metadata.dump(&mut buffer);
        proof {
            assert(self@.tasks.take(0) =~= Seq::<TaskV>::empty());
            assert(join_lines(Seq::<Seq<char>>::empty()) =~= Seq::<char>::empty());
            assert(buffer@ =~= join_lines(metadata_lines(self@.last_task_id)) + join_lines(
                tasks_lines(self@.tasks.take(0)),
            ));
        }
        let mut i: usize = 0;
        while i < self.tasks.len()
            invariant
                i <= self.tasks.len(),
                self@.tasks.len() == self.tasks.len(),
                self@ == self.view(),
                buffer@ == join_lines(metadata_lines(self@.last_task_id)) + join_lines(
                    tasks_lines(self@.tasks.take(i as int)),
                ),
            decreases self.tasks.len() - i,
        {
            let ghost pre = buffer@;
            self.tasks[i].dump(&mut buffer);
            proof {
                let ts = self@.tasks;
                assert(self.tasks[i as int]@ == ts[i as int]);
                assert(ts.take(i + 1).drop_last() =~= ts.take(i as int));
                assert(ts.take(i + 1).last() == ts[i as int]);
                assert(tasks_lines(ts.take(i + 1)) == tasks_lines(ts.take(i as int)) + task_lines(
                    ts[i as int],
                ));
                lemma_join_append(tasks_lines(ts.take(i as int)), task_lines(ts[i as int]));
                assert(buffer@ =~= join_lines(metadata_lines(self@.last_task_id)) + join_lines(
                    tasks_lines(ts.take(i + 1)),
                ));
            }
            i = i + 1;
        }
        proof {
            assert(self@.tasks.take(self.tasks.len() as int) =~= self@.tasks);
            lemma_join_append(metadata_lines(self@.last_task_id), tasks_lines(self@.tasks));
            assert(buffer@ =~= encode_spec(self@));
        }
        buffer
    }
}

/// The lines of `text`, split at every newline. The separators belong to no
/// line; text without a newline is one single line, so text that ends in a
/// newline ends with an empty line.
pub open spec fn split_rec(text: Seq<char>) -> Seq<Seq<char>>
    decreases text.len(),
{
    if text.len() == 0 {
        seq![Seq::<char>::empty()]
    } else if text[0] == '\n' {
        seq![Seq::<char>::empty()] + split_rec(text.drop_first())
    } else {
        let rest = split_rec(text.drop_first());
        seq![seq![text[0]] + rest[0]] + rest.skip(1)
    }
}

/// Text without a newline is a single line.
pub proof fn lemma_split_no_nl(text: Seq<char>)
    requires
        !text.contains('\n'),
    ensures
        split_rec(text) == seq![text],
    decreases text.len(),
{
    if text.len() == 0 {
        assert(text =~= Seq::<char>::empty());
        assert(split_rec(text) =~= seq![text]);
    } else {
        assert(text[0] != '\n');
        let tail = text.drop_first();
        assert(!tail.contains('\n')) by {
            if tail.contains('\n') {
                let k = choose|k: int| 0 <= k < tail.len() && tail[k] == '\n';
                assert(text[k + 1] == '\n');
                assert(text.contains('\n'));
            }
        }
        lemma_split_no_nl(tail);
        let rest = split_rec(tail);
        assert(rest[0] == tail);
        let lhs = split_rec(text);
        assert(lhs == seq![seq![text[0]] + rest[0]] + rest.skip(1));
        assert(seq![text[0]] + rest[0] =~= text);
        assert(rest.skip(1) =~= Seq::<Seq<char>>::empty());
        assert(lhs.len() == 1);
        assert(lhs[0] == text);
        assert(lhs =~= seq![text]);
    }
}

/// Splitting at the first newline: everything before it is the first line,
/// and the rest of the text splits independently.
pub proof fn lemma_split_cut(text: Seq<char>, k: int)
    requires
        0 <= k < text.len(),
        text[k] == '\n',
        forall|j: int| 0 <= j < k ==> text[j] != '\n',
    ensures
        split_rec(text) == seq![text.take(k)] + split_rec(text.skip(k + 1)),
    decreases k,
{
    if k == 0 {
        assert(text.take(0) =~= Seq::<char>::empty());
        assert(text.drop_first() =~= text.skip(1));
        assert(split_rec(text) =~= seq![text.take(0)] + split_rec(text.skip(1)));
    } else {
        let tail = text.drop_first();
        assert(tail[k - 1] == '\n');
        assert(forall|j: int| 0 <= j < k - 1 ==> #[trigger] tail[j] == text[j + 1] && tail[j]
            != '\n');
        lemma_split_cut(tail, k - 1);
        let rest = split_rec(tail);
        assert(rest == seq![tail.take(k - 1)] + split_rec(tail.skip(k)));
        assert(rest[0] == tail.take(k - 1));
        assert(seq![text[0]] + tail.take(k - 1) =~= text.take(k));
        assert(rest.skip(1) =~= split_rec(tail.skip(k)));
        assert(tail.skip(k) =~= text.skip(k + 1));
        assert(split_rec(text) =~= seq![text.take(k)] + split_rec(text.skip(k + 1)));
    }
}

/// Splits `text` into its lines.
fn split_lines(text: &str) -> (lines: Vec<String>)
    ensures
        lines@.map_values(|l: String| l@) == split_rec(text@),
{
    let len = text.unicode_len();
    let mut out: Vec<String> = Vec::new();
    let mut start: usize = 0;
    let mut i: usize = 0;
    proof {
        assert(text@.skip(0) =~= text@);
        assert(out@.map_values(|l: String| l@) =~= Seq::<Seq<char>>::empty());
        assert(split_rec(text@) =~= out@.map_values(|l: String| l@) + split_rec(text@.skip(0)));
    }
    while i < len
        invariant
            0 <= start <= i <= len,
            len == text@.len(),
            forall|j: int| start <= j < i ==> text@[j] != '\n',
            split_rec(text@) == out@.map_values(|l: String| l@) + split_rec(
                text@.skip(start as int),
            ),
        decreases len - i,
    {
        let c = text.get_char(i);
        if c == '\n' {
            let line = text.substring_char(start, i).to_owned();
            proof {
                let t = text@.skip(start as int);
                assert(t[i - start] == '\n');
                assert(forall|j: int| 0 <= j < i - start ==> #[trigger] t[j] == text@[j
                    + start] && t[j] != '\n');
                lemma_split_cut(t, i - start);
                assert(t.take(i - start) =~= text@.subrange(start as int, i as int));
                assert(t.skip(i - start + 1) =~= text@.skip(i + 1));
                assert(out@.push(line).map_values(|l: String| l@) =~= out@.map_values(
                    |l: String| l@,
                ).push(line@));
                assert(out@.map_values(|l: String| l@) + seq![line@] + split_rec(text@.skip(i + 1))
                    =~= out@.map_values(|l: String| l@) + (seq![line@] + split_rec(
                    text@.skip(i + 1),
                )));
            }
            out.push(line);
            start = i + 1;
        }
        i = i + 1;
    }
    let line = text.substring_char(start, len).to_owned();
    proof {
        let t = text@.skip(start as int);
        assert(!t.contains('\n')) by {
            if t.contains('\n') {
                let k = choose|k: int| 0 <= k < t.len() && t[k] == '\n';
                assert(text@[k + start] == '\n');
            }
        }
        lemma_split_no_nl(t);
        assert(t =~= text@.subrange(start as int, len as int));
        assert(out@.push(line).map_values(|l: String| l@) =~= out@.map_values(
            |l: String| l@,
        ).push(line@));
        assert(out@.map_values(|l: String| l@).push(line@) =~= out@.map_values(|l: String| l@)
            + split_rec(t));
    }
    out.push(line);
    out
}

/// The block kind a decode error occurred in.
#[derive(Clone, Copy, Debug, PartialEq, Eq, Structural)]
pub enum BlockKind {
    Metadata,
    Task,
}

/// Why a decode failed, and where: the field index counts the positional
/// field lines of the offending block from zero.
#[derive(Clone, Copy, Debug, PartialEq, Eq, Structural)]
pub enum DecodeError {
    /// A field line did not parse as the field's type.
    InvalidField { block: BlockKind, field: u32 },
    /// A block-opening tag appeared while another block was still open.
    NestedTag { block: BlockKind },
    /// A block was closed before all of its fields were given.
    PrematureEnd { block: BlockKind, have: u32 },
    /// A field line appeared after all of the block's fields were given.
    ExtraField { block: BlockKind },
    /// A task block's completion marker disagreed with its completion time.
    MismatchedCheck,
    /// The text ended while a block was still open.
    UnterminatedBlock { block: BlockKind },
}

/// The parser's position: outside any block, or inside a block at a field
/// index.
pub ghost enum Mode {
    Idle,
    InMetadata { field: int },
    InTask { field: int },
}

/// The parser's whole state: its position, the fields read so far, and the
/// task record currently being filled.
#[verifier::ext_equal]
pub ghost struct Machine {
    pub mode: Mode,
    pub last_task_id: u32,
    pub tasks: Seq<TaskV>,
    pub cur: TaskV,
}

/// The state the parser starts in.
pub open spec fn init_machine() -> Machine {
    Machine {
        mode: Mode::Idle,
        last_task_id: 0,
        tasks: Seq::empty(),
        cur: crate::ds::default_task_v(),
    }
}

/// One transition of the parser: consumes a single line.
///
/// Tag lines always act as tags: a block-opening tag inside an open block is
/// rejected rather than read as a field, and `:end` closes the open block if
/// all its fields were given. Any other line is a field of the open block,
/// or is ignored when no block is open (stray text between blocks is
/// permitted and skipped).
pub open spec fn step(m: Machine, line: Seq<char>) -> Result<Machine, DecodeError> {
    if line == meta_tag() {
        match m.mode {
            Mode::Idle => Ok(Machine { mode: Mode::InMetadata { field: 0 }, ..m }),
            Mode::InMetadata { .. } => Err(DecodeError::NestedTag { block: BlockKind::Metadata }),
            Mode::InTask { .. } => Err(DecodeError::NestedTag { block: BlockKind::Task }),
        }
    } else if line == task_tag() {
        match m.mode {
            Mode::Idle => Ok(
                Machine { mode: Mode::InTask { field: 0 }, cur: crate::ds::default_task_v(), ..m },
            ),
            Mode::InMetadata { .. } => Err(DecodeError::NestedTag { block: BlockKind::Metadata }),
            Mode::InTask { .. } => Err(DecodeError::NestedTag { block: BlockKind::Task }),
        }
    } else if line == end_tag() {
        match m.mode {
            Mode::Idle => Ok(m),
            Mode::InMetadata { field } => if field == 1 {
                Ok(Machine { mode: Mode::Idle, ..m })
            } else {
                Err(DecodeError::PrematureEnd { block: BlockKind::Metadata, have: field as u32 })
            },
            Mode::InTask { field } => if field == 5 {
                if m.cur.check_consistent() {
                    Ok(
                        Machine {
                            mode: Mode::Idle,
                            tasks: m.tasks.push(m.cur),
                            cur: crate::ds::default_task_v(),
                            ..m
                        },
                    )
                } else {
                    Err(DecodeError::MismatchedCheck)
                }
            } else {
                Err(DecodeError::PrematureEnd { block: BlockKind::Task, have: field as u32 })
            },
        }
    } else {
        match m.mode {
            Mode::Idle => Ok(m),
            Mode::InMetadata { field } => if field == 0 {
                if is_unsigned_dec(line) && digits_val(line) <= u32::MAX {
                    Ok(
                        Machine {
                            mode: Mode::InMetadata { field: 1 },
                            last_task_id: digits_val(line) as u32,
                            ..m
                        },
                    )
                } else {
                    Err(DecodeError::InvalidField { block: BlockKind::Metadata, field: 0 })
                }
            } else {
                Err(DecodeError::ExtraField { block: BlockKind::Metadata })
            },
            Mode::InTask { field } => if field == 0 {
                if is_unsigned_dec(line) && digits_val(line) <= u32::MAX {
                    Ok(
                        Machine {
                            mode: Mode::InTask { field: 1 },
                            cur: TaskV { id: digits_val(line) as u32, ..m.cur },
                            ..m
                        },
                    )
                } else {
                    Err(DecodeError::InvalidField { block: BlockKind::Task, field: 0 })
                }
            } else if field == 1 {
                if line == done_marker(true) {
                    Ok(
                        Machine {
                            mode: Mode::InTask { field: 2 },
                            cur: TaskV { done: true, ..m.cur },
                            ..m
                        },
                    )
                } else if line == done_marker(false) {
                    Ok(
                        Machine {
                            mode: Mode::InTask { field: 2 },
                            cur: TaskV { done: false, ..m.cur },
                            ..m
                        },
                    )
                } else {
                    Err(DecodeError::InvalidField { block: BlockKind::Task, field: 1 })
                }
            } else if field == 2 {
                Ok(
                    Machine {
                        mode: Mode::InTask { field: 3 },
                        cur: TaskV { label: line, ..m.cur },
                        ..m
                    },
                )
            } else if field == 3 {
                if is_signed_dec(line) && i64::MIN <= signed_val(line) <= i64::MAX {
                    Ok(
                        Machine {
                            mode: Mode::InTask { field: 4 },
                            cur: TaskV { date_created: signed_val(line) as i64, ..m.cur },
                            ..m
                        },
                    )
                } else {
                    Err(DecodeError::InvalidField { block: BlockKind::Task, field: 3 })
                }
            } else if field == 4 {
                if line == "-"@ {
                    Ok(
                        Machine {
                            mode: Mode::InTask { field: 5 },
                            cur: TaskV { date_checked: None, ..m.cur },
                            ..m
                        },
                    )
                } else if is_signed_dec(line) && i64::MIN <= signed_val(line) <= i64::MAX {
                    Ok(
                        Machine {
                            mode: Mode::InTask { field: 5 },
                            cur: TaskV { date_checked: Some(signed_val(line) as i64), ..m.cur },
                            ..m
                        },
                    )
                } else {
                    Err(DecodeError::InvalidField { block: BlockKind::Task, field: 4 })
                }
            } else {
                Err(DecodeError::ExtraField { block: BlockKind::Task })
            },
        }
    }
}

/// Runs the parser over a sequence of lines, stopping at the first error.
pub open spec fn run(m: Machine, lines: Seq<Seq<char>>) -> Result<Machine, DecodeError>
    decreases lines.len(),
{
    if lines.len() == 0 {
        Ok(m)
    } else {
        match step(m, lines.first()) {
            Err(e) => Err(e),
            Ok(m2) => run(m2, lines.drop_first()),
        }
    }
}

/// What decoding a sequence of lines yields: the parsed store, or the first
/// error. A block still open at the end of the text is an error.
pub open spec fn decode_lines_spec(lines: Seq<Seq<char>>) -> Result<StoreV, DecodeError> {
    match run(init_machine(), lines) {
        Err(e) => Err(e),
        Ok(m) => match m.mode {
            Mode::Idle => Ok(StoreV { last_task_id: m.last_task_id, tasks: m.tasks }),
            Mode::InMetadata { .. } => Err(
                DecodeError::UnterminatedBlock { block: BlockKind::Metadata },
            ),
            Mode::InTask { .. } => Err(DecodeError::UnterminatedBlock { block: BlockKind::Task }),
        },
    }
}

/// What decoding persisted text yields: its lines are split at newlines and
/// parsed.
pub open spec fn decode_spec(text: Seq<char>) -> Result<StoreV, DecodeError> {
    decode_lines_spec(split_rec(text))
}

/// The executable parser's position, mirroring `Mode`.
enum ParseState {
    Idle,
    InMetadata(u32),
    InTask(u32),
}

/// The abstract position of an executable parser position.
spec fn mode_of(st: ParseState) -> Mode {
    match st {
        ParseState::Idle => Mode::Idle,
        ParseState::InMetadata(f) => Mode::InMetadata { field: f as int },
        ParseState::InTask(f) => Mode::InTask { field: f as int },
    }
}

/// The abstract machine that an executable parser state denotes.
spec fn exec_machine(st: ParseState, last_task_id: u32, tasks: Seq<Task>, cur: Task) -> Machine {
    Machine {
        mode: mode_of(st),
        last_task_id: last_task_id,
        tasks: tasks.map_values(|t: Task| t@),
        cur: cur@,
    }
}

impl Store {
    /// Decodes persisted text into a store: a single pass over the lines,
    /// driven by the parser state machine. Returns the first error met, and
    /// succeeds exactly when the specification-level parse does; a decoded
    /// store is always well-formed.
    pub fn decode(text: &str) -> (r: Result<Store, DecodeError>)
        ensures
            match r {
                Ok(store) => decode_spec(text@) == Ok::<StoreV, DecodeError>(store@)
                    && store@.wf(),
                Err(e) => decode_spec(text@) == Err::<StoreV, DecodeError>(e),
            },
    {
        let lines = split_lines(text);
        let ghost lspec = split_rec(text@);
        let tag_meta = String::from_str(":metadata");
        let tag_task = String::from_str(":task");
        let tag_end = String::from_str(":end");
        let marker_done = String::from_str("[x]");
        let marker_open = String::from_str("[]");
        let dash = String::from_str("-");

        let mut state = ParseState::Idle;
        let mut meta_id: u32 = 0;
        let mut tasks: Vec<Task> = Vec::new();
        let mut cur = Task::default();
        let mut j: usize = 0;

        proof {
            assert(lspec.skip(0) =~= lspec);
            assert(tasks@.map_values(|t: Task| t@) =~= Seq::<TaskV>::empty());
            assert(exec_machine(ParseState::Idle, 0, tasks@, cur) =~= init_machine());
        }
        while j < lines.len()
            invariant
                j <= lines.len(),
                lspec == lines@.map_values(|l: String| l@),
                lspec == split_rec(text@),
                tag_meta@ == meta_tag(),
                tag_task@ == task_tag(),
                tag_end@ == end_tag(),
                marker_done@ == done_marker(true),
                marker_open@ == done_marker(false),
                dash@ == "-"@,
                run(init_machine(), lspec) == run(
                    exec_machine(state, meta_id, tasks@, cur),
                    lspec.skip(j as int),
                ),
            decreases lines.len() - j,
        {
            let line = &lines[j];
            let ghost m = exec_machine(state, meta_id, tasks@, cur);
            proof {
                assert(lspec[j as int] == line@);
                assert(lspec.skip(j as int).first() == lspec[j as int]);
                assert(lspec.skip(j as int).drop_first() =~= lspec.skip(j + 1));
            }
            if *line == tag_meta {
                match state {
                    ParseState::Idle => {
                        state = ParseState::InMetadata(0);
                    },
                    ParseState::InMetadata(_) => {
                        return Err(DecodeError::NestedTag { block: BlockKind::Metadata });
                    },
                    ParseState::InTask(_) => {
                        return Err(DecodeError::NestedTag { block: BlockKind::Task });
                    },
                }
            } else if *line == tag_task {
                match state {
                    ParseState::Idle => {
                        state = ParseState::InTask(0);
                        cur = Task::default();
                    },
                    ParseState::InMetadata(_) => {
                        return Err(DecodeError::NestedTag { block: BlockKind::Metadata });
                    },
                    ParseState::InTask(_) => {
                        return Err(DecodeError::NestedTag { block: BlockKind::Task });
                    },
                }
            } else if *line == tag_end {
                match state {
                    ParseState::Idle => {},
                    ParseState::InMetadata(f) => {
                        if f == 1 {
                            state = ParseState::Idle;
                        } else {
                            return Err(
                                DecodeError::PrematureEnd { block: BlockKind::Metadata, have: f },
                            );
                        }
                    },
                    ParseState::InTask(f) => {
                        if f == 5 {
                            if cur.done == cur.date_checked.is_some() {
                                tasks.push(cur);
                                cur = Task::default();
                                state = ParseState::Idle;
                                proof {
                                    assert(tasks@.map_values(|t: Task| t@) =~= m.tasks.push(m.cur));
                                }
                            } else {
                                return Err(DecodeError::MismatchedCheck);
                            }
                        } else {
                            return Err(
                                DecodeError::PrematureEnd { block: BlockKind::Task, have: f },
                            );
                        }
                    },
                }
            } else {
                match state {
                    ParseState::Idle => {},
                    ParseState::InMetadata(f) => {
                        if f == 0 {
                            match crate::nums::parse_u32(line.as_str()) {
                                Some(v) => {
                                    meta_id = v;
                                    state = ParseState::InMetadata(1);
                                },
                                None => {
                                    return Err(
                                        DecodeError::InvalidField {
                                            block: BlockKind::Metadata,
                                            field: 0,
                                        },
                                    );
                                },
                            }
                        } else {
                            return Err(DecodeError::ExtraField { block: BlockKind::Metadata });
                        }
                    },
                    ParseState::InTask(f) => {
                        if f == 0 {
                            match crate::nums::parse_u32(line.as_str()) {
                                Some(v) => {
                                    cur.id = v;
                                    state = ParseState::InTask(1);
                                },
                                None => {
                                    return Err(
                                        DecodeError::InvalidField {
                                            block: BlockKind::Task,
                                            field: 0,
                                        },
                                    );
                                },
                            }
                        } else if f == 1 {
                            if *line == marker_done {
                                cur.done = true;
                                state = ParseState::InTask(2);
                            } else if *line == marker_open {
                                cur.done = false;
                                state = ParseState::InTask(2);
                            } else {
                                return Err(
                                    DecodeError::InvalidField { block: BlockKind::Task, field: 1 },
                                );
                            }
                        } else if f == 2 {
                            cur.label = line.clone();
                            state = ParseState::InTask(3);
                        } else if f == 3 {
                            match crate::nums::parse_i64(line.as_str()) {
                                Some(v) => {
                                    cur.date_created = v;
                                    state = ParseState::InTask(4);
                                },
                                None => {
                                    return Err(
                                        DecodeError::InvalidField {
                                            block: BlockKind::Task,
                                            field: 3,
                                        },
                                    );
                                },
                            }
                        } else if f == 4 {
                            if *line == dash {
                                cur.date_checked = None;
                                state = ParseState::InTask(5);
                            } else {
                                match crate::nums::parse_i64(line.as_str()) {
                                    Some(v) => {
                                        cur.date_checked = Some(v);
                                        state = ParseState::InTask(5);
                                    },
                                    None => {
                                        return Err(
                                            DecodeError::InvalidField {
                                                block: BlockKind::Task,
                                                field: 4,
                                            },
                                        );
                                    },
                                }
                            }
                        } else {
                            return Err(DecodeError::ExtraField { block: BlockKind::Task });
                        }
                    },
                }
            }
            proof {
                assert(step(m, lspec[j as int]) == Ok::<Machine, DecodeError>(
                    exec_machine(state, meta_id, tasks@, cur),
                )) by {
                    assert(exec_machine(state, meta_id, tasks@, cur) =~= step(
                        m,
                        lspec[j as int],
                    ).unwrap());
                }
            }
            j = j + 1;
        }
        proof {
            assert(lspec.skip(lines.len() as int) =~= Seq::<Seq<char>>::empty());
        }
        match state {
            ParseState::Idle => {
                let store = Store { metadata: Metadata { last_task_id: meta_id }, tasks };
                proof {
                    assert(store@ =~= StoreV {
                        last_task_id: meta_id,
                        tasks: store.tasks@.map_values(|t: Task| t@),
                    });
                    lemma_decode_wf(text@, store@);
                }
                Ok(store)
            },
            ParseState::InMetadata(_) => Err(
                DecodeError::UnterminatedBlock { block: BlockKind::Metadata },
            ),
            ParseState::InTask(_) => Err(DecodeError::UnterminatedBlock { block: BlockKind::Task }),
        }
    }
}

/// The lengths and leading characters of the format's literal lines, and
/// that none of them contains a newline.
proof fn lemma_tag_shapes()
    ensures
        meta_tag().len() == 9,
        task_tag().len() == 5,
        end_tag().len() == 4,
        meta_tag()[0] == ':',
        task_tag()[0] == ':',
        end_tag()[0] == ':',
        done_marker(true).len() == 3,
        done_marker(false).len() == 2,
        done_marker(true)[0] == '[',
        done_marker(false)[0] == '[',
        "-"@.len() == 1,
        "-"@[0] == '-',
        !meta_tag().contains('\n'),
        !task_tag().contains('\n'),
        !end_tag().contains('\n'),
        !done_marker(true).contains('\n'),
        !done_marker(false).contains('\n'),
        !"-"@.contains('\n'),
{
    reveal_strlit(":metadata");
    reveal_strlit(":task");
    reveal_strlit(":end");
    reveal_strlit("[x]");
    reveal_strlit("[]");
    reveal_strlit("-");
    assert forall|k: int| 0 <= k < 9 implies meta_tag()[k] != '\n' by {
        assert(meta_tag()[0] == ':');
        assert(meta_tag()[1] == 'm');
        assert(meta_tag()[2] == 'e');
        assert(meta_tag()[3] == 't');
        assert(meta_tag()[4] == 'a');
        assert(meta_tag()[5] == 'd');
        assert(meta_tag()[6] == 'a');
        assert(meta_tag()[7] == 't');
        assert(meta_tag()[8] == 'a');
    }
    assert forall|k: int| 0 <= k < 5 implies task_tag()[k] != '\n' by {
        assert(task_tag()[0] == ':');
        assert(task_tag()[1] == 't');
        assert(task_tag()[2] == 'a');
        assert(task_tag()[3] == 's');
        assert(task_tag()[4] == 'k');
    }
    assert forall|k: int| 0 <= k < 4 implies end_tag()[k] != '\n' by {
        assert(end_tag()[0] == ':');
        assert(end_tag()[1] == 'e');
        assert(end_tag()[2] == 'n');
        assert(end_tag()[3] == 'd');
    }
    assert forall|k: int| 0 <= k < 3 implies done_marker(true)[k] != '\n' by {
        assert(done_marker(true)[0] == '[');
        assert(done_marker(true)[1] == 'x');
        assert(done_marker(true)[2] == ']');
    }
    assert forall|k: int| 0 <= k < 2 implies done_marker(false)[k] != '\n' by {
        assert(done_marker(false)[0] == '[');
        assert(done_marker(false)[1] == ']');
    }
    assert(!meta_tag().contains('\n')) by {
        if meta_tag().contains('\n') {
            let k = choose|k: int| 0 <= k < meta_tag().len() && meta_tag()[k] == '\n';
        }
    }
    assert(!task_tag().contains('\n')) by {
        if task_tag().contains('\n') {
            let k = choose|k: int| 0 <= k < task_tag().len() && task_tag()[k] == '\n';
        }
    }
    assert(!end_tag().contains('\n')) by {
        if end_tag().contains('\n') {
            let k = choose|k: int| 0 <= k < end_tag().len() && end_tag()[k] == '\n';
        }
    }
    assert(!done_marker(true).contains('\n')) by {
        if done_marker(true).contains('\n') {
            let k = choose|k: int|
                0 <= k < done_marker(true).len() && done_marker(true)[k] == '\n';
        }
    }
    assert(!done_marker(false).contains('\n')) by {
        if done_marker(false).contains('\n') {
            let k = choose|k: int|
                0 <= k < done_marker(false).len() && done_marker(false)[k] == '\n';
        }
    }
    assert(!"-"@.contains('\n')) by {
        if "-"@.contains('\n') {
            let k = choose|k: int| 0 <= k < "-"@.len() && "-"@[k] == '\n';
            assert(k == 0);
        }
    }
}

/// A sequence of digit characters contains no newline and opens with a
/// digit, so it is no tag line, no marker, and not the bare dash.
proof fn lemma_digit_line_shape(s: Seq<char>)
    requires
        is_unsigned_dec(s),
    ensures
        !s.contains('\n'),
        s != meta_tag(),
        s != task_tag(),
        s != end_tag(),
        s != "-"@,
        s != done_marker(true),
        s != done_marker(false),
{
    lemma_tag_shapes();
    assert(!s.contains('\n')) by {
        if s.contains('\n') {
            let k = choose|k: int| 0 <= k < s.len() && s[k] == '\n';
            assert(is_digit(s[k]));
        }
    }
    assert(is_digit(s[0]));
    assert(s[0] != ':' && s[0] != '[' && s[0] != '-');
}

/// A signed numeral line contains no newline and is no tag line, no marker,
/// and not the bare dash.
proof fn lemma_signed_line_shape(v: int)
    ensures
        !signed_digits(v).contains('\n'),
        signed_digits(v) != meta_tag(),
        signed_digits(v) != task_tag(),
        signed_digits(v) != end_tag(),
        signed_digits(v) != "-"@,
        signed_digits(v) != done_marker(true),
        signed_digits(v) != done_marker(false),
{
    lemma_tag_shapes();
    crate::nums::lemma_signed_digits_ok(v);
    let s = signed_digits(v);
    if v < 0 {
        crate::nums::lemma_dec_digits_ok((-v) as nat);
        assert(s[0] == '-');
        assert(s.len() >= 2);
        assert(!s.contains('\n')) by {
            if s.contains('\n') {
                let k = choose|k: int| 0 <= k < s.len() && s[k] == '\n';
                if k >= 1 {
                    assert(s[k] == dec_digits((-v) as nat)[k - 1]);
                    assert(is_digit(s[k]));
                }
            }
        }
    } else {
        lemma_digit_line_shape(s);
    }
}

/// Running the parser over concatenated line sequences runs it over each in
/// turn.
proof fn lemma_run_append(m: Machine, a: Seq<Seq<char>>, b: Seq<Seq<char>>)
    ensures
        run(m, a + b) == match run(m, a) {
            Ok(m2) => run(m2, b),
            Err(e) => Err(e),
        },
    decreases a.len(),
{
    if a.len() == 0 {
        assert(a + b =~= b);
    } else {
        assert((a + b).first() == a.first());
        assert((a + b).len() > 0);
        match step(m, a.first()) {
            Err(e) => {},
            Ok(m2) => {
                assert((a + b).drop_first() =~= a.drop_first() + b);
                lemma_run_append(m2, a.drop_first(), b);
            },
        }
    }
}

/// Running the parser over a metadata block from the idle position reads
/// the identifier counter and returns to idle.
proof fn lemma_run_metadata(m: Machine, last_task_id: u32)
    requires
        m.mode is Idle,
    ensures
        run(m, metadata_lines(last_task_id)) == Ok::<Machine, DecodeError>(
            Machine {
                mode: Mode::Idle,
                last_task_id: last_task_id,
                tasks: m.tasks,
                cur: m.cur,
            },
        ),
{
    lemma_tag_shapes();
    crate::nums::lemma_dec_digits_ok(last_task_id as nat);
    reveal_with_fuel(run, 5);
    let digits = dec_digits(last_task_id as nat);
    lemma_digit_line_shape(digits);
    let ls = metadata_lines(last_task_id);
    assert(ls.first() == meta_tag());
    let m0 = Machine { mode: Mode::InMetadata { field: 0 }, ..m };
    assert(step(m, meta_tag()) == Ok::<Machine, DecodeError>(m0));
    assert(ls.drop_first() =~= seq![digits, end_tag()]);
    let m1 = Machine { mode: Mode::InMetadata { field: 1 }, last_task_id: last_task_id, ..m0 };
    assert(step(m0, digits) == Ok::<Machine, DecodeError>(m1)) by {
        assert(digits_val(digits) == last_task_id as nat);
        assert(step(m0, digits) is Ok);
        assert(step(m0, digits).unwrap() =~= m1);
    }
    assert(seq![digits, end_tag()].drop_first() =~= seq![end_tag()]);
    let m2 = Machine { mode: Mode::Idle, ..m1 };
    assert(step(m1, end_tag()) == Ok::<Machine, DecodeError>(m2));
    assert(seq![end_tag()].drop_first() =~= Seq::<Seq<char>>::empty());
    assert(run(m, ls) == Ok::<Machine, DecodeError>(m2));
    assert(m2 =~= Machine {
        mode: Mode::Idle,
        last_task_id: last_task_id,
        tasks: m.tasks,
        cur: m.cur,
    });
}

/// Running the parser over one well-formed task's block from the idle
/// position appends exactly that task and returns to idle.
proof fn lemma_run_task(m: Machine, t: TaskV)
    requires
        m.mode is Idle,
        t.wf(),
    ensures
        run(m, task_lines(t)) == Ok::<Machine, DecodeError>(
            Machine {
                mode: Mode::Idle,
                last_task_id: m.last_task_id,
                tasks: m.tasks.push(t),
                cur: crate::ds::default_task_v(),
            },
        ),
{
    lemma_tag_shapes();
    crate::nums::lemma_dec_digits_ok(t.id as nat);
    reveal_with_fuel(run, 9);
    let id_line = dec_digits(t.id as nat);
    lemma_digit_line_shape(id_line);
    let created_line = signed_digits(t.date_created as int);
    lemma_signed_line_shape(t.date_created as int);
    crate::nums::lemma_signed_digits_ok(t.date_created as int);
    let checked_line = checked_field(t.date_checked);
    if let Some(v) = t.date_checked {
        lemma_signed_line_shape(v as int);
        crate::nums::lemma_signed_digits_ok(v as int);
    }
    let marker = done_marker(t.done);
    let ls = task_lines(t);

    let m0 = Machine { mode: Mode::InTask { field: 0 }, cur: crate::ds::default_task_v(), ..m };
    assert(ls.first() == task_tag());
    assert(step(m, task_tag()) == Ok::<Machine, DecodeError>(m0));

    let r1 = ls.drop_first();
    assert(r1 =~= seq![id_line, marker, t.label, created_line, checked_line, end_tag()]);
    let m1 = Machine { mode: Mode::InTask { field: 1 }, cur: TaskV { id: t.id, ..m0.cur }, ..m0 };
    assert(step(m0, id_line) == Ok::<Machine, DecodeError>(m1)) by {
        assert(digits_val(id_line) == t.id as nat);
        assert(step(m0, id_line) is Ok);
        assert(step(m0, id_line).unwrap() =~= m1);
    }

    let r2 = r1.drop_first();
    assert(r2 =~= seq![marker, t.label, created_line, checked_line, end_tag()]);
    let m2 = Machine {
        mode: Mode::InTask { field: 2 },
        cur: TaskV { done: t.done, ..m1.cur },
        ..m1
    };
    assert(step(m1, marker) == Ok::<Machine, DecodeError>(m2)) by {
        assert(done_marker(true) != done_marker(false));
        assert(marker != meta_tag() && marker != task_tag() && marker != end_tag());
        assert(step(m1, marker) is Ok);
        assert(step(m1, marker).unwrap() =~= m2);
    }

    let r3 = r2.drop_first();
    assert(r3 =~= seq![t.label, created_line, checked_line, end_tag()]);
    let m3 = Machine {
        mode: Mode::InTask { field: 3 },
        cur: TaskV { label: t.label, ..m2.cur },
        ..m2
    };
    assert(step(m2, t.label) == Ok::<Machine, DecodeError>(m3)) by {
        assert(t.label != meta_tag() && t.label != task_tag() && t.label != end_tag());
        assert(step(m2, t.label) is Ok);
        assert(step(m2, t.label).unwrap() =~= m3);
    }

    let r4 = r3.drop_first();
    assert(r4 =~= seq![created_line, checked_line, end_tag()]);
    let m4 = Machine {
        mode: Mode::InTask { field: 4 },
        cur: TaskV { date_created: t.date_created, ..m3.cur },
        ..m3
    };
    assert(step(m3, created_line) == Ok::<Machine, DecodeError>(m4)) by {
        assert(signed_val(created_line) == t.date_created as int);
        assert(step(m3, created_line) is Ok);
        assert(step(m3, created_line).unwrap() =~= m4);
    }

    let r5 = r4.drop_first();
    assert(r5 =~= seq![checked_line, end_tag()]);
    let m5 = Machine {
        mode: Mode::InTask { field: 5 },
        cur: TaskV { date_checked: t.date_checked, ..m4.cur },
        ..m4
    };
    assert(step(m4, checked_line) == Ok::<Machine, DecodeError>(m5)) by {
        match t.date_checked {
            None => {
                assert(checked_line == "-"@);
                assert(checked_line != meta_tag() && checked_line != task_tag() && checked_line
                    != end_tag());
            },
            Some(v) => {
                assert(checked_line == signed_digits(v as int));
                assert(signed_val(checked_line) == v as int);
            },
        }
        assert(step(m4, checked_line) is Ok);
        assert(step(m4, checked_line).unwrap() =~= m5);
    }

    let r6 = r5.drop_first();
    assert(r6 =~= seq![end_tag()]);
    assert(m5.cur =~= t);
    let m6 = Machine {
        mode: Mode::Idle,
        last_task_id: m.last_task_id,
        tasks: m.tasks.push(t),
        cur: crate::ds::default_task_v(),
    };
    assert(step(m5, end_tag()) == Ok::<Machine, DecodeError>(m6)) by {
        assert(m5.cur.check_consistent());
        assert(step(m5, end_tag()) is Ok);
        assert(step(m5, end_tag()).unwrap() =~= m6);
    }
    assert(r6.drop_first() =~= Seq::<Seq<char>>::empty());
    assert(run(m, ls) == Ok::<Machine, DecodeError>(m6));
}

/// Running the parser over the blocks of a sequence of well-formed tasks
/// appends exactly those tasks, in order.
proof fn lemma_run_tasks(m: Machine, ts: Seq<TaskV>)
    requires
        m.mode is Idle,
        forall|i: int| 0 <= i < ts.len() ==> (#[trigger] ts[i]).wf(),
    ensures
        run(m, tasks_lines(ts)) == Ok::<Machine, DecodeError>(
            Machine {
                mode: Mode::Idle,
                last_task_id: m.last_task_id,
                tasks: m.tasks + ts,
                cur: if ts.len() == 0 {
                    m.cur
                } else {
                    crate::ds::default_task_v()
                },
            },
        ),
    decreases ts.len(),
{
    if ts.len() == 0 {
        assert(m.tasks + ts =~= m.tasks);
        assert(Machine {
            mode: Mode::Idle,
            last_task_id: m.last_task_id,
            tasks: m.tasks + ts,
            cur: m.cur,
        } =~= m);
    } else {
        let front = ts.drop_last();
        assert(forall|i: int| 0 <= i < front.len() ==> front[i] == ts[i]);
        lemma_run_tasks(m, front);
        lemma_run_append(m, tasks_lines(front), task_lines(ts.last()));
        let m1 = Machine {
            mode: Mode::Idle,
            last_task_id: m.last_task_id,
            tasks: m.tasks + front,
            cur: if front.len() == 0 {
                m.cur
            } else {
                crate::ds::default_task_v()
            },
        };
        assert(ts.last().wf());
        lemma_run_task(m1, ts.last());
        assert(m.tasks + front.push(ts.last()) =~= m.tasks + ts) by {
            assert(front.push(ts.last()) =~= ts);
        }
        assert((m.tasks + front).push(ts.last()) =~= m.tasks + ts) by {
            assert(front.push(ts.last()) =~= ts);
        }
    }
}

/// Splitting the joined text of newline-free lines recovers the lines, plus
/// the empty line after the final newline.
proof fn lemma_split_join(lines: Seq<Seq<char>>)
    requires
        forall|i: int| 0 <= i < lines.len() ==> !(#[trigger] lines[i]).contains('\n'),
    ensures
        split_rec(join_lines(lines)) == lines.push(Seq::<char>::empty()),
    decreases lines.len(),
{
    if lines.len() == 0 {
        assert(join_lines(lines) == Seq::<char>::empty());
        assert(split_rec(join_lines(lines)) =~= lines.push(Seq::<char>::empty()));
    } else {
        let l = lines.first();
        let rest = lines.drop_first();
        assert(forall|i: int| 0 <= i < rest.len() ==> rest[i] == lines[i + 1]);
        assert(lines =~= seq![l] + rest);
        lemma_join_append(seq![l], rest);
        assert(join_lines(seq![l]) =~= l + seq!['\n']) by {
            reveal_with_fuel(join_lines, 3);
            assert(seq![l].drop_last() =~= Seq::<Seq<char>>::empty());
        }
        let text = join_lines(lines);
        assert(text =~= l + seq!['\n'] + join_lines(rest));
        let k = l.len() as int;
        assert(text[k] == '\n');
        assert(forall|j: int| 0 <= j < k ==> text[j] == l[j]);
        assert(!l.contains('\n'));
        assert forall|j: int| 0 <= j < k implies text[j] != '\n' by {
            if text[j] == '\n' {
                assert(l[j] == '\n');
            }
        }
        lemma_split_cut(text, k);
        assert(text.take(k) =~= l);
        assert(text.skip(k + 1) =~= join_lines(rest));
        lemma_split_join(rest);
        assert(split_rec(text) == seq![l] + rest.push(Seq::<char>::empty()));
        assert(seq![l] + rest.push(Seq::<char>::empty()) =~= lines.push(Seq::<char>::empty()));
    }
}

/// No line of a well-formed store's encoding contains a newline.
proof fn lemma_store_lines_no_nl(s: StoreV)
    requires
        s.wf(),
    ensures
        forall|i: int|
            0 <= i < store_lines(s).len() ==> !(#[trigger] store_lines(s)[i]).contains('\n'),
{
    lemma_tag_shapes();
    crate::nums::lemma_dec_digits_ok(s.last_task_id as nat);
    lemma_digit_line_shape(dec_digits(s.last_task_id as nat));
    assert forall|i: int|
        0 <= i < store_lines(s).len() implies !(#[trigger] store_lines(s)[i]).contains('\n') by {
        let ml = metadata_lines(s.last_task_id);
        if i < ml.len() {
            assert(store_lines(s)[i] == ml[i]);
            assert(i == 0 || i == 1 || i == 2);
        } else {
            lemma_tasks_lines_no_nl(s.tasks, i - ml.len());
            assert(store_lines(s)[i] == tasks_lines(s.tasks)[i - ml.len()]);
        }
    }
}

/// No line of any well-formed task's block contains a newline.
proof fn lemma_tasks_lines_no_nl(ts: Seq<TaskV>, i: int)
    requires
        forall|k: int| 0 <= k < ts.len() ==> (#[trigger] ts[k]).wf(),
        0 <= i < tasks_lines(ts).len(),
    ensures
        !tasks_lines(ts)[i].contains('\n'),
    decreases ts.len(),
{
    lemma_tag_shapes();
    let front = ts.drop_last();
    let t = ts.last();
    assert(ts.len() > 0) by {
        if ts.len() == 0 {
            assert(tasks_lines(ts).len() == 0);
        }
    }
    assert(forall|k: int| 0 <= k < front.len() ==> front[k] == ts[k]);
    if i < tasks_lines(front).len() {
        lemma_tasks_lines_no_nl(front, i);
        assert(tasks_lines(ts)[i] == tasks_lines(front)[i]);
    } else {
        let j = i - tasks_lines(front).len();
        assert(tasks_lines(ts)[i] == task_lines(t)[j]);
        assert(t.wf());
        crate::nums::lemma_dec_digits_ok(t.id as nat);
        lemma_digit_line_shape(dec_digits(t.id as nat));
        lemma_signed_line_shape(t.date_created as int);
        if let Some(v) = t.date_checked {
            lemma_signed_line_shape(v as int);
        }
        assert(0 <= j < 7);
    }
}

/// No line produced by splitting contains a newline.
proof fn lemma_split_lines_no_nl(text: Seq<char>, i: int)
    requires
        0 <= i < split_rec(text).len(),
    ensures
        !split_rec(text)[i].contains('\n'),
    decreases text.len(),
{
    if text.len() == 0 {
        assert(!split_rec(text)[i].contains('\n'));
    } else if text[0] == '\n' {
        if i == 0 {
            assert(!split_rec(text)[0].contains('\n'));
        } else {
            lemma_split_lines_no_nl(text.drop_first(), i - 1);
            assert(split_rec(text)[i] == split_rec(text.drop_first())[i - 1]);
        }
    } else {
        let rest = split_rec(text.drop_first());
        if i == 0 {
            lemma_split_lines_no_nl(text.drop_first(), 0);
            let l = split_rec(text)[0];
            assert(l == seq![text[0]] + rest[0]);
            assert(!l.contains('\n')) by {
                if l.contains('\n') {
                    let k = choose|k: int| 0 <= k < l.len() && l[k] == '\n';
                    if k == 0 {
                        assert(text[0] == '\n');
                    } else {
                        assert(rest[0][k - 1] == '\n');
                        assert(rest[0].contains('\n'));
                    }
                }
            }
        } else {
            lemma_split_lines_no_nl(text.drop_first(), i);
            assert(split_rec(text)[i] == rest.skip(1)[i - 1]);
            assert(rest.skip(1)[i - 1] == rest[i]);
        }
    }
}

/// The parser's invariant while it runs over newline-free lines: every
/// finished task is well-formed, and once a task block has read its label
/// the label is known to fit the format.
spec fn machine_wf(m: Machine) -> bool {
    &&& forall|i: int| 0 <= i < m.tasks.len() ==> (#[trigger] m.tasks[i]).wf()
    &&& match m.mode {
        Mode::InTask { field } => field >= 3 ==> label_encodable(m.cur.label),
        _ => true,
    }
}

/// A parser step from a sound state over a newline-free line keeps the
/// state sound.
proof fn lemma_step_keeps_wf(m: Machine, line: Seq<char>)
    requires
        machine_wf(m),
        !line.contains('\n'),
        step(m, line) is Ok,
    ensures
        machine_wf(step(m, line).unwrap()),
{
    lemma_tag_shapes();
    let m2 = step(m, line).unwrap();
    if line == meta_tag() || line == task_tag() || line == end_tag() {
        if line == end_tag() && m.mode is InTask {
            assert forall|i: int| 0 <= i < m2.tasks.len() implies (#[trigger] m2.tasks[i]).wf()
            by {
                if i < m.tasks.len() {
                    assert(m2.tasks[i] == m.tasks[i]);
                } else {
                    assert(m2.tasks[i] == m.cur);
                }
            }
        }
    } else {
        match m.mode {
            Mode::InTask { field } => {
                if field == 2 {
                    assert(label_encodable(line));
                }
            },
            _ => {},
        }
    }
}

/// Whatever the parser accepts is well-formed: every task of a decoded
/// store is check-consistent and its label fits the format.
proof fn lemma_run_keeps_wf(m: Machine, lines: Seq<Seq<char>>)
    requires
        machine_wf(m),
        forall|i: int| 0 <= i < lines.len() ==> !(#[trigger] lines[i]).contains('\n'),
        run(m, lines) is Ok,
    ensures
        machine_wf(run(m, lines).unwrap()),
    decreases lines.len(),
{
    if lines.len() > 0 {
        let m2 = step(m, lines.first()).unwrap();
        lemma_step_keeps_wf(m, lines.first());
        let rest = lines.drop_first();
        assert forall|i: int| 0 <= i < rest.len() implies !(#[trigger] rest[i]).contains('\n')
        by {
            assert(rest[i] == lines[i + 1]);
        }
        lemma_run_keeps_wf(m2, rest);
    }
}

/// A successfully decoded store is well-formed: the codec rejects any
/// record whose completion marker disagrees with its completion time, and
/// no label it reads can break a later encode.
pub proof fn lemma_decode_wf(text: Seq<char>, s: StoreV)
    requires
        decode_spec(text) == Ok::<StoreV, DecodeError>(s),
    ensures
        s.wf(),
{
    let lines = split_rec(text);
    assert forall|i: int| 0 <= i < lines.len() implies !(#[trigger] lines[i]).contains('\n') by {
        lemma_split_lines_no_nl(text, i);
    }
    lemma_run_keeps_wf(init_machine(), lines);
}

/// Decoding the encoding of any well-formed store yields that store back:
/// the codec loses nothing and invents nothing.
pub proof fn lemma_encode_decode_round_trip(s: StoreV)
    requires
        s.wf(),
    ensures
        decode_spec(encode_spec(s)) == Ok::<StoreV, DecodeError>(s),
{
    lemma_tag_shapes();
    lemma_store_lines_no_nl(s);
    lemma_split_join(store_lines(s));
    let all = store_lines(s).push(Seq::<char>::empty());
    assert(split_rec(encode_spec(s)) == all);
    assert(all =~= metadata_lines(s.last_task_id) + (tasks_lines(s.tasks) + seq![
        Seq::<char>::empty(),
    ]));
    lemma_run_append(
        init_machine(),
        metadata_lines(s.last_task_id),
        tasks_lines(s.tasks) + seq![Seq::<char>::empty()],
    );
    lemma_run_metadata(init_machine(), s.last_task_id);
    let m1 = Machine {
        mode: Mode::Idle,
        last_task_id: s.last_task_id,
        tasks: init_machine().tasks,
        cur: init_machine().cur,
    };
    lemma_run_append(m1, tasks_lines(s.tasks), seq![Seq::<char>::empty()]);
    lemma_run_tasks(m1, s.tasks);
    let m2 = Machine {
        mode: Mode::Idle,
        last_task_id: s.last_task_id,
        tasks: m1.tasks + s.tasks,
        cur: if s.tasks.len() == 0 {
            m1.cur
        } else {
            crate::ds::default_task_v()
        },
    };
    assert(run(m1, tasks_lines(s.tasks)) == Ok::<Machine, DecodeError>(m2));
    let empty_line = Seq::<char>::empty();
    assert(step(m2, empty_line) == Ok::<Machine, DecodeError>(m2)) by {
        assert(empty_line != meta_tag() && empty_line != task_tag() && empty_line != end_tag());
    }
    assert(run(m2, seq![empty_line]) == Ok::<Machine, DecodeError>(m2)) by {
        reveal_with_fuel(run, 3);
        assert(seq![empty_line].first() == empty_line);
        assert(seq![empty_line].drop_first() =~= Seq::<Seq<char>>::empty());
    }
    assert(run(init_machine(), all) == Ok::<Machine, DecodeError>(m2));
    assert(m2.tasks =~= s.tasks);
    assert(StoreV { last_task_id: m2.last_task_id, tasks: m2.tasks } =~= s);
}

} // verus!
