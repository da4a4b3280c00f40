//! Why the text of a log can be read back: two logs with the same text have
//! the same entries, as far as the text shows them.

use crate::format::{block, formatted, formatted_from, rows_text};
use crate::processor::{ascending, lemma_table, lemma_table_of_ascending, table, LogView};
use crate::scheduler::{
    group_pid, shown, Pid, Process, ProcessState, ProcessView, SchedulingDecision, StopReason,
    Syscall, SyscallResult,
};
use crate::schedulers::pcb::PCB;
use crate::text::{decimal, digit, signed_decimal};
use vstd::prelude::*;

verus! {

/// The character `c` does not occur in `text`.
pub open spec fn free_of(text: Seq<char>, c: char) -> bool {
    forall|i: int| 0 <= i < text.len() ==> #[trigger] text[i] != c
}

/// The character `c` is a decimal digit.
pub open spec fn is_digit(c: char) -> bool {
    c == '0' || c == '1' || c == '2' || c == '3' || c == '4' || c == '5' || c == '6' || c == '7'
        || c == '8' || c == '9'
}

/// Every character of `text` is a decimal digit.
pub open spec fn all_digits(text: Seq<char>) -> bool {
    forall|i: int| 0 <= i < text.len() ==> is_digit(#[trigger] text[i])
}

/// A text that ends where a character first occurs is known by what
/// follows: if two texts, both free of `c`, are each followed by `c` and
/// more, and the whole is the same, then the texts are the same and so is
/// what follows `c`.
pub proof fn lemma_cut(
    first: Seq<char>,
    rest: Seq<char>,
    other: Seq<char>,
    more: Seq<char>,
    c: char,
)
    requires
        free_of(first, c),
        free_of(other, c),
        first + seq![c] + rest == other + seq![c] + more,
    ensures
        first == other,
        rest == more,
{
    let left = first + seq![c] + rest;
    let right = other + seq![c] + more;
    if first.len() < other.len() {
        assert(left[first.len() as int] == c);
        assert(right[first.len() as int] == other[first.len() as int]);
    }
    if other.len() < first.len() {
        assert(right[other.len() as int] == c);
        assert(left[other.len() as int] == first[other.len() as int]);
    }
    assert(first =~= other) by {
        assert forall|i: int| 0 <= i < first.len() implies first[i] == other[i] by {
            assert(left[i] == first[i]);
            assert(right[i] == other[i]);
        }
    }
    assert(rest =~= more) by {
        assert(left.len() == right.len());
        assert forall|i: int| 0 <= i < rest.len() implies rest[i] == more[i] by {
            assert(left[first.len() + 1 + i] == rest[i]);
            assert(right[other.len() + 1 + i] == more[i]);
        }
    }
}

/// What follows the same beginning in the same text is the same.
pub proof fn lemma_after(start: Seq<char>, rest: Seq<char>, more: Seq<char>)
    requires
        start + rest == start + more,
    ensures
        rest == more,
{
    assert((start + rest).len() == start.len() + rest.len());
    assert((start + more).len() == start.len() + more.len());
    assert(rest.len() == more.len());
    assert forall|i: int| 0 <= i < rest.len() implies rest[i] == more[i] by {
        assert((start + rest)[start.len() + i] == rest[i]);
        assert((start + more)[start.len() + i] == more[i]);
    }
    assert(rest =~= more);
}

/// A text of digits is free of every character that is no digit.
pub proof fn lemma_digits_free(text: Seq<char>, c: char)
    requires
        all_digits(text),
        !is_digit(c),
    ensures
        free_of(text, c),
{
}

/// The decimal notation of a number is made of digits, at least one.
pub proof fn lemma_decimal_digits(n: nat)
    ensures
        all_digits(decimal(n)),
        decimal(n).len() >= 1,
        n >= 10 ==> decimal(n).len() >= 2,
    decreases n,
{
    if n >= 10 {
        lemma_decimal_digits(n / 10);
    }
}

/// Numbers with the same decimal notation are the same.
pub proof fn lemma_decimal_unique(a: nat, b: nat)
    requires
        decimal(a) == decimal(b),
    ensures
        a == b,
    decreases a,
{
    lemma_decimal_digits(a);
    lemma_decimal_digits(b);
    if a < 10 && b < 10 {
        assert(decimal(a)[0] == digit(a));
        assert(decimal(b)[0] == digit(b));
        lemma_digit_unique(a, b);
    } else if a >= 10 && b >= 10 {
        let front_a = decimal(a / 10);
        let front_b = decimal(b / 10);
        assert(front_a =~= decimal(a).drop_last());
        assert(front_b =~= decimal(b).drop_last());
        lemma_decimal_unique(a / 10, b / 10);
        assert(decimal(a).last() == digit(a % 10));
        assert(decimal(b).last() == digit(b % 10));
        lemma_digit_unique(a % 10, b % 10);
    } else if a < 10 {
        assert(decimal(a).len() == 1);
    } else {
        assert(decimal(b).len() == 1);
    }
}

/// Digits with the same character are the same.
pub proof fn lemma_digit_unique(a: nat, b: nat)
    requires
        a < 10,
        b < 10,
        digit(a) == digit(b),
    ensures
        a == b,
{
}

/// The decimal notation of a number with a sign is a minus sign or a digit,
/// followed by digits only, and numbers with the same notation are the same.
pub proof fn lemma_signed_decimal(a: int, b: int, c: char)
    ensures
        signed_decimal(a).len() >= 1,
        !is_digit(c) && c != '-' ==> free_of(signed_decimal(a), c),
        signed_decimal(a) == signed_decimal(b) ==> a == b,
{
    lemma_decimal_digits((-a) as nat);
    lemma_decimal_digits(a as nat);
    lemma_decimal_digits((-b) as nat);
    lemma_decimal_digits(b as nat);
    if signed_decimal(a) == signed_decimal(b) {
        if a < 0 && b < 0 {
            lemma_after(seq!['-'], decimal((-a) as nat), decimal((-b) as nat));
            lemma_decimal_unique((-a) as nat, (-b) as nat);
        } else if a >= 0 && b >= 0 {
            lemma_decimal_unique(a as nat, b as nat);
        } else if a < 0 {
            assert(signed_decimal(a)[0] == '-');
            assert(is_digit(decimal(b as nat)[0]));
        } else {
            assert(signed_decimal(b)[0] == '-');
            assert(is_digit(decimal(a as nat)[0]));
        }
    }
}

/// The text of a PID is made of digits, and PIDs with the same text are the
/// same.
pub proof fn lemma_pid_text(a: Pid, b: Pid)
    ensures
        all_digits(a.text()),
        a.text().len() >= 1,
        a.text() == b.text() ==> a == b,
{
    broadcast use group_pid;

    lemma_decimal_digits(a.value() as nat);
    if a.text() == b.text() {
        lemma_decimal_unique(a.value() as nat, b.value() as nat);
        assert(Pid::of(a.value()) == Pid::of(b.value()));
    }
}

/// The text of a state has no tab and no line break in it, and states with
/// the same text are the same.
pub proof fn lemma_state_text(a: ProcessState, b: ProcessState)
    ensures
        free_of(a.text(), '\t'),
        free_of(a.text(), '\n'),
        a.text() == b.text() ==> a == b,
{
    reveal_strlit("READY");
    reveal_strlit("RUNNING");
    reveal_strlit("EVENT ");
    reveal_strlit("SLEEP");
    if let ProcessState::Waiting { event: Some(event) } = a {
        lemma_decimal_digits(event as nat);
        lemma_digits_free(decimal(event as nat), '\t');
        lemma_digits_free(decimal(event as nat), '\n');
        assert(a.text()[0] == 'E');
    }
    if let ProcessState::Waiting { event: Some(event) } = b {
        lemma_decimal_digits(event as nat);
        assert(b.text()[0] == 'E');
    }
    if a.text() == b.text() {
        match (a, b) {
            (
                ProcessState::Waiting { event: Some(first) },
                ProcessState::Waiting { event: Some(second) },
            ) => {
                lemma_after("EVENT "@, decimal(first as nat), decimal(second as nat));
                lemma_decimal_unique(first as nat, second as nat);
            },
            _ => {
                assert(a.text()[0] == b.text()[0]);
                assert(a.text()[1] == b.text()[1]);
            },
        }
    }
}

/// The text of a decision has no line break in it, and decisions with the
/// same text are the same.
pub proof fn lemma_decision_text(a: SchedulingDecision, b: SchedulingDecision)
    ensures
        free_of(a.text(), '\n'),
        a.text() == b.text() ==> a == b,
{
    lemma_decision_shape(a);
    lemma_decision_shape(b);
    if a.text() == b.text() {
        assert(a.text()[0] == b.text()[0]);
        assert(a.text()[1] == b.text()[1]);
        match (a, b) {
            (
                SchedulingDecision::Run { pid: first, timeslice: time },
                SchedulingDecision::Run { pid: second, timeslice: other },
            ) => {
                reveal_strlit("Run ");
                reveal_strlit(" for ");
                reveal_strlit(" slices");
                lemma_pid_text(first, second);
                lemma_pid_text(second, first);
                lemma_decimal_digits(time as nat);
                lemma_decimal_digits(other as nat);
                let tail_a = " for "@.drop_first() + decimal(time as nat) + " slices"@;
                let tail_b = " for "@.drop_first() + decimal(other as nat) + " slices"@;
                assert(a.text() =~= "Run "@ + (first.text() + seq![' '] + tail_a));
                assert(b.text() =~= "Run "@ + (second.text() + seq![' '] + tail_b));
                lemma_after(
                    "Run "@,
                    first.text() + seq![' '] + tail_a,
                    second.text() + seq![' '] + tail_b,
                );
                lemma_digits_free(first.text(), ' ');
                lemma_digits_free(second.text(), ' ');
                lemma_cut(first.text(), tail_a, second.text(), tail_b, ' ');
                let end = " slices"@.drop_first();
                assert(tail_a =~= " for "@.drop_first() + (decimal(time as nat) + seq![' '] + end));
                assert(tail_b =~= " for "@.drop_first() + (decimal(other as nat) + seq![' '] + end));
                lemma_after(
                    " for "@.drop_first(),
                    decimal(time as nat) + seq![' '] + end,
                    decimal(other as nat) + seq![' '] + end,
                );
                lemma_digits_free(decimal(time as nat), ' ');
                lemma_digits_free(decimal(other as nat), ' ');
                lemma_cut(decimal(time as nat), end, decimal(other as nat), end, ' ');
                lemma_decimal_unique(time as nat, other as nat);
            },
            (SchedulingDecision::Sleep(first), SchedulingDecision::Sleep(second)) => {
                reveal_strlit("Sleep for ");
                reveal_strlit(" slices");
                lemma_decimal_digits(first as nat);
                lemma_decimal_digits(second as nat);
                let end = " slices"@.drop_first();
                assert(a.text() =~= "Sleep for "@ + (decimal(first as nat) + seq![' '] + end));
                assert(b.text() =~= "Sleep for "@ + (decimal(second as nat) + seq![' '] + end));
                lemma_after(
                    "Sleep for "@,
                    decimal(first as nat) + seq![' '] + end,
                    decimal(second as nat) + seq![' '] + end,
                );
                lemma_digits_free(decimal(first as nat), ' ');
                lemma_digits_free(decimal(second as nat), ' ');
                lemma_cut(decimal(first as nat), end, decimal(second as nat), end, ' ');
                lemma_decimal_unique(first as nat, second as nat);
            },
            _ => {},
        }
    }
}

/// The text of a decision begins with two letters that tell the kind of the
/// decision, and has no line break in it.
pub proof fn lemma_decision_shape(a: SchedulingDecision)
    ensures
        free_of(a.text(), '\n'),
        a.text().len() >= 2,
        a is Run <==> a.text()[0] == 'R',
        a is Sleep <==> a.text()[0] == 'S',
        a is Panic <==> a.text()[0] == 'P',
        a is Deadlock <==> a.text()[0] == 'D' && a.text()[1] == 'e',
        a is Done <==> a.text()[0] == 'D' && a.text()[1] == 'o',
{
    reveal_strlit("Run ");
    reveal_strlit(" for ");
    reveal_strlit(" slices");
    reveal_strlit("Sleep for ");
    reveal_strlit("Deadlock, unable to schedule anymore processes");
    reveal_strlit("Panic, process 1 has stopped");
    reveal_strlit("Done, no more processes");
    match a {
        SchedulingDecision::Run { pid, timeslice } => {
            lemma_pid_text(pid, pid);
            lemma_decimal_digits(timeslice as nat);
            lemma_digits_free(pid.text(), '\n');
            lemma_digits_free(decimal(timeslice as nat), '\n');
            assert(a.text()[0] == 'R');
        },
        SchedulingDecision::Sleep(amount) => {
            lemma_decimal_digits(amount as nat);
            lemma_digits_free(decimal(amount as nat), '\n');
            assert(a.text()[0] == 'S');
        },
        _ => {},
    }
}

/// The row of a process begins with a digit and has no line break in it if
/// the details of the process have none. Rows with the same text are rows
/// of processes that show the same.
pub proof fn lemma_row_text(a: ProcessView, b: ProcessView)
    ensures
        a.text().len() >= 1,
        is_digit(a.text()[0]),
        free_of(a.extra, '\n') ==> free_of(a.text(), '\n'),
        a.text() == b.text() ==> a == b,
{
    lemma_row_shape(a);
    lemma_row_shape(b);
    if a.text() == b.text() {
        // The PID.
        lemma_pid_text(a.pid, b.pid);
        lemma_pid_text(b.pid, a.pid);
        lemma_digits_free(a.pid.text(), '\t');
        lemma_digits_free(b.pid.text(), '\t');
        lemma_cut(a.pid.text(), a.behind_pid(), b.pid.text(), b.behind_pid(), '\t');
        // The state, and the empty column behind it.
        lemma_state_text(a.state, b.state);
        lemma_state_text(b.state, a.state);
        lemma_cut(a.state.text(), a.behind_state(), b.state.text(), b.behind_state(), '\t');
        lemma_after(seq!['\t'], a.behind_gap(), b.behind_gap());
        // The priority.
        lemma_signed_decimal(a.priority as int, b.priority as int, '\t');
        lemma_signed_decimal(b.priority as int, a.priority as int, '\t');
        lemma_cut(
            signed_decimal(a.priority as int),
            a.behind_priority(),
            signed_decimal(b.priority as int),
            b.behind_priority(),
            '\t',
        );
        // The timings.
        lemma_decimal_digits(a.timings.0 as nat);
        lemma_decimal_digits(b.timings.0 as nat);
        lemma_digits_free(decimal(a.timings.0 as nat), '\t');
        lemma_digits_free(decimal(b.timings.0 as nat), '\t');
        lemma_cut(
            decimal(a.timings.0 as nat),
            a.behind_total(),
            decimal(b.timings.0 as nat),
            b.behind_total(),
            '\t',
        );
        lemma_decimal_unique(a.timings.0 as nat, b.timings.0 as nat);
        lemma_decimal_digits(a.timings.1 as nat);
        lemma_decimal_digits(b.timings.1 as nat);
        lemma_digits_free(decimal(a.timings.1 as nat), '\t');
        lemma_digits_free(decimal(b.timings.1 as nat), '\t');
        lemma_cut(
            decimal(a.timings.1 as nat),
            a.behind_syscalls(),
            decimal(b.timings.1 as nat),
            b.behind_syscalls(),
            '\t',
        );
        lemma_decimal_unique(a.timings.1 as nat, b.timings.1 as nat);
        lemma_decimal_digits(a.timings.2 as nat);
        lemma_decimal_digits(b.timings.2 as nat);
        lemma_digits_free(decimal(a.timings.2 as nat), '\t');
        lemma_digits_free(decimal(b.timings.2 as nat), '\t');
        lemma_cut(decimal(a.timings.2 as nat), a.extra, decimal(b.timings.2 as nat), b.extra, '\t');
        lemma_decimal_unique(a.timings.2 as nat, b.timings.2 as nat);
    }
}

impl ProcessView {
    /// What follows the PID and its tab in the row.
    pub open spec fn behind_pid(self) -> Seq<char> {
        self.state.text() + seq!['\t'] + self.behind_state()
    }

    /// What follows the state and its tab in the row.
    pub open spec fn behind_state(self) -> Seq<char> {
        seq!['\t'] + self.behind_gap()
    }

    /// What follows the empty column in the row.
    pub open spec fn behind_gap(self) -> Seq<char> {
        signed_decimal(self.priority as int) + seq!['\t'] + self.behind_priority()
    }

    /// What follows the priority and its tab in the row.
    pub open spec fn behind_priority(self) -> Seq<char> {
        decimal(self.timings.0 as nat) + seq!['\t'] + self.behind_total()
    }

    /// What follows the total time and its tab in the row.
    pub open spec fn behind_total(self) -> Seq<char> {
        decimal(self.timings.1 as nat) + seq!['\t'] + self.behind_syscalls()
    }

    /// What follows the time of the system calls and its tab in the row.
    pub open spec fn behind_syscalls(self) -> Seq<char> {
        decimal(self.timings.2 as nat) + seq!['\t'] + self.extra
    }
}

/// A row is its columns one after the other, each but the last with a tab
/// behind it.
pub proof fn lemma_row_shape(a: ProcessView)
    ensures
        a.text() == a.pid.text() + seq!['\t'] + a.behind_pid(),
        a.text().len() >= 1,
        is_digit(a.text()[0]),
        free_of(a.extra, '\n') ==> free_of(a.text(), '\n'),
{
    reveal(ProcessView::text);
    reveal_strlit("\t");
    reveal_strlit("\t\t");
    assert("\t"@ =~= seq!['\t']);
    assert("\t\t"@ =~= seq!['\t'] + seq!['\t']);
    assert(a.text() =~= a.pid.text() + seq!['\t'] + a.behind_pid());
    lemma_pid_text(a.pid, a.pid);
    assert(a.text()[0] == a.pid.text()[0]);
    if free_of(a.extra, '\n') {
        lemma_state_text(a.state, a.state);
        lemma_signed_decimal(a.priority as int, a.priority as int, '\n');
        lemma_decimal_digits(a.timings.0 as nat);
        lemma_decimal_digits(a.timings.1 as nat);
        lemma_decimal_digits(a.timings.2 as nat);
        lemma_digits_free(a.pid.text(), '\n');
        lemma_digits_free(decimal(a.timings.0 as nat), '\n');
        lemma_digits_free(decimal(a.timings.1 as nat), '\n');
        lemma_digits_free(decimal(a.timings.2 as nat), '\n');
        assert(free_of(a.behind_syscalls(), '\n'));
        assert(free_of(a.behind_total(), '\n'));
        assert(free_of(a.behind_priority(), '\n'));
        assert(free_of(a.behind_gap(), '\n'));
        assert(free_of(a.behind_state(), '\n'));
        assert(free_of(a.behind_pid(), '\n'));
    }
}

/// The text of some rows is the first row, a line break, and the text of
/// the other rows.
pub proof fn lemma_rows_from_front(rows: Seq<ProcessView>)
    requires
        rows.len() > 0,
    ensures
        rows_text(rows) == rows[0].text() + seq!['\n'] + rows_text(rows.drop_first()),
    decreases rows.len(),
{
    reveal_strlit("\n");
    assert("\n"@ =~= seq!['\n']);
    let front = rows.drop_last();
    if rows.len() == 1 {
        assert(rows_text(front) =~= Seq::<char>::empty());
        assert(rows_text(rows.drop_first()) =~= Seq::<char>::empty());
        assert(rows_text(rows) =~= rows[0].text() + seq!['\n'] + rows_text(rows.drop_first()));
    } else {
        lemma_rows_from_front(front);
        assert(front.drop_first() == rows.drop_first().drop_last());
        assert(rows.drop_first().last() == rows.last());
        assert(front[0] == rows[0]);
        assert(rows_text(rows) =~= rows[0].text() + seq!['\n'] + rows_text(rows.drop_first()));
    }
}

/// The details of the rows `rows` have no line break in them.
pub open spec fn plain_rows(rows: Seq<ProcessView>) -> bool {
    forall|i: int| 0 <= i < rows.len() ==> free_of((#[trigger] rows[i]).extra, '\n')
}

/// The text `text` does not begin with a digit.
pub open spec fn starts_without_digit(text: Seq<char>) -> bool {
    text.len() > 0 ==> !is_digit(text[0])
}

/// Rows can be read back from their text and told from what follows them:
/// if the texts of two lists of rows, each followed by a text that does not
/// begin with a digit, are the same as a whole, then the rows are the same
/// and so is what follows them.
pub proof fn lemma_rows_unique(
    rows: Seq<ProcessView>,
    rest: Seq<char>,
    others: Seq<ProcessView>,
    more: Seq<char>,
)
    requires
        plain_rows(rows),
        plain_rows(others),
        starts_without_digit(rest),
        starts_without_digit(more),
        rows_text(rows) + rest == rows_text(others) + more,
    ensures
        rows == others,
        rest == more,
    decreases rows.len(),
{
    if rows.len() == 0 && others.len() == 0 {
        assert(rows_text(rows) + rest =~= rest);
        assert(rows_text(others) + more =~= more);
        assert(rows =~= others);
    } else if rows.len() == 0 {
        lemma_rows_from_front(others);
        lemma_row_text(others[0], others[0]);
        assert(rows_text(rows) + rest =~= rest);
        assert((rows_text(others) + more)[0] == others[0].text()[0]);
    } else if others.len() == 0 {
        lemma_rows_from_front(rows);
        lemma_row_text(rows[0], rows[0]);
        assert(rows_text(others) + more =~= more);
        assert((rows_text(rows) + rest)[0] == rows[0].text()[0]);
    } else {
        lemma_rows_from_front(rows);
        lemma_rows_from_front(others);
        lemma_row_text(rows[0], others[0]);
        lemma_row_text(others[0], rows[0]);
        let tail_a = rows_text(rows.drop_first()) + rest;
        let tail_b = rows_text(others.drop_first()) + more;
        assert(rows_text(rows) + rest =~= rows[0].text() + seq!['\n'] + tail_a);
        assert(rows_text(others) + more =~= others[0].text() + seq!['\n'] + tail_b);
        lemma_cut(rows[0].text(), tail_a, others[0].text(), tail_b, '\n');
        assert(plain_rows(rows.drop_first())) by {
            assert forall|i: int| 0 <= i < rows.drop_first().len() implies free_of(
                (#[trigger] rows.drop_first()[i]).extra,
                '\n',
            ) by {
                assert(rows.drop_first()[i] == rows[i + 1]);
            }
        }
        assert(plain_rows(others.drop_first())) by {
            assert forall|i: int| 0 <= i < others.drop_first().len() implies free_of(
                (#[trigger] others.drop_first()[i]).extra,
                '\n',
            ) by {
                assert(others.drop_first()[i] == others[i + 1]);
            }
        }
        lemma_rows_unique(rows.drop_first(), rest, others.drop_first(), more);
        assert(rows =~= seq![rows[0]] + rows.drop_first());
        assert(others =~= seq![others[0]] + others.drop_first());
    }
}

/// The heading of the iteration `number` in the text of a log.
pub open spec fn heading(number: nat) -> Seq<char> {
    "===== Iteration: "@ + decimal(number) + " =====\n"@
}

/// The text of a log is the text of its first entry under its heading, and
/// the text of the other entries.
pub proof fn lemma_formatted_from_front(logs: Seq<LogView>, done: nat)
    requires
        logs.len() > 0,
    ensures
        formatted_from(logs, done) == block(logs[0], done + 1) + formatted_from(
            logs.drop_first(),
            done + 1,
        ),
    decreases logs.len(),
{
    let front = logs.drop_last();
    if logs.len() == 1 {
        assert(formatted_from(front, done) =~= Seq::<char>::empty());
        assert(formatted_from(logs.drop_first(), done + 1) =~= Seq::<char>::empty());
        assert(formatted_from(logs, done) =~= block(logs[0], done + 1) + formatted_from(
            logs.drop_first(),
            done + 1,
        ));
    } else {
        lemma_formatted_from_front(front, done);
        assert(front.drop_first() == logs.drop_first().drop_last());
        assert(logs.drop_first().last() == logs.last());
        assert(front[0] == logs[0]);
        assert(done + logs.len() == done + 1 + logs.drop_first().len());
        assert(formatted_from(logs, done) =~= block(logs[0], done + 1) + formatted_from(
            logs.drop_first(),
            done + 1,
        ));
    }
}

/// The text of an entry under its heading, and what follows it, is the
/// heading, the text of the entry, a line break, and what follows.
pub proof fn lemma_block_shape(log: LogView, number: nat, rest: Seq<char>)
    ensures
        block(log, number) + rest == heading(number) + (log.text() + seq!['\n'] + rest),
        block(log, number).len() > 0,
{
    reveal(block);
    reveal_strlit("\n");
    assert("\n"@ =~= seq!['\n']);
    assert(block(log, number) + rest =~= heading(number) + (log.text() + seq!['\n'] + rest));
}

/// The details of all rows of the log `logs` have no line break in them.
pub open spec fn plain(logs: Seq<LogView>) -> bool {
    forall|i: int| 0 <= i < logs.len() ==> plain_rows((#[trigger] logs[i]).processes)
}

impl LogView {
    /// What follows the rows of the entry in the text of a log whose other
    /// entries have the text `rest`.
    pub open spec fn behind_rows(self, rest: Seq<char>) -> Seq<char> {
        self.stop_text() + seq!['\n'] + seq!['\n'] + rest
    }
}

/// The text of the answer to a system call has no line break in it.
pub proof fn lemma_result_shape(result: SyscallResult)
    ensures
        free_of(result.text(), '\n'),
{
    reveal_strlit("Pid(");
    reveal_strlit(")");
    reveal_strlit("Success");
    reveal_strlit("NoRunningProcess");
    if let SyscallResult::Pid(pid) = result {
        lemma_pid_text(pid, pid);
        lemma_digits_free(pid.text(), '\n');
    }
}

/// What precedes the same ending in the same text is the same.
pub proof fn lemma_before(first: Seq<char>, other: Seq<char>, end: Seq<char>)
    requires
        first + end == other + end,
    ensures
        first == other,
{
    assert((first + end).len() == first.len() + end.len());
    assert((other + end).len() == other.len() + end.len());
    assert forall|i: int| 0 <= i < first.len() implies first[i] == other[i] by {
        assert((first + end)[i] == first[i]);
        assert((other + end)[i] == other[i]);
    }
    assert(first =~= other);
}

/// A number between brackets is known by its text: if two numbers in
/// decimal notation, each behind the same opening and before a closing
/// bracket, have the same text, they are the same.
pub proof fn lemma_bracketed(opening: Seq<char>, a: nat, b: nat)
    requires
        opening + decimal(a) + seq![')'] == opening + decimal(b) + seq![')'],
    ensures
        a == b,
{
    assert(opening + decimal(a) + seq![')'] =~= opening + (decimal(a) + seq![')']));
    assert(opening + decimal(b) + seq![')'] =~= opening + (decimal(b) + seq![')']));
    lemma_after(opening, decimal(a) + seq![')'], decimal(b) + seq![')']);
    lemma_before(decimal(a), decimal(b), seq![')']);
    lemma_decimal_unique(a, b);
}

/// The text of a system call begins with two letters that tell its kind,
/// and has none of the characters that separate the parts of a line in it.
pub proof fn lemma_syscall_kind(a: Syscall)
    ensures
        a.text().len() >= 2,
        a is Fork <==> a.text()[0] == 'F',
        a is Sleep <==> a.text()[0] == 'S' && a.text()[1] == 'l',
        a is Signal <==> a.text()[0] == 'S' && a.text()[1] == 'i',
        a is Wait <==> a.text()[0] == 'W',
        a is Exit <==> a.text()[0] == 'E',
        free_of(a.text(), ','),
        free_of(a.text(), '>'),
        free_of(a.text(), '\n'),
{
    reveal_strlit("Fork(");
    reveal_strlit("Sleep(");
    reveal_strlit("Wait(");
    reveal_strlit("Signal(");
    reveal_strlit("Exit");
    reveal_strlit(")");
    match a {
        Syscall::Fork(priority) => {
            lemma_signed_decimal(priority as int, priority as int, ',');
            lemma_signed_decimal(priority as int, priority as int, '>');
            lemma_signed_decimal(priority as int, priority as int, '\n');
            assert(a.text()[0] == 'F');
        },
        Syscall::Sleep(n) => {
            lemma_decimal_digits(n as nat);
            lemma_digits_free(decimal(n as nat), ',');
            lemma_digits_free(decimal(n as nat), '>');
            lemma_digits_free(decimal(n as nat), '\n');
            assert(a.text()[0] == 'S' && a.text()[1] == 'l');
        },
        Syscall::Wait(n) => {
            lemma_decimal_digits(n as nat);
            lemma_digits_free(decimal(n as nat), ',');
            lemma_digits_free(decimal(n as nat), '>');
            lemma_digits_free(decimal(n as nat), '\n');
            assert(a.text()[0] == 'W');
        },
        Syscall::Signal(n) => {
            lemma_decimal_digits(n as nat);
            lemma_digits_free(decimal(n as nat), ',');
            lemma_digits_free(decimal(n as nat), '>');
            lemma_digits_free(decimal(n as nat), '\n');
            assert(a.text()[0] == 'S' && a.text()[1] == 'i');
        },
        Syscall::Exit => {},
    }
}

/// System calls with the same text are the same.
pub proof fn lemma_syscall_text(a: Syscall, b: Syscall)
    requires
        a.text() == b.text(),
    ensures
        a == b,
{
    lemma_syscall_kind(a);
    lemma_syscall_kind(b);
    reveal_strlit(")");
    assert(")"@ =~= seq![')']);
    match (a, b) {
        (Syscall::Fork(first), Syscall::Fork(second)) => {
            let x = signed_decimal(first as int);
            let y = signed_decimal(second as int);
            assert("Fork("@ + x + seq![')'] =~= "Fork("@ + (x + seq![')']));
            assert("Fork("@ + y + seq![')'] =~= "Fork("@ + (y + seq![')']));
            lemma_after("Fork("@, x + seq![')'], y + seq![')']);
            lemma_before(x, y, seq![')']);
            lemma_signed_decimal(first as int, second as int, ',');
        },
        (Syscall::Sleep(first), Syscall::Sleep(second)) => {
            lemma_bracketed("Sleep("@, first as nat, second as nat);
        },
        (Syscall::Wait(first), Syscall::Wait(second)) => {
            lemma_bracketed("Wait("@, first as nat, second as nat);
        },
        (Syscall::Signal(first), Syscall::Signal(second)) => {
            lemma_bracketed("Signal("@, first as nat, second as nat);
        },
        _ => {},
    }
}

/// The text of a stop reason begins with a letter that tells its kind, and
/// has no `>` and no line break in it.
pub proof fn lemma_reason_kind(a: StopReason)
    ensures
        a.text().len() >= 1,
        a is Syscall <==> a.text()[0] == 'S',
        a is Expired <==> a.text()[0] == 'E',
        free_of(a.text(), '>'),
        free_of(a.text(), '\n'),
{
    reveal_strlit("Syscall ");
    reveal_strlit(", remaining ");
    reveal_strlit("Expired");
    if let StopReason::Syscall { syscall, remaining } = a {
        lemma_syscall_kind(syscall);
        lemma_decimal_digits(remaining as nat);
        lemma_digits_free(decimal(remaining as nat), '>');
        lemma_digits_free(decimal(remaining as nat), '\n');
        assert(a.text()[0] == 'S');
    }
}

/// Stop reasons with the same text are the same.
pub proof fn lemma_reason_text(a: StopReason, b: StopReason)
    requires
        a.text() == b.text(),
    ensures
        a == b,
{
    lemma_reason_kind(a);
    lemma_reason_kind(b);
    if let (
        StopReason::Syscall { syscall: first, remaining: left },
        StopReason::Syscall { syscall: second, remaining: other },
    ) = (a, b) {
        reveal_strlit(", remaining ");
        let end = ", remaining "@.drop_first();
        let tail_a = end + decimal(left as nat);
        let tail_b = end + decimal(other as nat);
        assert(a.text() =~= "Syscall "@ + (first.text() + seq![','] + tail_a));
        assert(b.text() =~= "Syscall "@ + (second.text() + seq![','] + tail_b));
        lemma_after(
            "Syscall "@,
            first.text() + seq![','] + tail_a,
            second.text() + seq![','] + tail_b,
        );
        lemma_syscall_kind(first);
        lemma_syscall_kind(second);
        lemma_cut(first.text(), tail_a, second.text(), tail_b, ',');
        lemma_syscall_text(first, second);
        lemma_after(end, decimal(left as nat), decimal(other as nat));
        lemma_decimal_unique(left as nat, other as nat);
    }
}

/// Answers to system calls with the same text are the same.
pub proof fn lemma_result_text(a: SyscallResult, b: SyscallResult)
    requires
        a.text() == b.text(),
    ensures
        a == b,
{
    reveal_strlit("Pid(");
    reveal_strlit(")");
    reveal_strlit("Success");
    reveal_strlit("NoRunningProcess");
    assert(")"@ =~= seq![')']);
    if let SyscallResult::Pid(pid) = a {
        lemma_pid_text(pid, pid);
        assert(a.text()[0] == 'P');
    }
    if let SyscallResult::Pid(pid) = b {
        lemma_pid_text(pid, pid);
        assert(b.text()[0] == 'P');
    }
    assert(a.text()[0] == b.text()[0]);
    match (a, b) {
        (SyscallResult::Pid(first), SyscallResult::Pid(second)) => {
            lemma_bracketed("Pid("@, first.value() as nat, second.value() as nat);
            lemma_pid_text(first, second);
            assert(first == second);
        },
        (SyscallResult::Success, _) => {
            assert(a.text()[0] == 'S');
            assert(b is Success);
        },
        (SyscallResult::NoRunningProcess, _) => {
            assert(a.text()[0] == 'N');
            assert(b is NoRunningProcess);
        },
        (SyscallResult::Pid(_), _) => {
            assert(b is Pid);
        },
    }
}

/// The stop that is attached to an entry is known by its line: entries with
/// the same last line have the same stop attached, or none.
pub proof fn lemma_stop_unique(a: LogView, b: LogView)
    requires
        a.stop_text() == b.stop_text(),
    ensures
        a.stop_reason == b.stop_reason,
{
    lemma_stop_shape(a);
    lemma_stop_shape(b);
    if let (Some((reason, result)), Some((cause, answer))) = (a.stop_reason, b.stop_reason) {
        reveal_strlit("\n");
        reveal_strlit(" -> ");
        lemma_reason_kind(reason);
        lemma_reason_kind(cause);
        let lead = seq![' ', '-'];
        let end = seq![' '];
        assert(" -> "@ =~= lead + seq!['>'] + end);
        let tail_a = end + result.text() + "\n"@;
        let tail_b = end + answer.text() + "\n"@;
        assert(a.stop_text() =~= (reason.text() + lead) + seq!['>'] + tail_a);
        assert(b.stop_text() =~= (cause.text() + lead) + seq!['>'] + tail_b);
        lemma_cut(reason.text() + lead, tail_a, cause.text() + lead, tail_b, '>');
        lemma_before(reason.text(), cause.text(), lead);
        lemma_reason_text(reason, cause);
        assert(tail_a =~= end + (result.text() + "\n"@));
        assert(tail_b =~= end + (answer.text() + "\n"@));
        lemma_after(end, result.text() + "\n"@, answer.text() + "\n"@);
        lemma_before(result.text(), answer.text(), "\n"@);
        lemma_result_text(result, answer);
    }
}

/// What follows the rows of an entry does not begin with a digit, and shows
/// whether a stop is attached to the entry: if what follows the rows of two
/// entries is the same, then both have a stop attached or neither has, and
/// what follows the entries is the same.
pub proof fn lemma_behind_rows(a: LogView, rest: Seq<char>, b: LogView, more: Seq<char>)
    ensures
        starts_without_digit(a.behind_rows(rest)),
        a.behind_rows(rest) == b.behind_rows(more) ==> rest == more && (a.stop_reason is Some
            <==> b.stop_reason is Some) && a.stop_text() == b.stop_text(),
{
    reveal_strlit("\n");
    reveal_strlit(" -> ");
    assert("\n"@ =~= seq!['\n']);
    lemma_stop_shape(a);
    lemma_stop_shape(b);
    if a.behind_rows(rest) == b.behind_rows(more) {
        match (a.stop_reason, b.stop_reason) {
            (None, None) => {
                assert(a.behind_rows(rest) =~= seq!['\n'] + seq!['\n'] + rest);
                assert(b.behind_rows(more) =~= seq!['\n'] + seq!['\n'] + more);
                lemma_after(seq!['\n'] + seq!['\n'], rest, more);
            },
            (Some(_), Some(_)) => {
                let line_a = a.stop_text().drop_last();
                let line_b = b.stop_text().drop_last();
                assert(a.behind_rows(rest) =~= line_a + seq!['\n'] + (seq!['\n'] + seq!['\n']
                    + rest));
                assert(b.behind_rows(more) =~= line_b + seq!['\n'] + (seq!['\n'] + seq!['\n']
                    + more));
                lemma_cut(
                    line_a,
                    seq!['\n'] + seq!['\n'] + rest,
                    line_b,
                    seq!['\n'] + seq!['\n'] + more,
                    '\n',
                );
                lemma_after(seq!['\n'] + seq!['\n'], rest, more);
                assert(a.stop_text() =~= line_a + seq!['\n']);
                assert(b.stop_text() =~= line_b + seq!['\n']);
            },
            (None, Some(_)) => {
                assert(a.behind_rows(rest)[0] == '\n');
                assert(b.behind_rows(more)[0] == b.stop_text()[0]);
            },
            (Some(_), None) => {
                assert(b.behind_rows(more)[0] == '\n');
                assert(a.behind_rows(rest)[0] == a.stop_text()[0]);
            },
        }
    }
}

/// The line of the stop that is attached to an entry begins with a capital
/// letter and has one line break, at its end.
pub proof fn lemma_stop_shape(a: LogView)
    ensures
        a.stop_reason is None ==> a.stop_text().len() == 0,
        a.stop_reason is Some ==> a.stop_text().len() >= 2 && (a.stop_text()[0] == 'S'
            || a.stop_text()[0] == 'E') && a.stop_text().last() == '\n' && free_of(
            a.stop_text().drop_last(),
            '\n',
        ),
{
    reveal_strlit("\n");
    reveal_strlit(" -> ");
    if let Some((reason, result)) = a.stop_reason {
        lemma_reason_kind(reason);
        lemma_result_shape(result);
        let line = reason.text() + " -> "@ + result.text();
        assert(a.stop_text() =~= line + seq!['\n']);
        assert(a.stop_text().drop_last() =~= line);
        assert(a.stop_text()[0] == reason.text()[0]);
    }
}

/// The details that the process control blocks of this library show have no
/// line break in them.
pub proof fn lemma_details_plain(pcb: PCB)
    ensures
        free_of(pcb.view().extra, '\n'),
{
    reveal_strlit("vruntime=");
    if let Some(vruntime) = pcb.vruntime {
        lemma_decimal_digits(vruntime as nat);
        lemma_digits_free(decimal(vruntime as nat), '\n');
    }
}

/// The rows of a log entry for processes that schedulers of this library
/// list can be read back: the details of the rows have no line break in
/// them.
pub proof fn lemma_table_plain(listing: Seq<PCB>)
    ensures
        plain_rows(table(shown(listing))),
{
    let rows = table(shown(listing));
    lemma_table(shown(listing));
    assert forall|i: int| 0 <= i < rows.len() implies free_of((#[trigger] rows[i]).extra, '\n') by {
        assert(rows.contains(rows[i]));
        let k = choose|k: int| 0 <= k < shown(listing).len() && shown(listing)[k] == rows[i];
        lemma_details_plain(listing[k]);
    }
}

/// The heading of the table of an entry.
pub open spec fn columns() -> Seq<char> {
    "PID\tSTATE\t\tPRI\tTOTAL\tSYSCALL\tEXECUTE\tEXTRA\n"@
}

/// The text of an entry and what follows it in the text of a log is the
/// line of the decision, the heading of the table, the rows, and what
/// follows the rows.
pub proof fn lemma_entry_shape(entry: LogView, rest: Seq<char>)
    ensures
        entry.text() + seq!['\n'] + rest == entry.decision.text() + seq!['\n'] + (columns() + (
        rows_text(table(entry.processes)) + entry.behind_rows(rest))),
{
    reveal(LogView::text);
    reveal_strlit("\n");
    assert("\n"@ =~= seq!['\n']);
    assert(entry.text() + seq!['\n'] + rest =~= entry.decision.text() + seq!['\n'] + (columns() + (
    rows_text(table(entry.processes)) + entry.behind_rows(rest))));
}

/// The rows of a table have no line break in their details if the rows that
/// the table is made of have none.
pub proof fn lemma_plain_table(rows: Seq<ProcessView>)
    requires
        plain_rows(rows),
    ensures
        plain_rows(table(rows)),
{
    lemma_table(rows);
    assert forall|i: int| 0 <= i < table(rows).len() implies free_of(
        (#[trigger] table(rows)[i]).extra,
        '\n',
    ) by {
        assert(table(rows).contains(table(rows)[i]));
        let k = choose|k: int| 0 <= k < rows.len() && rows[k] == table(rows)[i];
        assert(free_of(rows[k].extra, '\n'));
    }
}

/// An entry can be read back from its text and told from what follows it:
/// if the texts of two entries, each followed by more text, are the same as
/// a whole, then the entries have the same decision, the same table of
/// processes and the same stop attached, if any, and what follows them is
/// the same.
pub proof fn lemma_entry_unique(a: LogView, rest: Seq<char>, b: LogView, more: Seq<char>)
    requires
        plain_rows(a.processes),
        plain_rows(b.processes),
        a.text() + seq!['\n'] + rest == b.text() + seq!['\n'] + more,
    ensures
        a.decision == b.decision,
        table(a.processes) == table(b.processes),
        a.stop_reason == b.stop_reason,
        rest == more,
{
    lemma_entry_shape(a, rest);
    lemma_entry_shape(b, more);
    lemma_plain_table(a.processes);
    lemma_plain_table(b.processes);
    let rows_a = rows_text(table(a.processes)) + a.behind_rows(rest);
    let rows_b = rows_text(table(b.processes)) + b.behind_rows(more);
    lemma_decision_text(a.decision, b.decision);
    lemma_decision_text(b.decision, a.decision);
    lemma_cut(a.decision.text(), columns() + rows_a, b.decision.text(), columns() + rows_b, '\n');
    lemma_after(columns(), rows_a, rows_b);
    lemma_behind_rows(a, rest, b, more);
    lemma_behind_rows(b, more, a, rest);
    lemma_rows_unique(
        table(a.processes),
        a.behind_rows(rest),
        table(b.processes),
        b.behind_rows(more),
    );
    lemma_stop_unique(a, b);
}

/// The details of the rows of the entries of a log without its first entry
/// have no line break in them if those of the log have none.
pub proof fn lemma_plain_rest(logs: Seq<LogView>)
    requires
        plain(logs),
        logs.len() > 0,
    ensures
        plain(logs.drop_first()),
        plain_rows(logs[0].processes),
{
    assert forall|i: int| 0 <= i < logs.drop_first().len() implies plain_rows(
        (#[trigger] logs.drop_first()[i]).processes,
    ) by {
        assert(logs.drop_first()[i] == logs[i + 1]);
    }
}

/// The text of a log with an entry is not empty.
pub proof fn lemma_formatted_some(logs: Seq<LogView>, done: nat)
    requires
        logs.len() > 0,
    ensures
        formatted_from(logs, done).len() > 0,
{
    lemma_formatted_from_front(logs, done);
    lemma_block_shape(logs[0], done + 1, formatted_from(logs.drop_first(), done + 1));
}

/// The first entries of two logs with the same text, counted from the same
/// iteration, have the same decision, the same table of processes and the
/// same stop attached, if any, and the other entries have the same text.
pub proof fn lemma_first_entry_unique(a: Seq<LogView>, b: Seq<LogView>, done: nat)
    requires
        a.len() > 0,
        b.len() > 0,
        plain_rows(a[0].processes),
        plain_rows(b[0].processes),
        formatted_from(a, done) == formatted_from(b, done),
    ensures
        same_entry(a[0], b[0]),
        formatted_from(a.drop_first(), done + 1) == formatted_from(b.drop_first(), done + 1),
{
    lemma_formatted_from_front(a, done);
    lemma_formatted_from_front(b, done);
    let rest_a = formatted_from(a.drop_first(), done + 1);
    let rest_b = formatted_from(b.drop_first(), done + 1);
    lemma_block_shape(a[0], done + 1, rest_a);
    lemma_block_shape(b[0], done + 1, rest_b);
    lemma_after(
        heading(done + 1),
        a[0].text() + seq!['\n'] + rest_a,
        b[0].text() + seq!['\n'] + rest_b,
    );
    lemma_entry_unique(a[0], rest_a, b[0], rest_b);
}

/// The entries `a` and `b` say the same: they have the same decision, the
/// same table of processes, and the same stop attached, if any.
pub open spec fn same_entry(a: LogView, b: LogView) -> bool {
    &&& a.decision == b.decision
    &&& table(a.processes) == table(b.processes)
    &&& a.stop_reason == b.stop_reason
}

/// Logs with the same text, counted from the same iteration, have as many
/// entries, and their entries say the same, one by one. This holds of logs
/// in which the details of the processes have no line break.
pub proof fn lemma_formatted_from_unique(a: Seq<LogView>, b: Seq<LogView>, done: nat)
    requires
        plain(a),
        plain(b),
        formatted_from(a, done) == formatted_from(b, done),
    ensures
        a.len() == b.len(),
        forall|i: int| 0 <= i < a.len() ==> same_entry(#[trigger] a[i], b[i]),
    decreases a.len(),
{
    if a.len() == 0 && b.len() == 0 {
    } else if a.len() == 0 {
        lemma_formatted_some(b, done);
        lemma_formatted_none(a, done);
    } else if b.len() == 0 {
        lemma_formatted_some(a, done);
        lemma_formatted_none(b, done);
    } else {
        lemma_plain_rest(a);
        lemma_plain_rest(b);
        lemma_first_entry_unique(a, b, done);
        lemma_formatted_from_unique(a.drop_first(), b.drop_first(), done + 1);
        assert forall|i: int| 0 <= i < a.len() implies same_entry(#[trigger] a[i], b[i]) by {
            if i > 0 {
                assert(a.drop_first()[i - 1] == a[i]);
                assert(b.drop_first()[i - 1] == b[i]);
            }
        }
    }
}

/// The text of a log without entries is empty.
pub proof fn lemma_formatted_none(logs: Seq<LogView>, done: nat)
    requires
        logs.len() == 0,
    ensures
        formatted_from(logs, done).len() == 0,
{
}

/// The rows of every entry of the log `logs` are in the order of their PIDs,
/// no two with the same PID, as in the logs that a processor keeps.
pub open spec fn tabular(logs: Seq<LogView>) -> bool {
    forall|i: int| 0 <= i < logs.len() ==> ascending((#[trigger] logs[i]).processes)
}

/// A log can be read back from its text: the text shows the iterations, and
/// of each the decision, the table of the processes and the stop that
/// followed. Two logs with the same text have as many entries, and their
/// entries say the same, one by one; and if their rows are in the order of
/// the PIDs, as in the logs that a processor keeps, they are the same log.
/// This holds of logs in which the details of the processes have no line
/// break, as those of the process control blocks of this library.
pub proof fn lemma_formatted_unique(a: Seq<LogView>, b: Seq<LogView>)
    requires
        plain(a),
        plain(b),
        formatted(a) == formatted(b),
    ensures
        a.len() == b.len(),
        forall|i: int| 0 <= i < a.len() ==> same_entry(#[trigger] a[i], b[i]),
        tabular(a) && tabular(b) ==> a == b,
{
    lemma_formatted_from_unique(a, b, 0);
    if tabular(a) && tabular(b) {
        assert forall|i: int| 0 <= i < a.len() implies a[i] == b[i] by {
            assert(same_entry(a[i], b[i]));
            lemma_table_of_ascending(a[i].processes);
            lemma_table_of_ascending(b[i].processes);
        }
        assert(a =~= b);
    }
}

} // verus!
