//! The text of a log line.

use vstd::prelude::*;
use vstd::string::*;

verus! {

/// The ten decimal digits, in order of their value.
pub open spec fn digits() -> Seq<char> {
    seq!['0', '1', '2', '3', '4', '5', '6', '7', '8', '9']
}

/// `n` written in base ten: no sign, no padding, no leading zero, and the
/// single digit `0` for zero.
pub open spec fn decimal(n: nat) -> Seq<char>
    decreases n,
{
    if n < 10 {
        seq![digits()[n as int]]
    } else {
        decimal(n / 10).push(digits()[(n % 10) as int])
    }
}

/// The words that stand between the file and the line number.
pub open spec fn line_word() -> Seq<char> {
    seq![' ', 'l', 'i', 'n', 'e', ' ']
}

/// What separates the line number from the message.
pub open spec fn message_separator() -> Seq<char> {
    seq![':', ' ']
}

/// The line break that ends every line.
pub open spec fn line_break() -> Seq<char> {
    seq!['\n']
}

/// The line for a message logged at `line` of `file`:
/// `<file> line <line>: <message>` and one line break.
pub open spec fn line_text(file: Seq<char>, line: nat, message: Seq<char>) -> Seq<char> {
    file + line_word() + decimal(line) + message_separator() + message + line_break()
}

/// The digit `d` as a one-character string.
fn digit_str(d: u32) -> (s: &'static str)
    requires
        d < 10,
    ensures
        s@ == seq![digits()[d as int]],
{
    proof {
        reveal_strlit("0");
        reveal_strlit("1");
        reveal_strlit("2");
        reveal_strlit("3");
        reveal_strlit("4");
        reveal_strlit("5");
        reveal_strlit("6");
        reveal_strlit("7");
        reveal_strlit("8");
        reveal_strlit("9");
    }
    let s = match d {
        0 => "0",
        1 => "1",
        2 => "2",
        3 => "3",
        4 => "4",
        5 => "5",
        6 => "6",
        7 => "7",
        8 => "8",
        _ => "9",
    };
    assert(s@ =~= seq![digits()[d as int]]);
    s
}

/// Appends `n` in base ten to `text`.
fn push_decimal(text: &mut String, n: u32)
    ensures
        final(text)@ == old(text)@ + decimal(n as nat),
    decreases n,
{
    if n >= 10 {
        push_decimal(text, n / 10);
    }
    text.append(digit_str(n % 10));
    assert(text@ =~= old(text)@ + decimal(n as nat));
}

/// Renders the line for `message`, logged at `line` of `file`.
pub fn format_line(file: &str, line: u32, message: &str) -> (text: String)
    ensures
        text@ == line_text(file@, line as nat, message@),
{
    proof {
        reveal_strlit(" line ");
        reveal_strlit(": ");
        reveal_strlit("\n");
    }
    let mut text = String::from_str(file);
    text.append(" line ");
    assert(text@ =~= file@ + line_word());
    push_decimal(&mut text, line);
    text.append(": ");
    assert(text@ =~= file@ + line_word() + decimal(line as nat) + message_separator());
    text.append(message);
    text.append("\n");
    text
}

/// Whether `text` holds no line break.
pub open spec fn no_line_break(text: Seq<char>) -> bool {
    forall|i: int| 0 <= i < text.len() ==> text[i] != '\n'
}

/// A number in base ten is at least one character, and each of them is a
/// digit.
pub proof fn lemma_decimal_is_digits(n: nat)
    ensures
        decimal(n).len() >= 1,
        forall|i: int| 0 <= i < decimal(n).len() ==> digits().contains(#[trigger] decimal(n)[i]),
    decreases n,
{
    if n < 10 {
        assert(digits()[n as int] == decimal(n)[0]);
    } else {
        lemma_decimal_is_digits(n / 10);
        assert forall|i: int| 0 <= i < decimal(n).len() implies digits().contains(
            #[trigger] decimal(n)[i],
        ) by {
            if i == decimal(n).len() - 1 {
                assert(decimal(n)[i] == digits()[(n % 10) as int]);
            } else {
                assert(decimal(n)[i] == decimal(n / 10)[i]);
            }
        }
    }
}

/// The number that `text`, taken as a run of digits, stands for in base ten.
pub open spec fn value(text: Seq<char>) -> nat
    decreases text.len(),
{
    if text.len() == 0 {
        0
    } else {
        value(text.drop_last()) * 10 + digits().index_of(text.last()) as nat
    }
}

/// A number in base ten reads back as itself, and starts with a zero only
/// if it is zero.
pub proof fn lemma_decimal_reads_back(n: nat)
    ensures
        value(decimal(n)) == n,
        n > 0 ==> decimal(n)[0] != '0',
    decreases n,
{
    let last = digits()[(n % 10) as int];
    assert(digits().index_of(last) == n % 10) by {
        let found = digits().index_of(last);
        assert(digits()[(n % 10) as int] == last);
        assert(0 <= found < 10 && digits()[found] == last);
    }
    if n < 10 {
        assert(decimal(n).drop_last() =~= Seq::<char>::empty());
        assert(value(decimal(n).drop_last()) == 0);
    } else {
        lemma_decimal_reads_back(n / 10);
        lemma_decimal_is_digits(n / 10);
        assert(decimal(n).drop_last() =~= decimal(n / 10));
        assert(decimal(n)[0] == decimal(n / 10)[0]);
    }
}

/// A line is one line: where neither the file nor the message holds a line
/// break, the only line break of the line is its last character.
pub proof fn lemma_line_is_one_line(file: Seq<char>, line: nat, message: Seq<char>)
    requires
        no_line_break(file),
        no_line_break(message),
    ensures
        line_text(file, line, message).len() >= 1,
        line_text(file, line, message).last() == '\n',
        no_line_break(line_text(file, line, message).drop_last()),
{
    let number = decimal(line);
    let text = line_text(file, line, message);
    let head = file + line_word() + number + message_separator() + message;
    lemma_decimal_is_digits(line);
    assert(text.drop_last() =~= head);
    assert forall|i: int| 0 <= i < head.len() implies head[i] != '\n' by {
        let at_word = file.len();
        let at_number = at_word + line_word().len();
        let at_separator = at_number + number.len();
        let at_message = at_separator + message_separator().len();
        if i < at_word {
            assert(head[i] == file[i]);
        } else if i < at_number {
            assert(head[i] == line_word()[i - at_word]);
        } else if i < at_separator {
            assert(head[i] == number[i - at_number]);
            assert(digits().contains(number[i - at_number]));
        } else if i < at_message {
            assert(head[i] == message_separator()[i - at_separator]);
        } else {
            assert(head[i] == message[i - at_message]);
        }
    }
}

} // verus!
