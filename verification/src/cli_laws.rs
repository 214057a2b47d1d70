//! What holds of the tool's arguments and answers.

use crate::cli::{self, CommandView};
use vstd::prelude::*;

verus! {

/// The words "--json" and those of a command are told apart.
proof fn lemma_words()
    ensures
        "info"@ != "stats"@,
        "info"@ != "verify"@,
        "info"@ != "backup"@,
        "info"@ != "compact"@,
        "info"@ != "migrate"@,
        "info"@ != "salvage"@,
        "stats"@ != "verify"@,
        "stats"@ != "backup"@,
        "stats"@ != "compact"@,
        "stats"@ != "migrate"@,
        "stats"@ != "salvage"@,
        "verify"@ != "backup"@,
        "verify"@ != "compact"@,
        "verify"@ != "migrate"@,
        "verify"@ != "salvage"@,
        "backup"@ != "compact"@,
        "backup"@ != "migrate"@,
        "backup"@ != "salvage"@,
        "compact"@ != "migrate"@,
        "compact"@ != "salvage"@,
        "migrate"@ != "salvage"@,
{
    reveal_strlit("info");
    reveal_strlit("stats");
    reveal_strlit("verify");
    reveal_strlit("backup");
    reveal_strlit("compact");
    reveal_strlit("migrate");
    reveal_strlit("salvage");
    assert("info"@[0] == 'i');
    assert("stats"@[0] == 's' && "stats"@[1] == 't');
    assert("verify"@[0] == 'v');
    assert("backup"@[0] == 'b');
    assert("compact"@[0] == 'c');
    assert("migrate"@[0] == 'm');
    assert("salvage"@[0] == 's' && "salvage"@[1] == 'a');
}

/// Each command is read from its word and its operands, and from no other
/// number of them.
pub proof fn law_commands_are_read(words: Seq<Seq<char>>)
    ensures
        words.len() == 2 && words[0] == "info"@ ==> cli::command_in(words) == Some(
            CommandView::Info(words[1]),
        ),
        words.len() == 2 && words[0] == "stats"@ ==> cli::command_in(words) == Some(
            CommandView::Stats(words[1]),
        ),
        words.len() == 2 && words[0] == "verify"@ ==> cli::command_in(words) == Some(
            CommandView::Verify(words[1]),
        ),
        words.len() == 3 && words[0] == "backup"@ ==> cli::command_in(words) == Some(
            CommandView::Backup(words[1], words[2]),
        ),
        words.len() == 3 && words[0] == "salvage"@ ==> cli::command_in(words) == Some(
            CommandView::Salvage(words[1], words[2]),
        ),
        words.len() == 3 && (words[0] == "compact"@ || words[0] == "migrate"@) ==> cli::command_in(
            words,
        ) == Some(CommandView::Compact(words[0], words[1], words[2], None)),
        words.len() == 4 && (words[0] == "compact"@ || words[0] == "migrate"@) ==> cli::command_in(
            words,
        ) == Some(CommandView::Compact(words[0], words[1], words[2], Some(words[3]))),
        words.len() <= 1 || words.len() >= 5 ==> cli::command_in(words) is None,
{
    lemma_words();
}

/// The value of a hexadecimal digit.
pub open spec fn hex_value(c: char) -> Option<int> {
    if '0' <= c && c <= '9' {
        Some(c as int - '0' as int)
    } else if 'a' <= c && c <= 'f' {
        Some(c as int - 'a' as int + 10)
    } else if 'A' <= c && c <= 'F' {
        Some(c as int - 'A' as int + 10)
    } else {
        None
    }
}

/// The character that a JSON string begins with, and how much of the string
/// stands for it. A quote and a control code stand for nothing.
pub open spec fn first_of(t: Seq<char>) -> Option<(char, int)> {
    if t.len() == 0 || t[0] == '"' || (t[0] as u32) < 0x20 {
        None
    } else if t[0] != '\\' {
        Some((t[0], 1))
    } else if t.len() < 2 {
        None
    } else if t[1] == '"' || t[1] == '\\' || t[1] == '/' {
        Some((t[1], 2))
    } else if t[1] == 'n' {
        Some(('\n', 2))
    } else if t[1] == 'r' {
        Some(('\r', 2))
    } else if t[1] == 't' {
        Some(('\t', 2))
    } else if t[1] == 'u' && t.len() >= 6 {
        match (hex_value(t[2]), hex_value(t[3]), hex_value(t[4]), hex_value(t[5])) {
            (Some(a), Some(b), Some(c), Some(d)) => Some(
                ((a * 4096 + b * 256 + c * 16 + d) as char, 6),
            ),
            _ => None,
        }
    } else {
        None
    }
}

/// The text that is within a JSON string.
pub open spec fn text_in(t: Seq<char>) -> Option<Seq<char>>
    decreases t.len(),
{
    if t.len() == 0 {
        Some(Seq::empty())
    } else {
        match first_of(t) {
            Some((c, n)) => if 0 < n <= t.len() {
                match text_in(t.skip(n)) {
                    Some(rest) => Some(seq![c] + rest),
                    None => None,
                }
            } else {
                None
            },
            None => None,
        }
    }
}

proof fn lemma_hex(d: int)
    requires
        0 <= d < 16,
    ensures
        cli::hex_digit(d).len() == 1,
        hex_value(cli::hex_digit(d)[0]) == Some(d),
{
}

/// What stands for a character is read as that character.
proof fn lemma_first(c: char, rest: Seq<char>)
    ensures
        first_of(cli::escaped_char(c) + rest) == Some((c, cli::escaped_char(c).len() as int)),
        cli::escaped_char(c).len() > 0,
        (cli::escaped_char(c) + rest).skip(cli::escaped_char(c).len() as int) == rest,
{
    reveal_strlit("\\\"");
    reveal_strlit("\\\\");
    reveal_strlit("\\n");
    reveal_strlit("\\r");
    reveal_strlit("\\t");
    reveal_strlit("\\u");
    let e = cli::escaped_char(c);
    let t = e + rest;
    assert(t.skip(e.len() as int) =~= rest);
    if c == '"' || c == '\\' || c == '\n' || c == '\r' || c == '\t' {
        assert(t[0] == '\\');
        assert(t[1] == e[1]);
    } else if cli::is_control(c) {
        let n = c as int;
        assert(n / 4096 % 16 == 0);
        assert(n / 256 % 16 == 0);
        lemma_hex(n / 4096 % 16);
        lemma_hex(n / 256 % 16);
        lemma_hex(n / 16 % 16);
        lemma_hex(n % 16);
        let h = cli::four_hex(n);
        assert(h.len() == 4);
        assert(h[0] == cli::hex_digit(n / 4096 % 16)[0]);
        assert(h[1] == cli::hex_digit(n / 256 % 16)[0]);
        assert(h[2] == cli::hex_digit(n / 16 % 16)[0]);
        assert(h[3] == cli::hex_digit(n % 16)[0]);
        assert(t[0] == '\\' && t[1] == 'u');
        assert(t[2] == h[0] && t[3] == h[1] && t[4] == h[2] && t[5] == h[3]);
        assert(n == (n / 16 % 16) * 16 + n % 16);
    } else {
        assert(t[0] == c);
    }
}

/// A text's escapes are those of its first character and of the rest.
proof fn lemma_escaped_front(s: Seq<char>)
    requires
        s.len() > 0,
    ensures
        cli::escaped_text(s) == cli::escaped_char(s[0]) + cli::escaped_text(s.drop_first()),
    decreases s.len(),
{
    let rest = s.drop_first();
    if s.len() == 1 {
        assert(s.drop_last() =~= Seq::<char>::empty());
        assert(rest =~= Seq::<char>::empty());
        assert(cli::escaped_text(s.drop_last()) =~= Seq::<char>::empty());
        assert(cli::escaped_text(rest) =~= Seq::<char>::empty());
        assert(cli::escaped_text(s) =~= cli::escaped_char(s[0]) + cli::escaped_text(rest));
    } else {
        lemma_escaped_front(s.drop_last());
        assert(s.drop_last().drop_first() =~= rest.drop_last());
        assert(rest.last() == s.last());
        assert(cli::escaped_text(s) =~= cli::escaped_char(s[0]) + cli::escaped_text(rest));
    }
}

/// A text in an answer is a sound JSON string, and reads back as the text.
pub proof fn law_json_text_reads_back(s: Seq<char>)
    ensures
        text_in(cli::escaped_text(s)) == Some(s),
    decreases s.len(),
{
    if s.len() > 0 {
        let rest = s.drop_first();
        let e = cli::escaped_text(s);
        lemma_escaped_front(s);
        law_json_text_reads_back(rest);
        lemma_first(s[0], cli::escaped_text(rest));
        assert(seq![s[0]] + rest =~= s);
        assert(text_in(e) == Some(seq![s[0]] + rest));
    } else {
        assert(cli::escaped_text(s) =~= Seq::<char>::empty());
    }
}

} // verus!
