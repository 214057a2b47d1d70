//! What the command line tool is asked, and what it answers.

use crate::bytes::same;
use crate::error::{self, push_decimal};
use crate::storage::inspect::FormatInfo;
use crate::storage::salvage::{SalvageManifest, SkippedRecord};
use crate::storage::stats::Stats;
use crate::storage::verification::{VerifyIssue, VerifyReport};
use vstd::prelude::*;
use vstd::string::{StrSliceExecFns, StringExecFns};

verus! {

/// What the tool is asked to do.
#[derive(Debug, PartialEq, Eq)]
pub enum Command {
    Info { path: String },
    Stats { path: String },
    Verify { path: String },
    Backup { source: String, destination: String },
    /// `name` is the word that was used, `compact` or `migrate`.
    Compact {
        name: &'static str,
        source: String,
        destination: String,
        page_size: Option<String>,
    },
    Salvage { source: String, destination: String },
}

/// A command by what it says.
pub enum CommandView {
    Info(Seq<char>),
    Stats(Seq<char>),
    Verify(Seq<char>),
    Backup(Seq<char>, Seq<char>),
    Compact(Seq<char>, Seq<char>, Seq<char>, Option<Seq<char>>),
    Salvage(Seq<char>, Seq<char>),
}

impl View for Command {
    type V = CommandView;

    open spec fn view(&self) -> CommandView {
        match self {
            Command::Info { path } => CommandView::Info(path@),
            Command::Stats { path } => CommandView::Stats(path@),
            Command::Verify { path } => CommandView::Verify(path@),
            Command::Backup { source, destination } => CommandView::Backup(source@, destination@),
            Command::Compact { name, source, destination, page_size } => CommandView::Compact(
                name@,
                source@,
                destination@,
                match page_size {
                    Some(size) => Some(size@),
                    None => None,
                },
            ),
            Command::Salvage { source, destination } => CommandView::Salvage(
                source@,
                destination@,
            ),
        }
    }
}

/// What arguments say.
pub open spec fn words_of(arguments: Seq<String>) -> Seq<Seq<char>> {
    arguments.map_values(|a: String| a@)
}

/// Whether the first argument asks for answers in JSON.
pub open spec fn asks_json(words: Seq<Seq<char>>) -> bool {
    words.len() > 0 && words[0] == "--json"@
}

/// The command that words ask for, if they ask for one.
pub open spec fn command_in(words: Seq<Seq<char>>) -> Option<CommandView> {
    let n = words.len();
    let size = if n == 4 {
        Some(words[3])
    } else {
        None
    };
    if n == 0 {
        None
    } else if words[0] == "info"@ && n == 2 {
        Some(CommandView::Info(words[1]))
    } else if words[0] == "stats"@ && n == 2 {
        Some(CommandView::Stats(words[1]))
    } else if words[0] == "verify"@ && n == 2 {
        Some(CommandView::Verify(words[1]))
    } else if words[0] == "backup"@ && n == 3 {
        Some(CommandView::Backup(words[1], words[2]))
    } else if words[0] == "compact"@ && (n == 3 || n == 4) {
        Some(CommandView::Compact("compact"@, words[1], words[2], size))
    } else if words[0] == "migrate"@ && (n == 3 || n == 4) {
        Some(CommandView::Compact("migrate"@, words[1], words[2], size))
    } else if words[0] == "salvage"@ && n == 3 {
        Some(CommandView::Salvage(words[1], words[2]))
    } else {
        None
    }
}

/// Whether two texts are the same.
fn same_text(a: &str, b: &str) -> (r: bool)
    ensures
        r == (a@ == b@),
{
    proof {
        vstd::utf8::encode_utf8_decode_utf8(a@);
        vstd::utf8::encode_utf8_decode_utf8(b@);
    }
    same(&a.as_bytes_vec(), &b.as_bytes_vec())
}

fn word(arguments: &Vec<String>, i: usize) -> (r: String)
    requires
        i < arguments@.len(),
    ensures
        r@ == words_of(arguments@)[i as int],
{
    String::from_str(arguments[i].as_str())
}

/// Reads the arguments of the tool: whether answers are to be in JSON, and
/// what it is asked to do. What is not understood is answered with the usage.
pub fn parse(arguments: &Vec<String>) -> (r: (bool, Result<Command, &'static str>))
    ensures
        ({
            let all = words_of(arguments@);
            let json = asks_json(all);
            let words = if json {
                all.drop_first()
            } else {
                all
            };
            &&& r.0 == json
            &&& match r.1 {
                Ok(command) => command_in(words) == Some(command@),
                Err(text) => command_in(words) is None && text@ == usage_text(),
            }
        }),
{
    let ghost all = words_of(arguments@);
    let json: bool = arguments.len() > 0 && same_text(arguments[0].as_str(), "--json");
    let at: usize = if json {
        1
    } else {
        0
    };
    let ghost words = if json {
        all.drop_first()
    } else {
        all
    };
    let n: usize = arguments.len() - at;
    if n == 0 {
        return (json, Err(usage()));
    }
    assert(forall|i: int| 0 <= i < n ==> words[i] == #[trigger] all[i + at]);
    assert(words[0] == all[at as int]);
    let name: &str = arguments[at].as_str();
    let size: Option<String> = if n == 4 {
        assert(words[3] == all[at + 3]);
        Some(word(arguments, at + 3))
    } else {
        None
    };
    if n == 2 {
        assert(words[1] == all[at + 1]);
        let path: String = word(arguments, at + 1);
        if same_text(name, "info") {
            return (json, Ok(Command::Info { path }));
        } else if same_text(name, "stats") {
            return (json, Ok(Command::Stats { path }));
        } else if same_text(name, "verify") {
            return (json, Ok(Command::Verify { path }));
        }
    } else if n == 3 || n == 4 {
        assert(words[1] == all[at + 1]);
        assert(words[2] == all[at + 2]);
        let source: String = word(arguments, at + 1);
        let destination: String = word(arguments, at + 2);
        if n == 3 && same_text(name, "backup") {
            return (json, Ok(Command::Backup { source, destination }));
        } else if same_text(name, "compact") {
            return (
                json,
                Ok(Command::Compact { name: "compact", source, destination, page_size: size }),
            );
        } else if same_text(name, "migrate") {
            return (
                json,
                Ok(Command::Compact { name: "migrate", source, destination, page_size: size }),
            );
        } else if n == 3 && same_text(name, "salvage") {
            return (json, Ok(Command::Salvage { source, destination }));
        }
    }
    proof {
        reveal_strlit("info");
        reveal_strlit("stats");
        reveal_strlit("verify");
        reveal_strlit("backup");
        reveal_strlit("compact");
        reveal_strlit("migrate");
        reveal_strlit("salvage");
    }
    (json, Err(usage()))
}

/// How the tool is used.
pub open spec fn usage_text() -> Seq<char> {
    "usage: inspace [--json] <info|stats|verify> <database>\n       inspace [--json] <backup|salvage> <source> <destination>\n       inspace [--json] <compact|migrate> <source> <destination> [page-size]"@
}

/// How the tool is used.
pub fn usage() -> (r: &'static str)
    ensures
        r@ == usage_text(),
{
    "usage: inspace [--json] <info|stats|verify> <database>\n       inspace [--json] <backup|salvage> <source> <destination>\n       inspace [--json] <compact|migrate> <source> <destination> [page-size]"
}

/// A hexadecimal digit.
pub open spec fn hex_digit(d: int) -> Seq<char> {
    if d < 10 {
        seq![(48 + d) as char]
    } else {
        seq![(87 + d) as char]
    }
}

/// A number in four hexadecimal digits.
pub open spec fn four_hex(n: int) -> Seq<char> {
    hex_digit(n / 4096 % 16) + hex_digit(n / 256 % 16) + hex_digit(n / 16 % 16) + hex_digit(n % 16)
}

/// Whether a character is a control code.
pub open spec fn is_control(c: char) -> bool {
    c as u32 <= 0x1f || 0x7f <= c as u32 <= 0x9f
}

/// A character within a JSON string.
pub open spec fn escaped_char(c: char) -> Seq<char> {
    if c == '"' {
        "\\\""@
    } else if c == '\\' {
        "\\\\"@
    } else if c == '\n' {
        "\\n"@
    } else if c == '\r' {
        "\\r"@
    } else if c == '\t' {
        "\\t"@
    } else if is_control(c) {
        "\\u"@ + four_hex(c as int)
    } else {
        seq![c]
    }
}

/// A text within a JSON string.
pub open spec fn escaped_text(s: Seq<char>) -> Seq<char>
    decreases s.len(),
{
    if s.len() == 0 {
        Seq::empty()
    } else {
        escaped_text(s.drop_last()) + escaped_char(s.last())
    }
}

/// A JSON string.
pub open spec fn json_string(s: Seq<char>) -> Seq<char> {
    "\""@ + escaped_text(s) + "\""@
}

fn push_hex(out: &mut String, d: u32)
    requires
        d < 16,
    ensures
        final(out)@ == old(out)@ + hex_digit(d as int),
{
    proof {
        reveal_strlit("0123456789abcdef");
    }
    let digits: &'static str = "0123456789abcdef";
    let digit: &str = digits.substring_char(d as usize, d as usize + 1);
    assert(digit@ =~= hex_digit(d as int));
    out.append(digit);
}

/// A text as a JSON string.
pub fn string(value: &str) -> (r: String)
    ensures
        r@ == json_string(value@),
{
    let mut out: String = String::from_str("\"");
    let n: usize = value.unicode_len();
    let mut i: usize = 0;
    assert(value@.take(0) =~= Seq::<char>::empty());
    assert(out@ =~= "\""@ + escaped_text(value@.take(0)));
    while i < n
        invariant
            n == value@.len(),
            i <= n,
            out@ == "\""@ + escaped_text(value@.take(i as int)),
        decreases n - i,
    {
        let ghost was = out@;
        let c: char = value.get_char(i);
        proof {
            assert(value@.take(i + 1).drop_last() =~= value@.take(i as int));
            assert(value@.take(i + 1).last() == c);
        }
        if c == '"' {
            out.append("\\\"");
        } else if c == '\\' {
            out.append("\\\\");
        } else if c == '\n' {
            out.append("\\n");
        } else if c == '\r' {
            out.append("\\r");
        } else if c == '\t' {
            out.append("\\t");
        } else {
            let code: u32 = c as u32;
            if code <= 0x1f || (0x7f <= code && code <= 0x9f) {
                out.append("\\u");
                push_hex(&mut out, code / 4096 % 16);
                push_hex(&mut out, code / 256 % 16);
                push_hex(&mut out, code / 16 % 16);
                push_hex(&mut out, code % 16);
                assert(out@ =~= was + ("\\u"@ + four_hex(c as int)));
            } else {
                let part: &str = value.substring_char(i, i + 1);
                assert(part@ =~= seq![c]);
                out.append(part);
            }
        }
        assert(out@ == was + escaped_char(c));
        assert(out@ =~= "\""@ + escaped_text(value@.take(i + 1)));
        i = i + 1;
    }
    assert(value@.take(i as int) =~= value@);
    out.append("\"");
    out
}

/// An optional number in JSON.
pub open spec fn json_option(value: Option<u64>) -> Seq<char> {
    match value {
        Some(n) => error::decimal(n as nat),
        None => "null"@,
    }
}

/// An optional number in JSON.
pub fn option_u64(value: Option<u64>) -> (r: String)
    ensures
        r@ == json_option(value),
{
    match value {
        Some(n) => {
            let mut r: String = String::from_str("");
            proof {
                reveal_strlit("");
                assert(""@ + error::decimal(n as nat) =~= error::decimal(n as nat));
            }
            push_decimal(&mut r, n);
            r
        },
        None => String::from_str("null"),
    }
}

/// Texts with commas between them.
pub open spec fn with_commas(s: Seq<Seq<char>>) -> Seq<char>
    decreases s.len(),
{
    if s.len() == 0 {
        Seq::empty()
    } else if s.len() == 1 {
        s[0]
    } else {
        with_commas(s.drop_last()) + ","@ + s.last()
    }
}

proof fn lemma_with_commas(s: Seq<Seq<char>>, i: int)
    requires
        0 <= i < s.len(),
    ensures
        with_commas(s.take(i + 1)) == (if i == 0 {
            s[0]
        } else {
            with_commas(s.take(i)) + ","@ + s[i]
        }),
{
    assert(s.take(i + 1).drop_last() =~= s.take(i));
    assert(s.take(i + 1).last() == s[i]);
    if i == 0 {
        assert(s.take(1)[0] == s[0]);
    }
}

/// The numbers of bytes in decimal digits.
pub open spec fn byte_texts(s: Seq<u8>) -> Seq<Seq<char>> {
    s.map_values(|b: u8| error::decimal(b as nat))
}

/// Bytes as a JSON list of numbers.
pub open spec fn json_bytes(s: Seq<u8>) -> Seq<char> {
    "["@ + with_commas(byte_texts(s)) + "]"@
}

/// Bytes as a JSON list of numbers.
pub fn bytes(value: &[u8]) -> (r: String)
    ensures
        r@ == json_bytes(value@),
{
    let ghost texts = byte_texts(value@);
    let mut out: String = String::from_str("[");
    let mut i: usize = 0;
    assert(texts.take(0) =~= Seq::<Seq<char>>::empty());
    assert(out@ =~= "["@ + with_commas(texts.take(0)));
    while i < value.len()
        invariant
            i <= value@.len(),
            texts == byte_texts(value@),
            out@ == "["@ + with_commas(texts.take(i as int)),
        decreases value@.len() - i,
    {
        let ghost was = out@;
        proof {
            lemma_with_commas(texts, i as int);
            if i == 0 {
                assert(texts.take(0) =~= Seq::<Seq<char>>::empty());
            }
        }
        if i > 0 {
            out.append(",");
        }
        push_decimal(&mut out, value[i] as u64);
        assert(out@ =~= "["@ + with_commas(texts.take(i + 1)));
        i = i + 1;
    }
    assert(texts.take(i as int) =~= texts);
    out.append("]");
    out
}

/// Byte strings as JSON lists.
pub open spec fn path_texts(path: Seq<Vec<u8>>) -> Seq<Seq<char>> {
    path.map_values(|p: Vec<u8>| json_bytes(p@))
}

fn push_path(out: &mut String, path: &Vec<Vec<u8>>)
    ensures
        final(out)@ == old(out)@ + with_commas(path_texts(path@)),
{
    let ghost start = out@;
    let ghost texts = path_texts(path@);
    let mut i: usize = 0;
    assert(texts.take(0) =~= Seq::<Seq<char>>::empty());
    assert(out@ =~= start + with_commas(texts.take(0)));
    while i < path.len()
        invariant
            i <= path@.len(),
            texts == path_texts(path@),
            out@ == start + with_commas(texts.take(i as int)),
        decreases path@.len() - i,
    {
        proof {
            lemma_with_commas(texts, i as int);
            if i == 0 {
                assert(texts.take(0) =~= Seq::<Seq<char>>::empty());
            }
        }
        if i > 0 {
            out.append(",");
        }
        out.append(bytes(&path[i]).as_str());
        assert(out@ =~= start + with_commas(texts.take(i + 1)));
        i = i + 1;
    }
    assert(texts.take(i as int) =~= texts);
}

/// Numbers in decimal digits.
pub open spec fn number_texts(s: Seq<u64>) -> Seq<Seq<char>> {
    s.map_values(|n: u64| error::decimal(n as nat))
}

fn push_numbers(out: &mut String, list: &Vec<u64>)
    ensures
        final(out)@ == old(out)@ + with_commas(number_texts(list@)),
{
    let ghost start = out@;
    let ghost texts = number_texts(list@);
    let mut i: usize = 0;
    assert(texts.take(0) =~= Seq::<Seq<char>>::empty());
    assert(out@ =~= start + with_commas(texts.take(0)));
    while i < list.len()
        invariant
            i <= list@.len(),
            texts == number_texts(list@),
            out@ == start + with_commas(texts.take(i as int)),
        decreases list@.len() - i,
    {
        proof {
            lemma_with_commas(texts, i as int);
            if i == 0 {
                assert(texts.take(0) =~= Seq::<Seq<char>>::empty());
            }
        }
        if i > 0 {
            out.append(",");
        }
        push_decimal(out, list[i]);
        assert(out@ =~= start + with_commas(texts.take(i + 1)));
        i = i + 1;
    }
    assert(texts.take(i as int) =~= texts);
}

/// What a file's format is, in JSON.
pub fn info_json(info: &FormatInfo) -> (r: String)
    ensures
        r@ == "{\"file_bytes\":"@ + error::decimal(info.file_bytes as nat) + ",\"metadata_page\":"@
            + error::decimal(info.metadata_page as nat) + ",\"page_size\":"@ + error::decimal(
            info.page_size as nat,
        ) + ",\"transaction_id\":"@ + error::decimal(info.transaction_id as nat) + ",\"version\":"@
            + error::decimal(info.version as nat) + "}"@,
{
    let mut r: String = String::from_str("{\"file_bytes\":");
    push_decimal(&mut r, info.file_bytes);
    r.append(",\"metadata_page\":");
    push_decimal(&mut r, info.metadata_page as u64);
    r.append(",\"page_size\":");
    push_decimal(&mut r, info.page_size);
    r.append(",\"transaction_id\":");
    push_decimal(&mut r, info.transaction_id);
    r.append(",\"version\":");
    push_decimal(&mut r, info.version as u64);
    r.append("}");
    r
}

/// That a command succeeded, in JSON.
pub fn success_json(command: &str, destination: &str) -> (r: String)
    ensures
        r@ == "{\"command\":"@ + json_string(command@) + ",\"destination\":"@ + json_string(
            destination@,
        ) + ",\"ok\":true}"@,
{
    let mut r: String = String::from_str("{\"command\":");
    r.append(string(command).as_str());
    r.append(",\"destination\":");
    r.append(string(destination).as_str());
    r.append(",\"ok\":true}");
    r
}

/// That a command failed, in JSON.
pub fn failure_json(message: &str) -> (r: String)
    ensures
        r@ == "{\"ok\":false,\"error\":"@ + json_string(message@) + "}"@,
{
    let mut r: String = String::from_str("{\"ok\":false,\"error\":");
    r.append(string(message).as_str());
    r.append("}");
    r
}

/// Statistics in JSON.
pub fn stats_json(stats: &Stats) -> (r: String)
    ensures
        r@ == "{\"active_readers\":"@ + error::decimal(stats.active_readers as nat)
            + ",\"allocated_pages\":"@ + error::decimal(stats.allocated_pages as nat)
            + ",\"bytes_written\":"@ + error::decimal(stats.bytes_written as nat)
            + ",\"committed_transactions\":"@ + error::decimal(stats.committed_transactions as nat)
            + ",\"current_tx_id\":"@ + error::decimal(stats.current_tx_id as nat) + ",\"file_bytes\":"@
            + error::decimal(stats.file_bytes as nat) + ",\"free_pages\":"@ + error::decimal(
            stats.free_pages as nat,
        ) + ",\"oldest_reader_tx_id\":"@ + json_option(stats.oldest_reader_tx_id)
            + ",\"page_size\":"@ + error::decimal(stats.page_size as nat) + ",\"pending_pages\":"@
            + error::decimal(stats.pending_pages as nat) + ",\"reader_pinned_pages\":"@ + error::decimal(
            stats.reader_pinned_pages as nat,
        ) + "}"@,
{
    let mut r: String = String::from_str("{\"active_readers\":");
    push_decimal(&mut r, stats.active_readers);
    r.append(",\"allocated_pages\":");
    push_decimal(&mut r, stats.allocated_pages);
    r.append(",\"bytes_written\":");
    push_decimal(&mut r, stats.bytes_written);
    r.append(",\"committed_transactions\":");
    push_decimal(&mut r, stats.committed_transactions);
    r.append(",\"current_tx_id\":");
    push_decimal(&mut r, stats.current_tx_id);
    r.append(",\"file_bytes\":");
    push_decimal(&mut r, stats.file_bytes);
    r.append(",\"free_pages\":");
    push_decimal(&mut r, stats.free_pages);
    r.append(",\"oldest_reader_tx_id\":");
    r.append(option_u64(stats.oldest_reader_tx_id).as_str());
    r.append(",\"page_size\":");
    push_decimal(&mut r, stats.page_size);
    r.append(",\"pending_pages\":");
    push_decimal(&mut r, stats.pending_pages);
    r.append(",\"reader_pinned_pages\":");
    push_decimal(&mut r, stats.reader_pinned_pages);
    r.append("}");
    r
}

/// One issue in JSON.
pub open spec fn issue_text(issue: VerifyIssue) -> Seq<char> {
    "{\"bucket_path\":[],\"invariant\":"@ + json_string(issue.invariant@) + ",\"offset\":"@
        + json_option(issue.offset) + ",\"page_id\":"@ + json_option(issue.page_id)
        + ",\"page_kind\":"@ + (match issue.page_kind {
        Some(kind) => json_string(kind@),
        None => "null"@,
    }) + "}"@
}

/// Issues in JSON.
pub open spec fn issue_texts(issues: Seq<VerifyIssue>) -> Seq<Seq<char>> {
    issues.map_values(|i: VerifyIssue| issue_text(i))
}

fn issue_json(issue: &VerifyIssue) -> (r: String)
    ensures
        r@ == issue_text(*issue),
{
    let mut r: String = String::from_str("{\"bucket_path\":[],\"invariant\":");
    r.append(string(issue.invariant.as_str()).as_str());
    r.append(",\"offset\":");
    r.append(option_u64(issue.offset).as_str());
    r.append(",\"page_id\":");
    r.append(option_u64(issue.page_id).as_str());
    r.append(",\"page_kind\":");
    match issue.page_kind {
        Some(kind) => r.append(string(kind).as_str()),
        None => r.append("null"),
    }
    r.append("}");
    r
}

/// A report in JSON.
pub fn verify_json(report: &VerifyReport) -> (r: String)
    ensures
        r@ == "{\"issues\":["@ + with_commas(issue_texts(report.issues@)) + "],\"valid\":"@ + (
        if report.valid {
            "true"@
        } else {
            "false"@
        }) + "}"@,
{
    let ghost texts = issue_texts(report.issues@);
    let mut r: String = String::from_str("{\"issues\":[");
    let ghost start = r@;
    let mut i: usize = 0;
    assert(texts.take(0) =~= Seq::<Seq<char>>::empty());
    assert(r@ =~= start + with_commas(texts.take(0)));
    while i < report.issues.len()
        invariant
            i <= report.issues@.len(),
            texts == issue_texts(report.issues@),
            r@ == start + with_commas(texts.take(i as int)),
        decreases report.issues@.len() - i,
    {
        proof {
            lemma_with_commas(texts, i as int);
            if i == 0 {
                assert(texts.take(0) =~= Seq::<Seq<char>>::empty());
            }
        }
        if i > 0 {
            r.append(",");
        }
        r.append(issue_json(&report.issues[i]).as_str());
        assert(r@ =~= start + with_commas(texts.take(i + 1)));
        i = i + 1;
    }
    assert(texts.take(i as int) =~= texts);
    r.append("],\"valid\":");
    if report.valid {
        r.append("true");
    } else {
        r.append("false");
    }
    r.append("}");
    r
}

/// A skipped record in JSON.
pub open spec fn skipped_text(record: SkippedRecord) -> Seq<char> {
    "{\"bucket_path\":["@ + with_commas(path_texts(record.bucket_path@)) + "],\"key\":"@ + (
    match record.key {
        Some(key) => json_bytes(key@),
        None => "null"@,
    }) + ",\"reason\":"@ + json_string(record.reason@) + "}"@
}

/// Skipped records in JSON.
pub open spec fn skipped_texts(records: Seq<SkippedRecord>) -> Seq<Seq<char>> {
    records.map_values(|r: SkippedRecord| skipped_text(r))
}

fn skipped_json(record: &SkippedRecord) -> (r: String)
    ensures
        r@ == skipped_text(*record),
{
    let mut r: String = String::from_str("{\"bucket_path\":[");
    push_path(&mut r, &record.bucket_path);
    r.append("],\"key\":");
    match &record.key {
        Some(key) => r.append(bytes(key).as_str()),
        None => r.append("null"),
    }
    r.append(",\"reason\":");
    r.append(string(record.reason.as_str()).as_str());
    r.append("}");
    r
}

/// A manifest in JSON.
pub fn salvage_json(manifest: &SalvageManifest) -> (r: String)
    ensures
        r@ == "{\"copied_buckets\":"@ + error::decimal(manifest.copied_buckets as nat)
            + ",\"copied_records\":"@ + error::decimal(manifest.copied_records as nat)
            + ",\"skipped_pages\":["@ + with_commas(number_texts(manifest.skipped_pages@))
            + "],\"skipped_records\":["@ + with_commas(skipped_texts(manifest.skipped_records@))
            + "]}"@,
{
    let ghost texts = skipped_texts(manifest.skipped_records@);
    let mut r: String = String::from_str("{\"copied_buckets\":");
    push_decimal(&mut r, manifest.copied_buckets);
    r.append(",\"copied_records\":");
    push_decimal(&mut r, manifest.copied_records);
    r.append(",\"skipped_pages\":[");
    push_numbers(&mut r, &manifest.skipped_pages);
    r.append("],\"skipped_records\":[");
    let ghost start = r@;
    let mut i: usize = 0;
    assert(texts.take(0) =~= Seq::<Seq<char>>::empty());
    assert(r@ =~= start + with_commas(texts.take(0)));
    while i < manifest.skipped_records.len()
        invariant
            i <= manifest.skipped_records@.len(),
            texts == skipped_texts(manifest.skipped_records@),
            r@ == start + with_commas(texts.take(i as int)),
        decreases manifest.skipped_records@.len() - i,
    {
        proof {
            lemma_with_commas(texts, i as int);
            if i == 0 {
                assert(texts.take(0) =~= Seq::<Seq<char>>::empty());
            }
        }
        if i > 0 {
            r.append(",");
        }
        r.append(skipped_json(&manifest.skipped_records[i]).as_str());
        assert(r@ =~= start + with_commas(texts.take(i + 1)));
        i = i + 1;
    }
    assert(texts.take(i as int) =~= texts);
    r.append("]}");
    r
}

} // verus!
