//! What the verification of a database reports.

use crate::error::{self, Error, Fault};
use vstd::prelude::*;
use vstd::string::{StrSliceExecFns, StringExecFns};

verus! {

/// One failed storage invariant with the strongest location information known.
#[derive(Clone, Debug, Eq, PartialEq)]
pub struct VerifyIssue {
    pub page_id: Option<u64>,
    pub offset: Option<u64>,
    pub page_kind: Option<&'static str>,
    pub invariant: String,
    pub bucket_path: Vec<Vec<u8>>,
}

/// Structured result of a complete database verification attempt.
#[derive(Clone, Debug, Eq, PartialEq)]
pub struct VerifyReport {
    pub valid: bool,
    pub issues: Vec<VerifyIssue>,
}

/// A small letter in place of a capital one.
pub open spec fn lower(c: char) -> char {
    if 'A' <= c && c <= 'Z' {
        ((c as u32) + 32) as char
    } else {
        c
    }
}

/// Whether a character is a digit.
pub open spec fn is_digit(c: char) -> bool {
    '0' <= c && c <= '9'
}

/// Whether a character is a letter or a digit.
pub open spec fn in_word(c: char) -> bool {
    is_digit(c) || ('A' <= c && c <= 'Z') || ('a' <= c && c <= 'z')
}

/// The words of a text: its longest runs of letters and digits.
pub open spec fn words(m: Seq<char>) -> Seq<Seq<char>>
    decreases m.len(),
{
    if m.len() == 0 {
        Seq::empty()
    } else {
        let front = words(m.drop_last());
        if !in_word(m.last()) {
            front
        } else if m.len() >= 2 && in_word(m[m.len() - 2]) {
            front.drop_last().push(front.last().push(m.last()))
        } else {
            front.push(seq![m.last()])
        }
    }
}

/// A text in small letters.
pub open spec fn lowered(m: Seq<char>) -> Seq<char> {
    m.map_values(|c: char| lower(c))
}

/// The number that decimal digits stand for.
pub open spec fn digits_value(w: Seq<char>) -> nat
    decreases w.len(),
{
    if w.len() == 0 {
        0
    } else {
        digits_value(w.drop_last()) * 10 + (w.last() as nat - '0' as nat) as nat
    }
}

/// The number that a word is.
pub open spec fn number(w: Seq<char>) -> Option<u64> {
    if w.len() > 0 && (forall|i: int| 0 <= i < w.len() ==> is_digit(#[trigger] w[i]))
        && digits_value(w) <= u64::MAX {
        Some(digits_value(w) as u64)
    } else {
        None
    }
}

/// The first number that follows the word "page", from word `i` on. A word
/// that follows "page" and is no number is not itself looked at again.
pub open spec fn page_number(w: Seq<Seq<char>>, i: int) -> Option<u64>
    decreases w.len() - i,
{
    if i < 0 || i >= w.len() {
        None
    } else if lowered(w[i]) == "page"@ && i + 1 < w.len() {
        match number(w[i + 1]) {
            Some(n) => Some(n),
            None => page_number(w, i + 2),
        }
    } else {
        page_number(w, i + 1)
    }
}

/// Whether a text has `part` in it, letters taken as small ones.
pub open spec fn mentions(m: Seq<char>, part: Seq<char>) -> bool {
    exists|i: int|
        0 <= i && i + part.len() <= m.len() && #[trigger] lowered(m).subrange(
            i,
            i + part.len() as int,
        ) == part
}

/// The kind of page that a text is about.
pub open spec fn kind_in(m: Seq<char>) -> Option<&'static str> {
    if mentions(m, "metadata"@) {
        Some("metadata")
    } else if mentions(m, "freelist"@) {
        Some("freelist")
    } else if mentions(m, "branch"@) {
        Some("branch")
    } else if mentions(m, "leaf"@) {
        Some("leaf")
    } else if mentions(m, "overflow"@) {
        Some("overflow")
    } else {
        None
    }
}

/// The kind of a page by the byte in its header.
pub open spec fn kind_at(data: Seq<u8>, pagesize: u64, id: u64) -> Option<&'static str> {
    let at = id * pagesize + 8;
    if at > u64::MAX || at >= data.len() {
        None
    } else if data[at] == 1 {
        Some("branch")
    } else if data[at] == 2 {
        Some("leaf")
    } else if data[at] == 3 {
        Some("metadata")
    } else if data[at] == 4 {
        Some("freelist")
    } else {
        None
    }
}

fn small(c: char) -> (r: char)
    ensures
        r == lower(c),
{
    if 'A' <= c && c <= 'Z' {
        let n: u8 = c as u8 + 32;
        n as char
    } else {
        c
    }
}

fn word_char(c: char) -> (r: bool)
    ensures
        r == in_word(c),
{
    ('0' <= c && c <= '9') || ('A' <= c && c <= 'Z') || ('a' <= c && c <= 'z')
}

/// The characters of a text.
fn characters(m: &str) -> (r: Vec<char>)
    ensures
        r@ == m@,
{
    let n: usize = m.unicode_len();
    let mut out: Vec<char> = Vec::new();
    let mut i: usize = 0;
    while i < n
        invariant
            n == m@.len(),
            i <= n,
            out@ == m@.take(i as int),
        decreases n - i,
    {
        out.push(m.get_char(i));
        assert(out@ =~= m@.take(i + 1));
        i = i + 1;
    }
    assert(m@.take(n as int) =~= m@);
    out
}

/// What a list of words says.
pub open spec fn texts(w: Seq<Vec<char>>) -> Seq<Seq<char>> {
    w.map_values(|v: Vec<char>| v@)
}

fn split_words(m: &Vec<char>) -> (r: Vec<Vec<char>>)
    ensures
        texts(r@) == words(m@),
{
    let mut out: Vec<Vec<char>> = Vec::new();
    let mut current: Vec<char> = Vec::new();
    let mut i: usize = 0;
    assert(m@.take(0) =~= Seq::<char>::empty());
    assert(texts(out@) =~= Seq::<Seq<char>>::empty());
    while i < m.len()
        invariant
            i <= m@.len(),
            current@.len() > 0 <==> i > 0 && in_word(m@[i - 1]),
            words(m@.take(i as int)) == if current@.len() > 0 {
                texts(out@).push(current@)
            } else {
                texts(out@)
            },
        decreases m@.len() - i,
    {
        let c: char = m[i];
        let ghost was = texts(out@);
        let ghost before = current@;
        proof {
            assert(m@.take(i + 1).drop_last() =~= m@.take(i as int));
            assert(m@.take(i + 1).last() == c);
            if i > 0 {
                assert(m@.take(i + 1)[i - 1] == m@[i - 1]);
            }
        }
        if word_char(c) {
            current.push(c);
            proof {
                if before.len() > 0 {
                    assert(was.push(before).drop_last() =~= was);
                } else {
                    assert(current@ =~= seq![c]);
                }
            }
        } else if current.len() > 0 {
            let mut word: Vec<char> = Vec::new();
            std::mem::swap(&mut word, &mut current);
            out.push(word);
            assert(texts(out@) =~= was.push(before));
        }
        i = i + 1;
    }
    assert(m@.take(i as int) =~= m@);
    if current.len() > 0 {
        let ghost was = texts(out@);
        let ghost before = current@;
        out.push(current);
        assert(texts(out@) =~= was.push(before));
    }
    out
}

fn says_page(w: &Vec<char>) -> (r: bool)
    ensures
        r == (lowered(w@) == "page"@),
{
    proof {
        reveal_strlit("page");
        assert("page"@ =~= seq!['p', 'a', 'g', 'e']);
    }
    let r: bool = w.len() == 4 && small(w[0]) == 'p' && small(w[1]) == 'a' && small(w[2]) == 'g'
        && small(w[3]) == 'e';
    proof {
        if r {
            assert(lowered(w@) =~= "page"@);
        } else if lowered(w@) == "page"@ {
            assert(lowered(w@).len() == 4);
            assert(lowered(w@)[0] == 'p');
            assert(lowered(w@)[1] == 'a');
            assert(lowered(w@)[2] == 'g');
            assert(lowered(w@)[3] == 'e');
        }
    }
    r
}

proof fn lemma_digits_grow(w: Seq<char>, i: int)
    requires
        0 <= i <= w.len(),
    ensures
        digits_value(w.take(i)) <= digits_value(w),
    decreases w.len(),
{
    if i < w.len() {
        lemma_digits_grow(w.drop_last(), i);
        assert(w.drop_last().take(i) =~= w.take(i));
    } else {
        assert(w.take(i) =~= w);
    }
}

fn read_number(w: &Vec<char>) -> (r: Option<u64>)
    ensures
        r == number(w@),
{
    if w.len() == 0 {
        return None;
    }
    let mut n: u64 = 0;
    let mut i: usize = 0;
    assert(w@.take(0) =~= Seq::<char>::empty());
    while i < w.len()
        invariant
            i <= w@.len(),
            w@.len() > 0,
            forall|j: int| 0 <= j < i ==> is_digit(#[trigger] w@[j]),
            n == digits_value(w@.take(i as int)),
        decreases w@.len() - i,
    {
        let c: char = w[i];
        if !('0' <= c && c <= '9') {
            assert(!is_digit(w@[i as int]));
            return None;
        }
        proof {
            assert(w@.take(i + 1).drop_last() =~= w@.take(i as int));
            lemma_digits_grow(w@, i + 1);
        }
        let d: u64 = (c as u64) - ('0' as u64);
        let shifted: u64 = match n.checked_mul(10) {
            Some(shifted) => shifted,
            None => return None,
        };
        n = match shifted.checked_add(d) {
            Some(n) => n,
            None => return None,
        };
        i = i + 1;
    }
    assert(w@.take(i as int) =~= w@);
    Some(n)
}

/// The page that a text names: the first number that follows the word "page".
pub fn extract_page_id(message: &str) -> (r: Option<u64>)
    ensures
        r == page_number(words(message@), 0),
{
    let chars: Vec<char> = characters(message);
    let w: Vec<Vec<char>> = split_words(&chars);
    let ghost all = texts(w@);
    let mut i: usize = 0;
    while i < w.len()
        invariant
            i <= w@.len(),
            all == texts(w@),
            page_number(all, i as int) == page_number(words(message@), 0),
        decreases w@.len() - i,
    {
        assert(all[i as int] == w@[i as int]@);
        if says_page(&w[i]) && i + 1 < w.len() {
            assert(all[i + 1] == w@[i + 1]@);
            match read_number(&w[i + 1]) {
                Some(n) => return Some(n),
                None => {},
            }
            i = i + 2;
        } else {
            i = i + 1;
        }
    }
    None
}

fn contains(m: &Vec<char>, part: &str) -> (r: bool)
    ensures
        r == mentions(m@, part@),
{
    let n: usize = part.unicode_len();
    let p: Vec<char> = characters(part);
    let total: usize = m.len();
    if n == 0 {
        assert(lowered(m@).subrange(0, 0 + part@.len() as int) =~= part@);
        return true;
    }
    let mut i: usize = 0;
    while i < total && total - i >= n
        invariant
            0 < n == part@.len(),
            p@ == part@,
            total == m@.len(),
            i <= total,
            forall|j: int|
                0 <= j < i ==> #[trigger] lowered(m@).subrange(j, j + n as int) != part@,
        decreases total - i,
    {
        let mut k: usize = 0;
        while k < n && small(m[i + k]) == p[k]
            invariant
                n == part@.len(),
                p@ == part@,
                total == m@.len(),
                i + n <= total,
                k <= n,
                forall|j: int| 0 <= j < k ==> lower(#[trigger] m@[i + j]) == part@[j],
            decreases n - k,
        {
            k = k + 1;
        }
        let ghost here = lowered(m@).subrange(i as int, i + n as int);
        if k == n {
            proof {
                assert forall|j: int| 0 <= j < n implies #[trigger] here[j] == part@[j] by {
                    assert(lower(m@[i + j]) == part@[j]);
                }
                assert(here =~= part@);
            }
            return true;
        }
        proof {
            assert(here[k as int] == lower(m@[i + k]));
            assert(here[k as int] != part@[k as int]);
        }
        i = i + 1;
    }
    false
}

/// The kind of page that a text is about.
pub fn infer_page_kind(message: &str) -> (r: Option<&'static str>)
    ensures
        r == kind_in(message@),
{
    let m: Vec<char> = characters(message);
    if contains(&m, "metadata") {
        Some("metadata")
    } else if contains(&m, "freelist") {
        Some("freelist")
    } else if contains(&m, "branch") {
        Some("branch")
    } else if contains(&m, "leaf") {
        Some("leaf")
    } else if contains(&m, "overflow") {
        Some("overflow")
    } else {
        None
    }
}

/// The kind of a page by the byte in its header.
pub fn page_kind(data: &[u8], pagesize: u64, id: u64) -> (r: Option<&'static str>)
    ensures
        r == kind_at(data@, pagesize, id),
{
    let at: u64 = match id.checked_mul(pagesize) {
        Some(start) => match start.checked_add(8) {
            Some(at) => at,
            None => return None,
        },
        None => return None,
    };
    if at >= data.len() as u64 {
        return None;
    }
    let kind: u8 = data[at as usize];
    if kind == 1 {
        Some("branch")
    } else if kind == 2 {
        Some("leaf")
    } else if kind == 3 {
        Some("metadata")
    } else if kind == 4 {
        Some("freelist")
    } else {
        None
    }
}

/// Whether an issue tells of the broken invariant: its page is the one named
/// in the text, and its kind that which the text or else the page tells.
pub open spec fn issue_tells(
    issue: VerifyIssue,
    text: Seq<char>,
    data: Seq<u8>,
    pagesize: u64,
) -> bool {
    let id = page_number(words(text), 0);
    &&& issue.page_id == id
    &&& issue.offset == match id {
        Some(id) => if id * pagesize <= u64::MAX {
            Some((id * pagesize) as u64)
        } else {
            None
        },
        None => None,
    }
    &&& issue.page_kind == match (kind_in(text), id) {
        (Some(kind), _) => Some(kind),
        (None, Some(id)) => kind_at(data, pagesize, id),
        (None, None) => None,
    }
    &&& issue.invariant@ == text
    &&& issue.bucket_path@.len() == 0
}

/// Reports a broken invariant.
pub fn report_issue(data: &[u8], pagesize: u64, text: &str) -> (r: VerifyReport)
    ensures
        !r.valid,
        r.issues@.len() == 1,
        issue_tells(r.issues@[0], text@, data@, pagesize),
{
    let page_id: Option<u64> = extract_page_id(text);
    let offset: Option<u64> = match page_id {
        Some(id) => id.checked_mul(pagesize),
        None => None,
    };
    let kind: Option<&'static str> = match infer_page_kind(text) {
        Some(kind) => Some(kind),
        None => match page_id {
            Some(id) => page_kind(data, pagesize, id),
            None => None,
        },
    };
    let mut issues: Vec<VerifyIssue> = Vec::new();
    issues.push(
        VerifyIssue {
            page_id,
            offset,
            page_kind: kind,
            invariant: String::from_str(text),
            bucket_path: Vec::new(),
        },
    );
    VerifyReport { valid: false, issues }
}

/// Turns the outcome of a check into a report: a broken invariant becomes an
/// issue, any other error stays one.
pub fn report(data: &[u8], pagesize: u64, checked: Result<(), Error>) -> (r: Result<
    VerifyReport,
    Error,
>)
    ensures
        match checked {
            Ok(_) => r is Ok && r->Ok_0.valid && r->Ok_0.issues@.len() == 0,
            Err(Error::InvalidDB(fault)) => r is Ok && !r->Ok_0.valid && r->Ok_0.issues@.len() == 1
                && issue_tells(r->Ok_0.issues@[0], error::fault_text(fault), data@, pagesize),
            Err(e) => r == Err::<VerifyReport, Error>(e),
        },
{
    match checked {
        Ok(_) => Ok(VerifyReport { valid: true, issues: Vec::new() }),
        Err(Error::InvalidDB(fault)) => Ok(
            report_issue(data, pagesize, fault.message().as_str()),
        ),
        Err(e) => Err(e),
    }
}

impl VerifyReport {
    /// The report as a result, which its first issue decides.
    pub fn into_result(self) -> (r: Result<(), Error>)
        ensures
            match r {
                Ok(_) => self.valid,
                Err(e) => !self.valid && (e matches Error::InvalidDB(fault) && error::fault_text(
                    fault,
                ) == (if self.issues@.len() > 0 {
                    self.issues@[0].invariant@
                } else {
                    "verification failed"@
                })),
            },
    {
        if self.valid {
            Ok(())
        } else if self.issues.len() > 0 {
            let text: String = String::from_str(self.issues[0].invariant.as_str());
            Err(Error::InvalidDB(Fault::Message(text)))
        } else {
            Err(Error::InvalidDB(Fault::Text("verification failed")))
        }
    }
}

} // verus!
