//! What holds of reports of what is broken.

use crate::error;
use crate::storage::page::{TYPE_BRANCH, TYPE_FREELIST, TYPE_LEAF, TYPE_META};
use crate::storage::verification::{self, in_word, lowered, number, page_number, words, VerifyIssue};
use vstd::prelude::*;

verus! {

/// A run of letters and digits is one word.
pub proof fn law_word_stands_alone(m: Seq<char>)
    requires
        m.len() > 0,
        forall|i: int| 0 <= i < m.len() ==> in_word(#[trigger] m[i]),
    ensures
        words(m) == seq![m],
    decreases m.len(),
{
    let front = m.drop_last();
    assert forall|i: int| 0 <= i < front.len() implies in_word(#[trigger] front[i]) by {
        assert(front[i] == m[i]);
    }
    assert(in_word(m[m.len() - 1]));
    if m.len() >= 2 {
        law_word_stands_alone(front);
        assert(in_word(m[m.len() - 2]));
        assert(front.push(m.last()) =~= m);
        assert(words(m) =~= seq![m]);
    } else {
        assert(front =~= Seq::<char>::empty());
        assert(words(front) =~= Seq::<Seq<char>>::empty());
        assert(seq![m.last()] =~= m);
        assert(words(m) =~= seq![m]);
    }
}

/// Where a text that ends in a letter or a digit has a last word.
proof fn lemma_has_last_word(m: Seq<char>)
    requires
        m.len() > 0,
        in_word(m.last()),
    ensures
        words(m).len() > 0,
    decreases m.len(),
{
    if m.len() >= 2 && in_word(m[m.len() - 2]) {
        lemma_has_last_word(m.drop_last());
    }
}

/// What is no letter or digit parts words: those on either side of it are the
/// words of the whole.
pub proof fn law_words_are_parted(a: Seq<char>, gap: char, b: Seq<char>)
    requires
        !in_word(gap),
    ensures
        words(a.push(gap) + b) == words(a) + words(b),
    decreases b.len(),
{
    let m = a.push(gap) + b;
    if b.len() == 0 {
        assert(m =~= a.push(gap));
        assert(m.drop_last() =~= a);
        assert(words(a) + words(b) =~= words(a));
    } else {
        let front = b.drop_last();
        law_words_are_parted(a, gap, front);
        assert(m.drop_last() =~= a.push(gap) + front);
        assert(m.last() == b.last());
        let c = b.last();
        if in_word(c) {
            if b.len() >= 2 {
                assert(m[m.len() - 2] == b[b.len() - 2]);
            } else {
                assert(m[m.len() - 2] == gap);
                assert(words(front) =~= Seq::<Seq<char>>::empty());
            }
            if b.len() >= 2 && in_word(b[b.len() - 2]) {
                assert(front.last() == b[b.len() - 2]);
                lemma_has_last_word(front);
                let x = words(a);
                let y = words(front);
                assert((x + y).last() == y.last());
                assert((x + y).drop_last().push(y.last().push(c)) =~= x + y.drop_last().push(
                    y.last().push(c),
                ));
            } else {
                assert((words(a) + words(front)).push(seq![c]) =~= words(a) + words(front).push(
                    seq![c],
                ));
            }
        }
        assert(words(m) =~= words(a) + words(b));
    }
}

/// A number written in decimal is read as that number.
pub proof fn law_numbers_read_back(n: u64)
    ensures
        number(error::decimal(n as nat)) == Some(n),
        forall|i: int|
            0 <= i < error::decimal(n as nat).len() ==> in_word(
                #[trigger] error::decimal(n as nat)[i],
            ),
{
    lemma_digits(n as nat);
}

proof fn lemma_digits(n: nat)
    ensures
        error::decimal(n).len() > 0,
        forall|i: int|
            0 <= i < error::decimal(n).len() ==> verification::is_digit(
                #[trigger] error::decimal(n)[i],
            ),
        verification::digits_value(error::decimal(n)) == n,
    decreases n,
{
    let d = error::decimal(n);
    if n < 10 {
        assert(d.drop_last() =~= Seq::<char>::empty());
        assert(verification::digits_value(d.drop_last()) == 0);
    } else {
        lemma_digits(n / 10);
        assert(d.drop_last() =~= error::decimal(n / 10));
        assert forall|i: int| 0 <= i < d.len() implies verification::is_digit(#[trigger] d[i]) by {
            if i < d.len() - 1 {
                assert(d[i] == error::decimal(n / 10)[i]);
            }
        }
    }
}

/// The page that is told is a number that stands behind the word "page", and
/// the first of them is told where no other word is that one.
pub proof fn law_page_is_told(w: Seq<Seq<char>>, i: int)
    requires
        0 <= i,
    ensures
        page_number(w, i) matches Some(n) ==> exists|j: int|
            i <= j && j + 1 < w.len() && lowered(#[trigger] w[j]) == "page"@ && number(w[j + 1])
                == Some(n),
        forall|j: int|
            i <= j && j + 1 < w.len() && lowered(#[trigger] w[j]) == "page"@ && number(w[j + 1]) is Some
                && (forall|k: int| i <= k < j ==> lowered(#[trigger] w[k]) != "page"@)
                ==> page_number(w, i) == number(w[j + 1]),
    decreases w.len() - i,
{
    if i < w.len() {
        if lowered(w[i]) == "page"@ && i + 1 < w.len() {
            law_page_is_told(w, i + 2);
        } else {
            law_page_is_told(w, i + 1);
        }
    }
}

/// The text of a fault that names a page: what comes before, the word "page",
/// the number, and what comes after.
pub open spec fn names_page(
    text: Seq<char>,
    before: Seq<char>,
    gap: char,
    n: u64,
    after: Seq<char>,
) -> bool {
    &&& !in_word(gap)
    &&& text == before.push(gap) + ("page"@.push(' ') + (error::decimal(n as nat).push(gap)
        + after))
    &&& forall|i: int|
        0 <= i < words(before).len() ==> lowered(#[trigger] words(before)[i]) != "page"@
}

/// A report tells the page that its text names, and where in the file that page
/// begins; what kind of page it is, by the text or else by the page's header.
pub proof fn law_report_tells_the_page(
    issue: VerifyIssue,
    text: Seq<char>,
    data: Seq<u8>,
    pagesize: u64,
    before: Seq<char>,
    gap: char,
    n: u64,
    after: Seq<char>,
)
    requires
        verification::issue_tells(issue, text, data, pagesize),
        names_page(text, before, gap, n, after),
    ensures
        issue.page_id == Some(n),
        issue.offset matches Some(offset) ==> offset == n * pagesize,
        issue.offset is None ==> n * pagesize > u64::MAX,
        issue.invariant@ == text,
        verification::kind_in(text) is None && n * pagesize + 8 < data.len() && n * pagesize + 8
            <= u64::MAX ==> {
            let kind = data[n * pagesize + 8];
            &&& kind == TYPE_BRANCH ==> issue.page_kind == Some("branch")
            &&& kind == TYPE_LEAF ==> issue.page_kind == Some("leaf")
            &&& kind == TYPE_META ==> issue.page_kind == Some("metadata")
            &&& kind == TYPE_FREELIST ==> issue.page_kind == Some("freelist")
        },
{
    let digits = error::decimal(n as nat);
    let page = "page"@;
    reveal_strlit("page");
    law_numbers_read_back(n);
    lemma_digits(n as nat);
    law_word_stands_alone(digits);
    assert forall|i: int| 0 <= i < page.len() implies in_word(#[trigger] page[i]) by {}
    law_word_stands_alone(page);
    law_words_are_parted(digits, gap, after);
    law_words_are_parted(page, ' ', digits.push(gap) + after);
    law_words_are_parted(before, gap, page.push(' ') + (digits.push(gap) + after));
    let w = words(text);
    let x = words(before);
    assert(w == x + (seq![page] + (seq![digits] + words(after))));
    let j = x.len() as int;
    assert(w[j] == page && w[j + 1] == digits);
    assert(lowered(page) =~= page) by {
        assert forall|i: int| 0 <= i < page.len() implies verification::lower(page[i])
            == page[i] by {}
    }
    assert forall|k: int| 0 <= k < j implies lowered(#[trigger] w[k]) != "page"@ by {
        assert(w[k] == x[k]);
    }
    law_page_is_told(w, 0);
}

} // verus!
