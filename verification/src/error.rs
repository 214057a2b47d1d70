//! Errors of the library.

use vstd::prelude::*;
use vstd::string::StringExecFns;

verus! {

/// What is wrong with a database file, with the numbers that say where.
#[derive(Debug)]
pub enum Fault {
    Text(&'static str),
    /// A text with a number in it.
    One(&'static str, u64, &'static str),
    /// A text with two numbers in it.
    Two(&'static str, u64, &'static str, u64, &'static str),
    /// A text with three numbers in it.
    Three(&'static str, u64, &'static str, u64, &'static str, u64, &'static str),
    /// A field of a page that is too large for this platform.
    Field(u64, &'static str),
    /// Pages that nothing refers to.
    Unreachable(Vec<u64>),
    /// A text put together elsewhere.
    Message(String),
}

/// Errors returned by the library.
#[derive(Debug)]
pub enum Error {
    /// The database file is not a database or contains corrupt data.
    Corrupt(&'static str),
    /// The database file breaks an invariant of its format.
    InvalidDB(Fault),
    /// The requested bucket does not exist.
    BucketNotFound,
    /// The bucket is missing from the transaction's view.
    BucketMissing,
    /// The requested bucket already exists.
    BucketExists,
    /// A key or bucket name is too large for the on-disk format.
    TooLarge,
    /// The name is taken by the other kind of entry.
    IncompatibleValue,
    /// The key has no value.
    KeyValueMissing,
    /// A read-only transaction cannot change anything.
    ReadOnlyTx,
    /// A read-only handle cannot begin a writable transaction.
    ReadOnlyDB,
    /// Processes or threads could not be coordinated.
    Sync(&'static str),
    /// The writer slot was not free in time.
    WriterTimeout,
    /// The file would grow beyond its limit.
    CapacityExceeded { required: u64, maximum: u64 },
    /// Both sides changed the entry at the path.
    MergeConflict { path: Vec<Vec<u8>> },
}

/// A decimal digit.
pub open spec fn digit(d: nat) -> char {
    (48 + d) as char
}

/// A number in decimal digits.
pub open spec fn decimal(n: nat) -> Seq<char>
    decreases n,
{
    if n < 10 {
        seq![digit(n)]
    } else {
        decimal(n / 10).push(digit(n % 10))
    }
}

/// Numbers in decimal digits, with commas between them.
pub open spec fn decimal_list(s: Seq<u64>) -> Seq<char>
    decreases s.len(),
{
    if s.len() == 0 {
        Seq::empty()
    } else if s.len() == 1 {
        decimal(s[0] as nat)
    } else {
        decimal_list(s.drop_last()) + ", "@ + decimal(s.last() as nat)
    }
}

fn digit_text(d: u64) -> (r: &'static str)
    requires
        d < 10,
    ensures
        r@ == seq![digit(d as nat)],
{
    proof {
        reveal_strlit("0");
        reveal_strlit("1");
        reveal_strlit("2");
        reveal_strlit("3");
        reveal_strlit("4");
        reveal_strlit("5");
        reveal_strlit("6");
        reveal_strlit("7");
        reveal_strlit("8");
        reveal_strlit("9");
    }
    let r: &'static str = if d == 0 {
        "0"
    } else if d == 1 {
        "1"
    } else if d == 2 {
        "2"
    } else if d == 3 {
        "3"
    } else if d == 4 {
        "4"
    } else if d == 5 {
        "5"
    } else if d == 6 {
        "6"
    } else if d == 7 {
        "7"
    } else if d == 8 {
        "8"
    } else {
        "9"
    };
    assert(r@ =~= seq![digit(d as nat)]);
    r
}

/// Appends a number in decimal digits.
pub fn push_decimal(text: &mut String, n: u64)
    ensures
        final(text)@ == old(text)@ + decimal(n as nat),
    decreases n,
{
    let ghost was = text@;
    if n < 10 {
        text.append(digit_text(n));
    } else {
        push_decimal(text, n / 10);
        text.append(digit_text(n % 10));
        assert(text@ =~= was + decimal(n as nat));
    }
}

fn push_decimal_list(text: &mut String, list: &Vec<u64>)
    ensures
        final(text)@ == old(text)@ + decimal_list(list@),
{
    let ghost was = text@;
    let mut i: usize = 0;
    assert(was + decimal_list(list@.take(0)) =~= was);
    while i < list.len()
        invariant
            i <= list@.len(),
            text@ == was + decimal_list(list@.take(i as int)),
        decreases list@.len() - i,
    {
        let ghost before = decimal_list(list@.take(i as int));
        if i > 0 {
            text.append(", ");
        }
        push_decimal(text, list[i]);
        proof {
            let now = list@.take(i + 1);
            assert(now.drop_last() =~= list@.take(i as int));
            assert(now.last() == list@[i as int]);
            if i == 0 {
                assert(before =~= Seq::<char>::empty());
                assert(now[0] == list@[0]);
            }
            assert(text@ =~= was + decimal_list(now));
        }
        i = i + 1;
    }
    assert(list@.take(i as int) =~= list@);
}

/// A fault in words.
pub open spec fn fault_text(f: Fault) -> Seq<char> {
    match f {
        Fault::Text(text) => text@,
        Fault::One(a, x, b) => a@ + decimal(x as nat) + b@,
        Fault::Two(a, x, b, y, c) => a@ + decimal(x as nat) + b@ + decimal(y as nat) + c@,
        Fault::Three(a, x, b, y, c, z, d) => a@ + decimal(x as nat) + b@ + decimal(y as nat) + c@
            + decimal(z as nat) + d@,
        Fault::Field(page, field) => "page "@ + decimal(page as nat) + " "@ + field@
            + " does not fit this platform"@,
        Fault::Unreachable(pages) => "Unreachable pages {"@ + decimal_list(pages@) + "}"@,
        Fault::Message(text) => text@,
    }
}

impl Fault {
    /// The fault in words.
    pub fn message(&self) -> (r: String)
        ensures
            r@ == fault_text(*self),
    {
        match self {
            Fault::Text(text) => String::from_str(text),
            Fault::One(a, x, b) => {
                let mut r: String = String::from_str(a);
                push_decimal(&mut r, *x);
                r.append(b);
                r
            },
            Fault::Two(a, x, b, y, c) => {
                let mut r: String = String::from_str(a);
                push_decimal(&mut r, *x);
                r.append(b);
                push_decimal(&mut r, *y);
                r.append(c);
                r
            },
            Fault::Three(a, x, b, y, c, z, d) => {
                let mut r: String = String::from_str(a);
                push_decimal(&mut r, *x);
                r.append(b);
                push_decimal(&mut r, *y);
                r.append(c);
                push_decimal(&mut r, *z);
                r.append(d);
                r
            },
            Fault::Field(page, field) => {
                let mut r: String = String::from_str("page ");
                push_decimal(&mut r, *page);
                r.append(" ");
                r.append(field);
                r.append(" does not fit this platform");
                r
            },
            Fault::Unreachable(pages) => {
                let mut r: String = String::from_str("Unreachable pages {");
                push_decimal_list(&mut r, pages);
                r.append("}");
                r
            },
            Fault::Message(text) => String::from_str(text.as_str()),
        }
    }
}

/// An error in words.
pub open spec fn message_of(e: Error) -> Seq<char> {
    match e {
        Error::Corrupt(reason) => "corrupt database: "@ + reason@,
        Error::InvalidDB(fault) => "invalid database: "@ + fault_text(fault),
        Error::BucketNotFound => "bucket not found"@,
        Error::BucketMissing => "bucket does not exist"@,
        Error::BucketExists => "bucket already exists"@,
        Error::TooLarge => "key, value, or transaction is too large"@,
        Error::IncompatibleValue => "incompatible value"@,
        Error::KeyValueMissing => "key/value pair missing"@,
        Error::ReadOnlyTx => "transaction is read-only"@,
        Error::ReadOnlyDB => "database is read-only"@,
        Error::Sync(reason) => "synchronization error: "@ + reason@,
        Error::WriterTimeout => "timed out waiting for the writer"@,
        Error::CapacityExceeded { required, maximum } => "capacity exceeded: "@ + decimal(
            required as nat,
        ) + " bytes required, "@ + decimal(maximum as nat) + " allowed"@,
        Error::MergeConflict { path } => "merge conflict"@,
    }
}

impl Error {
    /// The error in words.
    pub fn message(&self) -> (r: String)
        ensures
            r@ == message_of(*self),
    {
        match self {
            Error::Corrupt(reason) => {
                let mut r: String = String::from_str("corrupt database: ");
                r.append(reason);
                r
            },
            Error::InvalidDB(fault) => {
                let mut r: String = String::from_str("invalid database: ");
                r.append(fault.message().as_str());
                r
            },
            Error::BucketNotFound => String::from_str("bucket not found"),
            Error::BucketMissing => String::from_str("bucket does not exist"),
            Error::BucketExists => String::from_str("bucket already exists"),
            Error::TooLarge => String::from_str("key, value, or transaction is too large"),
            Error::IncompatibleValue => String::from_str("incompatible value"),
            Error::KeyValueMissing => String::from_str("key/value pair missing"),
            Error::ReadOnlyTx => String::from_str("transaction is read-only"),
            Error::ReadOnlyDB => String::from_str("database is read-only"),
            Error::Sync(reason) => {
                let mut r: String = String::from_str("synchronization error: ");
                r.append(reason);
                r
            },
            Error::WriterTimeout => String::from_str("timed out waiting for the writer"),
            Error::CapacityExceeded { required, maximum } => {
                let mut r: String = String::from_str("capacity exceeded: ");
                push_decimal(&mut r, *required);
                r.append(" bytes required, ");
                push_decimal(&mut r, *maximum);
                r.append(" allowed");
                r
            },
            Error::MergeConflict { path } => String::from_str("merge conflict"),
        }
    }
}

} // verus!
