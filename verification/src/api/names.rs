//! Names that the library keeps for itself.

use crate::bytes::same;
use vstd::prelude::*;

verus! {

/// The bucket that holds when keys expire. Its name is `\0inspace.ttl.lookup`.
pub open spec fn ttl_name() -> Seq<u8> {
    seq![
        0u8, 105, 110, 115, 112, 97, 99, 101, 46, 116, 116, 108, 46, 108, 111, 111, 107,
        117, 112,
    ]
}

/// The name `\0inspace.ttl.lookup`.
pub fn ttl_bucket() -> (r: Vec<u8>)
    ensures
        r@ == ttl_name(),
{
    let r: Vec<u8> = vec![
        0u8, 105, 110, 115, 112, 97, 99, 101, 46, 116, 116, 108, 46, 108, 111, 111, 107,
        117, 112,
    ];
    assert(r@ =~= ttl_name());
    r
}

/// The bucket that lists keys by when they expire. Its name is `\0inspace.ttl.deadlines`.
pub open spec fn deadlines_name() -> Seq<u8> {
    seq![
        0u8, 105, 110, 115, 112, 97, 99, 101, 46, 116, 116, 108, 46, 100, 101, 97, 100,
        108, 105, 110, 101, 115,
    ]
}

/// The name `\0inspace.ttl.deadlines`.
pub fn deadlines_bucket() -> (r: Vec<u8>)
    ensures
        r@ == deadlines_name(),
{
    let r: Vec<u8> = vec![
        0u8, 105, 110, 115, 112, 97, 99, 101, 46, 116, 116, 108, 46, 100, 101, 97, 100,
        108, 105, 110, 101, 115,
    ];
    assert(r@ =~= deadlines_name());
    r
}

/// The bucket that holds the journal. Its name is `\0inspace.journal`.
pub open spec fn journal_name() -> Seq<u8> {
    seq![
        0u8, 105, 110, 115, 112, 97, 99, 101, 46, 106, 111, 117, 114, 110, 97, 108,
    ]
}

/// The name `\0inspace.journal`.
pub fn journal_bucket() -> (r: Vec<u8>)
    ensures
        r@ == journal_name(),
{
    let r: Vec<u8> = vec![
        0u8, 105, 110, 115, 112, 97, 99, 101, 46, 106, 111, 117, 114, 110, 97, 108,
    ];
    assert(r@ =~= journal_name());
    r
}

/// The bucket that holds the schemas of collections. Its name is `\0inspace.schema.v1`.
pub open spec fn schema_name() -> Seq<u8> {
    seq![
        0u8, 105, 110, 115, 112, 97, 99, 101, 46, 115, 99, 104, 101, 109, 97, 46, 118, 49,
    ]
}

/// The name `\0inspace.schema.v1`.
pub fn schema_bucket() -> (r: Vec<u8>)
    ensures
        r@ == schema_name(),
{
    let r: Vec<u8> = vec![
        0u8, 105, 110, 115, 112, 97, 99, 101, 46, 115, 99, 104, 101, 109, 97, 46, 118, 49,
    ];
    assert(r@ =~= schema_name());
    r
}

/// The key of the journal's configuration. Its name is `config`.
pub open spec fn config_name() -> Seq<u8> {
    seq![
        99u8, 111, 110, 102, 105, 103,
    ]
}

/// The name `config`.
pub fn config_key() -> (r: Vec<u8>)
    ensures
        r@ == config_name(),
{
    let r: Vec<u8> = vec![
        99u8, 111, 110, 102, 105, 103,
    ];
    assert(r@ =~= config_name());
    r
}

/// No two of the names are the same.
pub proof fn law_names_differ()
    ensures
        ttl_name() != deadlines_name(),
        ttl_name() != journal_name(),
        ttl_name() != schema_name(),
        deadlines_name() != journal_name(),
        deadlines_name() != schema_name(),
        journal_name() != schema_name(),
{
    assert(ttl_name().len() == 19);
    assert(deadlines_name().len() == 22);
    assert(journal_name().len() == 16);
    assert(schema_name().len() == 18);
}

/// Whether a name is one of those by which keys expire.
pub open spec fn about_ttl(name: Seq<u8>) -> bool {
    name == ttl_name() || name == deadlines_name()
}

/// Whether a name is one of those by which keys expire.
pub fn is_ttl_bucket(name: &[u8]) -> (r: bool)
    ensures
        r == about_ttl(name@),
{
    same(name, &ttl_bucket()) || same(name, &deadlines_bucket())
}

/// Whether changes under a name are kept out of change sets.
pub open spec fn unreported(name: Seq<u8>) -> bool {
    about_ttl(name) || name == journal_name()
}

/// Whether changes under a name are kept out of change sets.
pub fn is_unreported(name: &[u8]) -> (r: bool)
    ensures
        r == unreported(name@),
{
    is_ttl_bucket(name) || same(name, &journal_bucket())
}

/// The names that are kept for the store itself begin with a zero byte, so that
/// every other name is an ordinary one; changes to schemas are reported.
pub proof fn law_only_hidden_names_are_reserved(name: Seq<u8>)
    ensures
        name.len() == 0 || name[0] != 0 ==> !about_ttl(name) && !unreported(name) && name
            != journal_name() && name != schema_name(),
        about_ttl(ttl_name()) && about_ttl(deadlines_name()),
        !about_ttl(journal_name()) && !about_ttl(schema_name()),
        unreported(ttl_name()) && unreported(deadlines_name()) && unreported(journal_name()),
        !unreported(schema_name()),
        unreported(name) ==> name == ttl_name() || name == deadlines_name() || name
            == journal_name(),
{
    law_names_differ();
    assert(ttl_name()[0] == 0);
    assert(deadlines_name()[0] == 0);
    assert(journal_name()[0] == 0);
    assert(schema_name()[0] == 0);
}

} // verus!
