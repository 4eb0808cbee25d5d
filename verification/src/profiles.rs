//! Saved connection profiles as the GUI stores them: one row per profile,
//! with the flags kept as integers in the table.
use vstd::prelude::*;

verus! {

/// A stored connection profile.
#[derive(Debug, Clone, PartialEq)]
pub struct Profile {
    pub id: i64,
    pub name: String,
    pub host: String,
    pub port: u16,
    pub username: String,
    pub password: String,
    pub protocol: String,
    pub insecure: bool,
    pub cert_sha256: Option<String>,
    /// FortiGate authentication realm; `None` or empty means the default realm.
    pub realm: Option<String>,
}

/// A profile as the user enters it, before it has an id.
#[derive(Debug, Clone)]
pub struct NewProfile {
    pub name: String,
    pub host: String,
    pub port: u16,
    pub username: String,
    pub password: String,
    pub protocol: String,
    pub insecure: bool,
    pub cert_sha256: Option<String>,
    pub realm: Option<String>,
}

/// The `insecure` flag as the table stores it.
pub fn insecure_to_column(insecure: bool) -> (r: i64)
    ensures
        r == (if insecure {
            1i64
        } else {
            0i64
        }),
{
    if insecure {
        1
    } else {
        0
    }
}

/// The `insecure` flag read back from the table: any value but zero is set.
pub fn insecure_from_column(v: i64) -> (r: bool)
    ensures
        r == (v != 0),
{
    v != 0
}

/// The flag survives the trip through the table.
pub proof fn lemma_insecure_round_trip(b: bool)
    ensures
        (if b {
            1i64
        } else {
            0i64
        }) != 0 == b,
{
}

/// Whether the column names of a table (as `PRAGMA table_info` lists them)
/// include `column`.
pub fn has_column(names: &[String], column: &str) -> (r: bool)
    ensures
        r == exists|i: int| 0 <= i < names@.len() && (#[trigger] names@[i])@ == column@,
{
    let mut i: usize = 0;
    while i < names.len()
        invariant
            i <= names@.len(),
            forall|j: int| 0 <= j < i ==> (#[trigger] names@[j])@ != column@,
        decreases names.len() - i,
    {
        if crate::text::str_eq(names[i].as_str(), column) {
            return true;
        }
        i = i + 1;
    }
    false
}

} // verus!
