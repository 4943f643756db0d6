//! A column of a table: its name, its type and its constraints.

use vstd::prelude::*;
use vstd::string::StringSliceAdditionalSpecFns;
use crate::text::{parse_i64, parse_signed};

verus! {

/// What a column holds, and how a value lies in a record's payload.
#[derive(Debug, Clone, Copy, PartialEq, Eq, Structural)]
pub enum ColumnType {
    /// A whole number: eight bytes, highest first.
    Integer,
    /// A floating-point number: the eight bytes of its bit pattern, highest
    /// first.
    Float,
    /// Text of at most this many bytes: four bytes of length, highest first,
    /// then the text.
    Varchar(usize),
    /// One byte, 0 or 1.
    Boolean,
    /// A point in time as a whole number: eight bytes, highest first.
    Timestamp,
}

/// A rule on the values of a column.
#[derive(Debug)]
pub enum ColumnConstraint {
    NotNull,
    Unique,
    PrimaryKey,
    /// The table and the column that the values refer to.
    ForeignKey(String, String),
    /// A condition that the values meet.
    Check(String),
    /// The value of a row that gives none.
    Default(String),
}

impl Clone for ColumnConstraint {
    fn clone(&self) -> (r: Self)
        ensures
            r == *self,
    {
        match self {
            ColumnConstraint::NotNull => ColumnConstraint::NotNull,
            ColumnConstraint::Unique => ColumnConstraint::Unique,
            ColumnConstraint::PrimaryKey => ColumnConstraint::PrimaryKey,
            ColumnConstraint::ForeignKey(table, column) => ColumnConstraint::ForeignKey(
                table.clone(),
                column.clone(),
            ),
            ColumnConstraint::Check(condition) => ColumnConstraint::Check(condition.clone()),
            ColumnConstraint::Default(value) => ColumnConstraint::Default(value.clone()),
        }
    }
}

/// A point in time: seconds since the epoch, and nanoseconds into the second.
#[derive(Debug, Clone, Copy, PartialEq, Eq, Structural)]
pub struct Instant {
    pub seconds: i64,
    pub nanos: u32,
}

/// Reads the clock with `chrono::Utc::now` and hands on the seconds and the
/// nanoseconds of what it returns. Nothing is claimed of the time. `now`
/// stops the program where the clock stands before the epoch.
#[verifier::external_body]
fn utc_now() -> (r: Instant) {
    let now = chrono::Utc::now();
    Instant { seconds: now.timestamp(), nanos: now.timestamp_subsec_nanos() }
}

/// A column of a table.
#[derive(Debug)]
pub struct Column {
    pub name: String,
    pub data_type: ColumnType,
    pub constraints: Vec<ColumnConstraint>,
    pub default_value: Option<String>,
    pub created_at: Instant,
    pub updated_at: Instant,
}

/// Whether `b` is a single or a double quote.
pub open spec fn is_quote(b: u8) -> bool {
    b == 39 || b == 34
}

/// `s` without the quotes at its start.
pub open spec fn strip_front(s: Seq<u8>) -> Seq<u8>
    decreases s.len(),
{
    if s.len() > 0 && is_quote(s[0]) {
        strip_front(s.drop_first())
    } else {
        s
    }
}

/// `s` without the quotes at its end.
pub open spec fn strip_back(s: Seq<u8>) -> Seq<u8>
    decreases s.len(),
{
    if s.len() > 0 && is_quote(s.last()) {
        strip_back(s.drop_last())
    } else {
        s
    }
}

/// `s` without the quotes around it, however many.
pub open spec fn strip_quotes(s: Seq<u8>) -> Seq<u8> {
    strip_back(strip_front(s))
}

/// The lower-case form of an ASCII letter; any other byte as it is.
pub open spec fn lower(b: u8) -> u8 {
    if 65 <= b <= 90 {
        (b + 32) as u8
    } else {
        b
    }
}

/// The bytes of `true`.
pub open spec fn true_word() -> Seq<u8> {
    seq![116u8, 114u8, 117u8, 101u8]
}

/// The bytes of `false`.
pub open spec fn false_word() -> Seq<u8> {
    seq![102u8, 97u8, 108u8, 115u8, 101u8]
}

/// The truth value that `s` spells, in any mix of upper and lower case.
pub open spec fn parse_boolean(s: Seq<u8>) -> Option<bool> {
    let folded = s.map_values(|b: u8| lower(b));
    if folded == true_word() {
        Some(true)
    } else if folded == false_word() {
        Some(false)
    } else {
        None
    }
}

/// Whether the text `value` can stand in a column of type `data_type`.
/// `is_float` says whether the text reads as a floating-point number.
pub open spec fn value_fits(data_type: ColumnType, value: Seq<u8>, is_float: bool) -> bool {
    match data_type {
        ColumnType::Integer => parse_signed(value) is Some,
        ColumnType::Float => is_float,
        ColumnType::Varchar(max_len) => strip_quotes(value).len() <= max_len,
        ColumnType::Boolean => parse_boolean(strip_quotes(value)) is Some,
        ColumnType::Timestamp => parse_signed(value) is Some,
    }
}

/// The bounds of `s` without the quotes around it.
pub fn unquoted(s: &[u8]) -> (r: (usize, usize))
    ensures
        r.0 <= r.1 <= s@.len(),
        s@.subrange(r.0 as int, r.1 as int) == strip_quotes(s@),
{
    let n = s.len();
    let mut a: usize = 0;
    proof {
        assert(s@.subrange(0, n as int) =~= s@);
    }
    while a < n && (s[a] == 39 || s[a] == 34)
        invariant
            a <= n,
            n == s@.len(),
            strip_front(s@) == strip_front(s@.subrange(a as int, n as int)),
        decreases n - a,
    {
        proof {
            assert(s@.subrange(a as int, n as int).drop_first() =~= s@.subrange(a + 1, n as int));
        }
        a += 1;
    }
    proof {
        let rest = s@.subrange(a as int, n as int);
        if a < n {
            assert(rest[0] == s@[a as int]);
        }
        assert(strip_front(rest) == rest);
    }
    let mut b: usize = n;
    while b > a && (s[b - 1] == 39 || s[b - 1] == 34)
        invariant
            a <= b <= n,
            n == s@.len(),
            strip_quotes(s@) == strip_back(s@.subrange(a as int, b as int)),
        decreases b - a,
    {
        proof {
            assert(s@.subrange(a as int, b as int).drop_last() =~= s@.subrange(a as int, b - 1));
            assert(s@.subrange(a as int, b as int).last() == s@[b - 1]);
        }
        b -= 1;
    }
    proof {
        let rest = s@.subrange(a as int, b as int);
        if b > a {
            assert(rest.last() == s@[b - 1]);
        }
        assert(strip_back(rest) == rest);
    }
    (a, b)
}

/// Reads a truth value in any mix of upper and lower case.
pub fn read_boolean(s: &[u8]) -> (r: Option<bool>)
    ensures
        r == parse_boolean(s@),
{
    let ghost folded = s@.map_values(|b: u8| lower(b));
    assert(folded.len() == s@.len());
    let t: [u8; 4] = [116, 114, 117, 101];
    let f: [u8; 5] = [102, 97, 108, 115, 101];
    assert(t@ =~= true_word());
    assert(f@ =~= false_word());
    if s.len() == 4 {
        let mut i: usize = 0;
        while i < 4
            invariant
                i <= 4,
                s@.len() == 4,
                folded.len() == 4,
                t@ == true_word(),
                folded == s@.map_values(|b: u8| lower(b)),
                forall|k: int| 0 <= k < i ==> folded[k] == true_word()[k],
            decreases 4 - i,
        {
            let b = s[i];
            let low = if b >= 65 && b <= 90 { b + 32 } else { b };
            assert(low == folded[i as int]);
            if low != t[i] {
                return None;
            }
            i += 1;
        }
        assert(folded =~= true_word());
        Some(true)
    } else if s.len() == 5 {
        let mut i: usize = 0;
        while i < 5
            invariant
                i <= 5,
                s@.len() == 5,
                folded.len() == 5,
                f@ == false_word(),
                folded == s@.map_values(|b: u8| lower(b)),
                forall|k: int| 0 <= k < i ==> folded[k] == false_word()[k],
            decreases 5 - i,
        {
            let b = s[i];
            let low = if b >= 65 && b <= 90 { b + 32 } else { b };
            assert(low == folded[i as int]);
            if low != f[i] {
                return None;
            }
            i += 1;
        }
        assert(folded =~= false_word());
        Some(false)
    } else {
        None
    }
}

impl Column {
    /// A column made at the time `now`, with no constraint and no default.
    pub fn created(name: String, data_type: ColumnType, now: Instant) -> (r: Self)
        ensures
            r.name == name,
            r.data_type == data_type,
            r.constraints@.len() == 0,
            r.default_value is None,
            r.created_at == now,
            r.updated_at == now,
    {
        Self {
            name,
            data_type,
            constraints: Vec::new(),
            default_value: None,
            created_at: now,
            updated_at: now,
        }
    }

    /// A column made now, with no constraint and no default.
    pub fn new(name: String, data_type: ColumnType) -> (r: Self)
        ensures
            r.name == name,
            r.data_type == data_type,
            r.constraints@.len() == 0,
            r.default_value is None,
            r.created_at == r.updated_at,
    {
        Column::created(name, data_type, utc_now())
    }

    /// The column with one constraint more.
    pub fn with_constraint(self, constraint: ColumnConstraint) -> (r: Self)
        ensures
            r.constraints@ == self.constraints@.push(constraint),
            r.name == self.name,
            r.data_type == self.data_type,
            r.default_value == self.default_value,
            r.created_at == self.created_at,
            r.updated_at == self.updated_at,
    {
        let mut column = self;
        column.constraints.push(constraint);
        column
    }

    /// The column with `default` as its default value.
    pub fn with_default(self, default: String) -> (r: Self)
        ensures
            r.default_value == Some(default),
            r.name == self.name,
            r.data_type == self.data_type,
            r.constraints == self.constraints,
            r.created_at == self.created_at,
            r.updated_at == self.updated_at,
    {
        let mut column = self;
        column.default_value = Some(default);
        column
    }

    /// Whether the text `value` can stand in this column. For a column of
    /// floating-point numbers the caller says in `float_bits` what the text
    /// reads as, if it reads as a number.
    pub fn validate_value(&self, value: &str, float_bits: Option<u64>) -> (r: bool)
        ensures
            r == value_fits(self.data_type, value.spec_bytes(), float_bits is Some),
    {
        let s = value.as_bytes();
        match self.data_type {
            ColumnType::Integer => parse_i64(s).is_some(),
            ColumnType::Float => float_bits.is_some(),
            ColumnType::Varchar(max_len) => {
                let (a, b) = unquoted(s);
                b - a <= max_len
            },
            ColumnType::Boolean => {
                let (a, b) = unquoted(s);
                read_boolean(vstd::slice::slice_subrange(s, a, b)).is_some()
            },
            ColumnType::Timestamp => parse_i64(s).is_some(),
        }
    }

    /// Whether the column has the constraint that `wanted` picks out.
    pub open spec fn has_constraint(&self, wanted: spec_fn(ColumnConstraint) -> bool) -> bool {
        exists|i: int| 0 <= i < self.constraints@.len() && wanted(#[trigger] self.constraints@[i])
    }

    /// Whether a row may leave the column out: it is not marked `NotNull`.
    pub fn is_nullable(&self) -> (r: bool)
        ensures
            r == !self.has_constraint(|c: ColumnConstraint| c is NotNull),
    {
        let mut i: usize = 0;
        while i < self.constraints.len()
            invariant
                i <= self.constraints@.len(),
                forall|k: int| 0 <= k < i ==> !(#[trigger] self.constraints@[k] is NotNull),
            decreases self.constraints@.len() - i,
        {
            if let ColumnConstraint::NotNull = self.constraints[i] {
                return false;
            }
            i += 1;
        }
        true
    }

    /// Whether no two rows may agree on the column: it is marked `Unique`
    /// or `PrimaryKey`.
    pub fn is_unique(&self) -> (r: bool)
        ensures
            r == self.has_constraint(|c: ColumnConstraint| c is Unique || c is PrimaryKey),
    {
        let mut i: usize = 0;
        while i < self.constraints.len()
            invariant
                i <= self.constraints@.len(),
                forall|k: int|
                    0 <= k < i ==> !((#[trigger] self.constraints@[k]) is Unique
                        || self.constraints@[k] is PrimaryKey),
            decreases self.constraints@.len() - i,
        {
            match self.constraints[i] {
                ColumnConstraint::Unique => {
                    return true;
                },
                ColumnConstraint::PrimaryKey => {
                    return true;
                },
                _ => {},
            }
            i += 1;
        }
        false
    }

    /// Whether the column is marked `PrimaryKey`.
    pub fn is_primary_key(&self) -> (r: bool)
        ensures
            r == self.has_constraint(|c: ColumnConstraint| c is PrimaryKey),
    {
        let mut i: usize = 0;
        while i < self.constraints.len()
            invariant
                i <= self.constraints@.len(),
                forall|k: int| 0 <= k < i ==> !(#[trigger] self.constraints@[k] is PrimaryKey),
            decreases self.constraints@.len() - i,
        {
            if let ColumnConstraint::PrimaryKey = self.constraints[i] {
                return true;
            }
            i += 1;
        }
        false
    }
}

impl Clone for Column {
    fn clone(&self) -> (r: Self)
        ensures
            r.name == self.name,
            r.data_type == self.data_type,
            r.constraints@ == self.constraints@,
            r.default_value == self.default_value,
            r.created_at == self.created_at,
            r.updated_at == self.updated_at,
    {
        let mut constraints: Vec<ColumnConstraint> = Vec::new();
        let mut i: usize = 0;
        while i < self.constraints.len()
            invariant
                i <= self.constraints@.len(),
                constraints@ == self.constraints@.subrange(0, i as int),
            decreases self.constraints@.len() - i,
        {
            constraints.push(self.constraints[i].clone());
            proof {
                assert(constraints@ =~= self.constraints@.subrange(0, i + 1));
            }
            i += 1;
        }
        proof {
            assert(self.constraints@.subrange(0, i as int) =~= self.constraints@);
        }
        Column {
            name: self.name.clone(),
            data_type: self.data_type,
            constraints,
            default_value: self.default_value.clone(),
            created_at: self.created_at,
            updated_at: self.updated_at,
        }
    }
}

} // verus!
