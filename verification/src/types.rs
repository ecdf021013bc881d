//! The column types of the format, and their names as the reader reports them.

use vstd::prelude::*;
use vstd::string::*;

verus! {

broadcast use vstd::string::group_string_axioms;

/// How a column's values are stored.
#[derive(Debug, Clone, Copy, PartialEq, Eq, Structural)]
pub enum PhysicalType {
    Boolean,
    Int32,
    Int64,
    Int96,
    Float,
    Double,
    ByteArray,
    FixedLenByteArray(usize),
}

/// Resolution of a time or timestamp.
#[derive(Debug, Clone, Copy, PartialEq, Eq, Structural)]
pub enum TimeUnit {
    Milliseconds,
    Microseconds,
    Nanoseconds,
}

/// Width and signedness of an integer logical type.
#[derive(Debug, Clone, Copy, PartialEq, Eq, Structural)]
pub enum IntegerType {
    Int8,
    Int16,
    Int32,
    Int64,
    UInt8,
    UInt16,
    UInt32,
    UInt64,
}

/// What a column's values mean, on top of how they are stored.
#[derive(Debug, Clone, Copy, PartialEq, Eq, Structural)]
pub enum LogicalType {
    String,
    Enum,
    Decimal(usize, usize),
    Date,
    Time { unit: TimeUnit, is_adjusted_to_utc: bool },
    Timestamp { unit: TimeUnit, is_adjusted_to_utc: bool },
    Integer(IntegerType),
    Unknown,
    Json,
    Bson,
    Uuid,
}

/// Whether a field must be present, may be null, or repeats.
#[derive(Debug, Clone, Copy, PartialEq, Eq, Structural)]
pub enum Repetition {
    Required,
    Optional,
    Repeated,
}

/// Bit width and signedness of an integer logical type.
pub open spec fn integer_parts(t: IntegerType) -> (usize, bool) {
    match t {
        IntegerType::Int8 => (8, true),
        IntegerType::Int16 => (16, true),
        IntegerType::Int32 => (32, true),
        IntegerType::Int64 => (64, true),
        IntegerType::UInt8 => (8, false),
        IntegerType::UInt16 => (16, false),
        IntegerType::UInt32 => (32, false),
        IntegerType::UInt64 => (64, false),
    }
}

/// Bit width and signedness of an integer logical type.
pub fn integer_type_parts(t: IntegerType) -> (r: (usize, bool))
    ensures
        r == integer_parts(t),
{
    match t {
        IntegerType::Int8 => (8, true),
        IntegerType::Int16 => (16, true),
        IntegerType::Int32 => (32, true),
        IntegerType::Int64 => (64, true),
        IntegerType::UInt8 => (8, false),
        IntegerType::UInt16 => (16, false),
        IntegerType::UInt32 => (32, false),
        IntegerType::UInt64 => (64, false),
    }
}

/// True for an `Integer` logical type that is unsigned.
pub open spec fn is_unsigned_integer(lt: Option<LogicalType>) -> bool {
    match lt {
        Some(LogicalType::Integer(t)) => !integer_parts(t).1,
        _ => false,
    }
}

/// True for a `Timestamp` or `Time` logical type.
pub open spec fn is_time_like(lt: Option<LogicalType>) -> bool {
    match lt {
        Some(LogicalType::Timestamp { .. }) => true,
        Some(LogicalType::Time { .. }) => true,
        _ => false,
    }
}

/// True for an `Integer` logical type that is unsigned.
pub fn unsigned_integer(lt: Option<LogicalType>) -> (r: bool)
    ensures
        r == is_unsigned_integer(lt),
{
    match lt {
        Some(LogicalType::Integer(t)) => !integer_type_parts(t).1,
        _ => false,
    }
}

/// True for a `Timestamp` or `Time` logical type.
pub fn time_like(lt: Option<LogicalType>) -> (r: bool)
    ensures
        r == is_time_like(lt),
{
    match lt {
        Some(LogicalType::Timestamp { .. }) => true,
        Some(LogicalType::Time { .. }) => true,
        _ => false,
    }
}

/// A string holding the characters of `s`.
pub fn owned(s: &str) -> (r: String)
    ensures
        r@ == s@,
{
    s.to_string()
}

/// The name under which the reader reports a physical type.
pub open spec fn physical_type_name(pt: PhysicalType) -> Seq<char> {
    match pt {
        PhysicalType::Boolean => "boolean"@,
        PhysicalType::Int32 => "int32"@,
        PhysicalType::Int64 => "int64"@,
        PhysicalType::Int96 => "int96"@,
        PhysicalType::Float => "float"@,
        PhysicalType::Double => "double"@,
        PhysicalType::ByteArray => "string"@,
        PhysicalType::FixedLenByteArray(_) => "bytes"@,
    }
}

/// The name under which the reader reports a physical type.
pub fn physical_type_to_string(pt: PhysicalType) -> (s: String)
    ensures
        s@ == physical_type_name(pt),
{
    match pt {
        PhysicalType::Boolean => owned("boolean"),
        PhysicalType::Int32 => owned("int32"),
        PhysicalType::Int64 => owned("int64"),
        PhysicalType::Int96 => owned("int96"),
        PhysicalType::Float => owned("float"),
        PhysicalType::Double => owned("double"),
        PhysicalType::ByteArray => owned("string"),
        PhysicalType::FixedLenByteArray(_) => owned("bytes"),
    }
}

/// The decimal digit of a value below ten.
pub open spec fn digit_char(d: nat) -> char {
    if d == 0 {
        '0'
    } else if d == 1 {
        '1'
    } else if d == 2 {
        '2'
    } else if d == 3 {
        '3'
    } else if d == 4 {
        '4'
    } else if d == 5 {
        '5'
    } else if d == 6 {
        '6'
    } else if d == 7 {
        '7'
    } else if d == 8 {
        '8'
    } else {
        '9'
    }
}

/// Decimal notation of `n`, without leading zeros ("0" for zero).
pub open spec fn decimal(n: nat) -> Seq<char>
    decreases n,
{
    if n < 10 {
        seq![digit_char(n)]
    } else {
        decimal(n / 10).push(digit_char(n % 10))
    }
}

fn digit_str(d: usize) -> (s: &'static str)
    requires
        d < 10,
    ensures
        s@ == seq![digit_char(d as nat)],
{
    proof {
        reveal_strlit("0");
        reveal_strlit("1");
        reveal_strlit("2");
        reveal_strlit("3");
        reveal_strlit("4");
        reveal_strlit("5");
        reveal_strlit("6");
        reveal_strlit("7");
        reveal_strlit("8");
        reveal_strlit("9");
    }
    if d == 0 {
        "0"
    } else if d == 1 {
        "1"
    } else if d == 2 {
        "2"
    } else if d == 3 {
        "3"
    } else if d == 4 {
        "4"
    } else if d == 5 {
        "5"
    } else if d == 6 {
        "6"
    } else if d == 7 {
        "7"
    } else if d == 8 {
        "8"
    } else {
        "9"
    }
}

/// Appends the decimal notation of `n` to `out`.
pub fn push_decimal(out: &mut String, n: usize)
    ensures
        final(out)@ == old(out)@ + decimal(n as nat),
    decreases n,
{
    if n >= 10 {
        push_decimal(out, n / 10);
    }
    out.append(digit_str(n % 10));
    proof {
        if n >= 10 {
            assert(decimal(n as nat) == decimal((n / 10) as nat).push(digit_char((n % 10) as nat)));
        }
    }
    assert(out@ =~= old(out)@ + decimal(n as nat));
}


/// The name under which the reader reports a logical type.
pub open spec fn logical_type_name(lt: LogicalType) -> Seq<char> {
    match lt {
        LogicalType::Date => "date"@,
        LogicalType::Time { unit, .. } => match unit {
            TimeUnit::Milliseconds => "time_millis"@,
            TimeUnit::Microseconds => "time_micros"@,
            TimeUnit::Nanoseconds => "time_nanos"@,
        },
        LogicalType::Timestamp { unit, .. } => match unit {
            TimeUnit::Milliseconds => "timestamp_millis"@,
            TimeUnit::Microseconds => "timestamp_micros"@,
            TimeUnit::Nanoseconds => "timestamp_nanos"@,
        },
        LogicalType::String => "utf8"@,
        LogicalType::Json => "json"@,
        LogicalType::Bson => "bson"@,
        LogicalType::Decimal(precision, scale) => "decimal("@ + decimal(precision as nat) + ","@
            + decimal(scale as nat) + ")"@,
        LogicalType::Enum => "enum"@,
        LogicalType::Integer(t) => "integer("@ + decimal(integer_parts(t).0 as nat) + ","@ + (
        if integer_parts(t).1 {
            "signed"@
        } else {
            "unsigned"@
        }) + ")"@,
        LogicalType::Uuid => "uuid"@,
        LogicalType::Unknown => "unknown"@,
    }
}

/// Whether a logical type is a time of day or a timestamp.
pub open spec fn is_time_like_type(lt: LogicalType) -> bool {
    lt is Time || lt is Timestamp
}

/// Times of day and timestamps are reported under distinct names for
/// distinct kinds and units: two of them reported under one name are of
/// the same kind and unit.
pub proof fn lemma_time_names_distinct(a: LogicalType, b: LogicalType)
    requires
        is_time_like_type(a),
        is_time_like_type(b),
        logical_type_name(a) == logical_type_name(b),
    ensures
        (a is Time <==> b is Time),
        match (a, b) {
            (LogicalType::Time { unit: u, .. }, LogicalType::Time { unit: v, .. }) => u == v,
            (LogicalType::Timestamp { unit: u, .. }, LogicalType::Timestamp { unit: v, .. }) => u == v,
            _ => true,
        },
{
    reveal_strlit("time_millis");
    reveal_strlit("time_micros");
    reveal_strlit("time_nanos");
    reveal_strlit("timestamp_millis");
    reveal_strlit("timestamp_micros");
    reveal_strlit("timestamp_nanos");
    let names = seq!["time_millis"@, "time_micros"@, "time_nanos"@, "timestamp_millis"@, "timestamp_micros"@, "timestamp_nanos"@];
    assert(names[0].len() == 11 && names[1].len() == 11 && names[2].len() == 10);
    assert(names[3].len() == 16 && names[4].len() == 16 && names[5].len() == 15);
    assert(names[0][7] != names[1][7]);
    assert(names[3][12] != names[4][12]);
    assert forall|i: int, j: int| 0 <= i < 6 && 0 <= j < 6 && i != j implies names[i] != names[j] by {
        if (i == 0 && j == 1) || (i == 1 && j == 0) {
            assert(names[0][7] != names[1][7]);
        }
        if (i == 3 && j == 4) || (i == 4 && j == 3) {
            assert(names[3][12] != names[4][12]);
        }
    }
    let ix = |lt: LogicalType| -> int {
        match lt {
            LogicalType::Time { unit, .. } => match unit {
                TimeUnit::Milliseconds => 0int,
                TimeUnit::Microseconds => 1int,
                TimeUnit::Nanoseconds => 2int,
            },
            LogicalType::Timestamp { unit, .. } => match unit {
                TimeUnit::Milliseconds => 3int,
                TimeUnit::Microseconds => 4int,
                TimeUnit::Nanoseconds => 5int,
            },
            _ => 0int,
        }
    };
    assert(logical_type_name(a) == names[ix(a)]);
    assert(logical_type_name(b) == names[ix(b)]);
    assert(ix(a) == ix(b));
}

/// The name under which the reader reports a logical type, such as
/// `timestamp_millis`, `decimal(10,2)` or `integer(8,unsigned)`.
pub fn logical_type_to_string(lt: LogicalType) -> (s: String)
    ensures
        s@ == logical_type_name(lt),
{
    match lt {
        LogicalType::Date => owned("date"),
        LogicalType::Time { unit, .. } => match unit {
            TimeUnit::Milliseconds => owned("time_millis"),
            TimeUnit::Microseconds => owned("time_micros"),
            TimeUnit::Nanoseconds => owned("time_nanos"),
        },
        LogicalType::Timestamp { unit, .. } => match unit {
            TimeUnit::Milliseconds => owned("timestamp_millis"),
            TimeUnit::Microseconds => owned("timestamp_micros"),
            TimeUnit::Nanoseconds => owned("timestamp_nanos"),
        },
        LogicalType::String => owned("utf8"),
        LogicalType::Json => owned("json"),
        LogicalType::Bson => owned("bson"),
        LogicalType::Decimal(precision, scale) => {
            let mut s = owned("decimal(");
            push_decimal(&mut s, precision);
            s.append(",");
            push_decimal(&mut s, scale);
            s.append(")");
            s
        },
        LogicalType::Enum => owned("enum"),
        LogicalType::Integer(t) => {
            let (bit_width, is_signed) = integer_type_parts(t);
            let mut s = owned("integer(");
            push_decimal(&mut s, bit_width);
            s.append(",");
            if is_signed {
                s.append("signed");
            } else {
                s.append("unsigned");
            }
            s.append(")");
            s
        },
        LogicalType::Uuid => owned("uuid"),
        LogicalType::Unknown => owned("unknown"),
    }
}

} // verus!
