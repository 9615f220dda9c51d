//! Core data types shared by the whole BMS module: the two-character
//! base-36 key codec and the placed-object model.
use vstd::prelude::*;
use vstd::string::*;

pub mod chart;
pub mod parser;
pub mod timeline;

verus! {

/// One measure is split into `MEASURE_SCALE` score-position units, so a
/// score position ("measure value") is stored as an integer count of
/// millionths of a measure.
pub const MEASURE_SCALE: u64 = 1_000_000;

/// Tempo values, measure-length multipliers, stop durations and speed
/// factors are stored as integer counts of thousandths.
pub const VALUE_SCALE: u64 = 1_000;

/// The base-36 value of a character, or -1 if it is no base-36 digit.
/// Both letter cases are accepted.
pub open spec fn d36(c: char) -> int {
    let u = c as u32;
    if 48 <= u <= 57 {
        u - 48
    } else if 65 <= u <= 90 {
        u - 55
    } else if 97 <= u <= 122 {
        u - 87
    } else {
        -1
    }
}

/// A token is valid when it is exactly two base-36 digits.
pub open spec fn token_valid(t: Seq<char>) -> bool {
    t.len() == 2 && d36(t[0]) >= 0 && d36(t[1]) >= 0
}

/// The key encoded by a token: the base-36 reading of a valid token,
/// and the placeholder key 0 for every other token.
pub open spec fn decode36(t: Seq<char>) -> int {
    if token_valid(t) {
        36 * d36(t[0]) + d36(t[1])
    } else {
        0
    }
}

/// The upper-case base-36 digit character with the given value.
pub open spec fn digit36_char(d: int) -> char {
    ("0123456789ABCDEFGHIJKLMNOPQRSTUVWXYZ")@[d]
}

/// The canonical two-character form of a key: two zero-padded upper-case
/// base-36 digits.
pub open spec fn encode36(k: int) -> Seq<char> {
    seq![digit36_char(k / 36), digit36_char(k % 36)]
}

/// ASCII upper-casing of one character.
pub open spec fn upper_char(c: char) -> char {
    if 97 <= c as u32 <= 122 {
        ((c as u32 - 32) as char)
    } else {
        c
    }
}

/// ASCII upper-casing of a two-character token.
pub open spec fn upper_token(t: Seq<char>) -> Seq<char> {
    seq![upper_char(t[0]), upper_char(t[1])]
}

/// A key referencing a keysound, background layer or named timing-table
/// entry. Its textual form is two base-36 digits, so decoded keys lie in
/// the range 0 to 1295; key 0 is the format's placeholder for "nothing".
#[derive(Clone, Copy, Debug, Eq, Hash, PartialEq, Structural)]
pub struct Alphanumeric {
    pub key: usize,
}

impl Alphanumeric {
    /// Create an Alphanumeric from a str. Defaults to an Alphanumeric of
    /// key 0 if the str is not a valid two-character base-36 token.
    pub fn from_str(key: &str) -> (r: Alphanumeric)
        ensures
            r.key == decode36(key@),
            r.key <= 1295,
            !token_valid(key@) ==> r.key == 0,
    {
        let n = key.unicode_len();
        if n != 2 {
            return Alphanumeric { key: 0 };
        }
        let d0 = digit36_value(key.get_char(0));
        let d1 = digit36_value(key.get_char(1));
        if d0 < 36 && d1 < 36 {
            Alphanumeric { key: 36 * d0 + d1 }
        } else {
            Alphanumeric { key: 0 }
        }
    }

    /// Create an Alphanumeric from an int.
    pub fn from_int(key: usize) -> (r: Alphanumeric)
        ensures
            r.key == key,
    {
        Alphanumeric { key }
    }

    /// Returns the canonical base-36 string representation of the key:
    /// always two zero-padded upper-case digits. A key exceeding 1295 has
    /// no two-digit form; it would indicate an internal invariant
    /// violation, so it is excluded here.
    pub fn as_base36(&self) -> (r: String)
        requires
            self.key <= 1295,
        ensures
            r@ == encode36(self.key as int),
    {
        let digits = "0123456789ABCDEFGHIJKLMNOPQRSTUVWXYZ";
        proof {
            reveal_strlit("0123456789ABCDEFGHIJKLMNOPQRSTUVWXYZ");
        }
        let hi = self.key / 36;
        let lo = self.key % 36;
        let mut r = digits.substring_char(hi, hi + 1).to_owned();
        r.append(digits.substring_char(lo, lo + 1));
        proof {
            assert(r@ =~= encode36(self.key as int));
        }
        r
    }
}

/// The base-36 value of a character, or 36 if it is no base-36 digit.
fn digit36_value(c: char) -> (r: usize)
    ensures
        d36(c) >= 0 ==> r == d36(c),
        d36(c) < 0 ==> r == 36,
{
    let u = c as u32;
    if 48 <= u && u <= 57 {
        (u - 48) as usize
    } else if 65 <= u && u <= 90 {
        (u - 55) as usize
    } else if 97 <= u && u <= 122 {
        (u - 87) as usize
    } else {
        36
    }
}

/// Encoding a decoded valid token gives the token back, upper-cased:
/// the codec round-trips on every valid two-character base-36 token.
pub proof fn lemma_encode_decode(t: Seq<char>)
    requires
        token_valid(t),
    ensures
        encode36(decode36(t)) == upper_token(t),
{
    reveal_strlit("0123456789ABCDEFGHIJKLMNOPQRSTUVWXYZ");
    let a = d36(t[0]);
    let b = d36(t[1]);
    assert((36 * a + b) / 36 == a && (36 * a + b) % 36 == b) by (nonlinear_arith)
        requires
            0 <= a < 36,
            0 <= b < 36,
    ;
    assert(digit36_char(a) == upper_char(t[0]));
    assert(digit36_char(b) == upper_char(t[1]));
    assert(encode36(decode36(t)) =~= upper_token(t));
}

/// BMS object types.
#[derive(Clone, Copy, Debug)]
pub enum ObjType {
    /// An autoplay keysound.
    Auto(Alphanumeric),
    /// A background-animation trigger.
    BGA(Alphanumeric),
    /// A playable note.
    Note(Alphanumeric),
    /// Denotes the ending score position of a long note object, in
    /// millionths of a measure.
    LongNote(u64),
}

impl Default for ObjType {
    fn default() -> (r: Self)
        ensures
            r == ObjType::Auto(Alphanumeric { key: 0 }),
    {
        ObjType::Auto(Alphanumeric::from_int(0))
    }
}

/// An "object" placed in a BMS chart: a note, autoplay keysound or
/// background trigger, with its score position and resolved play time.
#[derive(Clone, Copy, Debug)]
pub struct Object {
    /// Absolute play time in milliseconds, resolved from the timeline
    /// after the chart is built.
    pub time: u128,
    /// Score position in millionths of a measure.
    pub measure: u64,
    /// The channel the object was placed on.
    pub channel: u32,
    /// What kind of object this is.
    pub objtype: ObjType,
    /// Timing offset from when the note was hit, in millionths of a
    /// measure. Initializes to None, which can be used to determine
    /// whether this note has already been hit.
    pub hit_offset: Option<i64>,
    /// The same offset for the release of a long note.
    pub longnote_hit_offset: Option<i64>,
}

impl Default for Object {
    fn default() -> (r: Self)
        ensures
            r == (Object {
                time: 0,
                measure: 0,
                channel: 0,
                objtype: ObjType::Auto(Alphanumeric { key: 0 }),
                hit_offset: None::<i64>,
                longnote_hit_offset: None::<i64>,
            }),
    {
        Object {
            time: 0,
            measure: 0,
            channel: 0,
            objtype: ObjType::default(),
            hit_offset: None,
            longnote_hit_offset: None,
        }
    }
}

} // verus!
