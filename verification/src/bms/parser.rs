//! The line grammars and the chart parser: a priority-ordered set of
//! single-line matchers (metadata, keysound registration,
//! background-layer registration, tempo declaration, stop-duration
//! declaration, channel/measure data) feeding the shared chart builder.
//! A line matching none of the grammars is ignored.
use crate::bms::chart::{chart_builder_ok, BmsBuilder, BMS};
use crate::bms::timeline::{table_get, TimelineEvent};
use crate::bms::{decode36, Alphanumeric, Object, ObjType};
use vstd::prelude::*;
use vstd::string::*;

verus! {

/// A fatal load error: the whole load aborts with no partial chart,
/// identifying the offending command category. Everything else is
/// recovered with local defaults.
#[derive(Clone, Copy, Debug, Eq, PartialEq, Structural)]
pub enum LoadError {
    /// A tempo declaration carried a malformed or zero numeric value.
    TempoValue,
    /// A stop-duration declaration carried a malformed numeric value.
    StopValue,
    /// A length-override line carried a malformed or zero numeric
    /// value.
    MeasureLength,
    /// An inline tempo slot was not a two-digit hexadecimal value.
    InlineTempo,
}

pub open spec fn is_digit(c: char) -> bool {
    48 <= c as u32 <= 57
}

pub open spec fn is_ws(c: char) -> bool {
    c == ' ' || c == '\t' || c == '\r'
}

pub open spec fn all_digits(t: Seq<char>) -> bool {
    forall|i: int| 0 <= i < t.len() ==> is_digit(#[trigger] t[i])
}

/// The decimal reading of a digit string.
pub open spec fn digits_val(t: Seq<char>) -> int
    decreases t.len(),
{
    if t.len() == 0 {
        0
    } else {
        digits_val(t.drop_last()) * 10 + (t.last() as u32 - 48)
    }
}

/// The index of the first dot, or the length if there is none.
pub open spec fn dot_pos(t: Seq<char>) -> int
    decreases t.len(),
{
    if t.len() == 0 {
        0
    } else if t[0] == '.' {
        0
    } else {
        1 + dot_pos(t.drop_first())
    }
}

/// Leading whitespace removed.
pub open spec fn trim_start(t: Seq<char>) -> Seq<char>
    decreases t.len(),
{
    if t.len() > 0 && is_ws(t[0]) {
        trim_start(t.drop_first())
    } else {
        t
    }
}

/// Trailing whitespace removed.
pub open spec fn trim_end(t: Seq<char>) -> Seq<char>
    decreases t.len(),
{
    if t.len() > 0 && is_ws(t.last()) {
        trim_end(t.drop_last())
    } else {
        t
    }
}

/// Leading and trailing whitespace removed.
pub open spec fn trim_spec(t: Seq<char>) -> Seq<char> {
    trim_end(trim_start(t))
}

/// The thousandths contributed by a fraction part: only the first
/// three fraction digits are significant.
pub open spec fn frac_milli(f: Seq<char>) -> int {
    if f.len() == 0 {
        0
    } else if f.len() == 1 {
        (f[0] as u32 - 48) * 100
    } else if f.len() == 2 {
        digits_val(f) * 10
    } else {
        digits_val(f.take(3))
    }
}

/// A numeric literal: digits with at most one dot, at least one digit,
/// and an integer part below one million.
pub open spec fn number_valid(t: Seq<char>) -> bool {
    let d = dot_pos(t);
    let ip = t.take(d);
    let fp = if d < t.len() {
        t.skip(d + 1)
    } else {
        Seq::<char>::empty()
    };
    &&& t.len() > 0
    &&& all_digits(ip)
    &&& all_digits(fp)
    &&& ip.len() + fp.len() > 0
    &&& digits_val(ip) < 1_000_000
}

/// The value of a numeric literal, in thousandths.
pub open spec fn number_milli(t: Seq<char>) -> int {
    let d = dot_pos(t);
    let fp = if d < t.len() {
        t.skip(d + 1)
    } else {
        Seq::<char>::empty()
    };
    digits_val(t.take(d)) * 1000 + frac_milli(fp)
}

/// Digit strings read to nonnegative values; ones of at most three
/// digits stay below 1000.
pub proof fn lemma_digits_val_bounds(t: Seq<char>)
    requires
        all_digits(t),
    ensures
        digits_val(t) >= 0,
        t.len() <= 3 ==> digits_val(t) < 1000,
    decreases t.len(),
{
    if t.len() > 0 {
        let t2 = t.drop_last();
        assert(all_digits(t2)) by {
            assert(forall|i: int| 0 <= i < t2.len() ==> t2[i] == t[i] && is_digit(
                #[trigger] t[i],
            ));
        }
        lemma_digits_val_bounds(t2);
        assert(is_digit(t[t.len() - 1]));
        if t.len() <= 3 {
            assert(t2.len() <= 2);
            lemma_digits_small(t2);
        }
    }
}

/// Digit strings of at most two digits stay below 100.
pub proof fn lemma_digits_small(t: Seq<char>)
    requires
        all_digits(t),
        t.len() <= 2,
    ensures
        0 <= digits_val(t) < 100,
    decreases t.len(),
{
    if t.len() > 0 {
        let t2 = t.drop_last();
        assert(all_digits(t2)) by {
            assert(forall|i: int| 0 <= i < t2.len() ==> t2[i] == t[i] && is_digit(
                #[trigger] t[i],
            ));
        }
        lemma_digits_small2(t2);
        assert(is_digit(t[t.len() - 1]));
    }
}

/// Digit strings of at most one digit stay below 10.
pub proof fn lemma_digits_small2(t: Seq<char>)
    requires
        all_digits(t),
        t.len() <= 1,
    ensures
        0 <= digits_val(t) < 10,
{
    if t.len() > 0 {
        assert(is_digit(t[0]));
        assert(t.last() == t[0]);
        assert(t.drop_last().len() == 0);
        assert(digits_val(t.drop_last()) == 0);
    }
}

/// A valid numeric literal reads to a value between 0 and 999999999
/// thousandths.
pub proof fn lemma_number_milli_bounds(t: Seq<char>)
    requires
        number_valid(t),
    ensures
        0 <= number_milli(t) <= 999_999_999,
{
    let d = dot_pos(t);
    let ip = t.take(d);
    let fp = if d < t.len() {
        t.skip(d + 1)
    } else {
        Seq::<char>::empty()
    };
    lemma_digits_val_bounds(ip);
    assert(0 <= frac_milli(fp) <= 999) by {
        if fp.len() == 0 {
        } else if fp.len() == 1 {
            assert(is_digit(fp[0]));
        } else if fp.len() == 2 {
            lemma_digits_small(fp);
        } else {
            let f3 = fp.take(3);
            assert(all_digits(f3)) by {
                assert(forall|i: int| 0 <= i < f3.len() ==> f3[i] == fp[i] && is_digit(
                    #[trigger] fp[i],
                ));
            }
            lemma_digits_val_bounds(f3);
        }
    }
}

/// Whitespace test for one character.
fn is_ws_char(c: char) -> (r: bool)
    ensures
        r == is_ws(c),
{
    c == ' ' || c == '\t' || c == '\r'
}

/// The scan that stops at the first non-whitespace character finds
/// where `trim_start` begins.
proof fn lemma_trim_start_skip(t: Seq<char>, a: int)
    requires
        0 <= a <= t.len(),
        forall|k: int| 0 <= k < a ==> is_ws(#[trigger] t[k]),
        a == t.len() || !is_ws(t[a]),
    ensures
        trim_start(t) == t.skip(a),
    decreases a,
{
    if a == 0 {
        assert(t.skip(0) =~= t);
    } else {
        assert(is_ws(t[0]));
        let t2 = t.drop_first();
        assert(forall|k: int| 0 <= k < a - 1 ==> is_ws(#[trigger] t2[k]) && t2[k] == t[k + 1]);
        lemma_trim_start_skip(t2, a - 1);
        assert(t2.skip(a - 1) =~= t.skip(a));
    }
}

/// The scan that stops at the last non-whitespace character finds
/// where `trim_end` ends.
proof fn lemma_trim_end_take(t: Seq<char>, b: int)
    requires
        0 <= b <= t.len(),
        forall|k: int| b <= k < t.len() ==> is_ws(#[trigger] t[k]),
        b == 0 || !is_ws(t[b - 1]),
    ensures
        trim_end(t) == t.take(b),
    decreases t.len() - b,
{
    if b == t.len() {
        assert(t.take(b) =~= t);
        if t.len() > 0 {
            assert(!is_ws(t.last()));
        }
    } else {
        assert(is_ws(t.last()));
        let t2 = t.drop_last();
        assert(forall|k: int| b <= k < t2.len() ==> is_ws(#[trigger] t2[k]) && t2[k] == t[k]);
        lemma_trim_end_take(t2, b);
        assert(t2.take(b) =~= t.take(b));
    }
}

/// Copy of a string with leading and trailing whitespace removed.
fn trim_str(s: &str) -> (r: String)
    ensures
        r@ == trim_spec(s@),
{
    let n = s.unicode_len();
    let mut a: usize = 0;
    while a < n && is_ws_char(s.get_char(a))
        invariant
            a <= n,
            n == s@.len(),
            forall|k: int| 0 <= k < a ==> is_ws(#[trigger] s@[k]),
        decreases n - a,
    {
        a = a + 1;
    }
    let mut b: usize = n;
    while b > a && is_ws_char(s.get_char(b - 1))
        invariant
            a <= b <= n,
            n == s@.len(),
            forall|k: int| 0 <= k < a ==> is_ws(#[trigger] s@[k]),
            a == n || !is_ws(s@[a as int]),
            forall|k: int| b <= k < n ==> is_ws(#[trigger] s@[k]),
        decreases b,
    {
        b = b - 1;
    }
    proof {
        lemma_trim_start_skip(s@, a as int);
        let u = s@.skip(a as int);
        assert(forall|k: int| b - a <= k < u.len() ==> u[k] == s@[k + a] && is_ws(
            #[trigger] s@[k + a],
        ));
        assert forall|k: int| b - a <= k < u.len() implies is_ws(#[trigger] u[k]) by {
            assert(u[k] == s@[k + a]);
        }
        if b > a {
            assert(!is_ws(u[b - a - 1])) by {
                assert(u[b - a - 1] == s@[b - 1]);
            }
        }
        lemma_trim_end_take(u, b - a);
        assert(u.take(b - a) =~= s@.subrange(a as int, b as int));
    }
    s.substring_char(a, b).to_owned()
}

/// Parse a numeric literal into thousandths; None when the literal is
/// malformed or its integer part reaches one million.
fn parse_milli(s: &str) -> (r: Option<u64>)
    ensures
        r is Some <==> number_valid(s@),
        r is Some ==> r->0 == number_milli(s@) && r->0 <= 999_999_999,
{
    let n = s.unicode_len();
    // Locate the first dot.
    let mut d: usize = 0;
    while d < n && s.get_char(d) != '.'
        invariant
            d <= n,
            n == s@.len(),
            forall|k: int| 0 <= k < d ==> #[trigger] s@[k] != '.',
        decreases n - d,
    {
        d = d + 1;
    }
    proof {
        lemma_dot_pos(s@, d as int);
    }
    // Read the integer part.
    let ghost ip = s@.take(d as int);
    let mut iv: u64 = 0;
    let mut ok: bool = true;
    let mut big: bool = false;
    let mut i: usize = 0;
    while i < d
        invariant
            i <= d <= n,
            n == s@.len(),
            ip == s@.take(d as int),
            ok <==> all_digits(ip.take(i as int)),
            (ok && !big) ==> iv == digits_val(ip.take(i as int)) && iv < 1_000_000,
            (ok && big) ==> digits_val(ip.take(i as int)) >= 1_000_000,
        decreases d - i,
    {
        let c = s.get_char(i);
        let u = c as u32;
        proof {
            assert(ip[i as int] == s@[i as int]);
            assert(ip.take(i as int + 1).drop_last() =~= ip.take(i as int));
            assert(ip.take(i as int + 1).last() == ip[i as int]);
        }
        if u < 48 || u > 57 {
            ok = false;
            proof {
                assert(ip.take(i as int + 1)[i as int] == ip[i as int]);
                assert(!is_digit(ip[i as int]));
            }
        } else {
            proof {
                if ok {
                    assert(all_digits(ip.take(i as int + 1))) by {
                        assert(forall|k: int| 0 <= k < i + 1 ==> is_digit(
                            #[trigger] ip.take(i as int + 1)[k],
                        ));
                    }
                    assert(digits_val(ip.take(i as int + 1)) == digits_val(ip.take(i as int))
                        * 10 + (s@[i as int] as u32 - 48));
                } else {
                    let k = choose|k: int|
                        0 <= k < i && !is_digit(#[trigger] ip.take(i as int)[k]);
                    assert(ip.take(i as int + 1)[k] == ip.take(i as int)[k]);
                    assert(!all_digits(ip.take(i as int + 1)));
                }
            }
            if ok && !big {
                let dig = (u - 48) as u64;
                if iv * 10 + dig >= 1_000_000 {
                    big = true;
                } else {
                    iv = iv * 10 + dig;
                }
            }
        }
        i = i + 1;
    }
    proof {
        assert(ip.take(d as int) =~= ip);
    }
    // Read the fraction part, keeping the first three digits.
    let ghost fp = if (d as int) < s@.len() {
        s@.skip(d as int + 1)
    } else {
        Seq::<char>::empty()
    };
    let mut fv: u64 = 0;
    let mut fcount: usize = 0;
    let mut j: usize = if d < n {
        d + 1
    } else {
        n
    };
    let ghost j0 = j as int;
    while j < n
        invariant
            j0 <= j <= n,
            n == s@.len(),
            d < n ==> j0 == d + 1,
            d >= n ==> j0 == n,
            fp == (if (d as int) < s@.len() {
                s@.skip(d as int + 1)
            } else {
                Seq::<char>::empty()
            }),
            fp.len() == n - j0,
            (ok <==> all_digits(ip) && all_digits(fp.take(j - j0))),
            ok ==> fcount == (if j - j0 <= 3 {
                j - j0
            } else {
                3
            }) && fv == digits_val(fp.take(fcount as int)) && fv < 1000,
        decreases n - j,
    {
        let c = s.get_char(j);
        let u = c as u32;
        proof {
            assert(fp[j - j0] == s@[j as int]);
            assert(fp.take(j - j0 + 1).drop_last() =~= fp.take(j - j0));
            assert(fp.take(j - j0 + 1).last() == fp[j - j0]);
        }
        if u < 48 || u > 57 {
            ok = false;
            proof {
                assert(fp.take(j - j0 + 1)[j - j0] == fp[j - j0]);
                assert(!is_digit(fp[j - j0]));
            }
        } else {
            proof {
                if ok {
                    assert(all_digits(fp.take(j - j0 + 1))) by {
                        assert(forall|k: int| 0 <= k < j - j0 + 1 ==> is_digit(
                            #[trigger] fp.take(j - j0 + 1)[k],
                        ));
                    }
                } else {
                    if all_digits(ip) {
                        let k = choose|k: int|
                            0 <= k < j - j0 && !is_digit(#[trigger] fp.take(j - j0)[k]);
                        assert(fp.take(j - j0 + 1)[k] == fp.take(j - j0)[k]);
                        assert(!all_digits(fp.take(j - j0 + 1)));
                    }
                }
            }
            if ok && fcount < 3 {
                proof {
                    assert(fp.take(fcount as int + 1).drop_last() =~= fp.take(fcount as int));
                    assert(fp.take(fcount as int + 1).last() == fp[fcount as int]);
                    assert(all_digits(fp.take(fcount as int))) by {
                        assert(forall|k: int| 0 <= k < fcount ==> fp.take(fcount as int)[k]
                            == fp.take(j - j0)[k] && is_digit(#[trigger] fp.take(j - j0)[k]));
                    }
                    lemma_digits_small(fp.take(fcount as int));
                    assert(is_digit(fp[fcount as int])) by {
                        assert(fp.take(j - j0 + 1)[fcount as int] == fp[fcount as int]);
                    }
                }
                fv = fv * 10 + ((u - 48) as u64);
                fcount = fcount + 1;
                proof {
                    lemma_digits_val_bounds(fp.take(fcount as int));
                    assert(all_digits(fp.take(fcount as int))) by {
                        assert(forall|k: int| 0 <= k < fcount ==> fp.take(fcount as int)[k]
                            == fp.take(j - j0 + 1)[k] && is_digit(
                            #[trigger] fp.take(j - j0 + 1)[k],
                        ));
                    }
                }
            }
        }
        j = j + 1;
    }
    proof {
        assert(fp.take(fp.len() as int) =~= fp);
        assert(ip.take(ip.len() as int) =~= ip);
    }
    // Assemble.
    let ip_len = d;
    let fp_len = if d < n {
        n - d - 1
    } else {
        0
    };
    if !ok || n == 0 || ip_len + fp_len == 0 || big {
        return None;
    }
    // Scale a short fraction to thousandths.
    let frac: u64 = if fp_len == 0 {
        0
    } else if fp_len == 1 {
        fv * 100
    } else if fp_len == 2 {
        fv * 10
    } else {
        fv
    };
    proof {
        lemma_digits_val_bounds(ip);
        assert(number_valid(s@));
        assert(frac == frac_milli(fp)) by {
            if fp.len() == 1 {
                assert(fp.take(1) =~= fp);
                assert(fp.drop_last().len() == 0);
                assert(digits_val(fp) == digits_val(fp.drop_last()) * 10 + (fp.last() as u32
                    - 48));
            } else if fp.len() == 2 {
                assert(fp.take(2) =~= fp);
            }
        }
        lemma_number_milli_bounds(s@);
    }
    Some(iv * 1000 + frac)
}

/// `p` occurs in `t` at offset `at`.
pub open spec fn prefix_at(t: Seq<char>, at: int, p: Seq<char>) -> bool {
    &&& 0 <= at
    &&& at + p.len() <= t.len()
    &&& forall|k: int| 0 <= k < p.len() ==> t[at + k] == #[trigger] p[k]
}

/// The hexadecimal value of a character, or -1 if it is no hexadecimal
/// digit. Both letter cases are accepted.
pub open spec fn hex_digit(c: char) -> int {
    let u = c as u32;
    if 48 <= u <= 57 {
        u - 48
    } else if 65 <= u <= 70 {
        u - 55
    } else if 97 <= u <= 102 {
        u - 87
    } else {
        -1
    }
}

pub open spec fn hex2_ok(t: Seq<char>) -> bool {
    t.len() == 2 && hex_digit(t[0]) >= 0 && hex_digit(t[1]) >= 0
}

pub open spec fn hex2_val(t: Seq<char>) -> int {
    16 * hex_digit(t[0]) + hex_digit(t[1])
}

/// The score position of slot `k` of `nslots`, in millionths of a
/// measure: slot `k` sits at measure `m + k/nslots` — even subdivision
/// of the measure.
pub open spec fn slot_pos(m: int, k: int, nslots: int) -> int {
    m * 1_000_000 + (k * 1_000_000) / nslots
}

/// The object payload a placement channel produces for a slot key.
pub open spec fn obj_kind(ch: u32, key: int) -> crate::bms::ObjType {
    if ch == 4 {
        crate::bms::ObjType::BGA(Alphanumeric { key: key as usize })
    } else if ch == 1 {
        crate::bms::ObjType::Auto(Alphanumeric { key: key as usize })
    } else {
        crate::bms::ObjType::Note(Alphanumeric { key: key as usize })
    }
}

/// The objects the first `k` slots of a placement-channel payload
/// produce: one per non-placeholder slot key, at evenly subdivided
/// score positions.
pub open spec fn slot_objs(m: int, ch: u32, payload: Seq<char>, k: int) -> Seq<crate::bms::Object>
    decreases k,
{
    if k <= 0 {
        Seq::empty()
    } else {
        let prev = slot_objs(m, ch, payload, k - 1);
        let key = decode36(payload.subrange(2 * (k - 1), 2 * k));
        if key == 0 {
            prev
        } else {
            prev.push(
                crate::bms::Object {
                    time: 0,
                    measure: slot_pos(m, k - 1, payload.len() as int / 2) as u64,
                    channel: ch,
                    objtype: obj_kind(ch, key),
                    hit_offset: None,
                    longnote_hit_offset: None,
                },
            )
        }
    }
}

/// Every slot of the payload is a two-digit hexadecimal value.
pub open spec fn hex_slots_ok(payload: Seq<char>) -> bool {
    forall|i: int| 0 <= i < payload.len() / 2 ==> hex2_ok(
        #[trigger] payload.subrange(2 * i, 2 * i + 2),
    )
}

/// The tempo commands the first `k` slots of an inline-tempo payload
/// produce: the slot value is the tempo itself, and zero slots are
/// placeholders.
pub open spec fn tempo3_cmds(m: int, payload: Seq<char>, k: int) -> Seq<TimelineEvent>
    decreases k,
{
    if k <= 0 {
        Seq::empty()
    } else {
        let prev = tempo3_cmds(m, payload, k - 1);
        let v = hex2_val(payload.subrange(2 * (k - 1), 2 * k));
        if v == 0 {
            prev
        } else {
            prev.push(
                TimelineEvent::BPM {
                    measure: slot_pos(m, k - 1, payload.len() as int / 2) as u64,
                    bpm: (v * 1000) as u64,
                },
            )
        }
    }
}

/// The tempo commands the first `k` slots of a named-tempo payload
/// produce: each slot key is looked up in the named tempo table, and a
/// miss (0) is filtered — it must never reach the timeline builder.
pub open spec fn tempo8_cmds(m: int, payload: Seq<char>, bpms: Seq<u64>, k: int) -> Seq<
    TimelineEvent,
>
    decreases k,
{
    if k <= 0 {
        Seq::empty()
    } else {
        let prev = tempo8_cmds(m, payload, bpms, k - 1);
        let v = table_get(bpms, decode36(payload.subrange(2 * (k - 1), 2 * k)));
        if v == 0 {
            prev
        } else {
            prev.push(
                TimelineEvent::BPM {
                    measure: slot_pos(m, k - 1, payload.len() as int / 2) as u64,
                    bpm: v,
                },
            )
        }
    }
}

/// The stop commands the first `k` slots of a stop-channel payload
/// produce; a lookup miss is filtered identically.
pub open spec fn stop9_cmds(m: int, payload: Seq<char>, stops: Seq<u64>, k: int) -> Seq<
    TimelineEvent,
>
    decreases k,
{
    if k <= 0 {
        Seq::empty()
    } else {
        let prev = stop9_cmds(m, payload, stops, k - 1);
        let v = table_get(stops, decode36(payload.subrange(2 * (k - 1), 2 * k)));
        if v == 0 {
            prev
        } else {
            prev.push(
                TimelineEvent::STOP {
                    measure: slot_pos(m, k - 1, payload.len() as int / 2) as u64,
                    duration: v,
                },
            )
        }
    }
}

/// The fixed metadata keyword set, in priority order.
pub open spec fn meta_keyword(i: int) -> Seq<char> {
    if i == 0 {
        "PLAYER"@
    } else if i == 1 {
        "GENRE"@
    } else if i == 2 {
        "TITLE"@
    } else if i == 3 {
        "ARTIST"@
    } else if i == 4 {
        "PLAYLEVEL"@
    } else if i == 5 {
        "RANK"@
    } else if i == 6 {
        "TOTAL"@
    } else {
        "STAGEFILE"@
    }
}

/// The first metadata keyword (from index `i` on) that follows the
/// leading marker, with the trimmed remainder as the value.
pub open spec fn meta_match_from(line: Seq<char>, i: int) -> Option<(int, Seq<char>)>
    decreases 8 - i,
{
    if i >= 8 {
        None
    } else if prefix_at(line, 1, meta_keyword(i)) {
        Some((i, trim_spec(line.skip(1 + meta_keyword(i).len() as int))))
    } else {
        meta_match_from(line, i + 1)
    }
}

/// Grammar 1, metadata: a leading marker and one of the fixed keyword
/// set; the trimmed remainder is the value.
pub open spec fn meta_match(line: Seq<char>) -> Option<(int, Seq<char>)> {
    if line.len() >= 1 && line[0] == '#' {
        meta_match_from(line, 0)
    } else {
        None
    }
}

/// Grammar 2, keysound registration: marker, tag, two-character key, a
/// space, then the path.
pub open spec fn wav_match(line: Seq<char>) -> Option<(Seq<char>, Seq<char>)> {
    if prefix_at(line, 0, "#WAV"@) && line.len() >= 7 && line[6] == ' ' {
        Some((line.subrange(4, 6), trim_spec(line.skip(7))))
    } else {
        None
    }
}

/// Grammar 3, background-layer registration: same shape as grammar 2
/// with a different tag.
pub open spec fn bga_match(line: Seq<char>) -> Option<(Seq<char>, Seq<char>)> {
    if prefix_at(line, 0, "#BMP"@) && line.len() >= 7 && line[6] == ' ' {
        Some((line.subrange(4, 6), trim_spec(line.skip(7))))
    } else {
        None
    }
}

/// Grammar 4, tempo declaration: marker, tag, an optional two-character
/// key, a space, then the numeric value. An empty key sets the chart's
/// base tempo.
pub open spec fn bpm_match(line: Seq<char>) -> Option<(Seq<char>, Seq<char>)> {
    if prefix_at(line, 0, "#BPM"@) {
        if line.len() >= 5 && line[4] == ' ' {
            Some((Seq::empty(), trim_spec(line.skip(5))))
        } else if line.len() >= 7 && line[6] == ' ' {
            Some((line.subrange(4, 6), trim_spec(line.skip(7))))
        } else {
            None
        }
    } else {
        None
    }
}

/// Grammar 5, stop-duration declaration: marker, tag, two-character
/// key, a space, then the numeric value.
pub open spec fn stop_match(line: Seq<char>) -> Option<(Seq<char>, Seq<char>)> {
    if prefix_at(line, 0, "#STOP"@) && line.len() >= 8 && line[7] == ' ' {
        Some((line.subrange(5, 7), trim_spec(line.skip(8))))
    } else {
        None
    }
}

/// Grammar 6, channel/measure data: marker, three-digit measure,
/// two-digit channel, a colon, then the trimmed payload.
pub open spec fn chan_match(line: Seq<char>) -> Option<(u32, u32, Seq<char>)> {
    if line.len() >= 7 && line[0] == '#' && is_digit(line[1]) && is_digit(line[2]) && is_digit(
        line[3],
    ) && is_digit(line[4]) && is_digit(line[5]) && line[6] == ':' {
        Some(
            (
                digits_val(line.subrange(1, 4)) as u32,
                digits_val(line.subrange(4, 6)) as u32,
                trim_spec(line.skip(7)),
            ),
        )
    } else {
        None
    }
}

/// The ghost state of the chart builder as the parser folds over the
/// input lines: every field is the mathematical view of the
/// corresponding builder field.
pub struct ChartState {
    pub metadata: Seq<(Seq<char>, Seq<char>)>,
    pub objects: Seq<Object>,
    pub keysounds: Seq<Option<Seq<char>>>,
    pub bga_layers: Seq<Option<Seq<char>>>,
    pub base_bpm: u64,
    pub bpms: Seq<u64>,
    pub stops: Seq<u64>,
    pub measure_lens: Seq<u64>,
    pub cmds: Seq<TimelineEvent>,
}

pub open spec fn opt_view(o: Option<String>) -> Option<Seq<char>> {
    match o {
        Some(s) => Some(s@),
        None => None,
    }
}

/// The ghost state a chart builder currently holds.
pub open spec fn chart_model(b: BmsBuilder) -> ChartState {
    ChartState {
        metadata: b.metadata@.map_values(|p: (String, String)| (p.0@, p.1@)),
        objects: b.objects@,
        keysounds: b.keysounds@.map_values(|o: Option<String>| opt_view(o)),
        bga_layers: b.bga_layers@.map_values(|o: Option<String>| opt_view(o)),
        base_bpm: b.timeline_builder.base_bpm,
        bpms: b.timeline_builder.bpms@,
        stops: b.timeline_builder.stops@,
        measure_lens: b.timeline_builder.measure_lens@,
        cmds: b.timeline_builder.events@,
    }
}

/// The state of a fresh chart builder.
pub open spec fn init_model() -> ChartState {
    ChartState {
        metadata: Seq::empty(),
        objects: Seq::empty(),
        keysounds: Seq::new(1296, |i: int| None),
        bga_layers: Seq::new(1296, |i: int| None),
        base_bpm: 130_000,
        bpms: Seq::new(1296, |i: int| 0u64),
        stops: Seq::new(1296, |i: int| 0u64),
        measure_lens: Seq::new(1000, |i: int| 1000u64),
        cmds: Seq::empty(),
    }
}

/// Applying a metadata line stores the keyword and the trimmed value.
pub open spec fn meta_apply(st: ChartState, i: int, val: Seq<char>) -> ChartState {
    ChartState { metadata: st.metadata.push((meta_keyword(i), val)), ..st }
}

/// Applying a keysound line registers the path under the decoded key.
pub open spec fn wav_apply(st: ChartState, key: Seq<char>, path: Seq<char>) -> ChartState {
    ChartState { keysounds: st.keysounds.update(decode36(trim_spec(key)), Some(path)), ..st }
}

/// Applying a background-layer line registers the path under the
/// decoded key.
pub open spec fn bga_apply(st: ChartState, key: Seq<char>, path: Seq<char>) -> ChartState {
    ChartState { bga_layers: st.bga_layers.update(decode36(trim_spec(key)), Some(path)), ..st }
}

/// Applying a tempo declaration: a malformed or zero value is fatal; an
/// empty (or placeholder) key sets the base tempo, any other key
/// populates the named tempo table.
pub open spec fn bpm_apply(st: ChartState, key: Seq<char>, value: Seq<char>) -> Result<
    ChartState,
    LoadError,
> {
    if !number_valid(value) || number_milli(value) == 0 {
        Err(LoadError::TempoValue)
    } else if decode36(trim_spec(key)) == 0 {
        Ok(ChartState { base_bpm: number_milli(value) as u64, ..st })
    } else {
        Ok(
            ChartState {
                bpms: st.bpms.update(decode36(trim_spec(key)), number_milli(value) as u64),
                ..st
            },
        )
    }
}

/// Applying a stop declaration: a malformed value is fatal; the value
/// is stored under the decoded key.
pub open spec fn stop_apply(st: ChartState, key: Seq<char>, value: Seq<char>) -> Result<
    ChartState,
    LoadError,
> {
    if !number_valid(value) {
        Err(LoadError::StopValue)
    } else {
        Ok(
            ChartState {
                stops: st.stops.update(decode36(trim_spec(key)), number_milli(value) as u64),
                ..st
            },
        )
    }
}

/// The channels whose payload places objects.
pub open spec fn is_placement(ch: u32) -> bool {
    ch == 1 || ch == 4 || ch == 11 || ch == 12 || ch == 13 || ch == 14 || ch == 15 || ch == 16
        || ch == 18 || ch == 19
}

/// Whether a channel line is consumed by the channel-data grammar: slot
/// channels require an even-length payload, the length-override channel
/// always consumes its line, and unrecognized channels fall through.
pub open spec fn chan_matched(ch: u32, payload: Seq<char>) -> bool {
    ((is_placement(ch) || ch == 3 || ch == 8 || ch == 9) && payload.len() % 2 == 0) || ch == 2
}

/// Applying a channel-data line.
pub open spec fn chan_step(st: ChartState, m: u32, ch: u32, payload: Seq<char>) -> Result<
    ChartState,
    LoadError,
> {
    if is_placement(ch) {
        if payload.len() % 2 == 0 {
            Ok(
                ChartState {
                    objects: st.objects + slot_objs(
                        m as int,
                        ch,
                        payload,
                        payload.len() as int / 2,
                    ),
                    ..st
                },
            )
        } else {
            Ok(st)
        }
    } else if ch == 3 {
        if payload.len() % 2 != 0 {
            Ok(st)
        } else if !hex_slots_ok(payload) {
            Err(LoadError::InlineTempo)
        } else {
            Ok(
                ChartState {
                    cmds: st.cmds + tempo3_cmds(m as int, payload, payload.len() as int / 2),
                    ..st
                },
            )
        }
    } else if ch == 8 {
        if payload.len() % 2 == 0 {
            Ok(
                ChartState {
                    cmds: st.cmds + tempo8_cmds(
                        m as int,
                        payload,
                        st.bpms,
                        payload.len() as int / 2,
                    ),
                    ..st
                },
            )
        } else {
            Ok(st)
        }
    } else if ch == 9 {
        if payload.len() % 2 == 0 {
            Ok(
                ChartState {
                    cmds: st.cmds + stop9_cmds(
                        m as int,
                        payload,
                        st.stops,
                        payload.len() as int / 2,
                    ),
                    ..st
                },
            )
        } else {
            Ok(st)
        }
    } else if ch == 2 {
        if !number_valid(payload) || number_milli(payload) == 0 {
            Err(LoadError::MeasureLength)
        } else {
            Ok(
                ChartState {
                    measure_lens: st.measure_lens.update(m as int, number_milli(payload) as u64),
                    ..st
                },
            )
        }
    } else {
        Ok(st)
    }
}

/// One line of input applied to the builder state: the grammars are
/// tried in priority order and the first match wins; a line matching
/// none of them is ignored.
pub open spec fn line_step(st: ChartState, line: Seq<char>) -> Result<ChartState, LoadError> {
    if meta_match(line) is Some {
        Ok(meta_apply(st, (meta_match(line)->0).0, (meta_match(line)->0).1))
    } else if wav_match(line) is Some {
        Ok(wav_apply(st, (wav_match(line)->0).0, (wav_match(line)->0).1))
    } else if bga_match(line) is Some {
        Ok(bga_apply(st, (bga_match(line)->0).0, (bga_match(line)->0).1))
    } else if bpm_match(line) is Some {
        bpm_apply(st, (bpm_match(line)->0).0, (bpm_match(line)->0).1)
    } else if stop_match(line) is Some {
        stop_apply(st, (stop_match(line)->0).0, (stop_match(line)->0).1)
    } else if chan_match(line) is Some {
        chan_step(
            st,
            (chan_match(line)->0).0,
            (chan_match(line)->0).1,
            (chan_match(line)->0).2,
        )
    } else {
        Ok(st)
    }
}

/// The whole input applied line by line; the first fatal line aborts
/// the load.
pub open spec fn run_all(st: ChartState, lines: Seq<Seq<char>>) -> Result<ChartState, LoadError>
    decreases lines.len(),
{
    if lines.len() == 0 {
        Ok(st)
    } else {
        match line_step(st, lines[0]) {
            Ok(s2) => run_all(s2, lines.drop_first()),
            Err(e) => Err(e),
        }
    }
}

/// The index of the first newline, or the length if there is none.
pub open spec fn nl_pos(t: Seq<char>) -> int
    decreases t.len(),
{
    if t.len() == 0 {
        0
    } else if t[0] == '\n' {
        0
    } else {
        1 + nl_pos(t.drop_first())
    }
}

/// A trailing carriage return removed.
pub open spec fn strip_cr(t: Seq<char>) -> Seq<char> {
    if t.len() > 0 && t.last() == '\r' {
        t.drop_last()
    } else {
        t
    }
}

/// The lines of a text, split at newlines; each line loses a trailing
/// carriage return, and a trailing newline ends the last line rather
/// than opening an empty one.
pub open spec fn lines_of(t: Seq<char>) -> Seq<Seq<char>>
    decreases t.len(),
{
    if t.len() == 0 {
        Seq::empty()
    } else {
        let p = nl_pos(t);
        if 0 <= p < t.len() {
            seq![strip_cr(t.take(p))] + lines_of(t.skip(p + 1))
        } else {
            seq![strip_cr(t)]
        }
    }
}

/// `meta_lookup` over builder entries agrees with the lookup over their
/// views.
pub open spec fn meta_lookup_v(m: Seq<(Seq<char>, Seq<char>)>, key: Seq<char>) -> Option<
    Seq<char>,
>
    decreases m.len(),
{
    if m.len() == 0 {
        None
    } else if m.last().0 == key {
        Some(m.last().1)
    } else {
        meta_lookup_v(m.drop_last(), key)
    }
}

pub proof fn lemma_meta_lookup_map(m: Seq<(String, String)>, key: Seq<char>)
    ensures
        crate::bms::chart::meta_lookup(m, key) == meta_lookup_v(
            m.map_values(|p: (String, String)| (p.0@, p.1@)),
            key,
        ),
    decreases m.len(),
{
    let mv = m.map_values(|p: (String, String)| (p.0@, p.1@));
    if m.len() > 0 {
        assert(mv.last() == (m.last().0@, m.last().1@));
        assert(m.drop_last().map_values(|p: (String, String)| (p.0@, p.1@)) =~= mv.drop_last());
        lemma_meta_lookup_map(m.drop_last(), key);
    }
}

/// The chart title a final parser state yields.
pub open spec fn chart_title(st: ChartState) -> Seq<char> {
    match meta_lookup_v(st.metadata, "TITLE"@) {
        Some(t) => t,
        None => "MISSING TITLE"@,
    }
}

/// The chart artist a final parser state yields.
pub open spec fn chart_artist(st: ChartState) -> Seq<char> {
    match meta_lookup_v(st.metadata, "ARTIST"@) {
        Some(t) => t,
        None => "MISSING ARTIST"@,
    }
}

/// The timeline events a final parser state yields.
pub open spec fn timeline_model(st: ChartState) -> Seq<crate::bms::timeline::Event> {
    crate::bms::timeline::model_cache(
        crate::bms::timeline::walk(
            st.cmds,
            st.measure_lens,
            crate::bms::timeline::dedup_sorted(
                crate::bms::timeline::insort(
                    crate::bms::timeline::cmd_measures(st.cmds)
                        + crate::bms::timeline::len_changes(st.measure_lens, 1000),
                ),
            ),
            st.base_bpm,
            crate::bms::timeline::dedup_sorted(
                crate::bms::timeline::insort(
                    crate::bms::timeline::cmd_measures(st.cmds)
                        + crate::bms::timeline::len_changes(st.measure_lens, 1000),
                ),
            ).len() as int,
        ).2,
    )
}

/// Whether `p` occurs in `s` at character offset `at`.
fn has_prefix(s: &str, at: usize, p: &str) -> (r: bool)
    ensures
        r == prefix_at(s@, at as int, p@),
{
    let n = s.unicode_len();
    let m = p.unicode_len();
    if at > n || m > n - at {
        return false;
    }
    let mut k: usize = 0;
    while k < m
        invariant
            k <= m,
            m == p@.len(),
            n == s@.len(),
            at + m <= n,
            forall|i: int| 0 <= i < k ==> s@[at + i] == #[trigger] p@[i],
        decreases m - k,
    {
        if s.get_char(at + k) != p.get_char(k) {
            return false;
        }
        k = k + 1;
    }
    true
}

/// The hexadecimal value of a two-character token, if it is one.
fn hex2(s: &str) -> (r: Option<u32>)
    ensures
        r is Some <==> hex2_ok(s@),
        r is Some ==> r->0 == hex2_val(s@) && r->0 <= 255,
{
    let n = s.unicode_len();
    if n != 2 {
        return None;
    }
    let d0 = hex_value(s.get_char(0));
    let d1 = hex_value(s.get_char(1));
    if d0 < 16 && d1 < 16 {
        Some(16 * d0 + d1)
    } else {
        None
    }
}

/// The hexadecimal value of a character, or 16 if it is no hexadecimal
/// digit.
fn hex_value(c: char) -> (r: u32)
    ensures
        hex_digit(c) >= 0 ==> r == hex_digit(c),
        hex_digit(c) < 0 ==> r == 16,
{
    let u = c as u32;
    if 48 <= u && u <= 57 {
        u - 48
    } else if 65 <= u && u <= 70 {
        u - 55
    } else if 97 <= u && u <= 102 {
        u - 87
    } else {
        16
    }
}

/// The metadata keyword with the given priority index.
fn keyword_str(i: usize) -> (r: &'static str)
    requires
        i < 8,
    ensures
        r@ == meta_keyword(i as int),
{
    if i == 0 {
        "PLAYER"
    } else if i == 1 {
        "GENRE"
    } else if i == 2 {
        "TITLE"
    } else if i == 3 {
        "ARTIST"
    } else if i == 4 {
        "PLAYLEVEL"
    } else if i == 5 {
        "RANK"
    } else if i == 6 {
        "TOTAL"
    } else {
        "STAGEFILE"
    }
}

/// A three-digit string reads to its positional value.
proof fn lemma_digits3(t: Seq<char>)
    requires
        t.len() == 3,
    ensures
        digits_val(t) == (t[0] as u32 - 48) * 100 + (t[1] as u32 - 48) * 10 + (t[2] as u32
            - 48),
{
    let t2 = t.drop_last();
    let t1 = t2.drop_last();
    assert(t1.drop_last().len() == 0);
    assert(digits_val(t1.drop_last()) == 0);
    assert(t1.last() == t[0] && t2.last() == t[1] && t.last() == t[2]);
    assert(digits_val(t1) == t[0] as u32 - 48);
    assert(digits_val(t2) == digits_val(t1) * 10 + (t[1] as u32 - 48));
    assert(digits_val(t) == digits_val(t2) * 10 + (t[2] as u32 - 48));
}

/// A two-digit string reads to its positional value.
proof fn lemma_digits2(t: Seq<char>)
    requires
        t.len() == 2,
    ensures
        digits_val(t) == (t[0] as u32 - 48) * 10 + (t[1] as u32 - 48),
{
    let t2 = t.drop_last();
    assert(t2.drop_last().len() == 0);
    assert(digits_val(t2.drop_last()) == 0);
    assert(t2.last() == t[0] && t.last() == t[1]);
    assert(digits_val(t2) == t[0] as u32 - 48);
    assert(digits_val(t) == digits_val(t2) * 10 + (t[1] as u32 - 48));
}

/// Grammar 1: metadata lines.
pub struct MetadataParser;

impl MetadataParser {
    /// Match a metadata line into its keyword and trimmed value.
    pub fn parse_line(&self, line: &String) -> (r: Option<(String, String)>)
        ensures
            match meta_match(line@) {
                Some(p) => r is Some && (r->0).0@ == meta_keyword(p.0) && (r->0).1@ == p.1,
                None => r is None,
            },
    {
        let s = line.as_str();
        let n = s.unicode_len();
        if n < 1 {
            return None;
        }
        if s.get_char(0) != '#' {
            return None;
        }
        let mut i: usize = 0;
        while i < 8
            invariant
                i <= 8,
                n == s@.len(),
                s@ == line@,
                n >= 1,
                s@[0] == '#',
                meta_match(line@) == meta_match_from(line@, i as int),
            decreases 8 - i,
        {
            let kw = keyword_str(i);
            if has_prefix(s, 1, kw) {
                let kwlen = kw.unicode_len();
                let value = trim_str(s.substring_char(1 + kwlen, n));
                proof {
                    assert(s@.subrange(1 + kwlen as int, n as int) =~= s@.skip(1 + kwlen as int));
                }
                return Some((kw.to_owned(), value));
            }
            i = i + 1;
        }
        None
    }

    /// Apply: store the metadata entry in the builder.
    pub fn parse_line_into_bms(&self, line: &String, bms_builder: &mut BmsBuilder) -> (r: bool)
        requires
            chart_builder_ok(*old(bms_builder)),
        ensures
            chart_builder_ok(*final(bms_builder)),
            match meta_match(line@) {
                Some(p) => r && chart_model(*final(bms_builder)) == meta_apply(
                    chart_model(*old(bms_builder)),
                    p.0,
                    p.1,
                ),
                None => !r && *final(bms_builder) == *old(bms_builder),
            },
    {
        match self.parse_line(line) {
            Some((header, value)) => {
                bms_builder.with_metadata(header, value);
                proof {
                    let st0 = chart_model(*old(bms_builder));
                    let p = meta_match(line@)->0;
                    assert(chart_model(*bms_builder).metadata =~= st0.metadata.push(
                        (meta_keyword(p.0), p.1),
                    ));
                    assert(chart_model(*bms_builder).keysounds =~= st0.keysounds);
                    assert(chart_model(*bms_builder).bga_layers =~= st0.bga_layers);
                    assert(chart_model(*bms_builder) == meta_apply(st0, p.0, p.1));
                }
                true
            },
            None => false,
        }
    }
}

/// Grammar 2: keysound registration lines.
pub struct WavParser;

impl WavParser {
    pub fn new() -> (r: WavParser)
    {
        WavParser
    }

    /// Match a keysound line into its trimmed key token and trimmed
    /// path.
    pub fn parse_line(&self, line: &String) -> (r: Option<(String, String)>)
        ensures
            match wav_match(line@) {
                Some(p) => r is Some && (r->0).0@ == trim_spec(p.0) && (r->0).1@ == p.1,
                None => r is None,
            },
    {
        let s = line.as_str();
        let n = s.unicode_len();
        if !has_prefix(s, 0, "#WAV") || n < 7 {
            return None;
        }
        if s.get_char(6) != ' ' {
            return None;
        }
        let key = trim_str(s.substring_char(4, 6));
        let data = trim_str(s.substring_char(7, n));
        proof {
            assert(s@.subrange(4, 6) =~= line@.subrange(4, 6));
            assert(s@.subrange(7, n as int) =~= line@.skip(7));
        }
        Some((key, data))
    }

    /// Apply: register the path under the decoded key.
    pub fn parse_line_into_bms(&self, line: &String, bms_builder: &mut BmsBuilder) -> (r: bool)
        requires
            chart_builder_ok(*old(bms_builder)),
        ensures
            chart_builder_ok(*final(bms_builder)),
            match wav_match(line@) {
                Some(p) => r && chart_model(*final(bms_builder)) == wav_apply(
                    chart_model(*old(bms_builder)),
                    p.0,
                    p.1,
                ),
                None => !r && *final(bms_builder) == *old(bms_builder),
            },
    {
        match self.parse_line(line) {
            Some((key_s, data)) => {
                let key = Alphanumeric::from_str(key_s.as_str());
                bms_builder.with_keysound(key, data);
                proof {
                    let st0 = chart_model(*old(bms_builder));
                    let p = wav_match(line@)->0;
                    assert(chart_model(*bms_builder).keysounds =~= st0.keysounds.update(
                        decode36(trim_spec(p.0)),
                        Some(p.1),
                    ));
                    assert(chart_model(*bms_builder).metadata =~= st0.metadata);
                    assert(chart_model(*bms_builder).bga_layers =~= st0.bga_layers);
                    assert(chart_model(*bms_builder) == wav_apply(st0, p.0, p.1));
                }
                true
            },
            None => false,
        }
    }
}

/// Grammar 3: background-layer registration lines.
pub struct BgaParser;

impl BgaParser {
    pub fn new() -> (r: BgaParser)
    {
        BgaParser
    }

    /// Match a background-layer line into its trimmed key token and
    /// trimmed path.
    pub fn parse_line(&self, line: &String) -> (r: Option<(String, String)>)
        ensures
            match bga_match(line@) {
                Some(p) => r is Some && (r->0).0@ == trim_spec(p.0) && (r->0).1@ == p.1,
                None => r is None,
            },
    {
        let s = line.as_str();
        let n = s.unicode_len();
        if !has_prefix(s, 0, "#BMP") || n < 7 {
            return None;
        }
        if s.get_char(6) != ' ' {
            return None;
        }
        let key = trim_str(s.substring_char(4, 6));
        let data = trim_str(s.substring_char(7, n));
        proof {
            assert(s@.subrange(4, 6) =~= line@.subrange(4, 6));
            assert(s@.subrange(7, n as int) =~= line@.skip(7));
        }
        Some((key, data))
    }

    /// Apply: register the path under the decoded key.
    pub fn parse_line_into_bms(&self, line: &String, bms_builder: &mut BmsBuilder) -> (r: bool)
        requires
            chart_builder_ok(*old(bms_builder)),
        ensures
            chart_builder_ok(*final(bms_builder)),
            match bga_match(line@) {
                Some(p) => r && chart_model(*final(bms_builder)) == bga_apply(
                    chart_model(*old(bms_builder)),
                    p.0,
                    p.1,
                ),
                None => !r && *final(bms_builder) == *old(bms_builder),
            },
    {
        match self.parse_line(line) {
            Some((key_s, data)) => {
                let key = Alphanumeric::from_str(key_s.as_str());
                bms_builder.with_bga_layer(key, data);
                proof {
                    let st0 = chart_model(*old(bms_builder));
                    let p = bga_match(line@)->0;
                    assert(chart_model(*bms_builder).bga_layers =~= st0.bga_layers.update(
                        decode36(trim_spec(p.0)),
                        Some(p.1),
                    ));
                    assert(chart_model(*bms_builder).metadata =~= st0.metadata);
                    assert(chart_model(*bms_builder).keysounds =~= st0.keysounds);
                    assert(chart_model(*bms_builder) == bga_apply(st0, p.0, p.1));
                }
                true
            },
            None => false,
        }
    }
}

/// Grammar 4: tempo declaration lines.
pub struct BpmParser;

impl BpmParser {
    pub fn new() -> (r: BpmParser)
    {
        BpmParser
    }

    /// Match a tempo declaration into its trimmed key token (possibly
    /// empty) and trimmed value.
    pub fn parse_line(&self, line: &String) -> (r: Option<(String, String)>)
        ensures
            match bpm_match(line@) {
                Some(p) => r is Some && (r->0).0@ == trim_spec(p.0) && (r->0).1@ == p.1,
                None => r is None,
            },
    {
        let s = line.as_str();
        let n = s.unicode_len();
        if !has_prefix(s, 0, "#BPM") {
            return None;
        }
        if n >= 5 && s.get_char(4) == ' ' {
            let data = trim_str(s.substring_char(5, n));
            proof {
                assert(s@.subrange(5, n as int) =~= line@.skip(5));
                assert(trim_spec(Seq::<char>::empty()) =~= Seq::<char>::empty());
            }
            return Some((String::new(), data));
        }
        if n >= 7 && s.get_char(6) == ' ' {
            let key = trim_str(s.substring_char(4, 6));
            let data = trim_str(s.substring_char(7, n));
            proof {
                assert(s@.subrange(4, 6) =~= line@.subrange(4, 6));
                assert(s@.subrange(7, n as int) =~= line@.skip(7));
            }
            return Some((key, data));
        }
        None
    }

    /// Apply: a malformed or zero value is fatal; an empty or
    /// placeholder key sets the base tempo, any other key populates the
    /// named tempo table.
    pub fn parse_line_into_bms(&self, line: &String, bms_builder: &mut BmsBuilder) -> (r:
        Result<bool, LoadError>)
        requires
            chart_builder_ok(*old(bms_builder)),
        ensures
            chart_builder_ok(*final(bms_builder)),
            match bpm_match(line@) {
                Some(p) => match bpm_apply(chart_model(*old(bms_builder)), p.0, p.1) {
                    Ok(st2) => r == Ok::<bool, LoadError>(true) && chart_model(
                        *final(bms_builder),
                    ) == st2,
                    Err(e) => r == Err::<bool, LoadError>(e) && *final(bms_builder) == *old(
                        bms_builder,
                    ),
                },
                None => r == Ok::<bool, LoadError>(false) && *final(bms_builder) == *old(
                    bms_builder,
                ),
            },
    {
        match self.parse_line(line) {
            None => Ok(false),
            Some((key_s, val_s)) => {
                match parse_milli(val_s.as_str()) {
                    None => Err(LoadError::TempoValue),
                    Some(v) => {
                        if v == 0 {
                            Err(LoadError::TempoValue)
                        } else {
                            let key = Alphanumeric::from_str(key_s.as_str());
                            let ghost st0 = chart_model(*old(bms_builder));
                            let ghost p = bpm_match(line@)->0;
                            if key.key == 0 {
                                bms_builder.timeline_builder.with_base_bpm(v);
                                proof {
                                    assert(chart_model(*bms_builder) == (ChartState {
                                        base_bpm: number_milli(p.1) as u64,
                                        ..st0
                                    }));
                                }
                            } else {
                                bms_builder.with_bpm(key, v);
                                proof {
                                    assert(chart_model(*bms_builder).bpms =~= st0.bpms.update(
                                        decode36(trim_spec(p.0)),
                                        number_milli(p.1) as u64,
                                    ));
                                    assert(chart_model(*bms_builder) == (ChartState {
                                        bpms: st0.bpms.update(
                                            decode36(trim_spec(p.0)),
                                            number_milli(p.1) as u64,
                                        ),
                                        ..st0
                                    }));
                                }
                            }
                            Ok(true)
                        }
                    },
                }
            },
        }
    }
}

/// Grammar 5: stop-duration declaration lines.
pub struct StopParser;

impl StopParser {
    pub fn new() -> (r: StopParser)
    {
        StopParser
    }

    /// Match a stop declaration into its trimmed key token and trimmed
    /// value.
    pub fn parse_line(&self, line: &String) -> (r: Option<(String, String)>)
        ensures
            match stop_match(line@) {
                Some(p) => r is Some && (r->0).0@ == trim_spec(p.0) && (r->0).1@ == p.1,
                None => r is None,
            },
    {
        let s = line.as_str();
        let n = s.unicode_len();
        if !has_prefix(s, 0, "#STOP") || n < 8 {
            return None;
        }
        if s.get_char(7) != ' ' {
            return None;
        }
        let key = trim_str(s.substring_char(5, 7));
        let data = trim_str(s.substring_char(8, n));
        proof {
            assert(s@.subrange(5, 7) =~= line@.subrange(5, 7));
            assert(s@.subrange(8, n as int) =~= line@.skip(8));
        }
        Some((key, data))
    }

    /// Apply: a malformed value is fatal; the value is stored under the
    /// decoded key.
    pub fn parse_line_into_bms(&self, line: &String, bms_builder: &mut BmsBuilder) -> (r:
        Result<bool, LoadError>)
        requires
            chart_builder_ok(*old(bms_builder)),
        ensures
            chart_builder_ok(*final(bms_builder)),
            match stop_match(line@) {
                Some(p) => match stop_apply(chart_model(*old(bms_builder)), p.0, p.1) {
                    Ok(st2) => r == Ok::<bool, LoadError>(true) && chart_model(
                        *final(bms_builder),
                    ) == st2,
                    Err(e) => r == Err::<bool, LoadError>(e) && *final(bms_builder) == *old(
                        bms_builder,
                    ),
                },
                None => r == Ok::<bool, LoadError>(false) && *final(bms_builder) == *old(
                    bms_builder,
                ),
            },
    {
        match self.parse_line(line) {
            None => Ok(false),
            Some((key_s, val_s)) => {
                match parse_milli(val_s.as_str()) {
                    None => Err(LoadError::StopValue),
                    Some(v) => {
                        let key = Alphanumeric::from_str(key_s.as_str());
                        let ghost st0 = chart_model(*old(bms_builder));
                        let ghost p = stop_match(line@)->0;
                        bms_builder.with_stop(key, v);
                        proof {
                            assert(chart_model(*bms_builder).stops =~= st0.stops.update(
                                decode36(trim_spec(p.0)),
                                number_milli(p.1) as u64,
                            ));
                            assert(chart_model(*bms_builder) == (ChartState {
                                stops: st0.stops.update(
                                    decode36(trim_spec(p.0)),
                                    number_milli(p.1) as u64,
                                ),
                                ..st0
                            }));
                        }
                        Ok(true)
                    },
                }
            },
        }
    }
}

/// Grammar 6: channel/measure data lines.
pub struct ObjParser;

impl ObjParser {
    pub fn new() -> (r: ObjParser)
    {
        ObjParser
    }

    /// Channel data carries no simple key/value pair; this grammar only
    /// applies through `parse_line_into_bms`.
    pub fn parse_line(&self, _line: &String) -> (r: Option<(String, String)>)
        ensures
            r is None,
    {
        None
    }

    /// Apply a channel-data line: split the payload into two-character
    /// slots at evenly subdivided score positions and dispatch on the
    /// channel — placed objects, inline tempos, named tempos, stops, or
    /// a measure-length override.
    #[verifier::rlimit(60)]
    pub fn parse_line_into_bms(&self, line: &String, bms_builder: &mut BmsBuilder) -> (r: Result<
        bool,
        LoadError,
    >)
        requires
            chart_builder_ok(*old(bms_builder)),
        ensures
            chart_builder_ok(*final(bms_builder)),
            match chan_match(line@) {
                Some(t) => match chan_step(chart_model(*old(bms_builder)), t.0, t.1, t.2) {
                    Ok(st2) => r == Ok::<bool, LoadError>(chan_matched(t.1, t.2))
                        && chart_model(*final(bms_builder)) == st2,
                    Err(e) => r == Err::<bool, LoadError>(e) && *final(bms_builder) == *old(
                        bms_builder,
                    ),
                },
                None => r == Ok::<bool, LoadError>(false) && *final(bms_builder) == *old(
                    bms_builder,
                ),
            },
    {
        let s = line.as_str();
        let n = s.unicode_len();
        if n < 7 {
            return Ok(false);
        }
        if s.get_char(0) != '#' || s.get_char(6) != ':' {
            return Ok(false);
        }
        let u1 = s.get_char(1) as u32;
        let u2 = s.get_char(2) as u32;
        let u3 = s.get_char(3) as u32;
        let u4 = s.get_char(4) as u32;
        let u5 = s.get_char(5) as u32;
        if u1 < 48 || u1 > 57 || u2 < 48 || u2 > 57 || u3 < 48 || u3 > 57 || u4 < 48 || u4 > 57
            || u5 < 48 || u5 > 57 {
            return Ok(false);
        }
        let measure: u32 = (u1 - 48) * 100 + (u2 - 48) * 10 + (u3 - 48);
        let channel: u32 = (u4 - 48) * 10 + (u5 - 48);
        let payload = trim_str(s.substring_char(7, n));
        let plen = payload.as_str().unicode_len();
        let ghost st0 = chart_model(*old(bms_builder));
        let ghost t = chan_match(line@)->0;
        proof {
            assert(s@.subrange(7, n as int) =~= line@.skip(7));
            let m3 = line@.subrange(1, 4);
            assert(m3[0] == line@[1] && m3[1] == line@[2] && m3[2] == line@[3]);
            lemma_digits3(m3);
            let c2 = line@.subrange(4, 6);
            assert(c2[0] == line@[4] && c2[1] == line@[5]);
            lemma_digits2(c2);
            assert(t.0 == measure && t.1 == channel && t.2 == payload@);
            assert(measure <= 999 && channel <= 99);
        }
        if channel == 1 || channel == 4 || (channel >= 11 && channel <= 16) || channel == 18
            || channel == 19 {
            // Placement channels: each non-placeholder slot yields an
            // object.
            if plen % 2 != 0 {
                return Ok(false);
            }
            let nslots = plen / 2;
            let mut k: usize = 0;
            while k < nslots
                invariant
                    k <= nslots,
                    nslots == payload@.len() / 2,
                    plen == payload@.len(),
                    plen % 2 == 0,
                    measure <= 999,
                    is_placement(channel),
                    chart_builder_ok(*bms_builder),
                    chart_model(*bms_builder) == (ChartState {
                        objects: st0.objects + slot_objs(
                            measure as int,
                            channel,
                            payload@,
                            k as int,
                        ),
                        ..st0
                    }),
                decreases nslots - k,
            {
                let tok = payload.as_str().substring_char(2 * k, 2 * k + 2);
                let key = Alphanumeric::from_str(tok);
                proof {
                    assert(tok@ =~= payload@.subrange(2 * k as int, 2 * (k as int) + 2));
                }
                if key.key != 0 {
                    proof {
                        vstd::arithmetic::div_mod::lemma_multiply_divide_lt(
                            (k as int) * 1_000_000,
                            nslots as int,
                            1_000_000,
                        );
                        assert((k as int) * 1_000_000 < (nslots as int) * 1_000_000);
                    }
                    let pos = (measure as u64) * 1_000_000 + (((k as u128) * 1_000_000)
                        / (nslots as u128)) as u64;
                    let objtype = if channel == 4 {
                        ObjType::BGA(key)
                    } else if channel == 1 {
                        ObjType::Auto(key)
                    } else {
                        ObjType::Note(key)
                    };
                    bms_builder.add_object(
                        Object {
                            time: 0,
                            measure: pos,
                            channel,
                            objtype,
                            hit_offset: None,
                            longnote_hit_offset: None,
                        },
                    );
                }
                proof {
                    assert(chart_model(*bms_builder).objects =~= st0.objects + slot_objs(
                        measure as int,
                        channel,
                        payload@,
                        k as int + 1,
                    ));
                }
                k = k + 1;
            }
            proof {
                assert(chan_step(st0, t.0, t.1, t.2) == Ok::<ChartState, LoadError>(
                    chart_model(*bms_builder),
                ));
            }
            Ok(true)
        } else if channel == 3 {
            // Inline tempo: the slot value is the tempo itself; any
            // malformed slot is fatal, checked before anything is
            // applied.
            if plen % 2 != 0 {
                return Ok(false);
            }
            let nslots = plen / 2;
            let mut k: usize = 0;
            while k < nslots
                invariant
                    k <= nslots,
                    nslots == payload@.len() / 2,
                    plen == payload@.len(),
                    plen % 2 == 0,
                    forall|i: int| 0 <= i < k ==> hex2_ok(
                        #[trigger] payload@.subrange(2 * i, 2 * i + 2),
                    ),
                    *bms_builder == *old(bms_builder),
                    chart_builder_ok(*bms_builder),
                    channel == 3,
                    chan_match(line@) == Some((measure, channel, payload@)),
                decreases nslots - k,
            {
                let tok = payload.as_str().substring_char(2 * k, 2 * k + 2);
                proof {
                    assert(tok@ =~= payload@.subrange(2 * k as int, 2 * (k as int) + 2));
                }
                match hex2(tok) {
                    None => {
                        proof {
                            assert(!hex2_ok(payload@.subrange(2 * k as int, 2 * (k as int) + 2)));
                            assert(!hex_slots_ok(payload@));
                        }
                        return Err(LoadError::InlineTempo);
                    },
                    Some(_) => {},
                }
                k = k + 1;
            }
            proof {
                assert(hex_slots_ok(payload@));
            }
            let mut k2: usize = 0;
            while k2 < nslots
                invariant
                    k2 <= nslots,
                    nslots == payload@.len() / 2,
                    plen == payload@.len(),
                    plen % 2 == 0,
                    measure <= 999,
                    channel == 3,
                    hex_slots_ok(payload@),
                    chart_builder_ok(*bms_builder),
                    chart_model(*bms_builder) == (ChartState {
                        cmds: st0.cmds + tempo3_cmds(measure as int, payload@, k2 as int),
                        ..st0
                    }),
                decreases nslots - k2,
            {
                let tok = payload.as_str().substring_char(2 * k2, 2 * k2 + 2);
                proof {
                    assert(tok@ =~= payload@.subrange(2 * k2 as int, 2 * (k2 as int) + 2));
                    assert(hex2_ok(payload@.subrange(2 * k2 as int, 2 * (k2 as int) + 2)));
                }
                match hex2(tok) {
                    Some(v) => {
                        if v != 0 {
                            proof {
                                vstd::arithmetic::div_mod::lemma_multiply_divide_lt(
                                    (k2 as int) * 1_000_000,
                                    nslots as int,
                                    1_000_000,
                                );
                                assert((k2 as int) * 1_000_000 < (nslots as int) * 1_000_000);
                            }
                            let pos = (measure as u64) * 1_000_000 + (((k2 as u128)
                                * 1_000_000) / (nslots as u128)) as u64;
                            bms_builder.timeline_builder.with_event(
                                TimelineEvent::BPM { measure: pos, bpm: (v as u64) * 1000 },
                            );
                        }
                    },
                    None => {
                        proof {
                            assert(false);
                        }
                    },
                }
                proof {
                    assert(chart_model(*bms_builder).cmds =~= st0.cmds + tempo3_cmds(
                        measure as int,
                        payload@,
                        k2 as int + 1,
                    ));
                }
                k2 = k2 + 1;
            }
            proof {
                assert(chan_step(st0, t.0, t.1, t.2) == Ok::<ChartState, LoadError>(
                    chart_model(*bms_builder),
                ));
            }
            Ok(true)
        } else if channel == 8 {
            // Named tempo: each slot key is looked up; a miss is
            // filtered — it must never reach the timeline builder.
            if plen % 2 != 0 {
                return Ok(false);
            }
            let nslots = plen / 2;
            let mut k: usize = 0;
            while k < nslots
                invariant
                    k <= nslots,
                    nslots == payload@.len() / 2,
                    plen == payload@.len(),
                    plen % 2 == 0,
                    measure <= 999,
                    channel == 8,
                    chart_builder_ok(*bms_builder),
                    chart_model(*bms_builder) == (ChartState {
                        cmds: st0.cmds + tempo8_cmds(
                            measure as int,
                            payload@,
                            st0.bpms,
                            k as int,
                        ),
                        ..st0
                    }),
                decreases nslots - k,
            {
                let tok = payload.as_str().substring_char(2 * k, 2 * k + 2);
                let key = Alphanumeric::from_str(tok);
                proof {
                    assert(tok@ =~= payload@.subrange(2 * k as int, 2 * (k as int) + 2));
                }
                let v = bms_builder.timeline_builder.find_bpm(key);
                if v != 0 {
                    proof {
                        vstd::arithmetic::div_mod::lemma_multiply_divide_lt(
                            (k as int) * 1_000_000,
                            nslots as int,
                            1_000_000,
                        );
                        assert((k as int) * 1_000_000 < (nslots as int) * 1_000_000);
                        assert(v <= crate::bms::timeline::VALUE_CAP);
                    }
                    let pos = (measure as u64) * 1_000_000 + (((k as u128) * 1_000_000)
                        / (nslots as u128)) as u64;
                    bms_builder.timeline_builder.with_event(
                        TimelineEvent::BPM { measure: pos, bpm: v },
                    );
                }
                proof {
                    assert(chart_model(*bms_builder).cmds =~= st0.cmds + tempo8_cmds(
                        measure as int,
                        payload@,
                        st0.bpms,
                        k as int + 1,
                    ));
                }
                k = k + 1;
            }
            proof {
                assert(chan_step(st0, t.0, t.1, t.2) == Ok::<ChartState, LoadError>(
                    chart_model(*bms_builder),
                ));
            }
            Ok(true)
        } else if channel == 9 {
            // Stop commands: each slot key is looked up in the named
            // stop table; a miss is filtered identically.
            if plen % 2 != 0 {
                return Ok(false);
            }
            let nslots = plen / 2;
            let mut k: usize = 0;
            while k < nslots
                invariant
                    k <= nslots,
                    nslots == payload@.len() / 2,
                    plen == payload@.len(),
                    plen % 2 == 0,
                    measure <= 999,
                    channel == 9,
                    chart_builder_ok(*bms_builder),
                    chart_model(*bms_builder) == (ChartState {
                        cmds: st0.cmds + stop9_cmds(
                            measure as int,
                            payload@,
                            st0.stops,
                            k as int,
                        ),
                        ..st0
                    }),
                decreases nslots - k,
            {
                let tok = payload.as_str().substring_char(2 * k, 2 * k + 2);
                let key = Alphanumeric::from_str(tok);
                proof {
                    assert(tok@ =~= payload@.subrange(2 * k as int, 2 * (k as int) + 2));
                }
                let v = bms_builder.timeline_builder.find_stop(key);
                if v != 0 {
                    proof {
                        vstd::arithmetic::div_mod::lemma_multiply_divide_lt(
                            (k as int) * 1_000_000,
                            nslots as int,
                            1_000_000,
                        );
                        assert((k as int) * 1_000_000 < (nslots as int) * 1_000_000);
                        assert(v <= crate::bms::timeline::VALUE_CAP);
                    }
                    let pos = (measure as u64) * 1_000_000 + (((k as u128) * 1_000_000)
                        / (nslots as u128)) as u64;
                    bms_builder.timeline_builder.with_event(
                        TimelineEvent::STOP { measure: pos, duration: v },
                    );
                }
                proof {
                    assert(chart_model(*bms_builder).cmds =~= st0.cmds + stop9_cmds(
                        measure as int,
                        payload@,
                        st0.stops,
                        k as int + 1,
                    ));
                }
                k = k + 1;
            }
            proof {
                assert(chan_step(st0, t.0, t.1, t.2) == Ok::<ChartState, LoadError>(
                    chart_model(*bms_builder),
                ));
            }
            Ok(true)
        } else if channel == 2 {
            // Measure length override: the payload is one decimal
            // number, not slot-encoded.
            match parse_milli(payload.as_str()) {
                None => Err(LoadError::MeasureLength),
                Some(v) => {
                    if v == 0 {
                        Err(LoadError::MeasureLength)
                    } else {
                        bms_builder.timeline_builder.with_measure_len(measure, v);
                        proof {
                            assert(chart_model(*bms_builder).measure_lens
                                =~= st0.measure_lens.update(
                                measure as int,
                                number_milli(payload@) as u64,
                            ));
                            assert(chart_model(*bms_builder) == (ChartState {
                                measure_lens: st0.measure_lens.update(
                                    measure as int,
                                    number_milli(payload@) as u64,
                                ),
                                ..st0
                            }));
                        }
                        Ok(true)
                    }
                },
            }
        } else {
            Ok(false)
        }
    }
}

/// A tempo declaration whose literal is malformed (or zero) is a fatal
/// load error: the whole load aborts on that line.
pub proof fn lemma_bad_tempo_fatal(st: ChartState, line: Seq<char>)
    requires
        meta_match(line) is None,
        wav_match(line) is None,
        bga_match(line) is None,
        bpm_match(line) is Some,
        !number_valid((bpm_match(line)->0).1) || number_milli((bpm_match(line)->0).1) == 0,
    ensures
        line_step(st, line) == Err::<ChartState, LoadError>(LoadError::TempoValue),
{
}

/// A reference to an undefined named-table entry is never fatal: the
/// named tempo and stop channels always apply cleanly, dropping misses
/// silently.
pub proof fn lemma_named_miss_not_fatal(st: ChartState, m: u32, payload: Seq<char>)
    ensures
        chan_step(st, m, 8, payload) is Ok,
        chan_step(st, m, 9, payload) is Ok,
{
}

/// The scan that stops at the first newline finds `nl_pos`.
proof fn lemma_nl_pos(t: Seq<char>, d: int)
    requires
        0 <= d <= t.len(),
        forall|k: int| 0 <= k < d ==> #[trigger] t[k] != '\n',
        d == t.len() || t[d] == '\n',
    ensures
        nl_pos(t) == d,
    decreases d,
{
    if d > 0 {
        assert(t[0] != '\n');
        let t2 = t.drop_first();
        assert(forall|k: int| 0 <= k < d - 1 ==> t2[k] == #[trigger] t[k + 1]);
        assert(forall|k: int| 0 <= k < d - 1 ==> #[trigger] t2[k] != '\n');
        lemma_nl_pos(t2, d - 1);
    }
}

/// A parsed tempo change, as score position and tempo in scaled units.
#[derive(Clone, Copy, Debug)]
pub struct BPM {
    /// Score position in millionths of a measure.
    pub measure: u64,
    /// Tempo in thousandths of a BPM.
    pub bpm: u64,
}

/// A parsed stop command, as score position and duration in scaled
/// units. Most stop values are integers.
#[derive(Clone, Copy, Debug)]
pub struct STOP {
    /// Score position in millionths of a measure.
    pub measure: u64,
    /// Duration in thousandths of a stop unit.
    pub stop_val: u64,
}

/// The name of what the UTF-8 decoder returns for a byte sequence.
pub uninterp spec fn decoded_utf8(bytes: Seq<u8>) -> Seq<char>;

/// Relies on the `encoding` crate's UTF_8 codec with
/// `DecoderTrap::Replace`: malformed sequences are replaced rather than
/// reported, so decoding is total, its result depends on the input
/// bytes alone, and an empty input decodes to the empty string.
#[verifier::external_body]
fn decode_text(bytes: &[u8]) -> (r: String)
    ensures
        r@ == decoded_utf8(bytes@),
        bytes@.len() == 0 ==> r@.len() == 0,
{
    encoding::Encoding::decode(
        encoding::all::UTF_8,
        bytes,
        encoding::DecoderTrap::Replace,
    ).unwrap_or_default()
}

/// The whole-chart parser.
pub struct BmsParser;

impl BmsParser {
    /// Parse chart source text, line by line, through the six grammars
    /// in priority order, and assemble the chart. The first fatal line
    /// aborts the load with no partial chart.
    pub fn parse_str(&self, source: &str) -> (r: Result<BMS, LoadError>)
        ensures
            match run_all(init_model(), lines_of(source@)) {
                Ok(st) => {
                    &&& r is Ok
                    &&& r->Ok_0.title@ == chart_title(st)
                    &&& r->Ok_0.artist@ == chart_artist(st)
                    &&& r->Ok_0.metadata@.map_values(|p: (String, String)| (p.0@, p.1@))
                        == st.metadata
                    &&& r->Ok_0.keysounds@.map_values(|o: Option<String>| opt_view(o))
                        == st.keysounds
                    &&& r->Ok_0.bga_layers@.map_values(|o: Option<String>| opt_view(o))
                        == st.bga_layers
                    &&& r->Ok_0.timeline.events@ == timeline_model(st)
                    &&& r->Ok_0.timeline.wf()
                    &&& r->Ok_0.objects@ == crate::bms::chart::resolve_times(
                        crate::bms::chart::insort_objs(st.objects),
                        timeline_model(st),
                    )
                },
                Err(e) => r == Err::<BMS, LoadError>(e),
            },
    {
        let n = source.unicode_len();
        let mut bms_builder = BmsBuilder::new();
        proof {
            assert(chart_model(bms_builder).metadata =~= init_model().metadata);
            assert(chart_model(bms_builder).objects =~= init_model().objects);
            assert(chart_model(bms_builder).keysounds =~= init_model().keysounds);
            assert(chart_model(bms_builder).bga_layers =~= init_model().bga_layers);
            assert(chart_model(bms_builder).bpms =~= init_model().bpms);
            assert(chart_model(bms_builder).stops =~= init_model().stops);
            assert(chart_model(bms_builder).measure_lens =~= init_model().measure_lens);
            assert(chart_model(bms_builder).cmds =~= init_model().cmds);
            assert(chart_model(bms_builder) == init_model());
            assert(source@.skip(0) =~= source@);
        }
        let mut start: usize = 0;
        while start < n
            invariant
                start <= n,
                n == source@.len(),
                chart_builder_ok(bms_builder),
                run_all(init_model(), lines_of(source@)) == run_all(
                    chart_model(bms_builder),
                    lines_of(source@.skip(start as int)),
                ),
            decreases n - start,
        {
            // Find the end of the current line.
            let mut p: usize = start;
            while p < n && source.get_char(p) != '\n'
                invariant
                    start <= p <= n,
                    n == source@.len(),
                    forall|k: int| start <= k < p ==> #[trigger] source@[k] != '\n',
                decreases n - p,
            {
                p = p + 1;
            }
            let ec: usize = if p > start && source.get_char(p - 1) == '\r' {
                p - 1
            } else {
                p
            };
            let line: String = source.substring_char(start, ec).to_owned();
            let ghost rem = source@.skip(start as int);
            let ghost np = (p - start) as int;
            proof {
                assert forall|k: int| 0 <= k < np implies #[trigger] rem[k] != '\n' by {
                    assert(rem[k] == source@[k + start]);
                }
                if np < rem.len() {
                    assert(rem[np] == source@[p as int]);
                }
                lemma_nl_pos(rem, np);
                assert(rem.take(np) =~= source@.subrange(start as int, p as int));
                assert(line@ == strip_cr(rem.take(np))) by {
                    if p > start && source@[p - 1] == '\r' {
                        assert(rem.take(np).len() == np);
                        assert(rem.take(np).last() == source@[p - 1]);
                        assert(source@.subrange(start as int, ec as int) =~= rem.take(
                            np,
                        ).drop_last());
                    } else {
                        if np > 0 {
                            assert(rem.take(np).last() == source@[p - 1]);
                        }
                        assert(source@.subrange(start as int, ec as int) =~= rem.take(np));
                    }
                }
            }
            let ghost stp = chart_model(bms_builder);
            let ghost lns = lines_of(rem);
            proof {
                assert(rem.len() > 0);
                if np < rem.len() {
                    assert(lns == seq![strip_cr(rem.take(np))] + lines_of(rem.skip(np + 1)));
                    assert(lns[0] == line@);
                    assert(lns.drop_first() =~= lines_of(rem.skip(np + 1)));
                } else {
                    assert(rem.take(np) =~= rem);
                    assert(lns == seq![strip_cr(rem)]);
                    assert(lns[0] == line@);
                    assert(lns.drop_first() =~= Seq::<Seq<char>>::empty());
                }
            }
            // Try the grammars in priority order; the first match wins.
            let mut fatal: Option<LoadError> = None;
            if !(MetadataParser {}).parse_line_into_bms(&line, &mut bms_builder) {
                if !(WavParser::new()).parse_line_into_bms(&line, &mut bms_builder) {
                    if !(BgaParser::new()).parse_line_into_bms(&line, &mut bms_builder) {
                        match (BpmParser::new()).parse_line_into_bms(&line, &mut bms_builder) {
                            Err(e) => {
                                fatal = Some(e);
                            },
                            Ok(true) => {},
                            Ok(false) => {
                                match (StopParser::new()).parse_line_into_bms(
                                    &line,
                                    &mut bms_builder,
                                ) {
                                    Err(e) => {
                                        fatal = Some(e);
                                    },
                                    Ok(true) => {},
                                    Ok(false) => {
                                        match (ObjParser::new()).parse_line_into_bms(
                                            &line,
                                            &mut bms_builder,
                                        ) {
                                            Err(e) => {
                                                fatal = Some(e);
                                            },
                                            Ok(_) => {},
                                        }
                                    },
                                }
                            },
                        }
                    }
                }
            }
            match fatal {
                Some(e) => {
                    proof {
                        assert(line_step(stp, line@) == Err::<ChartState, LoadError>(e));
                        assert(run_all(stp, lns) == Err::<ChartState, LoadError>(e));
                    }
                    return Err(e);
                },
                None => {},
            }
            proof {
                assert(line_step(stp, line@) == Ok::<ChartState, LoadError>(
                    chart_model(bms_builder),
                ));
                assert(run_all(stp, lns) == run_all(
                    chart_model(bms_builder),
                    lns.drop_first(),
                ));
                if np < rem.len() {
                    assert(source@.skip(start + np + 1) =~= rem.skip(np + 1));
                } else {
                    assert(source@.skip(n as int) =~= Seq::<char>::empty());
                    assert(lines_of(Seq::<char>::empty()) =~= Seq::<Seq<char>>::empty());
                }
            }
            start = if p < n {
                p + 1
            } else {
                n
            };
        }
        proof {
            assert(source@.skip(n as int) =~= Seq::<char>::empty());
            assert(lines_of(Seq::<char>::empty()) =~= Seq::<Seq<char>>::empty());
        }
        let ghost stf = chart_model(bms_builder);
        let ghost meta_saved = bms_builder.metadata@;
        let ghost tlb_saved = bms_builder.timeline_builder;
        let bms = bms_builder.build();
        proof {
            lemma_meta_lookup_map(meta_saved, "TITLE"@);
            lemma_meta_lookup_map(meta_saved, "ARTIST"@);
            assert(timeline_model(stf) == crate::bms::timeline::build_model(tlb_saved));
        }
        Ok(bms)
    }

    /// Parse raw chart bytes: decode them as UTF-8 with replacement,
    /// then parse the decoded text.
    pub fn parse(&self, contents: &[u8]) -> (r: Result<BMS, LoadError>)
        ensures
            match run_all(init_model(), lines_of(decoded_utf8(contents@))) {
                Ok(st) => {
                    &&& r is Ok
                    &&& r->Ok_0.title@ == chart_title(st)
                    &&& r->Ok_0.artist@ == chart_artist(st)
                    &&& r->Ok_0.metadata@.map_values(|p: (String, String)| (p.0@, p.1@))
                        == st.metadata
                    &&& r->Ok_0.keysounds@.map_values(|o: Option<String>| opt_view(o))
                        == st.keysounds
                    &&& r->Ok_0.bga_layers@.map_values(|o: Option<String>| opt_view(o))
                        == st.bga_layers
                    &&& r->Ok_0.timeline.events@ == timeline_model(st)
                    &&& r->Ok_0.timeline.wf()
                    &&& r->Ok_0.objects@ == crate::bms::chart::resolve_times(
                        crate::bms::chart::insort_objs(st.objects),
                        timeline_model(st),
                    )
                },
                Err(e) => r == Err::<BMS, LoadError>(e),
            },
    {
        let text = decode_text(contents);
        self.parse_str(text.as_str())
    }
}

/// The scan that stops at the first dot finds `dot_pos`.
proof fn lemma_dot_pos(t: Seq<char>, d: int)
    requires
        0 <= d <= t.len(),
        forall|k: int| 0 <= k < d ==> #[trigger] t[k] != '.',
        d == t.len() || t[d] == '.',
    ensures
        dot_pos(t) == d,
    decreases d,
{
    if d == 0 {
    } else {
        assert(t[0] != '.');
        let t2 = t.drop_first();
        assert(forall|k: int| 0 <= k < d - 1 ==> t2[k] == #[trigger] t[k + 1]);
        assert(forall|k: int| 0 <= k < d - 1 ==> #[trigger] t2[k] != '.');
        lemma_dot_pos(t2, d - 1);
    }
}

} // verus!
