//! Parsing of clock strings into a selection window.
//!
//! A time bound is written `SS`, `MM:SS` or `HH:MM:SS` with unsigned
//! decimal components and optional surrounding whitespace; an empty (or
//! all-whitespace, or absent) bound means 0, that is, unbounded. The value
//! is `HH * 3600 + MM * 60 + SS` seconds. Anything else — a stray
//! character, a fourth component, an empty component, a value beyond
//! `u64` — is rejected.

use vstd::prelude::*;
use vstd::string::*;
use crate::selector::SelectionWindow;

verus! {

/// An ASCII decimal digit.
pub open spec fn is_clock_digit(b: u8) -> bool {
    0x30 <= b <= 0x39
}

/// ASCII whitespace: space, tab, line feed, vertical tab, form feed,
/// carriage return.
pub open spec fn is_clock_space(b: u8) -> bool {
    b == 0x20 || (0x09 <= b <= 0x0d)
}

/// How many leading bytes are whitespace.
pub open spec fn leading_space(s: Seq<u8>) -> int
    decreases s.len(),
{
    if s.len() > 0 && is_clock_space(s[0]) {
        1 + leading_space(s.drop_first())
    } else {
        0
    }
}

/// How many trailing bytes are whitespace.
pub open spec fn trailing_space(s: Seq<u8>) -> int
    decreases s.len(),
{
    if s.len() > 0 && is_clock_space(s.last()) {
        1 + trailing_space(s.drop_last())
    } else {
        0
    }
}

/// The string with surrounding whitespace removed.
pub open spec fn clock_core(s: Seq<u8>) -> Seq<u8> {
    if leading_space(s) == s.len() {
        Seq::empty()
    } else {
        s.subrange(leading_space(s), s.len() - trailing_space(s))
    }
}

/// The index of the first `:` in `s`, or `s.len()` if there is none.
pub open spec fn first_colon(s: Seq<u8>) -> int
    decreases s.len(),
{
    if s.len() == 0 {
        0
    } else if s[0] == 0x3a {
        0
    } else {
        1 + first_colon(s.drop_first())
    }
}

/// A non-empty run of decimal digits.
pub open spec fn digit_run(s: Seq<u8>) -> bool {
    s.len() > 0 && forall|i: int| 0 <= i < s.len() ==> is_clock_digit(#[trigger] s[i])
}

/// The value of a digit run read as a decimal number.
pub open spec fn dec_val(s: Seq<u8>) -> int
    decreases s.len(),
{
    if s.len() == 0 {
        0
    } else {
        10 * dec_val(s.drop_last()) + (s.last() - 0x30)
    }
}

/// The value in seconds of a trimmed, non-empty clock string: one to three
/// colon-separated digit runs, weighted 3600, 60, 1 from the left.
pub open spec fn clock_value(core: Seq<u8>) -> Option<int> {
    let c1 = first_colon(core);
    if c1 == core.len() {
        if digit_run(core) {
            Option::Some(dec_val(core))
        } else {
            Option::None
        }
    } else {
        let p1 = core.take(c1);
        let rest1 = core.skip(c1 + 1);
        let c2 = first_colon(rest1);
        if c2 == rest1.len() {
            if digit_run(p1) && digit_run(rest1) {
                Option::Some(60 * dec_val(p1) + dec_val(rest1))
            } else {
                Option::None
            }
        } else {
            let p2 = rest1.take(c2);
            let rest2 = rest1.skip(c2 + 1);
            if first_colon(rest2) == rest2.len() && digit_run(p1) && digit_run(p2) && digit_run(
                rest2,
            ) {
                Option::Some(3600 * dec_val(p1) + 60 * dec_val(p2) + dec_val(rest2))
            } else {
                Option::None
            }
        }
    }
}

/// The value in seconds of a clock string: 0 when nothing but whitespace
/// is there, otherwise per [`clock_value`].
pub open spec fn clock_of(b: Seq<u8>) -> Option<int> {
    if clock_core(b).len() == 0 {
        Option::Some(0)
    } else {
        clock_value(clock_core(b))
    }
}

/// What [`parse_clock`] returns: the clock value when the string is valid
/// and the value fits `u64`.
pub open spec fn spec_parse_clock(b: Seq<u8>) -> Option<u64> {
    match clock_of(b) {
        Option::Some(v) => if v <= u64::MAX {
            Option::Some(v as u64)
        } else {
            Option::None
        },
        Option::None => Option::None,
    }
}

proof fn lemma_leading_space_char(s: Seq<u8>, a: int)
    requires
        0 <= a <= s.len(),
        forall|m: int| 0 <= m < a ==> is_clock_space(#[trigger] s[m]),
        a == s.len() || !is_clock_space(s[a]),
    ensures
        leading_space(s) == a,
    decreases s.len(),
{
    if a == 0 {
    } else {
        let q = s.drop_first();
        assert forall|m: int| 0 <= m < a - 1 implies is_clock_space(#[trigger] q[m]) by {
            assert(q[m] == s[m + 1]);
        }
        if a - 1 < q.len() {
            assert(q[a - 1] == s[a]);
        }
        lemma_leading_space_char(q, a - 1);
    }
}

proof fn lemma_trailing_space_char(s: Seq<u8>, e: int)
    requires
        0 <= e <= s.len(),
        forall|m: int| e <= m < s.len() ==> is_clock_space(#[trigger] s[m]),
        e == 0 || !is_clock_space(s[e - 1]),
    ensures
        trailing_space(s) == s.len() - e,
    decreases s.len(),
{
    if e == s.len() {
        if s.len() > 0 {
            assert(!is_clock_space(s.last()));
        }
    } else {
        assert(is_clock_space(s.last()));
        let q = s.drop_last();
        assert forall|m: int| e <= m < q.len() implies is_clock_space(#[trigger] q[m]) by {
            assert(q[m] == s[m]);
        }
        if e > 0 {
            assert(q[e - 1] == s[e - 1]);
        }
        lemma_trailing_space_char(q, e);
    }
}

proof fn lemma_first_colon_char(s: Seq<u8>, c: int)
    requires
        0 <= c <= s.len(),
        forall|m: int| 0 <= m < c ==> (#[trigger] s[m]) != 0x3a,
        c == s.len() || s[c] == 0x3a,
    ensures
        first_colon(s) == c,
    decreases s.len(),
{
    if c == 0 {
    } else {
        let q = s.drop_first();
        assert forall|m: int| 0 <= m < c - 1 implies (#[trigger] q[m]) != 0x3a by {
            assert(q[m] == s[m + 1]);
        }
        if c - 1 < q.len() {
            assert(q[c - 1] == s[c]);
        }
        lemma_first_colon_char(q, c - 1);
    }
}

proof fn lemma_dec_val_nonneg(s: Seq<u8>)
    requires
        forall|i: int| 0 <= i < s.len() ==> is_clock_digit(#[trigger] s[i]),
    ensures
        dec_val(s) >= 0,
    decreases s.len(),
{
    if s.len() > 0 {
        let q = s.drop_last();
        assert forall|i: int| 0 <= i < q.len() implies is_clock_digit(#[trigger] q[i]) by {
            assert(q[i] == s[i]);
        }
        lemma_dec_val_nonneg(q);
    }
}

/// A digit run is worth at least any of its prefixes.
proof fn lemma_dec_val_prefix(s: Seq<u8>, i: int)
    requires
        forall|m: int| 0 <= m < s.len() ==> is_clock_digit(#[trigger] s[m]),
        0 <= i <= s.len(),
    ensures
        dec_val(s) >= dec_val(s.take(i)),
    decreases s.len() - i,
{
    if i == s.len() {
        assert(s.take(i) =~= s);
    } else {
        let p = s.take(i + 1);
        assert(p.drop_last() =~= s.take(i));
        assert(p.last() == s[i]);
        assert forall|m: int| 0 <= m < s.take(i).len() implies is_clock_digit(
            #[trigger] s.take(i)[m],
        ) by {
            assert(s.take(i)[m] == s[m]);
        }
        lemma_dec_val_nonneg(s.take(i));
        assert(dec_val(p) == 10 * dec_val(s.take(i)) + (s[i] - 0x30));
        lemma_dec_val_prefix(s, i + 1);
    }
}

fn is_space_byte(d: u8) -> (r: bool)
    ensures
        r == is_clock_space(d),
{
    d == 0x20 || (d >= 0x09 && d <= 0x0d)
}

/// Parse the byte range `b[from..to]` as a run of decimal digits.
fn parse_digits(b: &Vec<u8>, from: usize, to: usize) -> (r: Option<u64>)
    requires
        from <= to <= b@.len(),
    ensures
        ({
            let part = b@.subrange(from as int, to as int);
            match r {
                Option::Some(v) => digit_run(part) && v as int == dec_val(part),
                Option::None => !digit_run(part) || dec_val(part) > u64::MAX,
            }
        }),
{
    let ghost part = b@.subrange(from as int, to as int);
    if from == to {
        return None;
    }
    let mut val: u64 = 0;
    let mut pos: usize = from;
    proof {
        assert(b@.subrange(from as int, from as int) =~= Seq::<u8>::empty());
    }
    while pos < to
        invariant
            from <= pos <= to <= b@.len(),
            part == b@.subrange(from as int, to as int),
            from < to,
            forall|m: int| from <= m < pos ==> is_clock_digit(#[trigger] b@[m]),
            val as int == dec_val(b@.subrange(from as int, pos as int)),
        decreases to - pos,
    {
        let d = b[pos];
        if d < 0x30 || d > 0x39 {
            proof {
                assert(part[pos - from] == b@[pos as int]);
                assert(!is_clock_digit(part[pos - from]));
            }
            return None;
        }
        let nv: u128 = (val as u128) * 10 + ((d - 0x30) as u128);
        proof {
            assert(b@.subrange(from as int, pos + 1).drop_last() =~= b@.subrange(
                from as int,
                pos as int,
            ));
            assert(b@.subrange(from as int, pos + 1).last() == b@[pos as int]);
            assert(dec_val(b@.subrange(from as int, pos + 1)) == 10 * dec_val(
                b@.subrange(from as int, pos as int),
            ) + (b@[pos as int] - 0x30));
        }
        if nv > u64::MAX as u128 {
            proof {
                if digit_run(part) {
                    lemma_dec_val_prefix(part, pos + 1 - from);
                    assert(part.take(pos + 1 - from) =~= b@.subrange(from as int, pos + 1));
                }
            }
            return None;
        }
        val = nv as u64;
        pos = pos + 1;
    }
    proof {
        assert forall|i: int| 0 <= i < part.len() implies is_clock_digit(#[trigger] part[i]) by {
            assert(part[i] == b@[from + i]);
        }
    }
    Some(val)
}

/// Parse one clock string into whole seconds.
///
/// Returns the written value for `SS`, `MM:SS` and `HH:MM:SS` with
/// optional surrounding whitespace, 0 for a blank string, and nothing for
/// anything malformed or too large for `u64`.
pub fn parse_clock(s: &str) -> (r: Option<u64>)
    ensures
        r == spec_parse_clock(s.spec_bytes()),
{
    let b = s.as_bytes_vec();
    let n = b.len();

    // trim: find the first and one-past-the-last non-whitespace byte
    let mut a: usize = 0;
    while a < n && is_space_byte(b[a])
        invariant
            0 <= a <= n,
            n == b@.len(),
            forall|m: int| 0 <= m < a ==> is_clock_space(#[trigger] b@[m]),
        decreases n - a,
    {
        a = a + 1;
    }
    proof {
        lemma_leading_space_char(b@, a as int);
    }
    if a == n {
        return Some(0);
    }
    let mut e: usize = n;
    while e > a && is_space_byte(b[e - 1])
        invariant
            a < e <= n,
            n == b@.len(),
            !is_clock_space(b@[a as int]),
            forall|m: int| e <= m < n ==> is_clock_space(#[trigger] b@[m]),
        decreases e,
    {
        e = e - 1;
    }
    proof {
        lemma_trailing_space_char(b@, e as int);
        assert(clock_core(b@) =~= b@.subrange(a as int, e as int));
    }
    let ghost core = b@.subrange(a as int, e as int);

    // first component boundary
    let mut c1: usize = a;
    while c1 < e && b[c1] != 0x3a
        invariant
            a <= c1 <= e <= n,
            n == b@.len(),
            forall|m: int| a <= m < c1 ==> (#[trigger] b@[m]) != 0x3a,
        decreases e - c1,
    {
        c1 = c1 + 1;
    }
    proof {
        assert forall|m: int| 0 <= m < c1 - a implies (#[trigger] core[m]) != 0x3a by {
            assert(core[m] == b@[a + m]);
        }
        if c1 < e {
            assert(core[c1 - a] == b@[c1 as int]);
        }
        lemma_first_colon_char(core, c1 as int - a as int);
    }

    if c1 == e {
        // a single component: plain seconds
        let v = parse_digits(&b, a, e);
        match v {
            Some(x) => Some(x),
            None => {
                proof {
                    if digit_run(core) {
                        lemma_dec_val_nonneg(core);
                    }
                }
                None
            },
        }
    } else {
        // second component boundary
        let mut c2: usize = c1 + 1;
        while c2 < e && b[c2] != 0x3a
            invariant
                c1 + 1 <= c2 <= e <= n,
                n == b@.len(),
                forall|m: int| c1 + 1 <= m < c2 ==> (#[trigger] b@[m]) != 0x3a,
            decreases e - c2,
        {
            c2 = c2 + 1;
        }
        let ghost rest1 = core.skip(c1 as int - a as int + 1);
        proof {
            assert(rest1 =~= b@.subrange(c1 + 1, e as int));
            assert forall|m: int| 0 <= m < c2 - (c1 + 1) implies (#[trigger] rest1[m]) != 0x3a by {
                assert(rest1[m] == b@[c1 + 1 + m]);
            }
            if c2 < e {
                assert(rest1[c2 - (c1 + 1)] == b@[c2 as int]);
            }
            lemma_first_colon_char(rest1, c2 as int - (c1 as int + 1));
        }
        let ghost p1 = core.take(c1 as int - a as int);
        proof {
            assert(p1 =~= b@.subrange(a as int, c1 as int));
        }

        if c2 == e {
            // two components: minutes and seconds
            let v1 = parse_digits(&b, a, c1);
            let v2 = parse_digits(&b, c1 + 1, e);
            match (v1, v2) {
                (Some(x1), Some(x2)) => {
                    let total: u128 = (x1 as u128) * 60 + (x2 as u128);
                    if total > u64::MAX as u128 {
                        None
                    } else {
                        Some(total as u64)
                    }
                },
                _ => {
                    proof {
                        if digit_run(p1) && digit_run(rest1) {
                            lemma_dec_val_nonneg(p1);
                            lemma_dec_val_nonneg(rest1);
                        }
                    }
                    None
                },
            }
        } else {
            // a third boundary would mean a fourth component: invalid
            let mut c3: usize = c2 + 1;
            while c3 < e && b[c3] != 0x3a
                invariant
                    c2 + 1 <= c3 <= e <= n,
                    n == b@.len(),
                    forall|m: int| c2 + 1 <= m < c3 ==> (#[trigger] b@[m]) != 0x3a,
                decreases e - c3,
            {
                c3 = c3 + 1;
            }
            let ghost p2 = rest1.take(c2 as int - (c1 as int + 1));
            let ghost rest2 = rest1.skip(c2 as int - (c1 as int + 1) + 1);
            proof {
                assert(p2 =~= b@.subrange(c1 + 1, c2 as int));
                assert(rest2 =~= b@.subrange(c2 + 1, e as int));
                assert forall|m: int| 0 <= m < c3 - (c2 + 1) implies (#[trigger] rest2[m])
                    != 0x3a by {
                    assert(rest2[m] == b@[c2 + 1 + m]);
                }
                if c3 < e {
                    assert(rest2[c3 - (c2 + 1)] == b@[c3 as int]);
                }
                lemma_first_colon_char(rest2, c3 as int - (c2 as int + 1));
            }
            if c3 < e {
                return None;
            }
            let v1 = parse_digits(&b, a, c1);
            let v2 = parse_digits(&b, c1 + 1, c2);
            let v3 = parse_digits(&b, c2 + 1, e);
            match (v1, v2, v3) {
                (Some(x1), Some(x2), Some(x3)) => {
                    let total: u128 = (x1 as u128) * 3600 + (x2 as u128) * 60 + (x3 as u128);
                    if total > u64::MAX as u128 {
                        None
                    } else {
                        Some(total as u64)
                    }
                },
                _ => {
                    proof {
                        if digit_run(p1) && digit_run(p2) && digit_run(rest2) {
                            lemma_dec_val_nonneg(p1);
                            lemma_dec_val_nonneg(p2);
                            lemma_dec_val_nonneg(rest2);
                        }
                    }
                    None
                },
            }
        }
    }
}

/// What one optional window bound means, in milliseconds: an absent or
/// blank bound is 0 (unbounded), a clock string is its value in seconds
/// times 1000, and anything malformed or too large is rejected.
pub open spec fn bound_ms_spec(o: Option<Seq<u8>>) -> Option<u64> {
    match o {
        Option::None => Option::Some(0u64),
        Option::Some(bytes) => match spec_parse_clock(bytes) {
            Option::Some(secs) => if secs <= u64::MAX / 1000 {
                Option::Some((secs * 1000) as u64)
            } else {
                Option::None
            },
            Option::None => Option::None,
        },
    }
}

/// Build the selection window from the optional start and end clock
/// strings. `None` when either bound is malformed or too large, or when a
/// set end lies before the start.
pub fn parse_window(start: Option<&str>, end: Option<&str>) -> (r: Option<SelectionWindow>)
    ensures
        ({
            let sb = match start {
                Option::Some(t) => bound_ms_spec(Option::Some(t.spec_bytes())),
                Option::None => bound_ms_spec(Option::None),
            };
            let eb = match end {
                Option::Some(t) => bound_ms_spec(Option::Some(t.spec_bytes())),
                Option::None => bound_ms_spec(Option::None),
            };
            match (sb, eb) {
                (Option::Some(sms), Option::Some(ems)) => {
                    if ems == 0 || sms <= ems {
                        r matches Option::Some(w) && w.start_ms == sms && w.end_ms == ems
                            && w.wf()
                    } else {
                        r is None
                    }
                },
                _ => r is None,
            }
        }),
{
    let sms = match bound_ms(start) {
        Some(v) => v,
        None => {
            return None;
        },
    };
    let ems = match bound_ms(end) {
        Some(v) => v,
        None => {
            return None;
        },
    };
    SelectionWindow::new(sms, ems)
}

/// One optional bound in milliseconds, per [`bound_ms_spec`].
fn bound_ms(o: Option<&str>) -> (r: Option<u64>)
    ensures
        r == bound_ms_spec(
            match o {
                Option::Some(t) => Option::Some(t.spec_bytes()),
                Option::None => Option::None::<Seq<u8>>,
            },
        ),
{
    match o {
        None => Some(0),
        Some(t) => match parse_clock(t) {
            Some(secs) => {
                if secs <= u64::MAX / 1000 {
                    Some(secs * 1000)
                } else {
                    None
                }
            },
            None => None,
        },
    }
}

} // verus!
