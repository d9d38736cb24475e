//! Durations and rates as text.
use crate::models::Text;
use crate::rows::lemma_all_kept;
use crate::text::{
    all_digits, cat3, char_at_first, chars_of, decimal, decimal_text, digit, digits_value,
    find_char, int_value, is_digit, law_trimmed, lemma_decimal_value, parse_int, slice_text, trim,
    trimmed, white,
};
use vstd::prelude::*;
use vstd::string::StringSliceAdditionalSpecFns;
use vstd::utf8::encode_utf8;

verus! {

// ---------------------------------------------------------------------------
// Durations
// ---------------------------------------------------------------------------
/// A duration in seconds as people write it: hours and minutes, minutes, or seconds.
pub open spec fn human(secs: int) -> Text {
    if secs < 0 {
        "-"@ + human_magnitude((-secs) as nat)
    } else {
        human_magnitude(secs as nat)
    }
}

/// A duration without its sign.
pub open spec fn human_magnitude(secs: nat) -> Text {
    let hours = secs / 3600;
    let minutes = (secs % 3600) / 60;
    if hours > 0 {
        decimal(hours) + "h "@ + decimal(minutes) + "m"@
    } else if minutes > 0 {
        decimal(minutes) + "m"@
    } else {
        decimal(secs % 60) + "s"@
    }
}

/// Writes a sum of durations in seconds as people do.
pub fn format_seconds(secs: i128) -> (r: String)
    requires
        secs > i128::MIN,
    ensures
        r@ == human(secs as int),
{
    let negative = secs < 0;
    let n: u128 = if negative {
        (-secs) as u128
    } else {
        secs as u128
    };
    let hours: u128 = n / 3600;
    let minutes: u128 = (n % 3600) / 60;
    let mut s = if negative {
        "-".to_owned()
    } else {
        String::new()
    };
    let t = if hours > 0 {
        let mut s = decimal_text(hours);
        s.append("h ");
        s.append(decimal_text(minutes).as_str());
        s.append("m");
        s
    } else if minutes > 0 {
        let mut s = decimal_text(minutes);
        s.append("m");
        s
    } else {
        let mut s = decimal_text(n % 60);
        s.append("s");
        s
    };
    s.append(t.as_str());
    assert(!negative ==> s@ =~= t@);
    s
}

/// Writes a duration in seconds as people do.
pub fn format_duration_human(secs: i64) -> (r: String)
    ensures
        r@ == human(secs as int),
{
    format_seconds(secs as i128)
}

/// The seconds of a unit.
pub open spec fn unit_of(c: char) -> Option<nat> {
    if c == 'h' {
        Some(3600)
    } else if c == 'm' {
        Some(60)
    } else if c == 's' {
        Some(1)
    } else {
        None
    }
}

/// How many digits a text begins with.
pub open spec fn leading_digits(s: Text) -> nat
    decreases s.len(),
{
    if s.len() > 0 && is_digit(s[0]) {
        1 + leading_digits(s.drop_first())
    } else {
        0
    }
}

/// The seconds of a run of numbers with units.
pub open spec fn units_value(s: Text) -> Option<nat>
    decreases s.len(),
{
    if s.len() == 0 {
        Some(0)
    } else {
        let n = leading_digits(s);
        if n == 0 || n >= s.len() {
            None
        } else {
            match (unit_of(s[n as int]), units_value(s.skip((n + 1) as int))) {
                (Some(u), Some(rest)) => Some(digits_value(s.take(n as int)) * u + rest),
                _ => None,
            }
        }
    }
}

/// What is said of a text that is no duration.
pub open spec fn no_duration(s: Text) -> Text {
    "invalid duration: '"@ + s + "'"@
}

/// The seconds that a text such as `2h30m` stands for.
pub open spec fn duration_value(s: Text) -> Result<i64, Text> {
    let t = trimmed(s);
    match units_value(t) {
        Some(n) => if t.len() > 0 && n <= i64::MAX {
            Ok(n as i64)
        } else {
            Err(no_duration(s))
        },
        None => Err(no_duration(s)),
    }
}

proof fn lemma_leading(s: Text, n: int)
    requires
        0 <= n <= s.len(),
        forall|i: int| 0 <= i < n ==> is_digit(#[trigger] s[i]),
        n < s.len() ==> !is_digit(s[n]),
    ensures
        leading_digits(s) == n,
    decreases n,
{
    if n > 0 {
        assert(is_digit(s[0]));
        let t = s.drop_first();
        assert forall|i: int| 0 <= i < n - 1 implies is_digit(#[trigger] t[i]) by {
            assert(is_digit(s[i + 1]));
        }
        lemma_leading(t, n - 1);
    }
}

/// The digits from a position on: where they end, and their value where it is at most the limit.
fn read_number(v: &Vec<char>, from: usize, limit: u64) -> (r: (usize, Option<u64>))
    requires
        from <= v@.len(),
        limit <= 0x7fff_ffff_ffff_ffff,
    ensures
        from <= r.0 <= v@.len(),
        leading_digits(v@.skip(from as int)) == r.0 - from,
        match r.1 {
            Some(n) => n == digits_value(v@.subrange(from as int, r.0 as int)) && n <= limit,
            None => digits_value(v@.subrange(from as int, r.0 as int)) > limit,
        },
{
    let ghost s = v@.skip(from as int);
    let mut i: usize = from;
    let mut n: Option<u64> = Some(0);
    assert(v@.subrange(from as int, from as int) =~= Seq::<char>::empty());
    while i < v.len() && '0' <= v[i] && v[i] <= '9'
        invariant
            from <= i <= v@.len(),
            limit <= 0x7fff_ffff_ffff_ffff,
            s == v@.skip(from as int),
            forall|k: int| 0 <= k < i - from ==> is_digit(#[trigger] s[k]),
            match n {
                Some(x) => x == digits_value(v@.subrange(from as int, i as int)) && x <= limit,
                None => digits_value(v@.subrange(from as int, i as int)) > limit,
            },
        decreases v@.len() - i,
    {
        let c = v[i];
        proof {
            assert(s[i - from] == c);
            assert(v@.subrange(from as int, i + 1).drop_last() =~= v@.subrange(
                from as int,
                i as int,
            ));
        }
        n = match n {
            Some(x) => {
                let y: u128 = (x as u128) * 10 + ((c as u32) - 48) as u128;
                if y <= limit as u128 {
                    Some(y as u64)
                } else {
                    None
                }
            },
            None => None,
        };
        i = i + 1;
    }
    proof {
        if i < v@.len() {
            assert(s[i - from] == v@[i as int]);
        }
        lemma_leading(s, i - from);
    }
    (i, n)
}

/// Reads a duration such as `2h30m`, `45m` or `1h`, in seconds.
pub fn parse_duration(s: &str) -> (r: Result<i64, String>)
    ensures
        match r {
            Ok(n) => duration_value(s@) == Ok::<i64, Text>(n),
            Err(e) => duration_value(s@) == Err::<i64, Text>(e@),
        },
{
    let t = trim(s);
    let v = chars_of(t.as_str());
    let limit: u64 = 0x7fff_ffff_ffff_ffff;
    let mut at: usize = 0;
    let mut total: u64 = 0;
    let n: usize = v.len();
    if n == 0 {
        return Err(cat3("invalid duration: '", s, "'"));
    }
    assert(v@.skip(0) =~= v@);
    while at < n
        invariant
            n == v@.len(),
            n > 0,
            at <= n,
            v@ == trimmed(s@),
            limit == 0x7fff_ffff_ffff_ffff,
            total <= limit,
            units_value(v@) == match units_value(v@.skip(at as int)) {
                Some(rest) => Some((total + rest) as nat),
                None => None::<nat>,
            },
        decreases n - at,
    {
        let ghost rest = v@.skip(at as int);
        let (end, number) = read_number(&v, at, limit);
        proof {
            assert(rest.take(end - at) =~= v@.subrange(at as int, end as int));
            if end < n {
                assert(rest[end - at] == v@[end as int]);
                assert(rest.skip(end - at + 1) =~= v@.skip(end + 1));
            }
        }
        if end == at || end == n {
            return Err(cat3("invalid duration: '", s, "'"));
        }
        let unit: u64 = match v[end] {
            'h' => 3600,
            'm' => 60,
            's' => 1,
            _ => return Err(cat3("invalid duration: '", s, "'")),
        };
        let x: u64 = match number {
            Some(x) => x,
            None => {
                proof {
                    let d = digits_value(rest.take(end - at));
                    assert(d * unit >= d) by (nonlinear_arith)
                        requires
                            unit >= 1,
                            d >= 0,
                    ;
                }
                return Err(cat3("invalid duration: '", s, "'"));
            },
        };
        assert(x * unit <= 0x7fff_ffff_ffff_ffff * 3600) by (nonlinear_arith)
            requires
                x <= 0x7fff_ffff_ffff_ffff,
                unit <= 3600,
        ;
        let sum: u128 = (total as u128) + (x as u128) * (unit as u128);
        if sum > limit as u128 {
            return Err(cat3("invalid duration: '", s, "'"));
        }
        total = sum as u64;
        at = end + 1;
    }
    assert(v@.skip(n as int) =~= Seq::<char>::empty());
    Ok(total as i64)
}

/// Reads a duration that was given as an argument.
pub fn parse_duration_arg(s: &str) -> (r: Result<i64, String>)
    ensures
        match r {
            Ok(n) => duration_value(s@) == Ok::<i64, Text>(n),
            Err(e) => duration_value(s@) == Err::<i64, Text>(e@),
        },
{
    parse_duration(s)
}


/// A number with a unit in front of others adds so many seconds.
proof fn lemma_unit_first(n: nat, c: char, rest: Text)
    requires
        c == 'h' || c == 'm' || c == 's',
    ensures
        units_value(decimal(n) + seq![c] + rest) == match units_value(rest) {
            Some(r) => Some(
                n * (if c == 'h' {
                    3600nat
                } else if c == 'm' {
                    60
                } else {
                    1
                }) + r,
            ),
            None => None,
        },
{
    let d = decimal(n);
    let s = d + seq![c] + rest;
    lemma_decimal_value(n);
    assert forall|i: int| 0 <= i < d.len() implies is_digit(#[trigger] s[i]) by {
        assert(s[i] == d[i]);
    }
    assert(s[d.len() as int] == c);
    lemma_leading(s, d.len() as int);
    assert(s.take(d.len() as int) =~= d);
    assert(s.skip((d.len() + 1) as int) =~= rest);
}

/// Hours, minutes and seconds that are written one after the other stand for their sum, and any of
/// them may be left out.
pub proof fn law_durations_add(h: nat, m: nat, s: nat)
    requires
        3600 * h + 60 * m + s <= i64::MAX,
    ensures
        duration_value(decimal(h) + seq!['h'] + (decimal(m) + seq!['m'] + (decimal(s) + seq!['s'])))
            == Ok::<i64, Text>((3600 * h + 60 * m + s) as i64),
        duration_value(decimal(h) + seq!['h'] + (decimal(m) + seq!['m'])) == Ok::<i64, Text>(
            (3600 * h + 60 * m) as i64,
        ),
        duration_value(decimal(h) + seq!['h']) == Ok::<i64, Text>((3600 * h) as i64),
        duration_value(decimal(m) + seq!['m']) == Ok::<i64, Text>((60 * m) as i64),
        duration_value(decimal(s) + seq!['s']) == Ok::<i64, Text>(s as i64),
{
    let e = Seq::<char>::empty();
    let sec = decimal(s) + seq!['s'];
    let min = decimal(m) + seq!['m'];
    let hour = decimal(h) + seq!['h'];
    assert(units_value(e) == Some(0nat));
    assert(sec =~= sec + e);
    assert(min =~= min + e);
    assert(hour =~= hour + e);
    lemma_unit_first(s, 's', e);
    lemma_unit_first(m, 'm', e);
    lemma_unit_first(h, 'h', e);
    lemma_unit_first(m, 'm', sec);
    lemma_unit_first(h, 'h', min + sec);
    lemma_unit_first(h, 'h', min);
    lemma_untrimmed(h, seq!['h'] + (min + sec));
    lemma_untrimmed(h, seq!['h'] + min);
    lemma_untrimmed(h, seq!['h']);
    lemma_untrimmed(m, seq!['m']);
    lemma_untrimmed(s, seq!['s']);
    assert(hour + (min + sec) =~= decimal(h) + (seq!['h'] + (min + sec)));
    assert(hour + min =~= decimal(h) + (seq!['h'] + min));
    assert((min + sec) =~= decimal(m) + seq!['m'] + sec);
}

/// A number with a unit in front of a duration adds so many seconds to it, whatever the duration is
/// made of: units come in any order, and any number of times.
pub proof fn law_duration_longer(n: nat, c: char, rest: Text, secs: i64)
    requires
        trimmed(rest) == rest,
        duration_value(rest) == Ok::<i64, Text>(secs),
    ensures
        c == 'h' ==> is_sum(duration_value(decimal(n) + seq![c] + rest), secs + 3600 * n),
        c == 'm' ==> is_sum(duration_value(decimal(n) + seq![c] + rest), secs + 60 * n),
        c == 's' ==> is_sum(duration_value(decimal(n) + seq![c] + rest), secs + n),
{
    if c == 'h' {
        lemma_longer(n, c, rest, secs as nat, 3600);
    } else if c == 'm' {
        lemma_longer(n, c, rest, secs as nat, 60);
    } else if c == 's' {
        lemma_longer(n, c, rest, secs as nat, 1);
    }
}

#[verifier::spinoff_prover]
proof fn lemma_longer(n: nat, c: char, rest: Text, secs: nat, unit: nat)
    requires
        (c == 'h' && unit == 3600) || (c == 'm' && unit == 60) || (c == 's' && unit == 1),
        trimmed(rest) == rest,
        rest.len() > 0,
        units_value(rest) == Some(secs),
    ensures
        is_sum(duration_value(decimal(n) + seq![c] + rest), (n * unit + secs) as int),
{
    let t = decimal(n) + seq![c] + rest;
    lemma_nothing_trimmed(n, c, rest);
    lemma_unit_first(n, c, rest);
    assert(units_value(t) == Some(n * unit + secs));
}

proof fn lemma_nothing_trimmed(n: nat, c: char, rest: Text)
    requires
        trimmed(rest) == rest,
        rest.len() > 0,
    ensures
        trimmed(decimal(n) + seq![c] + rest) == decimal(n) + seq![c] + rest,
        (decimal(n) + seq![c] + rest).len() > 0,
{
    law_trimmed(rest);
    assert((seq![c] + rest).last() == rest.last());
    lemma_untrimmed(n, seq![c] + rest);
    assert(decimal(n) + seq![c] + rest =~= decimal(n) + (seq![c] + rest));
}

/// Whether an answer is a sum of seconds, and refused only where that does not fit.
pub open spec fn is_sum(r: Result<i64, Text>, sum: int) -> bool {
    match r {
        Ok(d) => d == sum,
        Err(_) => sum > i64::MAX,
    }
}

/// What is a duration consists of digits and units, begins with a digit and ends with a unit, but for
/// white space at its ends; it is not below zero.
pub proof fn law_duration_shape(s: Text)
    ensures
        duration_value(s) matches Ok(secs) ==> {
            let t = trimmed(s);
            &&& secs >= 0
            &&& t.len() >= 2
            &&& is_digit(t[0])
            &&& t.last() == 'h' || t.last() == 'm' || t.last() == 's'
            &&& forall|i: int|
                0 <= i < t.len() ==> is_digit(#[trigger] t[i]) || t[i] == 'h' || t[i] == 'm' || t[i]
                    == 's'
        },
{
    if duration_value(s) is Ok {
        lemma_units_shape(trimmed(s));
    }
}

proof fn lemma_units_shape(t: Text)
    requires
        units_value(t) is Some,
    ensures
        t.len() > 0 ==> t.len() >= 2 && is_digit(t[0]) && (t.last() == 'h' || t.last() == 'm'
            || t.last() == 's'),
        forall|i: int|
            0 <= i < t.len() ==> is_digit(#[trigger] t[i]) || t[i] == 'h' || t[i] == 'm' || t[i]
                == 's',
    decreases t.len(),
{
    if t.len() > 0 {
        let n = leading_digits(t) as int;
        let rest = t.skip(n + 1);
        lemma_digits_lead(t);
        lemma_units_shape(rest);
        assert forall|i: int| 0 <= i < t.len() implies is_digit(#[trigger] t[i]) || t[i] == 'h'
            || t[i] == 'm' || t[i] == 's' by {
            if i > n {
                assert(rest[i - n - 1] == t[i]);
            }
        }
        if rest.len() > 0 {
            assert(rest.last() == t.last());
        }
    }
}

proof fn lemma_digits_lead(t: Text)
    ensures
        leading_digits(t) <= t.len(),
        forall|i: int| 0 <= i < leading_digits(t) ==> is_digit(#[trigger] t[i]),
    decreases t.len(),
{
    if t.len() > 0 && is_digit(t[0]) {
        let u = t.drop_first();
        lemma_digits_lead(u);
        assert forall|i: int| 0 <= i < leading_digits(t) implies is_digit(#[trigger] t[i]) by {
            if i > 0 {
                assert(u[i - 1] == t[i]);
            }
        }
    }
}

/// A text that begins with a number and ends with something that is not white has nothing to trim.
proof fn lemma_untrimmed(n: nat, rest: Text)
    requires
        rest.len() > 0,
        !white(rest.last()),
    ensures
        trimmed(decimal(n) + rest) == decimal(n) + rest,
        (decimal(n) + rest).len() > 0,
{
    let t = decimal(n) + rest;
    lemma_decimal_value(n);
    assert(t[0] == decimal(n)[0]);
    assert(is_digit(t[0]));
    assert(t.last() == rest.last());
}

/// A text without its spaces.
pub open spec fn without_spaces(s: Text) -> Text {
    s.filter(|c: char| c != ' ')
}

/// What is shown of a duration, its spaces left out, stands for that duration in whole minutes, and
/// below a minute for the seconds. A duration below zero has a minus sign in front.
#[verifier::spinoff_prover]
pub proof fn law_shown_duration(secs: nat)
    ensures
        units_value(without_spaces(human(secs as int))) == Some(
            if secs >= 60 {
                (secs - secs % 60) as nat
            } else {
                secs
            },
        ),
        secs > 0 ==> human(-(secs as int)) == seq!['-'] + human(secs as int),
{
    let e = Seq::<char>::empty();
    let p = |c: char| c != ' ';
    let hours = secs / 3600;
    let minutes = (secs % 3600) / 60;
    reveal_strlit("-");
    reveal_strlit("h ");
    reveal_strlit("m");
    reveal_strlit("s");
    assert("-"@ =~= seq!['-']);
    lemma_no_spaces(hours);
    lemma_no_spaces(minutes);
    lemma_no_spaces(secs % 60);
    lemma_unit_first(hours, 'h', decimal(minutes) + seq!['m']);
    lemma_unit_first(minutes, 'm', e);
    lemma_unit_first(secs % 60, 's', e);
    assert(units_value(e) == Some(0nat));
    assert(decimal(minutes) + seq!['m'] + e =~= decimal(minutes) + seq!['m']);
    assert(decimal(secs % 60) + seq!['s'] + e =~= decimal(secs % 60) + seq!['s']);
    lemma_one_char('h', p);
    lemma_one_char(' ', p);
    lemma_one_char('m', p);
    lemma_one_char('s', p);
    if hours > 0 {
        let a = decimal(hours);
        let b = decimal(minutes);
        let t = a + (seq!['h'] + (seq![' '] + (b + seq!['m'])));
        assert(human(secs as int) =~= t);
        Seq::filter_distributes_over_add(b, seq!['m'], p);
        Seq::filter_distributes_over_add(seq![' '], b + seq!['m'], p);
        Seq::filter_distributes_over_add(seq!['h'], seq![' '] + (b + seq!['m']), p);
        Seq::filter_distributes_over_add(a, seq!['h'] + (seq![' '] + (b + seq!['m'])), p);
        assert(t.filter(p) =~= a + seq!['h'] + (b + seq!['m']));
        assert(3600 * hours + 60 * minutes == secs - secs % 60);
    } else if minutes > 0 {
        let b = decimal(minutes);
        assert(human(secs as int) =~= b + seq!['m']);
        Seq::filter_distributes_over_add(b, seq!['m'], p);
        assert((b + seq!['m']).filter(p) =~= b + seq!['m']);
    } else {
        let b = decimal(secs % 60);
        assert(human(secs as int) =~= b + seq!['s']);
        Seq::filter_distributes_over_add(b, seq!['s'], p);
        assert((b + seq!['s']).filter(p) =~= b + seq!['s']);
    }
}

proof fn lemma_one_char(c: char, p: spec_fn(char) -> bool)
    ensures
        seq![c].filter(p) == if p(c) {
            seq![c]
        } else {
            Seq::empty()
        },
{
    reveal(Seq::filter);
    assert(seq![c].drop_last() =~= Seq::<char>::empty());
    assert(seq![c].drop_last().filter(p) =~= Seq::<char>::empty());
    if p(c) {
        assert(Seq::<char>::empty().push(c) =~= seq![c]);
    }
}

proof fn lemma_no_spaces(n: nat)
    ensures
        decimal(n).filter(|c: char| c != ' ') == decimal(n),
{
    let p = |c: char| c != ' ';
    lemma_decimal_value(n);
    assert forall|i: int| 0 <= i < decimal(n).len() implies p(#[trigger] decimal(n)[i]) by {
        assert(is_digit(decimal(n)[i]));
    }
    lemma_all_kept(decimal(n), p);
}

// ---------------------------------------------------------------------------
// Rates
// ---------------------------------------------------------------------------
/// What stands before and after the first point of an amount; without a point nothing stands after
/// it.
pub open spec fn halves(t: Text) -> (Text, Text) {
    if exists|i: int| char_at_first(t, '.', i) {
        let i = choose|i: int| char_at_first(t, '.', i);
        (t.take(i), t.skip(i + 1))
    } else {
        (t, Seq::empty())
    }
}

/// What is said of a text that is no amount.
pub open spec fn no_rate(t: Text) -> Text {
    "invalid rate: '"@ + t + "'"@
}

/// The cents of a decimal fraction with at most two digits.
pub open spec fn cents_of(fraction: Text) -> nat {
    if fraction.len() == 1 {
        digits_value(fraction) * 10
    } else {
        digits_value(fraction)
    }
}

/// The cents of an amount in dollars such as `150`, `150.00` or `19.99`.
pub open spec fn cents_value(s: Text) -> Result<i64, Text> {
    let t = trimmed(s);
    let (dollars, fraction) = halves(t);
    if t.len() == 0 {
        Err("rate cannot be empty"@)
    } else if t[0] == '-' {
        Err("rate cannot be negative"@)
    } else {
        match int_value(dollars) {
            Some(d) => if encode_utf8(fraction).len() > 2 {
                Err("rate has too many decimal places: '"@ + t + "'"@)
            } else if fraction.len() > 0 && !all_digits(fraction) {
                Err(no_rate(t))
            } else if d * 100 + cents_of(fraction) > i64::MAX {
                Err(no_rate(t))
            } else {
                Ok((d * 100 + cents_of(fraction)) as i64)
            },
            None => Err(no_rate(t)),
        }
    }
}

/// An integer without a minus sign is not negative.
proof fn lemma_unsigned(s: Text)
    requires
        s.len() == 0 || s[0] != '-',
    ensures
        int_value(s) matches Some(n) ==> n >= 0,
{
}

/// The value of at most two digits.
proof fn lemma_short(s: Text)
    requires
        s.len() <= 2,
        s.len() > 0 ==> all_digits(s),
    ensures
        s.len() == 0 ==> digits_value(s) == 0,
        s.len() == 1 ==> digits_value(s) == (s[0] as u32) - 48 && digits_value(s) <= 9,
        s.len() == 2 ==> digits_value(s) == ((s[0] as u32) - 48) * 10 + ((s[1] as u32) - 48)
            && digits_value(s) <= 99,
{
    reveal_with_fuel(digits_value, 3);
    if s.len() > 0 {
        assert(is_digit(s[0]));
    }
    if s.len() == 2 {
        assert(is_digit(s[1]));
    }
}

/// Every character takes at least one byte.
proof fn lemma_bytes(s: Text)
    ensures
        s.len() <= encode_utf8(s).len(),
    decreases s.len(),
{
    if s.len() > 0 {
        lemma_bytes(s.drop_first());
        vstd::utf8::encode_utf8_first_scalar(s);
    }
}

/// Reads an amount in dollars, in cents: digits, with at most two more behind a point.
pub fn parse_cents(s: &str) -> (r: Result<i64, String>)
    ensures
        match r {
            Ok(n) => cents_value(s@) == Ok::<i64, Text>(n),
            Err(e) => cents_value(s@) == Err::<i64, Text>(e@),
        },
{
    let t = trim(s);
    let v = chars_of(t.as_str());
    if v.len() == 0 {
        return Err("rate cannot be empty".to_owned());
    }
    if v[0] == '-' {
        return Err("rate cannot be negative".to_owned());
    }
    let n: usize = v.len();
    let (d, c) = match find_char(&v, '.') {
        Some(i) => {
            proof {
                let k = choose|k: int| char_at_first(v@, '.', k);
                assert(char_at_first(v@, '.', k));
                if k < i {
                    assert(v@[k] != '.');
                }
                if i < k {
                    assert(v@[i as int] != '.');
                }
                assert(v@.subrange(0, i as int) =~= v@.take(i as int));
                assert(v@.subrange(i + 1, n as int) =~= v@.skip(i + 1));
            }
            (slice_text(&v, 0, i), slice_text(&v, i + 1, n))
        },
        None => {
            proof {
                assert forall|i: int| !char_at_first(v@, '.', i) by {
                    if 0 <= i < v@.len() {
                        assert(v@.contains(v@[i]));
                    }
                }
            }
            (t.clone(), String::new())
        },
    };
    assert((d@, c@) == halves(t@));
    let dollars: i64 = match parse_int(d.as_str()) {
        Some(x) => x,
        None => return Err(cat3("invalid rate: '", t.as_str(), "'")),
    };
    proof {
        assert(d@.len() > 0 ==> d@[0] == t@[0]);
        lemma_unsigned(d@);
        lemma_bytes(c@);
    }
    if c.as_str().as_bytes().len() > 2 {
        return Err(cat3("rate has too many decimal places: '", t.as_str(), "'"));
    }
    let f = chars_of(c.as_str());
    for i in 0..f.len()
        invariant
            f@ == c@,
            t@ == trimmed(s@),
            t@.len() > 0,
            t@[0] != '-',
            (d@, c@) == halves(t@),
            int_value(d@) is Some,
            encode_utf8(c@).len() <= 2,
            forall|k: int| 0 <= k < i ==> is_digit(#[trigger] f@[k]),
    {
        if !('0' <= f[i] && f[i] <= '9') {
            assert(!is_digit(c@[i as int]));
            return Err(cat3("invalid rate: '", t.as_str(), "'"));
        }
    }
    proof {
        lemma_short(c@);
    }
    let cents: i128 = if f.len() == 0 {
        0
    } else if f.len() == 1 {
        ((f[0] as u32) - 48) as i128 * 10
    } else {
        ((f[0] as u32) - 48) as i128 * 10 + ((f[1] as u32) - 48) as i128
    };
    let total: i128 = (dollars as i128) * 100 + cents;
    let max: i64 = i64::MAX;
    if total > max as i128 {
        return Err(cat3("invalid rate: '", t.as_str(), "'"));
    }
    Ok(total as i64)
}

/// An amount in cents as dollars, as `/` and `%` divide: with a point and two digits.
pub open spec fn dollars_text(cents: nat) -> Text {
    decimal(cents / 100) + "."@ + seq![digit((cents % 100) / 10), digit(cents % 10)]
}

/// An amount that was written out in dollars and cents reads back.
pub proof fn law_cents_read_back(cents: nat)
    requires
        cents <= i64::MAX,
    ensures
        cents_value(dollars_text(cents)) == Ok::<i64, Text>(cents as i64),
{
    let a = decimal(cents / 100);
    let b = seq![digit((cents % 100) / 10), digit(cents % 10)];
    let t = dollars_text(cents);
    reveal_strlit(".");
    lemma_decimal_value(cents / 100);
    let n = a.len() as int;
    assert(t[n] == '.');
    assert forall|i: int| 0 <= i < n implies is_digit(#[trigger] t[i]) by {
        assert(t[i] == a[i]);
    }
    assert(t[n + 1] == b[0] && t[n + 2] == b[1]);
    assert(is_digit(b[0]) && is_digit(b[1]));
    assert(t.len() == n + 3);
    assert(is_digit(t[0]));
    // Nothing is trimmed.
    assert(!white(t[0]));
    assert(!white(t.last()));
    assert(trimmed(t) == t);
    // The point is the first.
    assert(char_at_first(t, '.', n));
    let k = choose|k: int| char_at_first(t, '.', k);
    assert(char_at_first(t, '.', k));
    if k < n {
        assert(is_digit(t[k]));
    }
    assert(k == n);
    assert(t.take(n) =~= a);
    assert(t.skip(n + 1) =~= b);
    assert(halves(t) == (a, b));
    assert(int_value(a) == Some((cents / 100) as i64)) by {
        assert(is_digit(a[0]));
        assert(a[0] == t[0]);
    }
    assert(all_digits(b)) by {
        assert forall|i: int| 0 <= i < b.len() implies is_digit(#[trigger] b[i]) by {}
    }
    lemma_short(b);
    assert(encode_utf8(b).len() == 2) by {
        assert(vstd::utf8::is_ascii_chars(b)) by {
            assert forall|i: int| 0 <= i < b.len() implies 0 <= (#[trigger] b[i]) as u32 <= 127 by {
                assert(is_digit(b[i]));
            }
        }
        vstd::utf8::is_ascii_chars_encode_utf8(b);
    }
}

/// A whole number is so many dollars, one digit behind the point is tenths of a dollar, and more than
/// two digits behind it are refused.
pub proof fn law_cents_forms(dollars: nat, tenths: nat, fraction: Text)
    requires
        100 * dollars + 100 <= i64::MAX,
        tenths <= 9,
        fraction.len() > 2,
        all_digits(fraction),
    ensures
        cents_value(decimal(dollars)) == Ok::<i64, Text>((100 * dollars) as i64),
        cents_value(decimal(dollars) + seq!['.', digit(tenths)]) == Ok::<i64, Text>(
            (100 * dollars + 10 * tenths) as i64,
        ),
        cents_value(decimal(dollars) + seq!['.'] + fraction) is Err,
{
    let a = decimal(dollars);
    let none = Seq::<char>::empty();
    lemma_decimal_value(dollars);
    assert(is_digit(a[0]));
    assert(int_value(a) == Some(dollars as i64));
    // Without a point.
    assert(is_digit(a[a.len() - 1]));
    assert(trimmed(a) == a);
    assert(!exists|i: int| char_at_first(a, '.', i)) by {
        assert forall|i: int| !char_at_first(a, '.', i) by {
            if 0 <= i < a.len() {
                assert(is_digit(a[i]));
            }
        }
    }
    lemma_short(none);
    vstd::utf8::is_ascii_chars_encode_utf8(none);
    // With one digit behind it.
    let b = seq![digit(tenths)];
    assert(is_digit(b[0]));
    assert(all_digits(b));
    assert(a + seq!['.', digit(tenths)] =~= a + seq!['.'] + b);
    lemma_halves(a, b);
    lemma_short(b);
    lemma_encoded(b);
    // With more.
    lemma_halves(a, fraction);
    lemma_encoded(fraction);
}

/// An amount with a point in it falls apart there.
proof fn lemma_halves(a: Text, b: Text)
    requires
        all_digits(a),
        all_digits(b),
    ensures
        trimmed(a + seq!['.'] + b) == a + seq!['.'] + b,
        halves(a + seq!['.'] + b) == (a, b),
        (a + seq!['.'] + b)[0] == a[0],
{
    let t = a + seq!['.'] + b;
    let n = a.len() as int;
    assert(is_digit(a[0]));
    assert(is_digit(b[b.len() - 1]));
    assert(t[0] == a[0]);
    assert(t.last() == b[b.len() - 1]);
    assert(t[n] == '.');
    assert forall|i: int| 0 <= i < n implies is_digit(#[trigger] t[i]) by {
        assert(t[i] == a[i]);
    }
    assert(char_at_first(t, '.', n));
    let k = choose|k: int| char_at_first(t, '.', k);
    assert(char_at_first(t, '.', k));
    if k < n {
        assert(is_digit(t[k]));
    }
    assert(k == n);
    assert(t.take(n) =~= a);
    assert(t.skip(n + 1) =~= b);
}

/// Digits are one byte each.
proof fn lemma_encoded(b: Text)
    requires
        all_digits(b),
    ensures
        encode_utf8(b).len() == b.len(),
{
    assert(vstd::utf8::is_ascii_chars(b)) by {
        assert forall|i: int| 0 <= i < b.len() implies 0 <= (#[trigger] b[i]) as u32 <= 127 by {
            assert(is_digit(b[i]));
        }
    }
    vstd::utf8::is_ascii_chars_encode_utf8(b);
}

/// An amount is not below zero, and none is read from a text that has nothing in it or begins with a
/// minus sign.
pub proof fn law_cents_refused(s: Text)
    ensures
        cents_value(s) matches Ok(n) ==> n >= 0,
        trimmed(s).len() == 0 ==> cents_value(s) is Err,
        trimmed(s).len() > 0 && trimmed(s)[0] == '-' ==> cents_value(s) is Err,
{
    let t = trimmed(s);
    let d = halves(t).0;
    if cents_value(s) is Ok {
        if exists|i: int| char_at_first(t, '.', i) {
            let i = choose|i: int| char_at_first(t, '.', i);
            assert(char_at_first(t, '.', i));
            if d.len() > 0 {
                assert(d[0] == t[0]);
            }
        }
    }
}

} // verus!
