use vstd::prelude::*;
use crate::errors::NNSplitError;
use crate::interpret::Level;
use crate::PROB_SCALE;

verus! {

#[verifier::external_type_specification]
#[verifier::external_body]
pub struct ExValue(serde_json::Value);

/// A JSON document over plain values: everything the library reads of a
/// parsed document. Numbers are carried as their decimal text.
pub enum PlainJson {
    Null,
    Bool(bool),
    Number(Vec<u8>),
    Text(String),
    Array(Vec<PlainJson>),
    Object(Vec<(String, PlainJson)>),
}

/// The plain form of the JSON document `s` when `s` parses, and nothing
/// otherwise. serde_json's parse depends on the text alone, and the
/// conversion below is one for one, so the composite is a function of `s`.
pub uninterp spec fn plain_json_of(s: Seq<char>) -> Option<PlainJson>;

/// Relies on serde_json::Value: converts a parsed value into the library's
/// plain form, variant by variant, moving the fields; numbers are rendered
/// to their decimal text through Number's Display impl.
#[verifier::external_body]
fn plain_of(v: &serde_json::Value) -> PlainJson {
    match v {
        serde_json::Value::Null => PlainJson::Null,
        serde_json::Value::Bool(b) => PlainJson::Bool(*b),
        serde_json::Value::Number(n) => PlainJson::Number(format!("{}", n).into_bytes()),
        serde_json::Value::String(s) => PlainJson::Text(s.clone()),
        serde_json::Value::Array(a) => PlainJson::Array(a.iter().map(plain_of).collect()),
        serde_json::Value::Object(o) => PlainJson::Object(
            o.iter().map(|(k, w)| (k.clone(), plain_of(w))).collect(),
        ),
    }
}

/// Relies on serde_json::from_str: parses a JSON document, failing exactly
/// on malformed JSON, and hands the value over in the library's plain form:
/// `plain_json_of` of the text.
#[verifier::external_body]
pub fn parse_plain(s: &str) -> (r: Option<PlainJson>)
    ensures
        r == plain_json_of(s@),
{
    serde_json::from_str::<serde_json::Value>(s).ok().map(|v| plain_of(&v))
}

/// An ASCII decimal digit.
pub open spec fn is_digit(b: u8) -> bool {
    48 <= b <= 57
}

/// The fixed-point value of the fraction digits `s`, read left to right at
/// the places PROB_SCALE/10, PROB_SCALE/100, ...; digits beyond the sixth
/// are truncated.
pub open spec fn frac_value(s: Seq<u8>, place: int) -> int
    decreases s.len(),
{
    if s.len() == 0 || place <= 0 {
        0
    } else {
        (s[0] - 48) * place + frac_value(s.drop_first(), place / 10)
    }
}

/// Ten to the `k`.
pub open spec fn pow10(k: nat) -> int
    decreases k,
{
    if k == 0 {
        1
    } else {
        10 * pow10((k - 1) as nat)
    }
}

/// The index of the first exponent marker (`e` or `E`) at or after `k`, or
/// the length when there is none.
pub open spec fn find_exp(s: Seq<u8>, k: int) -> int
    decreases s.len() - k,
{
    if k < 0 || k >= s.len() {
        s.len() as int
    } else if s[k] == 101 || s[k] == 69 {
        k
    } else {
        find_exp(s, k + 1)
    }
}

/// The fixed-point value of a mantissa: a single integer digit, optionally
/// followed by a dot and at least one fraction digit, truncated to six
/// fraction places. `None` for any other shape.
pub open spec fn mantissa_of_bytes(s: Seq<u8>) -> Option<int> {
    if s.len() >= 1 && is_digit(s[0]) {
        if s.len() == 1 {
            Some((s[0] - 48) * (PROB_SCALE as int))
        } else if s.len() >= 3 && s[1] == 46 && (forall|k: int|
            2 <= k < s.len() ==> is_digit(#[trigger] s[k])) {
            Some(
                (s[0] - 48) * (PROB_SCALE as int) + frac_value(
                    s.subrange(2, s.len() as int),
                    PROB_SCALE as int / 10,
                ),
            )
        } else {
            None
        }
    } else {
        None
    }
}

/// The mantissa scaled by ten to the exponent, floored, when the exponent is
/// at least one digit; capped at one.
pub open spec fn apply_exp(v0: int, neg: bool, digits: Seq<u8>) -> Option<u32> {
    if digits.len() >= 1 && (forall|k: int| 0 <= k < digits.len() ==> is_digit(#[trigger] digits[k])) {
        let k = digits_value(digits, 0);
        let v = if neg {
            v0 / pow10(k as nat)
        } else {
            v0 * pow10(k as nat)
        };
        if v <= PROB_SCALE {
            Some(v as u32)
        } else {
            None
        }
    } else {
        None
    }
}

/// The fixed-point probability a decimal literal denotes: a mantissa,
/// optionally followed by an exponent marker, an optional sign and exponent
/// digits, as serde_json prints numbers. `None` for any other shape and for
/// values above one.
pub open spec fn threshold_of_bytes(s: Seq<u8>) -> Option<u32> {
    let m = find_exp(s, 0);
    match mantissa_of_bytes(s.subrange(0, m)) {
        None => None,
        Some(v0) => {
            if m == s.len() {
                if v0 <= PROB_SCALE {
                    Some(v0 as u32)
                } else {
                    None
                }
            } else {
                let t = s.subrange(m + 1, s.len() as int);
                if t.len() >= 1 && (t[0] == 43 || t[0] == 45) {
                    apply_exp(v0, t[0] == 45, t.drop_first())
                } else {
                    apply_exp(v0, false, t)
                }
            }
        },
    }
}

/// Powers of ten are at least one.
proof fn lemma_pow10_pos(k: nat)
    ensures
        pow10(k) >= 1,
    decreases k,
{
    if k > 0 {
        lemma_pow10_pos((k - 1) as nat);
    }
}

/// Powers of ten grow with the exponent.
proof fn lemma_pow10_mono(a: nat, b: nat)
    requires
        a <= b,
    ensures
        1 <= pow10(a) <= pow10(b),
    decreases b,
{
    lemma_pow10_pos(a);
    if a < b {
        lemma_pow10_mono(a, (b - 1) as nat);
        lemma_pow10_pos((b - 1) as nat);
        assert(pow10(b) == 10 * pow10((b - 1) as nat));
    }
}

/// Parses a decimal probability literal into fixed point: exactly
/// `threshold_of_bytes` of the input.
pub fn parse_threshold(s: &Vec<u8>) -> (r: Option<u32>)
    ensures
        r == threshold_of_bytes(s@),
        r matches Some(t) ==> t <= PROB_SCALE,
{
    // Locate the exponent marker, if any.
    let mut m: usize = 0;
    while m < s.len() && !(s[m] == 101 || s[m] == 69)
        invariant
            m <= s@.len(),
            find_exp(s@, 0) == find_exp(s@, m as int),
        decreases s@.len() - m,
    {
        m = m + 1;
    }
    proof {
        assert(m as int == find_exp(s@, 0));
    }
    let ghost mantissa = s@.subrange(0, m as int);
    // The mantissa: one integer digit, optionally a dot and fraction digits.
    if m == 0 || !(48 <= s[0] && s[0] <= 57) {
        return None;
    }
    proof {
        assert(mantissa[0] == s@[0]);
    }
    let v0: u64 = if m == 1 {
        ((s[0] - 48) as u64) * (PROB_SCALE as u64)
    } else {
        if m == 2 || s[1] != 46 {
            proof {
                assert(mantissa.len() == m);
                assert(m >= 3 ==> mantissa[1] == s@[1]);
                assert(mantissa_of_bytes(mantissa) is None);
            }
            return None;
        }
        let mut k: usize = 2;
        let mut frac: u32 = 0;
        let mut place: u32 = PROB_SCALE / 10;
        proof {
            assert(mantissa[1] == s@[1]);
        }
        while k < m
            invariant
                2 <= k <= m,
                m <= s@.len(),
                m >= 3,
                m as int == find_exp(s@, 0),
                mantissa == s@.subrange(0, m as int),
                forall|q: int| 2 <= q < k ==> is_digit(#[trigger] s@[q]),
                frac <= 999999,
                place <= PROB_SCALE / 10,
                frac + frac_value(s@.subrange(k as int, m as int), place as int) == frac_value(
                    s@.subrange(2, m as int),
                    PROB_SCALE as int / 10,
                ),
                frac + 9 * place + place <= PROB_SCALE,
            decreases m - k,
        {
            let b = s[k];
            if !(48 <= b && b <= 57) {
                proof {
                    assert(mantissa[k as int] == s@[k as int]);
                    assert(mantissa_of_bytes(mantissa) is None);
                }
                return None;
            }
            proof {
                assert(s@.subrange(k as int, m as int).drop_first() =~= s@.subrange(
                    k as int + 1,
                    m as int,
                ));
                assert(s@.subrange(k as int, m as int)[0] == s@[k as int]);
                assert(((b - 48) as u32) * place <= 9 * place) by (nonlinear_arith)
                    requires
                        48 <= b <= 57,
                ;
            }
            frac = frac + ((b - 48) as u32) * place;
            place = place / 10;
            k = k + 1;
        }
        proof {
            assert(s@.subrange(k as int, m as int) =~= Seq::<u8>::empty());
            assert(forall|q: int| 2 <= q < m ==> is_digit(#[trigger] mantissa[q]));
            assert(mantissa.subrange(2, mantissa.len() as int) =~= s@.subrange(2, m as int));
        }
        ((s[0] - 48) as u64) * (PROB_SCALE as u64) + (frac as u64)
    };
    proof {
        assert(mantissa_of_bytes(mantissa) == Some(v0 as int));
    }
    assert(v0 < 10000000);
    if m == s.len() {
        if v0 <= PROB_SCALE as u64 {
            return Some(v0 as u32);
        } else {
            return None;
        }
    }
    // The exponent: an optional sign, then at least one digit.
    let ghost tail = s@.subrange(m as int + 1, s@.len() as int);
    let mut d0: usize = m + 1;
    let mut neg: bool = false;
    if d0 < s.len() && (s[d0] == 43 || s[d0] == 45) {
        neg = s[d0] == 45;
        d0 = d0 + 1;
    }
    let ghost digits = s@.subrange(d0 as int, s@.len() as int);
    proof {
        assert(tail.len() >= 1 ==> tail[0] == s@[m as int + 1]);
        if d0 == m + 2 {
            assert(digits =~= tail.drop_first());
        } else {
            assert(digits =~= tail);
        }
    }
    if d0 >= s.len() {
        return None;
    }
    // Every exponent byte must be a digit.
    let mut j: usize = d0;
    while j < s.len()
        invariant
            d0 <= j <= s@.len(),
            m < s@.len(),
            m as int == find_exp(s@, 0),
            mantissa == s@.subrange(0, m as int),
            mantissa_of_bytes(mantissa) == Some(v0 as int),
            tail == s@.subrange(m as int + 1, s@.len() as int),
            digits == s@.subrange(d0 as int, s@.len() as int),
            (d0 == m + 2 && tail.len() >= 1 && (tail[0] == 43 || tail[0] == 45) && neg == (
            tail[0] == 45)) || (d0 == m + 1 && !(tail.len() >= 1 && (tail[0] == 43 || tail[0]
                == 45)) && !neg),
            forall|q: int| d0 <= q < j ==> is_digit(#[trigger] s@[q]),
        decreases s@.len() - j,
    {
        let b = s[j];
        if !(48 <= b && b <= 57) {
            proof {
                assert(digits[j - d0] == s@[j as int]);
                assert(!is_digit(digits[j - d0]));
                if d0 == m + 2 {
                    assert(digits =~= tail.drop_first());
                } else {
                    assert(digits =~= tail);
                }
            }
            return None;
        }
        j = j + 1;
    }
    proof {
        assert(forall|q: int| 0 <= q < digits.len() ==> is_digit(#[trigger] digits[q]));
    }
    // Fold the exponent digits; past six the exact value no longer matters.
    let mut k7: u64 = 0;
    let mut big: bool = false;
    let mut j2: usize = d0;
    proof {
        assert(s@.subrange(d0 as int, s@.len() as int) == digits);
    }
    while j2 < s.len()
        invariant
            d0 <= j2 <= s@.len(),
            digits == s@.subrange(d0 as int, s@.len() as int),
            forall|q: int| 0 <= q < digits.len() ==> is_digit(#[trigger] digits[q]),
            !big ==> k7 < 7 && digits_value(
                s@.subrange(j2 as int, s@.len() as int),
                k7 as int,
            ) == digits_value(digits, 0),
            big ==> digits_value(digits, 0) >= 7,
        decreases s@.len() - j2,
    {
        let b = s[j2];
        proof {
            assert(s@.subrange(j2 as int, s@.len() as int).drop_first() =~= s@.subrange(
                j2 as int + 1,
                s@.len() as int,
            ));
            assert(s@.subrange(j2 as int, s@.len() as int)[0] == s@[j2 as int]);
            assert(s@[j2 as int] == digits[j2 - d0]);
        }
        if !big {
            let k2: u64 = k7 * 10 + ((b - 48) as u64);
            if k2 >= 7 {
                proof {
                    let rest = s@.subrange(j2 as int + 1, s@.len() as int);
                    assert forall|q: int| 0 <= q < rest.len() implies is_digit(
                        #[trigger] rest[q],
                    ) by {
                        assert(rest[q] == digits[q + (j2 as int + 1 - d0 as int)]);
                    };
                    lemma_digits_value_lower(rest, k2 as int);
                }
                big = true;
            } else {
                k7 = k2;
            }
        }
        j2 = j2 + 1;
    }
    proof {
        assert(s@.subrange(j2 as int, s@.len() as int) =~= Seq::<u8>::empty());
    }
    // Apply the exponent to the mantissa.
    proof {
        lemma_digits_value_lower(digits, 0);
    }
    if neg {
        if big {
            proof {
                lemma_pow10_mono(7, digits_value(digits, 0) as nat);
                assert(pow10(7) == 10000000) by {
                    reveal_with_fuel(pow10, 8);
                };
                vstd::arithmetic::div_mod::lemma_basic_div(
                    v0 as int,
                    pow10(digits_value(digits, 0) as nat),
                );
            }
            return Some(0);
        }
        let mut v: u64 = v0;
        let mut e: u64 = 0;
        while e < k7
            invariant
                e <= k7,
                v as int == v0 as int / pow10(e as nat),
                v <= v0,
            decreases k7 - e,
        {
            proof {
                assert(pow10((e + 1) as nat) == 10 * pow10(e as nat));
                lemma_pow10_pos(e as nat);
                vstd::arithmetic::div_mod::lemma_div_denominator(
                    v0 as int,
                    pow10(e as nat),
                    10,
                );
                vstd::arithmetic::div_mod::lemma_div_pos_is_pos(v0 as int, pow10(e as nat));
            }
            v = v / 10;
            e = e + 1;
        }
        if v <= PROB_SCALE as u64 {
            Some(v as u32)
        } else {
            None
        }
    } else {
        if v0 == 0 {
            proof {
                assert(0int * pow10(digits_value(digits, 0) as nat) == 0) by (nonlinear_arith);
            }
            return Some(0);
        }
        if big {
            proof {
                let kk = digits_value(digits, 0) as nat;
                lemma_pow10_mono(7, kk);
                assert(pow10(7) == 10000000) by {
                    reveal_with_fuel(pow10, 8);
                };
                assert(v0 as int * pow10(kk) >= pow10(kk)) by (nonlinear_arith)
                    requires
                        v0 >= 1,
                        pow10(kk) >= 1,
                ;
            }
            return None;
        }
        let mut v: u64 = v0;
        let mut e: u64 = 0;
        while e < k7
            invariant
                e <= k7,
                k7 < 7,
                v0 < 10000000,
                v as int == v0 as int * pow10(e as nat),
                v < 100000000000000,
            decreases k7 - e,
        {
            proof {
                assert(pow10((e + 1) as nat) == 10 * pow10(e as nat));
                assert(v0 as int * (10 * pow10(e as nat)) == 10 * (v0 as int * pow10(
                    e as nat,
                ))) by (nonlinear_arith);
                lemma_pow10_mono(e as nat, 6);
                assert(pow10(6) == 1000000) by {
                    reveal_with_fuel(pow10, 8);
                };
                assert(v0 as int * pow10(e as nat) <= v0 as int * 1000000) by (nonlinear_arith)
                    requires
                        pow10(e as nat) <= 1000000,
                        v0 >= 0,
                ;
            }
            v = v * 10;
            e = e + 1;
        }
        if v <= PROB_SCALE as u64 {
            Some(v as u32)
        } else {
            None
        }
    }
}

/// The decimal digits of `s` folded left to right onto `acc`.
pub open spec fn digits_value(s: Seq<u8>, acc: int) -> int
    decreases s.len(),
{
    if s.len() == 0 {
        acc
    } else {
        digits_value(s.drop_first(), acc * 10 + (s[0] - 48))
    }
}

/// The channel a decimal literal denotes: at least one digit, nothing else,
/// and a value within u64.
pub open spec fn channel_of_bytes(s: Seq<u8>) -> Option<u64> {
    if s.len() >= 1 && (forall|k: int| 0 <= k < s.len() ==> is_digit(#[trigger] s[k]))
        && digits_value(s, 0) <= u64::MAX {
        Some(digits_value(s, 0) as u64)
    } else {
        None
    }
}

/// Folding digits never shrinks the accumulator.
proof fn lemma_digits_value_lower(s: Seq<u8>, acc: int)
    requires
        acc >= 0,
        forall|k: int| 0 <= k < s.len() ==> is_digit(#[trigger] s[k]),
    ensures
        digits_value(s, acc) >= acc,
    decreases s.len(),
{
    if s.len() > 0 {
        assert(acc * 10 >= acc) by (nonlinear_arith)
            requires
                acc >= 0,
        ;
        assert(forall|k: int|
            0 <= k < s.drop_first().len() ==> is_digit(#[trigger] s.drop_first()[k]));
        lemma_digits_value_lower(s.drop_first(), acc * 10 + (s[0] - 48));
    }
}

/// Parses a decimal channel number: exactly `channel_of_bytes` of the input.
pub fn parse_channel(s: &Vec<u8>) -> (r: Option<u64>)
    ensures
        r == channel_of_bytes(s@),
{
    if s.len() == 0 {
        return None;
    }
    let mut k: usize = 0;
    while k < s.len()
        invariant
            k <= s@.len(),
            forall|q: int| 0 <= q < k ==> is_digit(#[trigger] s@[q]),
        decreases s@.len() - k,
    {
        let b = s[k];
        if !(48 <= b && b <= 57) {
            return None;
        }
        k = k + 1;
    }
    let mut j: usize = 0;
    let mut acc: u128 = 0;
    proof {
        assert(s@.subrange(0, s@.len() as int) =~= s@);
    }
    while j < s.len()
        invariant
            j <= s@.len(),
            forall|q: int| 0 <= q < s@.len() ==> is_digit(#[trigger] s@[q]),
            acc <= u64::MAX,
            digits_value(s@.subrange(j as int, s@.len() as int), acc as int) == digits_value(
                s@,
                0,
            ),
        decreases s@.len() - j,
    {
        let b = s[j];
        proof {
            assert(s@.subrange(j as int, s@.len() as int).drop_first() =~= s@.subrange(
                j as int + 1,
                s@.len() as int,
            ));
            assert(s@.subrange(j as int, s@.len() as int)[0] == s@[j as int]);
        }
        acc = acc * 10 + ((b - 48) as u128);
        if acc > u64::MAX as u128 {
            proof {
                let rest = s@.subrange(j as int + 1, s@.len() as int);
                assert(forall|q: int|
                    0 <= q < rest.len() ==> is_digit(#[trigger] rest[q]));
                lemma_digits_value_lower(rest, acc as int);
            }
            return None;
        }
        j = j + 1;
    }
    proof {
        assert(s@.subrange(j as int, s@.len() as int) =~= Seq::<u8>::empty());
    }
    Some(acc as u64)
}

/// The first value stored under `key`, scanning the object's fields in
/// order.
pub open spec fn lookup(fields: Seq<(String, PlainJson)>, key: Seq<char>) -> Option<PlainJson>
    decreases fields.len(),
{
    if fields.len() == 0 {
        None
    } else if fields[0].0@ == key {
        Some(fields[0].1)
    } else {
        lookup(fields.drop_first(), key)
    }
}

/// A found entry is the first match.
proof fn lemma_lookup_found(fields: Seq<(String, PlainJson)>, key: Seq<char>, k: int)
    requires
        0 <= k < fields.len(),
        fields[k].0@ == key,
        forall|q: int| 0 <= q < k ==> (#[trigger] fields[q]).0@ != key,
    ensures
        lookup(fields, key) == Some(fields[k].1),
    decreases k,
{
    if k > 0 {
        assert(fields.drop_first()[k - 1] == fields[k]);
        assert(forall|q: int|
            0 <= q < k - 1 ==> (#[trigger] fields.drop_first()[q]) == fields[q + 1]);
        lemma_lookup_found(fields.drop_first(), key, k - 1);
    }
}

/// No matching field, no entry.
proof fn lemma_lookup_missing(fields: Seq<(String, PlainJson)>, key: Seq<char>)
    requires
        forall|q: int| 0 <= q < fields.len() ==> (#[trigger] fields[q]).0@ != key,
    ensures
        lookup(fields, key) is None,
    decreases fields.len(),
{
    if fields.len() > 0 {
        assert(forall|q: int|
            0 <= q < fields.drop_first().len() ==> (#[trigger] fields.drop_first()[q]) == fields[q
                + 1]);
        lemma_lookup_missing(fields.drop_first(), key);
    }
}

/// Finds the first field named `key`: exactly `lookup`.
fn lookup_field<'a>(fields: &'a Vec<(String, PlainJson)>, key: &String) -> (r: Option<
    &'a PlainJson,
>)
    ensures
        match r {
            Some(v) => lookup(fields@, key@) == Some(*v),
            None => lookup(fields@, key@) is None,
        },
{
    let mut k: usize = 0;
    while k < fields.len()
        invariant
            k <= fields@.len(),
            forall|q: int| 0 <= q < k ==> (#[trigger] fields@[q]).0@ != key@,
        decreases fields@.len() - k,
    {
        if fields[k].0 == *key {
            proof {
                lemma_lookup_found(fields@, key@, k as int);
            }
            return Some(&fields[k].1);
        }
        k = k + 1;
    }
    proof {
        lemma_lookup_missing(fields@, key@);
    }
    None
}

/// The level one schema entry denotes: an object with a `name`, a `kind` of
/// `predicted` (with a decimal `channel` within the machine's word and an
/// optional decimal `threshold`, defaulted when absent) or `whitespace`.
/// Anything else denotes no level.
pub open spec fn level_of_item(item: PlainJson, default_threshold: u32) -> Option<Level> {
    match item {
        PlainJson::Object(fields) => match (lookup(fields@, "name"@), lookup(fields@, "kind"@)) {
            (Some(PlainJson::Text(name)), Some(PlainJson::Text(kind))) => {
                if kind@ == "predicted"@ {
                    let ch = match lookup(fields@, "channel"@) {
                        Some(PlainJson::Number(cb)) => channel_of_bytes(cb@),
                        _ => None,
                    };
                    let th = match lookup(fields@, "threshold"@) {
                        Some(PlainJson::Number(tb)) => threshold_of_bytes(tb@),
                        None => Some(default_threshold),
                        Some(_) => None,
                    };
                    match (ch, th) {
                        (Some(c), Some(t)) => if c <= usize::MAX {
                            Some(Level::Predicted { name, channel: c as usize, threshold: t })
                        } else {
                            None
                        },
                        _ => None,
                    }
                } else if kind@ == "whitespace"@ {
                    Some(Level::Whitespace { name })
                } else {
                    None
                }
            },
            _ => None,
        },
        _ => None,
    }
}

/// The level list a schema array denotes, in order; nothing as soon as one
/// entry is malformed.
pub open spec fn levels_of_items(items: Seq<PlainJson>, default_threshold: u32) -> Option<
    Seq<Level>,
>
    decreases items.len(),
{
    if items.len() == 0 {
        Some(Seq::empty())
    } else {
        match level_of_item(items[0], default_threshold) {
            Some(lv) => match levels_of_items(items.drop_first(), default_threshold) {
                Some(rest) => Some(seq![lv] + rest),
                None => None,
            },
            None => None,
        }
    }
}

/// The schema a parsed document denotes: the levels of its top-level array.
pub open spec fn schema_of_plain(p: Option<PlainJson>, default_threshold: u32) -> Option<
    Seq<Level>,
> {
    match p {
        Some(PlainJson::Array(items)) => levels_of_items(items@, default_threshold),
        _ => None,
    }
}

/// Reads one schema entry: exactly `level_of_item`.
fn parse_level(item: &PlainJson, default_threshold: u32) -> (r: Option<Level>)
    requires
        default_threshold <= PROB_SCALE,
    ensures
        r == level_of_item(*item, default_threshold),
        r matches Some(l) ==> match l {
            Level::Predicted { threshold, .. } => threshold <= PROB_SCALE,
            Level::Whitespace { .. } => true,
        },
{
    let fields = match item {
        PlainJson::Object(fields) => fields,
        _ => {
            return None;
        },
    };
    let name_key: String = "name".to_owned();
    let kind_key: String = "kind".to_owned();
    let channel_key: String = "channel".to_owned();
    let threshold_key: String = "threshold".to_owned();
    let name: String = match lookup_field(fields, &name_key) {
        Some(PlainJson::Text(n)) => n.clone(),
        _ => {
            return None;
        },
    };
    let kind: &String = match lookup_field(fields, &kind_key) {
        Some(PlainJson::Text(k)) => k,
        _ => {
            return None;
        },
    };
    let predicted: String = "predicted".to_owned();
    let whitespace: String = "whitespace".to_owned();
    if *kind == predicted {
        let channel: u64 = match lookup_field(fields, &channel_key) {
            Some(PlainJson::Number(cb)) => match parse_channel(cb) {
                Some(c) => c,
                None => {
                    return None;
                },
            },
            _ => {
                return None;
            },
        };
        let threshold: u32 = match lookup_field(fields, &threshold_key) {
            Some(PlainJson::Number(tb)) => match parse_threshold(tb) {
                Some(t) => t,
                None => {
                    return None;
                },
            },
            Some(_) => {
                return None;
            },
            None => default_threshold,
        };
        if channel > usize::MAX as u64 {
            return None;
        }
        Some(Level::Predicted { name, channel: channel as usize, threshold })
    } else if *kind == whitespace {
        Some(Level::Whitespace { name })
    } else {
        None
    }
}

/// Builds the level list of a parsed schema document: exactly
/// `schema_of_plain` of it, with the metadata error where the document does
/// not denote a schema. Every produced threshold is a probability.
pub fn levels_from_plain(plain: &PlainJson, default_threshold: u32) -> (r: Result<
    Vec<Level>,
    NNSplitError,
>)
    requires
        default_threshold <= PROB_SCALE,
    ensures
        match r {
            Ok(levels) => schema_of_plain(Some(*plain), default_threshold) == Some(levels@),
            Err(e) => e == NNSplitError::Metadata && schema_of_plain(
                Some(*plain),
                default_threshold,
            ) is None,
        },
        r matches Ok(levels) ==> forall|l: int|
            0 <= l < levels@.len() ==> match #[trigger] levels@[l] {
                Level::Predicted { threshold, .. } => threshold <= PROB_SCALE,
                Level::Whitespace { .. } => true,
            },
{
    let items = match plain {
        PlainJson::Array(items) => items,
        _ => {
            return Err(NNSplitError::Metadata);
        },
    };
    proof {
        assert(*plain == PlainJson::Array(*items));
        assert(items@.subrange(0, items@.len() as int) =~= items@);
        if let Some(rest) = levels_of_items(items@, default_threshold) {
            assert(Seq::<Level>::empty() + rest =~= rest);
        }
    }
    let mut levels: Vec<Level> = Vec::new();
    let mut idx: usize = 0;
    while idx < items.len()
        invariant
            default_threshold <= PROB_SCALE,
            *plain == PlainJson::Array(*items),
            idx <= items@.len(),
            levels@.len() == idx,
            match levels_of_items(items@.subrange(idx as int, items@.len() as int),
                default_threshold,
            ) {
                Some(rest) => levels_of_items(items@, default_threshold) == Some(levels@ + rest),
                None => levels_of_items(items@, default_threshold) is None,
            },
            forall|l: int|
                0 <= l < levels@.len() ==> match #[trigger] levels@[l] {
                    Level::Predicted { threshold, .. } => threshold <= PROB_SCALE,
                    Level::Whitespace { .. } => true,
                },
        decreases items@.len() - idx,
    {
        let ghost suffix = items@.subrange(idx as int, items@.len() as int);
        proof {
            assert(suffix[0] == items@[idx as int]);
            assert(suffix.drop_first() =~= items@.subrange(idx as int + 1, items@.len() as int));
        }
        match parse_level(&items[idx], default_threshold) {
            Some(lv) => {
                let ghost pre = levels@;
                levels.push(lv);
                proof {
                    assert(levels@ =~= pre + seq![lv]);
                    if let Some(rest2) = levels_of_items(
                        items@.subrange(idx as int + 1, items@.len() as int),
                        default_threshold,
                    ) {
                        assert((pre + (seq![lv] + rest2)) =~= (levels@ + rest2));
                    }
                }
            },
            None => {
                proof {
                    assert(levels_of_items(items@, default_threshold) is None);
                }
                return Err(NNSplitError::Metadata);
            },
        }
        idx = idx + 1;
    }
    proof {
        assert(items@.subrange(idx as int, items@.len() as int) =~= Seq::<PlainJson>::empty());
        assert(levels@ + Seq::<Level>::empty() =~= levels@);
    }
    Ok(levels)
}

/// Reads the split-sequence schema from its JSON text: an array of levels as
/// `level_of_item` lays down. The result is pinned to the text: it is the
/// schema of `plain_json_of(json)`, and the metadata error comes exactly
/// when the text does not denote a schema.
pub fn parse_split_sequence(json: &str, default_threshold: u32) -> (r: Result<
    Vec<Level>,
    NNSplitError,
>)
    requires
        default_threshold <= PROB_SCALE,
    ensures
        match r {
            Ok(levels) => schema_of_plain(plain_json_of(json@), default_threshold) == Some(
                levels@,
            ),
            Err(e) => e == NNSplitError::Metadata && schema_of_plain(
                plain_json_of(json@),
                default_threshold,
            ) is None,
        },
        r matches Ok(levels) ==> forall|l: int|
            0 <= l < levels@.len() ==> match #[trigger] levels@[l] {
                Level::Predicted { threshold, .. } => threshold <= PROB_SCALE,
                Level::Whitespace { .. } => true,
            },
{
    let plain = match parse_plain(json) {
        Some(p) => p,
        None => {
            return Err(NNSplitError::Metadata);
        },
    };
    levels_from_plain(&plain, default_threshold)
}

} // verus!
