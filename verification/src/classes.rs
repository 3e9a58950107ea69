use std::collections::HashMap;
use vstd::prelude::*;
use vstd::string::*;

use crate::commons::ModelError;

verus! {

broadcast use vstd::std_specs::hash::group_hash_axioms;

/// An ASCII decimal digit.
pub open spec fn is_digit(c: char) -> bool {
    '0' <= c && c <= '9'
}

pub open spec fn all_digits(s: Seq<char>) -> bool {
    forall|i: int| 0 <= i < s.len() ==> is_digit(#[trigger] s[i])
}

/// The number that a string of decimal digits writes, most significant first.
pub open spec fn digits_value(s: Seq<char>) -> int
    decreases s.len(),
{
    if s.len() == 0 {
        0
    } else {
        digits_value(s.drop_last()) * 10 + (s.last() as int - '0' as int)
    }
}

/// Decimal parsing of a 32-bit signed integer as the standard library does it: an
/// optional `+` or `-`, then one or more ASCII digits and nothing else, with a value
/// that fits in `i32`.
pub open spec fn spec_parse_i32(s: Seq<char>) -> Option<i32> {
    let negative = s.len() > 0 && s[0] == '-';
    let digits = if s.len() > 0 && (s[0] == '-' || s[0] == '+') {
        s.drop_first()
    } else {
        s
    };
    let v = if negative {
        -digits_value(digits)
    } else {
        digits_value(digits)
    };
    if digits.len() == 0 || !all_digits(digits) {
        None
    } else if i32::MIN <= v && v <= i32::MAX {
        Some(v as i32)
    } else {
        None
    }
}

proof fn lemma_digits_value_nonneg(s: Seq<char>)
    requires
        all_digits(s),
    ensures
        digits_value(s) >= 0,
    decreases s.len(),
{
    if s.len() > 0 {
        assert(is_digit(s[s.len() - 1]));
        assert(all_digits(s.drop_last())) by {
            assert forall|i: int| 0 <= i < s.drop_last().len() implies is_digit(
                #[trigger] s.drop_last()[i],
            ) by {
                assert(is_digit(s[i]));
            }
        }
        lemma_digits_value_nonneg(s.drop_last());
    }
}

/// A string of digits is worth at least as much as any of its prefixes.
proof fn lemma_digits_value_prefix(s: Seq<char>, k: int)
    requires
        all_digits(s),
        0 <= k <= s.len(),
    ensures
        digits_value(s.take(k)) <= digits_value(s),
    decreases s.len(),
{
    if k < s.len() {
        let t = s.drop_last();
        assert(all_digits(t)) by {
            assert forall|i: int| 0 <= i < t.len() implies is_digit(#[trigger] t[i]) by {
                assert(is_digit(s[i]));
            }
        }
        lemma_digits_value_prefix(t, k);
        assert(t.take(k) =~= s.take(k));
        lemma_digits_value_nonneg(t);
        assert(is_digit(s[s.len() - 1]));
    } else {
        assert(s.take(k) =~= s);
    }
}

/// The ASCII character of a decimal digit.
pub open spec fn digit_char(d: int) -> char {
    if d == 0 { '0' }
    else if d == 1 { '1' }
    else if d == 2 { '2' }
    else if d == 3 { '3' }
    else if d == 4 { '4' }
    else if d == 5 { '5' }
    else if d == 6 { '6' }
    else if d == 7 { '7' }
    else if d == 8 { '8' }
    else { '9' }
}

/// The decimal digits of a natural number, most significant first, without leading zeros.
pub open spec fn decimal_digits(v: nat) -> Seq<char>
    decreases v,
{
    if v < 10 {
        seq![digit_char(v as int)]
    } else {
        decimal_digits(v / 10).push(digit_char(v as int % 10))
    }
}

/// How an `i32` is written in decimal: a `-` before a negative number, then its digits.
pub open spec fn decimal_i32(n: i32) -> Seq<char> {
    if n < 0 {
        seq!['-'] + decimal_digits((-n) as nat)
    } else {
        decimal_digits(n as nat)
    }
}

proof fn lemma_digit_char(d: int)
    requires
        0 <= d <= 9,
    ensures
        is_digit(digit_char(d)),
        digit_char(d) as int - '0' as int == d,
        digit_char(d) != '-' && digit_char(d) != '+',
{
    assert(('0' as int) == 48);
    if d == 0 { assert(('0' as int) == 48); }
    else if d == 1 { assert(('1' as int) == 49); }
    else if d == 2 { assert(('2' as int) == 50); }
    else if d == 3 { assert(('3' as int) == 51); }
    else if d == 4 { assert(('4' as int) == 52); }
    else if d == 5 { assert(('5' as int) == 53); }
    else if d == 6 { assert(('6' as int) == 54); }
    else if d == 7 { assert(('7' as int) == 55); }
    else if d == 8 { assert(('8' as int) == 56); }
    else { assert(('9' as int) == 57); }
}

proof fn lemma_decimal_digits(v: nat)
    ensures
        decimal_digits(v).len() > 0,
        all_digits(decimal_digits(v)),
        digits_value(decimal_digits(v)) == v,
        decimal_digits(v)[0] != '-' && decimal_digits(v)[0] != '+',
    decreases v,
{
    let s = decimal_digits(v);
    if v < 10 {
        lemma_digit_char(v as int);
        assert(s.drop_last() =~= Seq::<char>::empty());
        assert(digits_value(Seq::<char>::empty()) == 0);
        assert(s.last() == digit_char(v as int));
        assert(digits_value(s) == digits_value(s.drop_last()) * 10 + (s.last() as int - '0' as int));
        assert(is_digit(s[0]));
    } else {
        lemma_digit_char(v as int % 10);
        lemma_decimal_digits(v / 10);
        let p = decimal_digits(v / 10);
        assert(s.drop_last() =~= p);
        assert(s.last() == digit_char(v as int % 10));
        assert(digit_char(v as int % 10) as int - '0' as int == v as int % 10);
        assert(digits_value(s) == digits_value(s.drop_last()) * 10 + (s.last() as int - '0' as int));
        assert(v as int == (v / 10) as int * 10 + v as int % 10);
        assert(all_digits(s)) by {
            assert forall|i: int| 0 <= i < s.len() implies is_digit(#[trigger] s[i]) by {
                if i < p.len() {
                    assert(s[i] == p[i]);
                }
            }
        }
        assert(s[0] == p[0]);
    }
}

/// Law: parsing reads back every `i32` written in decimal, so every key made of
/// digits 0 to 9 (with an optional minus sign) that names an `i32` is kept.
pub proof fn lemma_parse_reads_decimal(n: i32)
    ensures
        spec_parse_i32(decimal_i32(n)) == Some(n),
{
    let s = decimal_i32(n);
    if n < 0 {
        let m: nat = (-n) as nat;
        lemma_decimal_digits(m);
        assert(s[0] == '-');
        assert(s.drop_first() =~= decimal_digits(m));
    } else {
        lemma_decimal_digits(n as nat);
    }
}

/// `k` zero digits.
pub open spec fn zeros(k: nat) -> Seq<char> {
    Seq::new(k, |i: int| '0')
}

proof fn lemma_zeros_value(k: nat)
    ensures
        digits_value(zeros(k)) == 0,
        all_digits(zeros(k)),
    decreases k,
{
    assert(('0' as int) == 48);
    if k > 0 {
        assert(zeros(k).drop_last() =~= zeros((k - 1) as nat));
        lemma_zeros_value((k - 1) as nat);
    }
}

proof fn lemma_leading_zeros(k: nat, b: Seq<char>)
    requires
        all_digits(b),
    ensures
        digits_value(zeros(k) + b) == digits_value(b),
        all_digits(zeros(k) + b),
    decreases b.len(),
{
    lemma_zeros_value(k);
    if b.len() == 0 {
        assert(zeros(k) + b =~= zeros(k));
    } else {
        let bt = b.drop_last();
        assert(all_digits(bt)) by {
            assert forall|i: int| 0 <= i < bt.len() implies is_digit(#[trigger] bt[i]) by {
                assert(is_digit(b[i]));
            }
        }
        lemma_leading_zeros(k, bt);
        assert((zeros(k) + b).drop_last() =~= zeros(k) + bt);
        assert((zeros(k) + b).last() == b.last());
        assert(all_digits(zeros(k) + b)) by {
            assert forall|i: int| 0 <= i < (zeros(k) + b).len() implies is_digit(#[trigger] (zeros(k) + b)[i]) by {
                if i < k {
                    assert((zeros(k) + b)[i] == '0');
                } else {
                    assert((zeros(k) + b)[i] == b[i - k]);
                }
            }
        }
    }
}

/// Law: every decimal numeral is read as std reads it: an optional sign (`sign` 1 for
/// `+`, 2 for `-`, otherwise none), any number of leading zeros, then the digits of `v`;
/// the result is the signed value where it fits in `i32`, and nothing otherwise.
pub proof fn lemma_parse_numerals(sign: int, k: nat, v: nat)
    ensures
        ({
            let prefix = if sign == 1 { seq!['+'] } else if sign == 2 { seq!['-'] } else { Seq::<char>::empty() };
            let value = if sign == 2 { -(v as int) } else { v as int };
            spec_parse_i32(prefix + zeros(k) + decimal_digits(v)) == if i32::MIN <= value <= i32::MAX {
                Some(value as i32)
            } else {
                None
            }
        }),
{
    let prefix = if sign == 1 { seq!['+'] } else if sign == 2 { seq!['-'] } else { Seq::<char>::empty() };
    let body = zeros(k) + decimal_digits(v);
    lemma_decimal_digits(v);
    lemma_leading_zeros(k, decimal_digits(v));
    let s = prefix + body;
    assert(prefix + zeros(k) + decimal_digits(v) =~= s);
    assert(body.len() > 0);
    if sign == 1 || sign == 2 {
        assert(s.drop_first() =~= body);
        assert(s[0] == prefix[0]);
    } else {
        assert(s =~= body);
        assert(('0' as int) == 48);
        if k > 0 {
            assert(body[0] == '0');
        } else {
            assert(body[0] == decimal_digits(v)[0]);
        }
    }
}

/// Law: a string holding any character other than an ASCII digit, apart from one sign in
/// front, does not parse.
pub proof fn lemma_parse_rejects_other_characters(s: Seq<char>, i: int)
    requires
        0 <= i < s.len(),
        !('0' <= s[i] && s[i] <= '9'),
        i > 0 || (s[i] != '+' && s[i] != '-'),
    ensures
        spec_parse_i32(s) == None::<i32>,
{
    if s[0] == '-' || s[0] == '+' {
        assert(s.drop_first()[i - 1] == s[i]);
    }
}

/// Law: the empty string and a bare sign do not parse.
pub proof fn lemma_parse_rejects_empty()
    ensures
        spec_parse_i32(Seq::<char>::empty()) == None::<i32>,
        spec_parse_i32(seq!['+']) == None::<i32>,
        spec_parse_i32(seq!['-']) == None::<i32>,
{
    assert(seq!['+'].drop_first() =~= Seq::<char>::empty());
    assert(seq!['-'].drop_first() =~= Seq::<char>::empty());
}

/// Law: every ASCII digit is a digit of decimal numbers.
pub proof fn lemma_every_decimal_digit_parses(d: int)
    requires
        0 <= d <= 9,
    ensures
        spec_parse_i32(seq![digit_char(d)]) == Some(d as i32),
{
    let s = seq![digit_char(d)];
    lemma_digit_char(d);
    assert(s.drop_last() =~= Seq::<char>::empty());
    assert(digits_value(Seq::<char>::empty()) == 0);
    assert(digits_value(s) == digits_value(s.drop_last()) * 10 + (s.last() as int - '0' as int));
    assert(all_digits(s));
    assert(is_digit(s[0]));
}

/// Parses a decimal `i32` exactly as `str::parse::<i32>` does, `None` where it errs.
pub fn parse_i32(s: &str) -> (r: Option<i32>)
    ensures
        r == spec_parse_i32(s@),
        forall|n: i32| s@ == #[trigger] decimal_i32(n) ==> r == Some(n),
{
    let r = parse_decimal(s);
    proof {
        assert forall|n: i32| s@ == #[trigger] decimal_i32(n) implies spec_parse_i32(s@) == Some(n) by {
            lemma_parse_reads_decimal(n);
        }
    }
    r
}

fn parse_decimal(s: &str) -> (r: Option<i32>)
    ensures
        r == spec_parse_i32(s@),
{
    let n = s.unicode_len();
    if n == 0 {
        return None;
    }
    let first = s.get_char(0);
    let negative = first == '-';
    let start: usize = if first == '-' || first == '+' {
        1
    } else {
        0
    };
    let ghost digits = if start == 1 {
        s@.drop_first()
    } else {
        s@
    };
    assert(digits =~= s@.subrange(start as int, n as int));
    if start >= n {
        return None;
    }
    let mut acc: i64 = 0;
    let mut i: usize = start;
    while i < n
        invariant
            n == s@.len(),
            n > 0,
            first == s@[0],
            negative == (first == '-'),
            start == (if first == '-' || first == '+' { 1usize } else { 0usize }),
            digits == (if start == 1 { s@.drop_first() } else { s@ }),
            start <= i <= n,
            start < n,
            digits =~= s@.subrange(start as int, n as int),
            all_digits(s@.subrange(start as int, i as int)),
            acc == digits_value(s@.subrange(start as int, i as int)),
            0 <= acc <= 2147483648,
        decreases n - i,
    {
        let c = s.get_char(i);
        let ghost prev = s@.subrange(start as int, i as int);
        let ghost next = s@.subrange(start as int, i + 1);
        assert(next.drop_last() =~= prev);
        if !('0' <= c && c <= '9') {
            assert(!is_digit(digits[i - start]));
            return None;
        }
        assert(all_digits(next)) by {
            assert forall|j: int| 0 <= j < next.len() implies is_digit(#[trigger] next[j]) by {
                if j < prev.len() {
                    assert(next[j] == prev[j]);
                }
            }
        }
        let d: i64 = (c as u32 - '0' as u32) as i64;
        acc = acc * 10 + d;
        i = i + 1;
        if acc > 2147483648 {
            proof {
                let rest = s@.subrange(start as int, n as int);
                if all_digits(rest) {
                    assert(rest.take(i - start) =~= next);
                    lemma_digits_value_prefix(rest, i - start);
                }
            }
            return None;
        }
    }
    assert(s@.subrange(start as int, n as int) =~= digits);
    if negative {
        Some((0 - acc) as i32)
    } else if acc <= 2147483647 {
        Some(acc as i32)
    } else {
        None
    }
}

/// The error that JSON parsing reports.
#[verifier::external_type_specification]
#[verifier::external_body]
pub struct ExJsonError(serde_json::Error);

/// The object that a JSON text denotes when it is an object whose values are all
/// strings (a later duplicate key replacing an earlier one), `None` for any other text.
pub uninterp spec fn json_string_object(text: Seq<char>) -> Option<Map<Seq<char>, Seq<char>>>;

/// `entries` lists the key/value pairs of `obj`, each key once, in some order.
pub open spec fn lists_object(entries: Seq<(String, String)>, obj: Map<Seq<char>, Seq<char>>) -> bool {
    &&& forall|i: int, j: int|
        0 <= i < j < entries.len() ==> #[trigger] entries[i].0@ != #[trigger] entries[j].0@
    &&& forall|i: int|
        0 <= i < entries.len() ==> obj.contains_key(#[trigger] entries[i].0@) && obj[entries[i].0@]
            == entries[i].1@
    &&& forall|k: Seq<char>|
        #[trigger] obj.contains_key(k) ==> exists|i: int|
            0 <= i < entries.len() && #[trigger] entries[i].0@ == k
}

/// Calls `serde_json::from_str` to read a JSON object of strings into a
/// `HashMap<String, String>` and lists that map's entries. Trusted: that it succeeds
/// exactly on the texts that `json_string_object` maps to an object, and that the
/// entries are then those of that object, each key once. The order of the entries
/// follows the map's hashing and is left unsaid.
#[verifier::external_body]
fn read_string_object(text: &str) -> (res: Result<Vec<(String, String)>, serde_json::Error>)
    ensures
        res is Ok <==> json_string_object(text@) is Some,
        res matches Ok(entries) ==> lists_object(entries@, json_string_object(text@).unwrap()),
{
    match serde_json::from_str::<HashMap<String, String>>(text) {
        Ok(map) => Ok(map.into_iter().collect()),
        Err(e) => Err(e),
    }
}

/// `classes` is the class table read from `obj`: it maps each integer that some key of
/// `obj` parses to onto the value of one such key, and holds nothing else.
pub open spec fn class_table_of(obj: Map<Seq<char>, Seq<char>>, classes: Map<i32, String>) -> bool {
    &&& forall|k: i32|
        #[trigger] classes.contains_key(k) <==> exists|key: Seq<char>|
            obj.contains_key(key) && #[trigger] spec_parse_i32(key) == Some(k)
    &&& forall|k: i32|
        #[trigger] classes.contains_key(k) ==> exists|key: Seq<char>|
            obj.contains_key(key) && #[trigger] spec_parse_i32(key) == Some(k) && obj[key]
                == classes[k]@
}

/// `j` is the last entry whose key parses to `k`.
pub open spec fn is_last_entry_for(entries: Seq<(String, String)>, k: i32, j: int) -> bool {
    &&& 0 <= j < entries.len()
    &&& spec_parse_i32(entries[j].0@) == Some(k)
    &&& forall|l: int| j < l < entries.len() ==> spec_parse_i32(#[trigger] entries[l].0@) != Some(k)
}

/// The class table of a list of (key, name) entries: each key that parses as a decimal
/// `i32` maps that integer to its name, a later entry replacing an earlier one for the
/// same integer; other keys are skipped.
pub fn class_table_from_entries(entries: &Vec<(String, String)>) -> (classes: HashMap<i32, String>)
    ensures
        forall|k: i32|
            #[trigger] classes@.contains_key(k) <==> exists|j: int|
                0 <= j < entries@.len() && #[trigger] spec_parse_i32(entries@[j].0@) == Some(k),
        forall|k: i32, j: int|
            #[trigger] is_last_entry_for(entries@, k, j) ==> classes@.contains_key(k)
                && classes@[k]@ == entries@[j].1@,
        forall|k: i32|
            #[trigger] classes@.contains_key(k) ==> exists|j: int|
                #[trigger] is_last_entry_for(entries@, k, j) && entries@[j].1@ == classes@[k]@,
        forall|j: int|
            0 <= j < entries@.len() && #[trigger] spec_parse_i32(entries@[j].0@) is Some ==> exists|j2: int|
                j <= j2 < entries@.len() && #[trigger] spec_parse_i32(entries@[j2].0@) == spec_parse_i32(entries@[j].0@)
                    && entries@[j2].1@ == classes@[spec_parse_i32(entries@[j].0@).unwrap()]@,
{
    let mut classes: HashMap<i32, String> = HashMap::new();
    let n = entries.len();
    let mut i: usize = 0;
    while i < n
        invariant
            n == entries@.len(),
            0 <= i <= n,
            forall|k: i32|
                #[trigger] classes@.contains_key(k) <==> exists|j: int|
                    0 <= j < i && #[trigger] spec_parse_i32(entries@[j].0@) == Some(k),
            forall|k: i32|
                #[trigger] classes@.contains_key(k) ==> exists|j: int|
                    #[trigger] is_last_entry_for(entries@.take(i as int), k, j) && entries@[j].1@
                        == classes@[k]@,
        decreases n - i,
    {
        let ghost before = classes@;
        let ghost pre = entries@.take(i as int);
        let ghost post = entries@.take(i + 1);
        assert forall|k: i32, j: int| #[trigger] is_last_entry_for(pre, k, j) && spec_parse_i32(
            entries@[i as int].0@,
        ) != Some(k) implies is_last_entry_for(post, k, j) by {
            assert forall|l: int| j < l < post.len() implies spec_parse_i32(
                #[trigger] post[l].0@,
            ) != Some(k) by {
                if l < i {
                    assert(post[l] == pre[l]);
                }
            }
        }
        match parse_i32(entries[i].0.as_str()) {
            Some(k) => {
                let name = entries[i].1.clone();
                classes.insert(k, name);
                assert(spec_parse_i32(entries@[i as int].0@) == Some(k));
                assert(is_last_entry_for(post, k, i as int));
                assert forall|k2: i32| #[trigger] classes@.contains_key(k2) implies exists|j: int|
                    #[trigger] is_last_entry_for(post, k2, j) && entries@[j].1@ == classes@[k2]@ by {
                    if k2 != k {
                        assert(before.contains_key(k2));
                        let j = choose|j: int|
                            #[trigger] is_last_entry_for(pre, k2, j) && entries@[j].1@ == before[k2]@;
                        assert(is_last_entry_for(post, k2, j));
                    }
                }
            },
            None => {
                assert forall|k2: i32| #[trigger] classes@.contains_key(k2) implies exists|j: int|
                    #[trigger] is_last_entry_for(post, k2, j) && entries@[j].1@ == classes@[k2]@ by {
                    let j = choose|j: int|
                        #[trigger] is_last_entry_for(pre, k2, j) && entries@[j].1@ == before[k2]@;
                    assert(is_last_entry_for(post, k2, j));
                }
            },
        }
        i = i + 1;
        assert(entries@.take(i as int) == post);
    }
    assert(entries@.take(n as int) =~= entries@);
    assert forall|k: i32, j: int| #[trigger] is_last_entry_for(entries@, k, j) implies classes@.contains_key(k)
        && classes@[k]@ == entries@[j].1@ by {
        assert(classes@.contains_key(k));
        let j2 = choose|j2: int|
            #[trigger] is_last_entry_for(entries@, k, j2) && entries@[j2].1@ == classes@[k]@;
        if j2 < j {
            assert(spec_parse_i32(entries@[j].0@) == Some(k));
        } else if j < j2 {
            assert(spec_parse_i32(entries@[j2].0@) == Some(k));
        }
    }
    assert forall|j: int|
        0 <= j < entries@.len() && #[trigger] spec_parse_i32(entries@[j].0@) is Some implies exists|j2: int|
            j <= j2 < entries@.len() && #[trigger] spec_parse_i32(entries@[j2].0@) == spec_parse_i32(entries@[j].0@)
                && entries@[j2].1@ == classes@[spec_parse_i32(entries@[j].0@).unwrap()]@ by {
        let k = spec_parse_i32(entries@[j].0@).unwrap();
        assert(classes@.contains_key(k));
        let j2 = choose|j2: int|
            #[trigger] is_last_entry_for(entries@, k, j2) && entries@[j2].1@ == classes@[k]@;
        if j2 < j {
            assert(spec_parse_i32(entries@[j].0@) != Some(k));
        }
    }
    classes
}

/// Reads a class table from the text of a JSON object that maps decimal class indices to
/// class names; keys that are not 32-bit decimal integers are skipped. Where two keys
/// name the same integer (such as "1" and "01"), which name is kept follows the order in
/// which the parsed object's entries come out, which is left open.
pub fn classes_from_json(content: &str) -> (res: Result<HashMap<i32, String>, ModelError>)
    ensures
        res is Ok <==> json_string_object(content@) is Some,
        res matches Ok(classes) ==> class_table_of(json_string_object(content@).unwrap(), classes@),
        res matches Err(e) ==> e == ModelError::InvalidClassesJson,
{
    let entries = match read_string_object(content) {
        Ok(entries) => entries,
        Err(_) => {
            return Err(ModelError::InvalidClassesJson);
        },
    };
    let ghost obj = json_string_object(content@).unwrap();
    let classes = class_table_from_entries(&entries);
    let n = entries.len();
    assert forall|k: i32| #[trigger] classes@.contains_key(k) implies exists|key: Seq<char>|
        obj.contains_key(key) && #[trigger] spec_parse_i32(key) == Some(k) && obj[key]
            == classes@[k]@ by {
        let j = choose|j: int|
            #[trigger] is_last_entry_for(entries@, k, j) && entries@[j].1@ == classes@[k]@;
        assert(obj.contains_key(entries@[j].0@));
    }
    assert forall|k: i32|
        (exists|key: Seq<char>| obj.contains_key(key) && #[trigger] spec_parse_i32(key) == Some(k))
        implies #[trigger] classes@.contains_key(k) by {
        let key = choose|key: Seq<char>| obj.contains_key(key) && #[trigger] spec_parse_i32(key) == Some(k);
        let j = choose|j: int| 0 <= j < n && #[trigger] entries@[j].0@ == key;
        assert(spec_parse_i32(entries@[j].0@) == Some(k));
    }
    Ok(classes)
}

} // verus!
