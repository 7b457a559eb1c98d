use vstd::prelude::*;
use vstd::string::*;

verus! {

/// A JSON number, kept as far as the library reads it: a non-negative
/// integer, a negative integer, or a number with a fractional part or
/// exponent, whose value is not kept. `NegInt` holds a negative integer.
pub enum JsonNumber {
    PosInt(u64),
    NegInt(i64),
    Float,
}

/// A JSON document. An object keeps its members in order.
pub enum JsonValue {
    Null,
    Bool(bool),
    Number(JsonNumber),
    Str(String),
    Array(Vec<JsonValue>),
    Object(Vec<(String, JsonValue)>),
}

/// Why the text of an input file cannot be used.
pub enum TextError {
    /// The text is not JSON.
    NotJson,
    /// The document is JSON but lacks what is read from it.
    Unreadable,
}

#[verifier::external_type_specification]
#[verifier::external_body]
pub struct ExSerdeValue(serde_json::Value);

/// The document that `serde_json` parses from the JSON text `text`, in the
/// library's model; nothing where the text is not JSON.
pub uninterp spec fn parsed_json(text: Seq<u8>) -> Option<JsonValue>;

/// Parses JSON text with `serde_json::from_slice` into a `serde_json::Value`
/// and gives it in the library's model (`json_of_serde`). Trusted: that the
/// result is a function of the bytes of `text` alone, named `parsed_json`.
/// Nothing is stated of which texts parse or of what the document holds;
/// that is `serde_json`'s grammar.
#[verifier::external_body]
pub fn parse_json(text: &[u8]) -> (r: Option<JsonValue>)
    ensures
        r == parsed_json(text@),
{
    match serde_json::from_slice::<serde_json::Value>(text) {
        Ok(value) => Some(json_of_serde(value)),
        Err(_) => None,
    }
}

/// The library's model of a `serde_json::Value`, variant for variant: an
/// integer that fits a `u64` is `PosInt`, another that fits an `i64` is
/// `NegInt`, any other number is `Float`; an object keeps the order in which
/// `serde_json::Map` gives its members. Part of `parse_json`, which alone
/// calls it; nothing is claimed of it on its own.
#[verifier::external_body]
fn json_of_serde(value: serde_json::Value) -> JsonValue {
    match value {
        serde_json::Value::Null => JsonValue::Null,
        serde_json::Value::Bool(b) => JsonValue::Bool(b),
        serde_json::Value::Number(n) => JsonValue::Number(match (n.as_u64(), n.as_i64()) {
            (Some(u), _) => JsonNumber::PosInt(u),
            (None, Some(i)) => JsonNumber::NegInt(i),
            (None, None) => JsonNumber::Float,
        }),
        serde_json::Value::String(s) => JsonValue::Str(s),
        serde_json::Value::Array(items) => JsonValue::Array(items.into_iter().map(json_of_serde).collect()),
        serde_json::Value::Object(members) => JsonValue::Object(
            members.into_iter().map(|(k, v)| (k, json_of_serde(v))).collect(),
        ),
    }
}

/// The value of the first member of `members` whose key is `key`.
pub open spec fn member_value(members: Seq<(String, JsonValue)>, key: Seq<char>) -> Option<JsonValue>
    decreases members.len(),
{
    if members.len() == 0 {
        None
    } else if members[0].0@ == key {
        Some(members[0].1)
    } else {
        member_value(members.drop_first(), key)
    }
}

/// `value[key]`: the member `key` of an object; nothing for any other value.
pub open spec fn json_get(value: JsonValue, key: Seq<char>) -> Option<JsonValue> {
    match value {
        JsonValue::Object(members) => member_value(members@, key),
        _ => None,
    }
}

/// The elements of an array; nothing for any other value.
pub open spec fn json_array(value: JsonValue) -> Option<Seq<JsonValue>> {
    match value {
        JsonValue::Array(items) => Some(items@),
        _ => None,
    }
}

/// The number as a `u64`, where it is a non-negative integer.
pub open spec fn json_u64(value: JsonValue) -> Option<u64> {
    match value {
        JsonValue::Number(JsonNumber::PosInt(n)) => Some(n),
        _ => None,
    }
}

/// The number as an `i64`, where it is an integer in range.
pub open spec fn json_i64(value: JsonValue) -> Option<i64> {
    match value {
        JsonValue::Number(JsonNumber::PosInt(n)) => if n <= i64::MAX {
            Some(n as i64)
        } else {
            None
        },
        JsonValue::Number(JsonNumber::NegInt(n)) => Some(n),
        _ => None,
    }
}

/// The character of a decimal digit.
pub open spec fn digit_char(d: nat) -> char {
    (48 + d) as char
}

/// The decimal representation of `n`, without leading zeros.
pub open spec fn decimal(n: nat) -> Seq<char>
    decreases n,
{
    if n < 10 {
        seq![digit_char(n)]
    } else {
        decimal(n / 10).push(digit_char(n % 10))
    }
}

/// The decimal representation of `n`, with a leading `-` where it is negative.
pub open spec fn signed_decimal(n: int) -> Seq<char> {
    if n < 0 {
        seq!['-'] + decimal((-n) as nat)
    } else {
        decimal(n as nat)
    }
}

/// `s` is the usual decimal text of a number: digits `0`..`9` only (code
/// points 48..57), at least one, and no leading zero unless it is the single
/// digit `0`.
pub open spec fn is_decimal_text(s: Seq<char>) -> bool {
    &&& s.len() > 0
    &&& forall|i: int| 0 <= i < s.len() ==> 48 <= #[trigger] (s[i] as int) <= 57
    &&& s.len() > 1 ==> s[0] as int != 48
}

/// The number that a text of decimal digits denotes, read from the left.
pub open spec fn decimal_text_value(s: Seq<char>) -> int
    decreases s.len(),
{
    if s.len() == 0 {
        0
    } else {
        decimal_text_value(s.drop_last()) * 10 + (s.last() as int - 48)
    }
}

proof fn lemma_digit_char(d: nat)
    requires
        d < 10,
    ensures
        digit_char(d) as int == 48 + d,
{
}

proof fn lemma_decimal_text_prefix(s: Seq<char>)
    requires
        is_decimal_text(s),
        s.len() > 1,
    ensures
        is_decimal_text(s.drop_last()),
        s.drop_last()[0] == s[0],
{
    let t = s.drop_last();
    assert forall|i: int| 0 <= i < t.len() implies 48 <= #[trigger] (t[i] as int) <= 57 by {
        assert(t[i] == s[i]);
    }
}

proof fn lemma_decimal_text_positive(s: Seq<char>)
    requires
        is_decimal_text(s),
        s[0] as int != 48,
    ensures
        decimal_text_value(s) >= 1,
    decreases s.len(),
{
    assert(48 <= s[s.len() - 1] as int <= 57);
    if s.len() > 1 {
        lemma_decimal_text_prefix(s);
        lemma_decimal_text_positive(s.drop_last());
    } else {
        assert(s.drop_last().len() == 0);
        assert(decimal_text_value(s.drop_last()) == 0);
        assert(48 <= s[0] as int <= 57);
    }
}

proof fn lemma_decimal_text_nonnegative(s: Seq<char>)
    requires
        is_decimal_text(s),
    ensures
        decimal_text_value(s) >= 0,
    decreases s.len(),
{
    assert(48 <= s[s.len() - 1] as int <= 57);
    if s.len() > 1 {
        lemma_decimal_text_prefix(s);
        lemma_decimal_text_nonnegative(s.drop_last());
    } else {
        assert(s.drop_last().len() == 0);
        assert(decimal_text_value(s.drop_last()) == 0);
    }
}

proof fn lemma_decimal_text_of(n: nat)
    ensures
        is_decimal_text(decimal(n)),
        decimal_text_value(decimal(n)) == n,
        n > 0 ==> decimal(n)[0] as int != 48,
    decreases n,
{
    if n >= 10 {
        lemma_decimal_text_of(n / 10);
        lemma_digit_char(n % 10);
        let p = decimal(n / 10);
        let d = decimal(n);
        assert(d == p.push(digit_char(n % 10)));
        assert(d.drop_last() =~= p);
        assert(d[0] == p[0]);
        assert forall|i: int| 0 <= i < d.len() implies 48 <= #[trigger] (d[i] as int) <= 57 by {
            if i < p.len() {
                assert(d[i] == p[i]);
            }
        }
    } else {
        lemma_digit_char(n);
        assert(decimal(n).drop_last() =~= Seq::<char>::empty());
        assert(decimal_text_value(decimal(n).drop_last()) == 0);
    }
}

/// `decimal(n)` is the one decimal text of `n`: it is a decimal text, it
/// denotes `n`, and every decimal text that denotes `n` is it. So a key built
/// from `decimal(n)` is `n.to_string()`, and distinct numbers have distinct
/// keys.
pub proof fn lemma_decimal_is_the_decimal_text(n: nat, s: Seq<char>)
    ensures
        is_decimal_text(decimal(n)),
        decimal_text_value(decimal(n)) == n,
        is_decimal_text(s) && decimal_text_value(s) == n ==> s == decimal(n),
    decreases s.len(),
{
    lemma_decimal_text_of(n);
    if is_decimal_text(s) && decimal_text_value(s) == n {
        assert(48 <= s[s.len() - 1] as int <= 57);
        if s.len() == 1 {
            assert(s.drop_last().len() == 0);
            assert(decimal_text_value(s.drop_last()) == 0);
            assert(n < 10);
            lemma_digit_char(n);
            assert(s =~= decimal(n));
        } else {
            let t = s.drop_last();
            lemma_decimal_text_prefix(s);
            lemma_decimal_text_positive(t);
            let v = decimal_text_value(t);
            let dig = s.last() as int - 48;
            assert(n == v * 10 + dig);
            assert(n >= 10);
            assert(n / 10 == v && n % 10 == dig);
            lemma_decimal_is_the_decimal_text((n / 10) as nat, t);
            lemma_digit_char(n % 10);
            assert(s =~= t.push(digit_char((n % 10) as nat)));
        }
    }
}

/// `s` is the usual decimal text of an integer: a decimal text, or `-`
/// (code point 45) followed by the decimal text of a positive number.
pub open spec fn is_signed_decimal_text(s: Seq<char>) -> bool {
    ||| is_decimal_text(s)
    ||| s.len() > 1 && s[0] as int == 45 && is_decimal_text(s.drop_first()) && s[1] as int != 48
}

/// The integer that a signed decimal text denotes.
pub open spec fn signed_decimal_text_value(s: Seq<char>) -> int {
    if s.len() > 0 && s[0] as int == 45 {
        -decimal_text_value(s.drop_first())
    } else {
        decimal_text_value(s)
    }
}

/// `signed_decimal(n)` is the one signed decimal text of `n`, so a key
/// built from it is `n.to_string()`.
pub proof fn lemma_signed_decimal_is_the_text(n: int, s: Seq<char>)
    ensures
        is_signed_decimal_text(signed_decimal(n)),
        signed_decimal_text_value(signed_decimal(n)) == n,
        is_signed_decimal_text(s) && signed_decimal_text_value(s) == n ==> s == signed_decimal(n),
{
    if n < 0 {
        let m = (-n) as nat;
        lemma_decimal_text_of(m);
        let d = signed_decimal(n);
        assert(d.drop_first() =~= decimal(m));
        assert(d[1] == decimal(m)[0]);
    } else {
        lemma_decimal_text_of(n as nat);
        if decimal(n as nat).len() > 0 {
            assert(48 <= decimal(n as nat)[0] as int <= 57);
        }
    }
    if is_signed_decimal_text(s) && signed_decimal_text_value(s) == n {
        if s[0] as int == 45 {
            let t = s.drop_first();
            assert(t[0] == s[1]);
            if is_decimal_text(s) {
                assert(48 <= s[0] as int);
            }
            lemma_decimal_text_positive(t);
            assert(n < 0);
            lemma_decimal_is_the_decimal_text((-n) as nat, t);
            assert(s =~= seq!['-'] + t);
        } else {
            assert(is_decimal_text(s));
            lemma_decimal_text_nonnegative(s);
            lemma_decimal_is_the_decimal_text(n as nat, s);
        }
    }
}

/// `json_get` finds the member whose key is `key`, the first one where
/// there are several, and nothing where no member has that key or where the
/// value is not an object.
pub proof fn lemma_json_get(members: Vec<(String, JsonValue)>, key: Seq<char>, i: int)
    ensures
        (forall|j: int| 0 <= j < members@.len() ==> #[trigger] members@[j].0@ != key) ==> json_get(
            JsonValue::Object(members),
            key,
        ) is None,
        0 <= i < members@.len() && members@[i].0@ == key && (forall|j: int|
            0 <= j < i ==> #[trigger] members@[j].0@ != key) ==> json_get(
            JsonValue::Object(members),
            key,
        ) == Some(members@[i].1),
{
    lemma_member_value(members@, key, i);
}

proof fn lemma_member_value(members: Seq<(String, JsonValue)>, key: Seq<char>, i: int)
    ensures
        (forall|j: int| 0 <= j < members.len() ==> #[trigger] members[j].0@ != key) ==> member_value(
            members,
            key,
        ) is None,
        0 <= i < members.len() && members[i].0@ == key && (forall|j: int|
            0 <= j < i ==> #[trigger] members[j].0@ != key) ==> member_value(members, key) == Some(
            members[i].1,
        ),
    decreases members.len(),
{
    if members.len() > 0 {
        let rest = members.drop_first();
        lemma_member_value(rest, key, i - 1);
        if forall|j: int| 0 <= j < members.len() ==> #[trigger] members[j].0@ != key {
            assert(members[0].0@ != key);
            assert forall|j: int| 0 <= j < rest.len() implies #[trigger] rest[j].0@ != key by {
                assert(rest[j] == members[j + 1]);
            }
        }
        if 0 < i < members.len() && members[i].0@ == key && (forall|j: int|
            0 <= j < i ==> #[trigger] members[j].0@ != key) {
            assert(members[0].0@ != key);
            assert(rest[i - 1] == members[i]);
            assert forall|j: int| 0 <= j < i - 1 implies #[trigger] rest[j].0@ != key by {
                assert(rest[j] == members[j + 1]);
            }
        }
    }
}

fn digit(d: u64) -> (c: char)
    requires
        d < 10,
    ensures
        c == digit_char(d as nat),
{
    match d {
        0 => '0',
        1 => '1',
        2 => '2',
        3 => '3',
        4 => '4',
        5 => '5',
        6 => '6',
        7 => '7',
        8 => '8',
        _ => '9',
    }
}

fn push_decimal(n: u64, out: &mut Vec<char>)
    ensures
        final(out)@ == old(out)@ + decimal(n as nat),
    decreases n,
{
    if n >= 10 {
        push_decimal(n / 10, out);
    }
    out.push(digit(n % 10));
    proof {
        if n >= 10 {
            assert(decimal(n as nat) == decimal((n / 10) as nat).push(digit_char((n % 10) as nat)));
        }
    }
}

/// The characters of `n.to_string()` for an unsigned number.
pub fn decimal_key(n: u64) -> (r: Vec<char>)
    ensures
        r@ == decimal(n as nat),
{
    let mut out: Vec<char> = Vec::new();
    push_decimal(n, &mut out);
    assert(out@ =~= decimal(n as nat));
    out
}

/// The characters of `n.to_string()` for a signed number.
pub fn signed_decimal_key(n: i64) -> (r: Vec<char>)
    ensures
        r@ == signed_decimal(n as int),
{
    let mut out: Vec<char> = Vec::new();
    if n < 0 {
        out.push('-');
        let m: u64 = if n == i64::MIN {
            9223372036854775808u64
        } else {
            (0 - n) as u64
        };
        push_decimal(m, &mut out);
    } else {
        push_decimal(n as u64, &mut out);
    }
    assert(out@ =~= signed_decimal(n as int));
    out
}

/// Whether the characters of `s` are those of `key`.
pub fn key_matches(s: &String, key: &Vec<char>) -> (r: bool)
    ensures
        r == (s@ == key@),
{
    let st = s.as_str();
    let n = st.unicode_len();
    if n != key.len() {
        return false;
    }
    let mut i: usize = 0;
    while i < n
        invariant
            st@ == s@,
            n == s@.len(),
            n == key@.len(),
            0 <= i <= n,
            forall|j: int| 0 <= j < i ==> s@[j] == key@[j],
        decreases n - i,
    {
        if st.get_char(i) != key[i] {
            return false;
        }
        i = i + 1;
    }
    assert(s@ =~= key@);
    true
}

impl JsonValue {
    /// `self[key]`, for a key given by its characters.
    pub fn get(&self, key: &Vec<char>) -> (r: Option<&JsonValue>)
        ensures
            match r {
                Some(v) => json_get(*self, key@) == Some(*v),
                None => json_get(*self, key@) is None,
            },
    {
        match self {
            JsonValue::Object(members) => {
                let n = members.len();
                let mut i: usize = 0;
                assert(members@.skip(0) =~= members@);
                while i < n
                    invariant
                        *self == JsonValue::Object(*members),
                        n == members@.len(),
                        0 <= i <= n,
                        member_value(members@, key@) == member_value(members@.skip(i as int), key@),
                    decreases n - i,
                {
                    assert(members@.skip(i as int).drop_first() =~= members@.skip(i + 1));
                    assert(members@.skip(i as int)[0] == members@[i as int]);
                    if key_matches(&members[i].0, key) {
                        return Some(&members[i].1);
                    }
                    i = i + 1;
                }
                None
            },
            _ => None,
        }
    }

    /// The elements, where `self` is an array.
    pub fn as_array(&self) -> (r: Option<&Vec<JsonValue>>)
        ensures
            match r {
                Some(items) => json_array(*self) == Some(items@),
                None => json_array(*self) is None,
            },
    {
        match self {
            JsonValue::Array(items) => Some(items),
            _ => None,
        }
    }

    /// The number as a `u64`, where `self` is a non-negative integer.
    pub fn as_u64(&self) -> (r: Option<u64>)
        ensures
            r == json_u64(*self),
    {
        match self {
            JsonValue::Number(JsonNumber::PosInt(n)) => Some(*n),
            _ => None,
        }
    }

    /// The number as an `i64`, where `self` is an integer in range.
    pub fn as_i64(&self) -> (r: Option<i64>)
        ensures
            r == json_i64(*self),
    {
        match self {
            JsonValue::Number(JsonNumber::PosInt(n)) => if *n <= 9223372036854775807u64 {
                Some(*n as i64)
            } else {
                None
            },
            JsonValue::Number(JsonNumber::NegInt(n)) => Some(*n),
            _ => None,
        }
    }

    /// The string, where `self` is one.
    pub fn as_str(&self) -> (r: Option<&String>)
        ensures
            match r {
                Some(s) => *self == JsonValue::Str(*s),
                None => !(*self is Str),
            },
    {
        match self {
            JsonValue::Str(s) => Some(s),
            _ => None,
        }
    }
}

} // verus!
