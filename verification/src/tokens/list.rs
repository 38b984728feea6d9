//! Token id lists as text: `{1,2,3}`.

use vstd::prelude::*;

use crate::text::{chars_of, decimal, push_decimal};

verus! {

/// Why a text is not a token id list.
#[derive(Debug, Clone, PartialEq, Eq)]
pub enum ListError {
    /// The list does not start with a brace.
    NoOpeningBrace,
    /// The list does not end with a brace.
    NoClosingBrace,
    /// Nothing stands between two commas.
    EmptyField,
    /// A number below zero.
    Negative(i64),
    /// A number that no token id reaches.
    TooLarge(i64),
    /// Not a number at all.
    NotAnId(String),
}

impl ListError {
    /// The text of the error.
    pub open spec fn text(self) -> Seq<char> {
        match self {
            ListError::NoOpeningBrace => "expected '{' at the start of a token id list"@,
            ListError::NoClosingBrace => "expected '}' at the end of a token id list"@,
            ListError::EmptyField => "empty token id between commas"@,
            ListError::Negative(v) => "token id "@ + crate::text::signed_decimal(v as int)
                + " is negative"@,
            ListError::TooLarge(v) => "token id "@ + crate::text::signed_decimal(v as int)
                + " is too large"@,
            ListError::NotAnId(f) => crate::text::debug_text(f@) + " is not a token id"@,
        }
    }

    /// The text of the error.
    pub fn message(&self) -> (s: String)
        ensures
            s@ == self.text(),
    {
        match self {
            ListError::NoOpeningBrace => {
                "expected '{' at the start of a token id list".to_owned()
            },
            ListError::NoClosingBrace => "expected '}' at the end of a token id list".to_owned(),
            ListError::EmptyField => "empty token id between commas".to_owned(),
            ListError::Negative(v) => {
                let mut s = "token id ".to_owned();
                crate::text::push_signed(&mut s, *v);
                s.append(" is negative");
                s
            },
            ListError::TooLarge(v) => {
                let mut s = "token id ".to_owned();
                crate::text::push_signed(&mut s, *v);
                s.append(" is too large");
                s
            },
            ListError::NotAnId(f) => {
                let mut s = crate::text::debug_quoted(f.as_str());
                s.append(" is not a token id");
                s
            },
        }
    }
}

/// Whether `c` is white space, as Unicode's `White_Space` property has it.
pub open spec fn is_space(c: char) -> bool {
    let u = c as u32;
    ||| 0x9 <= u <= 0xD
    ||| u == 0x20
    ||| u == 0x85
    ||| u == 0xA0
    ||| u == 0x1680
    ||| 0x2000 <= u <= 0x200A
    ||| u == 0x2028
    ||| u == 0x2029
    ||| u == 0x202F
    ||| u == 0x205F
    ||| u == 0x3000
}

/// Whether `c` is white space, as Unicode's `White_Space` property has it.
pub fn space(c: char) -> (r: bool)
    ensures
        r == is_space(c),
{
    let u: u32 = c as u32;
    (0x9 <= u && u <= 0xD) || u == 0x20 || u == 0x85 || u == 0xA0 || u == 0x1680 || (0x2000 <= u
        && u <= 0x200A) || u == 0x2028 || u == 0x2029 || u == 0x202F || u == 0x205F || u == 0x3000
}

/// `s` without the white space it starts with.
pub open spec fn trimmed_start(s: Seq<char>) -> Seq<char>
    decreases s.len(),
{
    if s.len() > 0 && is_space(s[0]) {
        trimmed_start(s.drop_first())
    } else {
        s
    }
}

/// `s` without the white space it ends with.
pub open spec fn trimmed_end(s: Seq<char>) -> Seq<char>
    decreases s.len(),
{
    if s.len() > 0 && is_space(s.last()) {
        trimmed_end(s.drop_last())
    } else {
        s
    }
}

/// `s` without white space at either end.
pub open spec fn trimmed(s: Seq<char>) -> Seq<char> {
    trimmed_end(trimmed_start(s))
}

/// The parts of `s` between commas; one part where there is no comma.
pub open spec fn fields(s: Seq<char>) -> Seq<Seq<char>>
    decreases s.len(),
{
    if s.len() == 0 {
        seq![seq![]]
    } else {
        let front = fields(s.drop_last());
        if s.last() == ',' {
            front.push(seq![])
        } else {
            front.drop_last().push(front.last().push(s.last()))
        }
    }
}

pub open spec fn is_digit(c: char) -> bool {
    '0' <= c <= '9'
}

/// The number that decimal digits spell; leading zeros are fine.
pub open spec fn digits_value(s: Seq<char>) -> nat
    decreases s.len(),
{
    if s.len() == 0 {
        0
    } else {
        10 * digits_value(s.drop_last()) + (s.last() as u32 - '0' as u32) as nat
    }
}

/// `s` without a sign in front.
pub open spec fn unsigned_part(s: Seq<char>) -> Seq<char> {
    if s.len() > 0 && (s[0] == '-' || s[0] == '+') {
        s.drop_first()
    } else {
        s
    }
}

/// The 64-bit signed number that `s` spells: digits, with an optional sign in front.
pub open spec fn number_in(s: Seq<char>) -> Option<int> {
    let digits = unsigned_part(s);
    let value = if s.len() > 0 && s[0] == '-' {
        -digits_value(digits)
    } else {
        digits_value(digits) as int
    };
    if digits.len() > 0 && (forall|i: int| 0 <= i < digits.len() ==> is_digit(#[trigger] digits[i]))
        && i64::MIN <= value <= i64::MAX {
        Some(value)
    } else {
        None
    }
}

/// The token id in a field, white space around it aside.
pub open spec fn id_in(field: Seq<char>) -> Option<u32> {
    match number_in(trimmed(field)) {
        Some(v) => if 0 <= v <= u32::MAX {
            Some(v as u32)
        } else {
            None
        },
        None => None,
    }
}

/// What is wrong with a field that holds no token id.
pub open spec fn field_fault(field: Seq<char>, e: ListError) -> bool {
    let f = trimmed(field);
    if f.len() == 0 {
        e == ListError::EmptyField
    } else {
        match number_in(f) {
            Some(v) => if v < 0 {
                e == ListError::Negative(v as i64)
            } else {
                v > u32::MAX && e == ListError::TooLarge(v as i64)
            },
            None => e matches ListError::NotAnId(t) && t@ == f,
        }
    }
}

/// Whether these are the ids in the fields of `inner`.
pub open spec fn fields_hold(inner: Seq<char>, ids: Seq<u32>) -> bool {
    &&& ids.len() == fields(inner).len()
    &&& forall|i: int| 0 <= i < ids.len() ==> id_in(#[trigger] fields(inner)[i]) == Some(ids[i])
}

/// Whether `e` is what is wrong with the first field of `inner` that holds no id.
pub open spec fn fields_fault(inner: Seq<char>, e: ListError) -> bool {
    exists|i: int|
        {
            &&& 0 <= i < fields(inner).len()
            &&& id_in(#[trigger] fields(inner)[i]) is None
            &&& forall|j: int| 0 <= j < i ==> id_in(#[trigger] fields(inner)[j]) is Some
            &&& field_fault(fields(inner)[i], e)
        }
}

/// What stands between the braces.
pub open spec fn inside(s: Seq<char>) -> Seq<char> {
    let t = trimmed(s);
    t.subrange(1, t.len() - 1)
}

/// Whether the braces are where they should be.
pub open spec fn braced(s: Seq<char>) -> bool {
    let t = trimmed(s);
    t.len() >= 2 && t[0] == '{' && t.last() == '}'
}

/// Whether `s` is the list of these ids.
pub open spec fn lists(s: Seq<char>, ids: Seq<u32>) -> bool {
    &&& braced(s)
    &&& if trimmed(inside(s)).len() == 0 {
        ids.len() == 0
    } else {
        fields_hold(inside(s), ids)
    }
}

/// Whether `e` is the first thing wrong with `s` as a list of token ids.
pub open spec fn list_fault(s: Seq<char>, e: ListError) -> bool {
    let t = trimmed(s);
    if t.len() == 0 || t[0] != '{' {
        e == ListError::NoOpeningBrace
    } else if t.len() == 1 || t.last() != '}' {
        e == ListError::NoClosingBrace
    } else {
        trimmed(inside(s)).len() > 0 && fields_fault(inside(s), e)
    }
}

proof fn lemma_fields_nonempty(s: Seq<char>)
    ensures
        fields(s).len() > 0,
    decreases s.len(),
{
    if s.len() > 0 {
        lemma_fields_nonempty(s.drop_last());
    }
}

/// Where the part of `chars` from `from` to `to` starts and ends without white space around it.
fn trim(chars: &Vec<char>, from: usize, to: usize) -> (r: (usize, usize))
    requires
        from <= to <= chars@.len(),
    ensures
        from <= r.0 <= r.1 <= to,
        trimmed(chars@.subrange(from as int, to as int)) == chars@.subrange(
            r.0 as int,
            r.1 as int,
        ),
{
    let ghost whole = chars@.subrange(from as int, to as int);
    let mut a: usize = from;
    while a < to && space(chars[a])
        invariant
            from <= a <= to <= chars@.len(),
            trimmed_start(whole) == trimmed_start(chars@.subrange(a as int, to as int)),
        decreases to - a,
    {
        assert(chars@.subrange(a as int, to as int).drop_first() =~= chars@.subrange(
            a + 1,
            to as int,
        ));
        a += 1;
    }
    let mut b: usize = to;
    let ghost rest = chars@.subrange(a as int, to as int);
    while a < b && space(chars[b - 1])
        invariant
            a <= b <= to <= chars@.len(),
            trimmed_end(rest) == trimmed_end(chars@.subrange(a as int, b as int)),
        decreases b,
    {
        assert(chars@.subrange(a as int, b as int).drop_last() =~= chars@.subrange(
            a as int,
            b - 1,
        ));
        b -= 1;
    }
    (a, b)
}

/// The part of `chars` from `from` to `to` as a string.
fn text_between(chars: &Vec<char>, from: usize, to: usize) -> (s: String)
    requires
        from <= to <= chars@.len(),
    ensures
        s@ == chars@.subrange(from as int, to as int),
{
    let mut s = String::new();
    let mut i: usize = from;
    while i < to
        invariant
            from <= i <= to <= chars@.len(),
            s@ == chars@.subrange(from as int, i as int),
        decreases to - i,
    {
        s.push(chars[i]);
        i += 1;
        assert(s@ =~= chars@.subrange(from as int, i as int));
    }
    assert(s@ =~= chars@.subrange(from as int, to as int));
    s
}

/// The 64-bit signed number between `from` and `to`.
fn number_between(chars: &Vec<char>, from: usize, to: usize) -> (r: Option<i64>)
    requires
        from <= to <= chars@.len(),
    ensures
        match r {
            Some(v) => number_in(chars@.subrange(from as int, to as int)) == Some(v as int),
            None => number_in(chars@.subrange(from as int, to as int)) is None,
        },
{
    let ghost s = chars@.subrange(from as int, to as int);
    let mut negative = false;
    let mut at: usize = from;
    if from < to {
        if chars[from] == '-' {
            negative = true;
            at = from + 1;
        } else if chars[from] == '+' {
            at = from + 1;
        }
    }
    let ghost digits = unsigned_part(s);
    assert(digits =~= chars@.subrange(at as int, to as int));
    if at == to {
        return None;
    }
    let mut acc: u64 = 0;
    let mut beyond = false;
    let mut i: usize = at;
    while i < to
        invariant
            from <= at <= i <= to <= chars@.len(),
            s == chars@.subrange(from as int, to as int),
            digits == chars@.subrange(at as int, to as int),
            digits == unsigned_part(s),
            forall|j: int| 0 <= j < i - at ==> is_digit(#[trigger] digits[j]),
            !beyond ==> acc == digits_value(digits.take(i - at)) && acc <= 0x8000_0000_0000_0000,
            beyond ==> digits_value(digits.take(i - at)) > 0x8000_0000_0000_0000,
        decreases to - i,
    {
        let c = chars[i];
        assert(digits[i - at] == c);
        if !('0' <= c && c <= '9') {
            assert(!is_digit(digits[i - at]));
            return None;
        }
        proof {
            assert(digits.take(i - at + 1).drop_last() =~= digits.take(i - at));
        }
        if !beyond {
            let next: u128 = 10 * (acc as u128) + (c as u32 - '0' as u32) as u128;
            if next > 0x8000_0000_0000_0000 {
                beyond = true;
            } else {
                acc = next as u64;
            }
        }
        i += 1;
    }
    assert(digits.take(to - at) =~= digits);
    if beyond {
        return None;
    }
    if negative {
        Some((-(acc as i128)) as i64)
    } else if acc == 0x8000_0000_0000_0000 {
        None
    } else {
        Some(acc as i64)
    }
}

/// The token id between `from` and `to`.
fn id_between(chars: &Vec<char>, from: usize, to: usize) -> (r: Result<u32, ListError>)
    requires
        from <= to <= chars@.len(),
    ensures
        match r {
            Ok(id) => id_in(chars@.subrange(from as int, to as int)) == Some(id),
            Err(e) => {
                &&& id_in(chars@.subrange(from as int, to as int)) is None
                &&& field_fault(chars@.subrange(from as int, to as int), e)
            },
        },
{
    let (a, b) = trim(chars, from, to);
    if a == b {
        return Err(ListError::EmptyField);
    }
    match number_between(chars, a, b) {
        Some(v) => {
            if v < 0 {
                Err(ListError::Negative(v))
            } else if v > 0xFFFF_FFFF {
                Err(ListError::TooLarge(v))
            } else {
                Ok(v as u32)
            }
        },
        None => Err(ListError::NotAnId(text_between(chars, a, b))),
    }
}

/// The ids between `from` and `to`, commas between them.
fn ids_between(chars: &Vec<char>, from: usize, to: usize) -> (r: Result<Vec<u32>, ListError>)
    requires
        from <= to < chars@.len(),
    ensures
        match r {
            Ok(ids) => fields_hold(chars@.subrange(from as int, to as int), ids@),
            Err(e) => fields_fault(chars@.subrange(from as int, to as int), e),
        },
{
    let ghost inner = chars@.subrange(from as int, to as int);
    let mut ids: Vec<u32> = Vec::new();
    let mut start: usize = from;
    let mut i: usize = from;
    proof {
        assert(inner.take(0) =~= seq![]);
        assert(chars@.subrange(from as int, from as int) =~= seq![]);
    }
    while i < to
        invariant
            from <= start <= i <= to < chars@.len(),
            inner == chars@.subrange(from as int, to as int),
            fields(inner.take(i - from)).len() == ids@.len() + 1,
            fields(inner.take(i - from)).last() == chars@.subrange(start as int, i as int),
            forall|j: int|
                0 <= j < ids@.len() ==> id_in(#[trigger] fields(inner.take(i - from))[j]) == Some(
                    ids@[j],
                ),
        decreases to - i,
    {
        let ghost so_far = fields(inner.take(i - from));
        proof {
            let next = inner.take(i - from + 1);
            assert(next.drop_last() =~= inner.take(i - from));
            assert(next.last() == chars@[i as int]);
        }
        if chars[i] == ',' {
            match id_between(chars, start, i) {
                Ok(id) => {
                    ids.push(id);
                },
                Err(e) => {
                    proof {
                        lemma_fields_extend(inner, i - from);
                        let all = fields(inner);
                        let n = so_far.len() - 1;
                        assert(all[n] == so_far[n]);
                        assert forall|j: int| 0 <= j < n implies id_in(
                            #[trigger] all[j],
                        ) is Some by {
                            assert(all[j] == so_far[j]);
                        }
                    }
                    return Err(e);
                },
            }
            start = i + 1;
            assert(chars@.subrange(start as int, i + 1) =~= seq![]);
        } else {
            assert(chars@.subrange(start as int, i + 1) =~= chars@.subrange(
                start as int,
                i as int,
            ).push(chars@[i as int]));
        }
        i += 1;
    }
    assert(inner.take(to - from) =~= inner);
    match id_between(chars, start, to) {
        Ok(id) => {
            ids.push(id);
            Ok(ids)
        },
        Err(e) => {
            proof {
                let n = fields(inner).len() - 1;
                assert(id_in(fields(inner)[n]) is None);
            }
            Err(e)
        },
    }
}

/// Parse `{1,2,3}` into token ids.
///
/// Rejects anything it does not fully understand rather than salvaging a prefix: a value that
/// silently loses tokens is worse than a failed write.
pub fn parse_ids(s: &str) -> (r: Result<Vec<u32>, ListError>)
    ensures
        match r {
            Ok(ids) => lists(s@, ids@),
            Err(e) => list_fault(s@, e),
        },
{
    let chars = chars_of(s);
    assert(chars@.subrange(0, chars@.len() as int) =~= s@);
    let (a, b) = trim(&chars, 0, chars.len());
    if a == b || chars[a] != '{' {
        return Err(ListError::NoOpeningBrace);
    }
    if b - a == 1 || chars[b - 1] != '}' {
        return Err(ListError::NoClosingBrace);
    }
    let from: usize = a + 1;
    let to: usize = b - 1;
    assert(inside(s@) =~= chars@.subrange(from as int, to as int));
    let (c, d) = trim(&chars, from, to);
    if c == d {
        return Ok(Vec::new());
    }
    ids_between(&chars, from, to)
}

/// A text is never both a list and faulty, so parsing succeeds exactly on the lists.
pub proof fn lemma_list_or_fault(s: Seq<char>, ids: Seq<u32>, e: ListError)
    ensures
        !(lists(s, ids) && list_fault(s, e)),
{
    if lists(s, ids) && list_fault(s, e) {
        let i = choose|i: int|
            {
                &&& 0 <= i < fields(inside(s)).len()
                &&& id_in(#[trigger] fields(inside(s))[i]) is None
                &&& forall|j: int| 0 <= j < i ==> id_in(#[trigger] fields(inside(s))[j]) is Some
                &&& field_fault(fields(inside(s))[i], e)
            };
        assert(id_in(fields(inside(s))[i]) == Some(ids[i]));
    }
}

/// A field that a comma ends stays as it is, whatever follows.
proof fn lemma_fields_extend(s: Seq<char>, n: int)
    requires
        0 <= n < s.len(),
        s[n] == ',',
    ensures
        fields(s).len() > fields(s.take(n)).len(),
        forall|j: int|
            0 <= j < fields(s.take(n)).len() ==> #[trigger] fields(s)[j] == fields(s.take(n))[j],
    decreases s.len(),
{
    let front = s.drop_last();
    if n == s.len() - 1 {
        assert(s.take(n) =~= front);
    } else {
        assert(front.take(n) =~= s.take(n));
        lemma_fields_extend(front, n);
    }
}

/// `ids` with commas between them.
pub open spec fn joined(ids: Seq<u32>) -> Seq<char>
    decreases ids.len(),
{
    if ids.len() == 0 {
        seq![]
    } else if ids.len() == 1 {
        decimal(ids[0] as nat)
    } else {
        joined(ids.drop_last()).push(',') + decimal(ids.last() as nat)
    }
}

/// `ids` as text.
pub open spec fn rendered(ids: Seq<u32>) -> Seq<char> {
    seq!['{'] + joined(ids) + seq!['}']
}

/// Render token ids as `{1,2,3}`, with no white space.
pub fn render_ids(ids: &[u32]) -> (s: String)
    ensures
        s@ == rendered(ids@),
{
    let mut s = String::new();
    s.push('{');
    let mut i: usize = 0;
    assert(s@ =~= seq!['{'] + joined(ids@.take(0)));
    while i < ids.len()
        invariant
            i <= ids@.len(),
            s@ == seq!['{'] + joined(ids@.take(i as int)),
        decreases ids@.len() - i,
    {
        if i > 0 {
            s.push(',');
        }
        push_decimal(&mut s, ids[i] as u128);
        proof {
            assert(ids@.take(i + 1).drop_last() =~= ids@.take(i as int));
            assert(s@ =~= seq!['{'] + joined(ids@.take(i + 1)));
        }
        i += 1;
    }
    assert(ids@.take(i as int) =~= ids@);
    s.push('}');
    assert(s@ =~= rendered(ids@));
    s
}

proof fn lemma_decimal_digits(n: nat)
    ensures
        decimal(n).len() > 0,
        forall|i: int| 0 <= i < decimal(n).len() ==> is_digit(#[trigger] decimal(n)[i]),
        digits_value(decimal(n)) == n,
    decreases n,
{
    let s = decimal(n);
    if n >= 10 {
        lemma_decimal_digits(n / 10);
        assert(s.drop_last() =~= decimal(n / 10));
    } else {
        assert(s.drop_last() =~= seq![]);
        assert(digits_value(s.drop_last()) == 0);
    }
}

/// A decimal number reads back as the number.
proof fn lemma_id_in_decimal(id: u32)
    ensures
        id_in(decimal(id as nat)) == Some(id),
{
    let s = decimal(id as nat);
    lemma_decimal_digits(id as nat);
    assert(is_digit(s[0]) && is_digit(s[s.len() - 1]));
    assert(trimmed_start(s) == s);
    assert(trimmed(s) == s);
    assert(unsigned_part(s) == s);
}

proof fn lemma_fields_of_plain(front: Seq<char>, plain: Seq<char>)
    requires
        forall|i: int| 0 <= i < plain.len() ==> #[trigger] plain[i] != ',',
    ensures
        fields(front + plain) == fields(front).drop_last().push(fields(front).last() + plain),
    decreases plain.len(),
{
    lemma_fields_nonempty(front);
    if plain.len() == 0 {
        assert(front + plain =~= front);
        assert(fields(front).last() + plain =~= fields(front).last());
        assert(fields(front) =~= fields(front).drop_last().push(fields(front).last()));
    } else {
        let p = plain.drop_last();
        lemma_fields_of_plain(front, p);
        let s = front + plain;
        assert(s.drop_last() =~= front + p);
        assert(s.last() == plain[plain.len() - 1]);
        assert(fields(front).last() + plain =~= (fields(front).last() + p).push(plain.last()));
        let inner = fields(front).drop_last().push(fields(front).last() + p);
        assert(inner.drop_last() =~= fields(front).drop_last());
    }
}

proof fn lemma_fields_of_joined(ids: Seq<u32>)
    requires
        ids.len() > 0,
    ensures
        fields(joined(ids)) == Seq::new(ids.len(), |i: int| decimal(ids[i] as nat)),
        joined(ids).len() > 0,
        is_digit(joined(ids)[0]),
        is_digit(joined(ids).last()),
    decreases ids.len(),
{
    let want = Seq::new(ids.len(), |i: int| decimal(ids[i] as nat));
    let last = decimal(ids.last() as nat);
    lemma_decimal_digits(ids.last() as nat);
    assert(is_digit(last[0]) && is_digit(last[last.len() - 1]));
    if ids.len() == 1 {
        lemma_fields_of_plain(seq![], last);
        assert(Seq::<char>::empty() + last =~= last);
        assert(fields(Seq::<char>::empty()) == seq![Seq::<char>::empty()]);
        assert(fields(joined(ids)) =~= want);
    } else {
        let front = joined(ids.drop_last()).push(',');
        lemma_fields_of_joined(ids.drop_last());
        assert(front.drop_last() =~= joined(ids.drop_last()));
        lemma_fields_of_plain(front, last);
        assert(fields(front).last() + last =~= last);
        assert(fields(front).drop_last() =~= fields(joined(ids.drop_last())));
        assert(fields(joined(ids)) =~= want);
    }
}

/// A rendered list parses back to the ids it was rendered from: text input and output lose
/// nothing.
pub proof fn lemma_list_roundtrip(ids: Seq<u32>)
    ensures
        lists(rendered(ids), ids),
{
    let s = rendered(ids);
    assert(s[0] == '{' && s.last() == '}');
    assert(trimmed_start(s) == s);
    assert(trimmed(s) == s);
    assert(inside(s) =~= joined(ids));
    if ids.len() > 0 {
        let inner = joined(ids);
        lemma_fields_of_joined(ids);
        assert(trimmed_start(inner) == inner);
        assert(trimmed(inner) == inner);
        assert forall|i: int| 0 <= i < ids.len() implies id_in(#[trigger] fields(inner)[i])
            == Some(ids[i]) by {
            lemma_id_in_decimal(ids[i]);
        }
    }
}

proof fn lemma_fields_len(s: Seq<char>)
    ensures
        fields(s).len() <= s.len() + 1,
    decreases s.len(),
{
    if s.len() > 0 {
        lemma_fields_len(s.drop_last());
        lemma_fields_nonempty(s.drop_last());
    }
}

proof fn lemma_trimmed_len(s: Seq<char>)
    ensures
        trimmed_start(s).len() <= s.len(),
        trimmed_end(s).len() <= s.len(),
    decreases s.len(),
{
    if s.len() > 0 {
        lemma_trimmed_len(s.drop_first());
        lemma_trimmed_len(s.drop_last());
    }
}

/// A list names fewer ids than it has characters.
pub proof fn lemma_lists_len(s: Seq<char>, ids: Seq<u32>)
    requires
        lists(s, ids),
    ensures
        ids.len() < s.len(),
{
    lemma_trimmed_len(s);
    lemma_trimmed_len(trimmed_start(s));
    lemma_fields_len(inside(s));
}

/// A text lists one sequence of ids at most.
pub proof fn lemma_lists_unique(s: Seq<char>, a: Seq<u32>, b: Seq<u32>)
    requires
        lists(s, a),
        lists(s, b),
    ensures
        a == b,
{
    assert forall|i: int| 0 <= i < a.len() implies a[i] == b[i] by {
        assert(id_in(fields(inside(s))[i]) == Some(a[i]));
    }
    assert(a =~= b);
}

/// Whether `s` is white space throughout.
pub open spec fn blank(s: Seq<char>) -> bool {
    forall|i: int| 0 <= i < s.len() ==> is_space(#[trigger] s[i])
}

proof fn lemma_trim_start(space: Seq<char>, s: Seq<char>)
    requires
        blank(space),
    ensures
        trimmed_start(space + s) == trimmed_start(s),
    decreases space.len(),
{
    if space.len() == 0 {
        assert(space + s =~= s);
    } else {
        assert(is_space(space[0]));
        let rest = space.drop_first();
        assert forall|i: int| 0 <= i < rest.len() implies is_space(#[trigger] rest[i]) by {
            assert(rest[i] == space[i + 1]);
        }
        lemma_trim_start(rest, s);
        assert((space + s).drop_first() =~= rest + s);
    }
}

proof fn lemma_trim_end(s: Seq<char>, space: Seq<char>)
    requires
        blank(space),
    ensures
        trimmed_end(s + space) == trimmed_end(s),
    decreases space.len(),
{
    if space.len() == 0 {
        assert(s + space =~= s);
    } else {
        assert(is_space(space[space.len() - 1]));
        let rest = space.drop_last();
        assert forall|i: int| 0 <= i < rest.len() implies is_space(#[trigger] rest[i]) by {
            assert(rest[i] == space[i]);
        }
        lemma_trim_end(s, rest);
        assert((s + space).drop_last() =~= s + rest);
    }
}

proof fn lemma_trim_start_keeps_end(s: Seq<char>, space: Seq<char>)
    requires
        blank(space),
    ensures
        trimmed_start(s).len() > 0 ==> trimmed_start(s + space) == trimmed_start(s) + space,
        trimmed_start(s).len() == 0 ==> trimmed_start(s + space).len() == 0,
    decreases s.len(),
{
    if s.len() == 0 {
        lemma_trim_start(space, seq![]);
        assert(s + space =~= space + Seq::<char>::empty());
    } else if is_space(s[0]) {
        lemma_trim_start_keeps_end(s.drop_first(), space);
        assert((s + space).drop_first() =~= s.drop_first() + space);
    }
}

/// White space around a text does not count.
pub proof fn lemma_trimmed_padded(before: Seq<char>, s: Seq<char>, after: Seq<char>)
    requires
        blank(before),
        blank(after),
    ensures
        trimmed(before + s + after) == trimmed(s),
{
    assert(before + s + after =~= before + (s + after));
    lemma_trim_start(before, s + after);
    lemma_trim_start_keeps_end(s, after);
    if trimmed_start(s).len() > 0 {
        lemma_trim_end(trimmed_start(s), after);
    } else {
        assert(trimmed_start(s) =~= trimmed_start(s + after));
    }
}

/// Input tolerates white space around the list and around each id.
pub proof fn lemma_white_space_is_tolerated(
    before: Seq<char>,
    s: Seq<char>,
    after: Seq<char>,
    ids: Seq<u32>,
)
    requires
        blank(before),
        blank(after),
    ensures
        lists(before + s + after, ids) <==> lists(s, ids),
        id_in(before + s + after) == id_in(s),
{
    lemma_trimmed_padded(before, s, after);
}

/// A text that neither starts nor ends with white space is left as it is by trimming, and white
/// space alone is trimmed to nothing. With white space around it put aside, this says what trimming
/// does to any text.
pub proof fn lemma_trimmed_core(s: Seq<char>)
    ensures
        s.len() > 0 && !is_space(s[0]) && !is_space(s.last()) ==> trimmed(s) == s,
        blank(s) <==> trimmed(s).len() == 0,
        trimmed(s).len() > 0 ==> !is_space(trimmed(s)[0]) && !is_space(trimmed(s).last()),
    decreases s.len(),
{
    let t = trimmed_start(s);
    lemma_start_core(s);
    lemma_end_core(t);
    if t.len() > 0 {
        assert(trimmed_end(t).len() > 0);
        assert(trimmed_end(t)[0] == t[0]);
    }
}

proof fn lemma_start_core(s: Seq<char>)
    ensures
        blank(s) <==> trimmed_start(s).len() == 0,
        trimmed_start(s).len() > 0 ==> !is_space(trimmed_start(s)[0]),
    decreases s.len(),
{
    if s.len() > 0 && is_space(s[0]) {
        let rest = s.drop_first();
        lemma_start_core(rest);
        if blank(s) {
            assert forall|i: int| 0 <= i < rest.len() implies is_space(#[trigger] rest[i]) by {
                assert(rest[i] == s[i + 1]);
            }
        }
        if blank(rest) {
            assert forall|i: int| 0 <= i < s.len() implies is_space(#[trigger] s[i]) by {
                if i > 0 {
                    assert(s[i] == rest[i - 1]);
                }
            }
        }
    } else if s.len() > 0 {
        assert(!is_space(s[0]));
    }
}

proof fn lemma_end_core(s: Seq<char>)
    ensures
        s.len() > 0 && !is_space(s[0]) ==> trimmed_end(s).len() > 0 && trimmed_end(s)[0] == s[0],
        trimmed_end(s).len() > 0 ==> !is_space(trimmed_end(s).last()),
        s.len() == 0 ==> trimmed_end(s).len() == 0,
    decreases s.len(),
{
    if s.len() > 0 && is_space(s.last()) {
        lemma_end_core(s.drop_last());
        if !is_space(s[0]) {
            assert(s.len() > 1);
            assert(s.drop_last()[0] == s[0]);
        }
    }
}

/// Parts with commas between them.
pub open spec fn comma_joined(parts: Seq<Seq<char>>) -> Seq<char>
    decreases parts.len(),
{
    if parts.len() == 0 {
        seq![]
    } else if parts.len() == 1 {
        parts[0]
    } else {
        comma_joined(parts.drop_last()).push(',') + parts.last()
    }
}

proof fn lemma_comma_joined_grows(parts: Seq<Seq<char>>, c: char)
    requires
        parts.len() > 0,
    ensures
        comma_joined(parts.drop_last().push(parts.last().push(c))) == comma_joined(parts).push(c),
        comma_joined(parts.push(seq![])) == comma_joined(parts).push(','),
{
    let grown = parts.drop_last().push(parts.last().push(c));
    assert(grown.drop_last() =~= parts.drop_last());
    assert(comma_joined(grown) =~= comma_joined(parts).push(c));
    let more = parts.push(seq![]);
    assert(more.drop_last() =~= parts);
    assert(comma_joined(more) =~= comma_joined(parts).push(','));
}

/// A text is its fields with commas between them, and no field has a comma in it.
pub proof fn lemma_fields_are_between_commas(s: Seq<char>)
    ensures
        fields(s).len() > 0,
        comma_joined(fields(s)) == s,
        forall|i: int, j: int|
            0 <= i < fields(s).len() && 0 <= j < fields(s)[i].len() ==> #[trigger] fields(s)[i][j]
                != ',',
    decreases s.len(),
{
    if s.len() > 0 {
        let front = fields(s.drop_last());
        lemma_fields_are_between_commas(s.drop_last());
        lemma_comma_joined_grows(front, s.last());
        assert(s.drop_last().push(s.last()) =~= s);
        assert forall|i: int, j: int|
            0 <= i < fields(s).len() && 0 <= j < fields(s)[i].len() implies #[trigger] fields(
            s,
        )[i][j] != ',' by {
            if i < front.len() - 1 {
                assert(front[i][j] != ',');
            } else if s.last() != ',' {
                if j < front.last().len() {
                    assert(front[front.len() - 1][j] != ',');
                }
            } else if i < front.len() {
                assert(front[i][j] != ',');
            }
        }
    } else {
        assert(comma_joined(fields(s)) =~= s);
    }
}

/// A rendered list is the ids in decimal, commas between them and braces around.
pub proof fn lemma_rendered_layout(ids: Seq<u32>)
    ensures
        rendered(ids) == seq!['{'] + comma_joined(ids.map_values(|id: u32| decimal(id as nat)))
            + seq!['}'],
{
    lemma_joined_layout(ids);
}

proof fn lemma_joined_layout(ids: Seq<u32>)
    ensures
        joined(ids) == comma_joined(ids.map_values(|id: u32| decimal(id as nat))),
    decreases ids.len(),
{
    let f = |id: u32| decimal(id as nat);
    if ids.len() > 1 {
        lemma_joined_layout(ids.drop_last());
        assert(ids.map_values(f).drop_last() =~= ids.drop_last().map_values(f));
        assert(ids.map_values(f).last() == f(ids.last()));
    }
}

/// Digits one behind the other count by their places to the base ten, a digit for its own value.
pub proof fn lemma_digits_by_place(a: Seq<char>, b: Seq<char>, c: char)
    requires
        is_digit(c),
        forall|i: int| 0 <= i < a.len() ==> is_digit(#[trigger] a[i]),
        forall|i: int| 0 <= i < b.len() ==> is_digit(#[trigger] b[i]),
    ensures
        digits_value(a + b) as int == digits_value(a) * vstd::arithmetic::power::pow(10, b.len())
            + digits_value(b),
        digits_value(seq![c]) + ('0' as u32) == c as u32,
        digits_value(Seq::<char>::empty()) == 0,
    decreases b.len(),
{
    reveal_with_fuel(digits_value, 3);
    reveal(vstd::arithmetic::power::pow);
    assert(seq![c].drop_last() =~= Seq::<char>::empty());
    if b.len() == 0 {
        assert(a + b =~= a);
    } else {
        let front = b.drop_last();
        assert forall|i: int| 0 <= i < front.len() implies is_digit(#[trigger] front[i]) by {
            assert(front[i] == b[i]);
        }
        lemma_digits_by_place(a, front, c);
        assert((a + b).drop_last() =~= a + front);
        assert((a + b).last() == b.last());
        assert(is_digit(b[b.len() - 1]));
        let x = digits_value(a) as int;
        let p = vstd::arithmetic::power::pow(10, front.len());
        assert(10 * (x * p) == x * (10 * p)) by (nonlinear_arith);
    }
}

/// What counts as a number: digits, with or without a sign in front, whose value a 64-bit signed
/// integer holds. Nothing, a sign alone, and anything with another character in it do not.
pub proof fn lemma_number_outcome(digits: Seq<char>)
    ensures
        digits.len() > 0 && (forall|i: int| 0 <= i < digits.len() ==> '0' <= #[trigger] digits[i]
            <= '9') ==> {
            let v = digits_value(digits) as int;
            &&& number_in(digits) == if v <= 0x7FFF_FFFF_FFFF_FFFF {
                Some(v)
            } else {
                None
            }
            &&& number_in(seq!['+'] + digits) == number_in(digits)
            &&& number_in(seq!['-'] + digits) == if v <= 0x8000_0000_0000_0000 {
                Some(-v)
            } else {
                None
            }
        },
        digits.len() == 0 ==> number_in(digits) is None && number_in(seq!['+'] + digits) is None
            && number_in(seq!['-'] + digits) is None,
        (exists|i: int| 0 <= i < digits.len() && !('0' <= #[trigger] digits[i] <= '9')) ==> {
            &&& number_in(seq!['+'] + digits) is None
            &&& number_in(seq!['-'] + digits) is None
            &&& digits[0] != '+' && digits[0] != '-' ==> number_in(digits) is None
        },
{
    let plus = seq!['+'] + digits;
    let minus = seq!['-'] + digits;
    assert(plus.drop_first() =~= digits);
    assert(minus.drop_first() =~= digits);
    assert(unsigned_part(plus) == digits && unsigned_part(minus) == digits);
    if digits.len() > 0 && (forall|i: int| 0 <= i < digits.len() ==> '0' <= #[trigger] digits[i]
        <= '9') {
        assert('0' <= digits[0] <= '9');
        assert(unsigned_part(digits) == digits);
        assert forall|i: int| 0 <= i < digits.len() implies is_digit(#[trigger] digits[i]) by {}
    }
    if exists|i: int| 0 <= i < digits.len() && !('0' <= #[trigger] digits[i] <= '9') {
        let i = choose|i: int| 0 <= i < digits.len() && !('0' <= #[trigger] digits[i] <= '9');
        assert(!is_digit(digits[i]));
    }
}

/// The id of a field is the number in it, where that is a token id; otherwise the field is refused
/// as empty, as negative, as too large, or as no number.
pub proof fn lemma_field_outcome(field: Seq<char>, e: ListError)
    ensures
        ({
            let f = trimmed(field);
            &&& f.len() == 0 ==> id_in(field) is None && (field_fault(field, e) <==> e
                == ListError::EmptyField)
            &&& f.len() > 0 && number_in(f) is None ==> id_in(field) is None && (field_fault(
                field,
                e,
            ) <==> e is NotAnId && e->NotAnId_0@ == f)
            &&& f.len() > 0 && number_in(f) is Some ==> {
                let v = number_in(f)->0;
                &&& v < 0 ==> id_in(field) is None && (field_fault(field, e) <==> e is Negative
                    && e->Negative_0 == v)
                &&& 0 <= v <= 0xFFFF_FFFF ==> id_in(field) is Some && id_in(field)->0 == v
                    && !field_fault(field, e)
                &&& v > 0xFFFF_FFFF ==> id_in(field) is None && (field_fault(field, e) <==> e
                    is TooLarge && e->TooLarge_0 == v)
            }
        }),
{
    assert(number_in(Seq::<char>::empty()) is None);
    let f = trimmed(field);
    if f.len() == 0 {
        assert(f =~= seq![]);
    }
}

/// A list between braces, white space around it aside: nothing but white space inside is the empty
/// list, else every field between the commas is an id, and the first that is none is what the list
/// is refused for.
pub proof fn lemma_list_outcome(
    before: Seq<char>,
    inner: Seq<char>,
    after: Seq<char>,
    ids: Seq<u32>,
    e: ListError,
)
    requires
        blank(before),
        blank(after),
    ensures
        ({
            let s = before + (seq!['{'] + inner + seq!['}']) + after;
            &&& blank(inner) ==> (lists(s, ids) <==> ids.len() == 0) && !list_fault(s, e)
            &&& !blank(inner) ==> (lists(s, ids) <==> ids.len() == fields(inner).len() && forall|
                i: int,
            |
                0 <= i < ids.len() ==> #[trigger] id_in(fields(inner)[i]) == Some(ids[i]))
            &&& !blank(inner) ==> (list_fault(s, e) <==> exists|i: int|
                {
                    &&& 0 <= i < fields(inner).len()
                    &&& #[trigger] id_in(fields(inner)[i]) is None
                    &&& forall|j: int|
                        0 <= j < i ==> #[trigger] id_in(fields(inner)[j]) is Some
                    &&& field_fault(fields(inner)[i], e)
                })
        }),
{
    let core = seq!['{'] + inner + seq!['}'];
    let s = before + core + after;
    assert(core[0] == '{' && core.last() == '}');
    lemma_trimmed_padded(before, core, after);
    lemma_trimmed_core(core);
    lemma_trimmed_core(inner);
    assert(inside(s) =~= inner);
    if lists(s, ids) && !blank(inner) {
        assert forall|i: int| 0 <= i < ids.len() implies #[trigger] id_in(fields(inner)[i]) == Some(
            ids[i],
        ) by {}
    }
    if list_fault(s, e) && !blank(inner) {
        let i = choose|i: int|
            {
                &&& 0 <= i < fields(inner).len()
                &&& id_in(#[trigger] fields(inner)[i]) is None
                &&& forall|j: int| 0 <= j < i ==> id_in(#[trigger] fields(inner)[j]) is Some
                &&& field_fault(fields(inner)[i], e)
            };
        assert(id_in(fields(inner)[i]) is None);
    }
}

/// A text without a brace in front is refused for that, and one with a brace in front and none
/// behind is refused for that.
pub proof fn lemma_braces_wanted(
    before: Seq<char>,
    core: Seq<char>,
    after: Seq<char>,
    ids: Seq<u32>,
    e: ListError,
)
    requires
        blank(before),
        blank(after),
        core.len() > 0 ==> !is_space(core[0]) && !is_space(core.last()),
    ensures
        core.len() == 0 || core[0] != '{' ==> !lists(before + core + after, ids) && (list_fault(
            before + core + after,
            e,
        ) <==> e == ListError::NoOpeningBrace),
        core.len() > 0 && core[0] == '{' && (core.len() == 1 || core.last() != '}') ==> !lists(
            before + core + after,
            ids,
        ) && (list_fault(before + core + after, e) <==> e == ListError::NoClosingBrace),
{
    lemma_trimmed_padded(before, core, after);
    lemma_trimmed_core(core);
    if core.len() == 0 {
        assert(blank(core));
    }
}

/// Two errors of a kind read alike but for the details they give.
pub proof fn lemma_wording_of_list_error(a: ListError, b: ListError)
    ensures
        a is Negative && b is Negative ==> crate::text::same_wording(
            a.text(),
            crate::text::signed_decimal(a->Negative_0 as int),
            b.text(),
            crate::text::signed_decimal(b->Negative_0 as int),
        ),
        a is TooLarge && b is TooLarge ==> crate::text::same_wording(
            a.text(),
            crate::text::signed_decimal(a->TooLarge_0 as int),
            b.text(),
            crate::text::signed_decimal(b->TooLarge_0 as int),
        ),
        a is NotAnId && b is NotAnId ==> crate::text::same_wording(
            a.text(),
            crate::text::debug_text(a->NotAnId_0@),
            b.text(),
            crate::text::debug_text(b->NotAnId_0@),
        ),
{
    if a is Negative && b is Negative {
        assert(crate::text::worded(
            a.text(),
            "token id "@,
            crate::text::signed_decimal(a->Negative_0 as int),
            " is negative"@,
        ));
        assert(crate::text::worded(
            b.text(),
            "token id "@,
            crate::text::signed_decimal(b->Negative_0 as int),
            " is negative"@,
        ));
    }
    if a is TooLarge && b is TooLarge {
        assert(crate::text::worded(
            a.text(),
            "token id "@,
            crate::text::signed_decimal(a->TooLarge_0 as int),
            " is too large"@,
        ));
        assert(crate::text::worded(
            b.text(),
            "token id "@,
            crate::text::signed_decimal(b->TooLarge_0 as int),
            " is too large"@,
        ));
    }
    if a is NotAnId && b is NotAnId {
        assert(crate::text::worded(
            a.text(),
            Seq::<char>::empty(),
            crate::text::debug_text(a->NotAnId_0@),
            " is not a token id"@,
        ));
        assert(crate::text::worded(
            b.text(),
            Seq::<char>::empty(),
            crate::text::debug_text(b->NotAnId_0@),
            " is not a token id"@,
        ));
    }
}

} // verus!
