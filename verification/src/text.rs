//! Text: its length in bytes, its order, folding of case, cutting to size.

use vstd::prelude::*;
use vstd::string::{StringExecFns, StrSliceExecFns};
use vstd::utf8::{encode_utf8, is_char_boundary, valid_utf8};

verus! {

/// Length of a text in bytes.
pub open spec fn byte_len(text: Seq<char>) -> nat {
    encode_utf8(text).len()
}

/// Length of a text in bytes.
pub(crate) fn byte_count(text: &str) -> (n: usize)
    ensures
        n == byte_len(text@),
{
    text.as_bytes().len()
}

/// The text in lower case, by the Unicode rules.
pub uninterp spec fn lowercase_of(text: Seq<char>) -> Seq<char>;

/// An ASCII character in lower case.
pub open spec fn ascii_lowered(c: char) -> char {
    if 'A' <= c <= 'Z' {
        (c as u32 + 32) as char
    } else {
        c
    }
}

/// Calls `str::to_lowercase`, whose result depends on the text alone: the
/// mapping is that of the Unicode character data, whatever the locale. In a
/// text of ASCII characters the letters from `A` to `Z` become those from `a`
/// to `z` and nothing else changes.
#[verifier::external_body]
pub(crate) fn lowercased(text: &str) -> (r: String)
    ensures
        r@ == lowercase_of(text@),
        vstd::utf8::is_ascii_chars(text@) ==> r@ == text@.map_values(
            |c: char| ascii_lowered(c),
        ),
{
    text.to_lowercase()
}

/// The characters of a text.
pub(crate) fn chars_of(text: &str) -> (r: Vec<char>)
    ensures
        r@ == text@,
{
    let mut r: Vec<char> = Vec::new();
    for c in it: text.chars()
        invariant
            it.seq() == text@,
            r@ == text@.take(it.index()),
    {
        proof {
            assert(text@.take(it.index() + 1) =~= text@.take(it.index()).push(c));
        }
        r.push(c);
    }
    proof {
        assert(text@.take(text@.len() as int) =~= text@);
    }
    r
}

/// Whether two texts are the same.
pub(crate) fn same_text(a: &str, b: &str) -> (r: bool)
    ensures
        r == (a@ == b@),
{
    String::from_str(a) == String::from_str(b)
}

/// Whether `text` starts with `prefix`.
pub(crate) fn text_starts_with(text: &str, prefix: &str) -> (r: bool)
    ensures
        r == prefix@.is_prefix_of(text@),
{
    let t = chars_of(text);
    let p = chars_of(prefix);
    if p.len() > t.len() {
        return false;
    }
    let mut i: usize = 0;
    while i < p.len()
        invariant
            i <= p@.len() <= t@.len(),
            p@ == prefix@,
            t@ == text@,
            forall|j: int| 0 <= j < i ==> p@[j] == t@[j],
        decreases p@.len() - i,
    {
        if p[i] != t[i] {
            proof {
                assert(t@.subrange(0, p@.len() as int)[i as int] == t@[i as int]);
            }
            return false;
        }
        i = i + 1;
    }
    proof {
        assert(p@ =~= t@.subrange(0, p@.len() as int));
    }
    true
}

/// The order of texts: by the first character that differs, and a text stands
/// before its own continuations.
pub open spec fn text_before(a: Seq<char>, b: Seq<char>) -> bool
    decreases b.len(),
{
    if b.len() == 0 {
        false
    } else if a.len() == 0 {
        true
    } else if a[0] != b[0] {
        a[0] < b[0]
    } else {
        text_before(a.skip(1), b.skip(1))
    }
}

proof fn lemma_text_before_transitive(a: Seq<char>, b: Seq<char>, c: Seq<char>)
    requires
        text_before(a, b),
        text_before(b, c),
    ensures
        text_before(a, c),
    decreases a.len(),
{
    if a.len() > 0 && a[0] == b[0] && b[0] == c[0] {
        lemma_text_before_transitive(a.skip(1), b.skip(1), c.skip(1));
    }
}

proof fn lemma_text_before_total(a: Seq<char>, b: Seq<char>)
    ensures
        text_before(a, b) || text_before(b, a) || a == b,
        !(text_before(a, b) && text_before(b, a)),
        !text_before(a, a),
    decreases a.len() + b.len(),
{
    if a.len() == 0 && b.len() == 0 {
        assert(a =~= b);
    } else if a.len() > 0 && b.len() > 0 && a[0] == b[0] {
        lemma_text_before_total(a.skip(1), b.skip(1));
        if a.skip(1) == b.skip(1) {
            assert(a =~= seq![a[0]] + a.skip(1));
            assert(b =~= seq![b[0]] + b.skip(1));
        }
    }
    if a.len() > 0 {
        lemma_text_before_irreflexive(a);
    }
}

proof fn lemma_text_before_irreflexive(a: Seq<char>)
    ensures
        !text_before(a, a),
    decreases a.len(),
{
    if a.len() > 0 {
        lemma_text_before_irreflexive(a.skip(1));
    }
}

/// Whether `a` stands before `b`.
pub(crate) fn text_precedes(a: &str, b: &str) -> (r: bool)
    ensures
        r == text_before(a@, b@),
{
    let x = chars_of(a);
    let y = chars_of(b);
    let mut i: usize = 0;
    proof {
        assert(x@.skip(0) =~= x@);
        assert(y@.skip(0) =~= y@);
    }
    while i < x.len() && i < y.len() && x[i] == y[i]
        invariant
            i <= x@.len(),
            i <= y@.len(),
            text_before(x@, y@) == text_before(x@.skip(i as int), y@.skip(i as int)),
        decreases x@.len() - i,
    {
        proof {
            assert(x@.skip(i as int).skip(1) =~= x@.skip(i + 1));
            assert(y@.skip(i as int).skip(1) =~= y@.skip(i + 1));
            assert(x@.skip(i as int)[0] == y@.skip(i as int)[0]);
        }
        i = i + 1;
    }
    if i >= y.len() {
        false
    } else if i >= x.len() {
        true
    } else {
        proof {
            assert(x@.skip(i as int)[0] == x@[i as int]);
            assert(y@.skip(i as int)[0] == y@[i as int]);
        }
        x[i] < y[i]
    }
}

/// The texts stand in strictly ascending order.
pub open spec fn texts_ascending(s: Seq<String>) -> bool {
    forall|i: int, j: int|
        0 <= i < j < s.len() ==> text_before((#[trigger] s[i])@, (#[trigger] s[j])@)
}

/// One of the strings reads `text`.
pub open spec fn has_text(s: Seq<String>, text: Seq<char>) -> bool {
    exists|i: int| 0 <= i < s.len() && (#[trigger] s[i])@ == text
}

/// Puts a text at its place in an ascending list, unless it is there already.
pub(crate) fn insert_text(list: &mut Vec<String>, text: &String)
    requires
        texts_ascending(old(list)@),
    ensures
        texts_ascending(final(list)@),
        forall|t: Seq<char>| #[trigger]
            has_text(final(list)@, t) <==> has_text(old(list)@, t) || t == text@,
{
    let ghost before = list@;
    let mut i: usize = 0;
    while i < list.len() && text_precedes(list[i].as_str(), text.as_str())
        invariant
            i <= list@.len(),
            list@ == before,
            forall|j: int| 0 <= j < i ==> text_before((#[trigger] list@[j])@, text@),
        decreases list@.len() - i,
    {
        i = i + 1;
    }
    if i < list.len() && !text_precedes(text.as_str(), list[i].as_str()) {
        proof {
            lemma_text_before_total(list@[i as int]@, text@);
            assert(has_text(before, text@));
        }
        return;
    }
    proof {
        assert forall|j: int| i <= j < before.len() implies text_before(
            text@,
            (#[trigger] before[j])@,
        ) by {
            if j > i {
                lemma_text_before_transitive(text@, before[i as int]@, before[j]@);
            }
        }
    }
    list.insert(i, text.clone());
    proof {
        let after = list@;
        assert(after == before.insert(i as int, *text));
        assert forall|t: Seq<char>| #[trigger] has_text(after, t) <==> has_text(before, t) || t
            == text@ by {
            if has_text(before, t) {
                let j = choose|j: int| 0 <= j < before.len() && (#[trigger] before[j])@ == t;
                let k = if j < i {
                    j
                } else {
                    j + 1
                };
                assert(after[k] == before[j]);
            }
            if t == text@ {
                assert(after[i as int]@ == t);
            }
            if has_text(after, t) {
                let k = choose|k: int| 0 <= k < after.len() && (#[trigger] after[k])@ == t;
                if k < i {
                    assert(before[k]@ == t);
                } else if k > i {
                    assert(before[k - 1]@ == t);
                }
            }
        }
    }
}

/// The longest start of a text that has at most `limit` bytes.
pub open spec fn cut_to(text: Seq<char>, limit: nat) -> Seq<char>
    decreases text.len(),
{
    if text.len() == 0 || byte_len(text) <= limit {
        text
    } else {
        cut_to(text.drop_last(), limit)
    }
}

proof fn lemma_encode_concat(a: Seq<char>, b: Seq<char>)
    ensures
        encode_utf8(a + b) == encode_utf8(a) + encode_utf8(b),
    decreases a.len(),
{
    if a.len() == 0 {
        assert(a + b =~= b);
        assert(encode_utf8(a) + encode_utf8(b) =~= encode_utf8(b));
    } else {
        assert((a + b).drop_first() =~= a.drop_first() + b);
        lemma_encode_concat(a.drop_first(), b);
        assert(encode_utf8(a + b) =~= encode_utf8(a) + encode_utf8(b));
    }
}

/// The end of every start of a text is a boundary between characters.
proof fn lemma_prefix_ends_on_boundary(text: Seq<char>, k: int)
    requires
        0 <= k <= text.len(),
    ensures
        is_char_boundary(encode_utf8(text), byte_len(text.take(k)) as int),
        byte_len(text.take(k)) <= byte_len(text),
        k < text.len() ==> byte_len(text.take(k)) < byte_len(text.take(k + 1)),
{
    let a = text.take(k);
    let b = text.skip(k);
    assert(text =~= a + b);
    lemma_encode_concat(a, b);
    vstd::utf8::encode_utf8_valid_utf8(text);
    vstd::utf8::encode_utf8_valid_utf8(b);
    let bytes = encode_utf8(text);
    let at = byte_len(a) as int;
    if b.len() > 0 {
        vstd::utf8::encode_utf8_first_scalar(b);
        assert(encode_utf8(b).len() > 0);
        assert(bytes[at] == encode_utf8(b)[0]);
        vstd::utf8::is_char_boundary_iff_is_leading_byte(bytes, at);
        vstd::utf8::is_char_boundary_start_end_of_seq(encode_utf8(b));
        vstd::utf8::is_char_boundary_iff_is_leading_byte(encode_utf8(b), 0);
        let c = seq![text[k]];
        assert(text.take(k + 1) =~= a + c);
        lemma_encode_concat(a, c);
        vstd::utf8::encode_utf8_first_scalar(c);
    } else {
        assert(bytes =~= encode_utf8(a) + encode_utf8(b));
        assert(encode_utf8(b) =~= Seq::<u8>::empty());
        vstd::utf8::is_char_boundary_start_end_of_seq(bytes);
    }
}

proof fn lemma_cut_unique(text: Seq<char>, limit: nat, k: int)
    requires
        0 <= k <= text.len(),
        byte_len(text.take(k)) <= limit,
        k == text.len() || byte_len(text.take(k + 1)) > limit,
    ensures
        cut_to(text, limit) == text.take(k),
    decreases text.len(),
{
    if k == text.len() {
        assert(text.take(k) =~= text);
    } else {
        lemma_prefixes_grow(text, k + 1, text.len() as int);
        assert(text.take(text.len() as int) =~= text);
        let rest = text.drop_last();
        assert(rest.take(k) =~= text.take(k));
        if k < rest.len() {
            assert(rest.take(k + 1) =~= text.take(k + 1));
        }
        lemma_cut_unique(rest, limit, k);
    }
}

proof fn lemma_prefixes_grow(text: Seq<char>, j: int, k: int)
    requires
        0 <= j <= k <= text.len(),
    ensures
        byte_len(text.take(j)) <= byte_len(text.take(k)),
    decreases k - j,
{
    if j < k {
        lemma_prefix_ends_on_boundary(text, k - 1);
        lemma_prefixes_grow(text, j, k - 1);
    }
}

/// A cut text fits, and it keeps something of a text that was not empty if a
/// single character can fit.
pub proof fn lemma_cut_fits(text: Seq<char>, limit: nat)
    ensures
        byte_len(cut_to(text, limit)) <= limit,
        text.len() > 0 && limit >= 4 ==> cut_to(text, limit).len() > 0,
    decreases text.len(),
{
    if text.len() == 0 {
        assert(encode_utf8(text).len() == 0);
    } else if text.len() == 1 {
        assert(text.drop_first() =~= Seq::<char>::empty());
        assert(encode_utf8(text.drop_first()).len() == 0);
        assert(byte_len(text) <= 4);
        assert(text.drop_last() =~= Seq::<char>::empty());
        lemma_cut_fits(text.drop_last(), limit);
    } else if byte_len(text) > limit {
        lemma_cut_fits(text.drop_last(), limit);
    }
}

/// The longest start of a text that has at most `limit` bytes.
pub(crate) fn truncate_to(text: &str, limit: usize) -> (r: String)
    ensures
        r@ == cut_to(text@, limit as nat),
        byte_len(r@) <= limit,
{
    let n: usize = byte_count(text);
    if n <= limit {
        return String::from_str(text);
    }
    let ghost bytes = encode_utf8(text@);
    proof {
        vstd::utf8::encode_utf8_valid_utf8(text@);
        vstd::utf8::is_char_boundary_start_end_of_seq(bytes);
    }
    let mut end: usize = limit;
    while end > 0 && !text.is_char_boundary(end)
        invariant
            bytes == encode_utf8(text@),
            end <= limit < bytes.len(),
            forall|e: int| end < e <= limit ==> !is_char_boundary(bytes, e),
        decreases end,
    {
        end = end - 1;
    }
    let parts = text.split_at(end);
    let r = String::from_str(parts.0);
    proof {
        let p = parts.0@;
        let q = parts.1@;
        assert(bytes =~= encode_utf8(p) + encode_utf8(q));
        lemma_encode_concat(p, q);
        vstd::utf8::encode_utf8_decode_utf8(p + q);
        vstd::utf8::encode_utf8_decode_utf8(text@);
        assert(p + q == text@);
        let k = p.len() as int;
        assert(text@.take(k) =~= p);
        assert(byte_len(p) == end);
        if k < text@.len() {
            lemma_prefix_ends_on_boundary(text@, k);
            lemma_prefix_ends_on_boundary(text@, k + 1);
        }
        lemma_cut_unique(text@, limit as nat, k);
    }
    r
}

/// The digit `d` as a character.
pub open spec fn digit_char(d: nat) -> char {
    ('0' as nat + d) as char
}

/// `n` in decimal digits, without leading zeros.
pub open spec fn decimal(n: nat) -> Seq<char>
    decreases n,
{
    if n < 10 {
        seq![digit_char(n)]
    } else {
        decimal(n / 10).push(digit_char(n % 10))
    }
}

fn digit_text(d: u8) -> (r: &'static str)
    requires
        d < 10,
    ensures
        r@ == seq![digit_char(d as nat)],
{
    proof {
        reveal_strlit("0");
        reveal_strlit("1");
        reveal_strlit("2");
        reveal_strlit("3");
        reveal_strlit("4");
        reveal_strlit("5");
        reveal_strlit("6");
        reveal_strlit("7");
        reveal_strlit("8");
        reveal_strlit("9");
    }
    let r: &'static str = match d {
        0 => "0",
        1 => "1",
        2 => "2",
        3 => "3",
        4 => "4",
        5 => "5",
        6 => "6",
        7 => "7",
        8 => "8",
        _ => "9",
    };
    assert(r@ =~= seq![digit_char(d as nat)]);
    r
}

/// `n` in decimal digits.
pub(crate) fn decimal_text(n: u64) -> (r: String)
    ensures
        r@ == decimal(n as nat),
    decreases n,
{
    if n < 10 {
        String::from_str(digit_text(n as u8))
    } else {
        let mut r = decimal_text(n / 10);
        r.append(digit_text((n % 10) as u8));
        assert(r@ =~= decimal(n as nat));
        r
    }
}

/// `n` in decimal digits, behind a minus sign if it is negative.
pub open spec fn signed_decimal(n: int) -> Seq<char> {
    if n < 0 {
        "-"@ + decimal((-n) as nat)
    } else {
        decimal(n as nat)
    }
}

/// `n` in decimal digits, behind a minus sign if it is negative.
pub(crate) fn signed_text(n: i64) -> (r: String)
    ensures
        r@ == signed_decimal(n as int),
{
    if n < 0 {
        let magnitude: u64 = (-(n + 1)) as u64 + 1;
        let digits = decimal_text(magnitude);
        let mut r = String::from_str("-");
        r.append(digits.as_str());
        r
    } else {
        decimal_text(n as u64)
    }
}

/// White space: the characters with the Unicode property of that name.
pub open spec fn is_white(c: char) -> bool {
    let n = c as u32;
    ||| 9 <= n <= 13
    ||| n == 32
    ||| n == 0x85
    ||| n == 0xA0
    ||| n == 0x1680
    ||| 0x2000 <= n <= 0x200A
    ||| n == 0x2028
    ||| n == 0x2029
    ||| n == 0x202F
    ||| n == 0x205F
    ||| n == 0x3000
}

fn white(c: char) -> (b: bool)
    ensures
        b == is_white(c),
{
    let n: u32 = c as u32;
    (9 <= n && n <= 13) || n == 32 || n == 0x85 || n == 0xA0 || n == 0x1680 || (0x2000 <= n && n
        <= 0x200A) || n == 0x2028 || n == 0x2029 || n == 0x202F || n == 0x205F || n == 0x3000
}

/// The text without white space at its start.
pub open spec fn trimmed_start(s: Seq<char>) -> Seq<char>
    decreases s.len(),
{
    if s.len() > 0 && is_white(s[0]) {
        trimmed_start(s.skip(1))
    } else {
        s
    }
}

/// The text without white space at its end.
pub open spec fn trimmed_end(s: Seq<char>) -> Seq<char>
    decreases s.len(),
{
    if s.len() > 0 && is_white(s.last()) {
        trimmed_end(s.drop_last())
    } else {
        s
    }
}

/// The text without white space at both ends.
pub open spec fn trimmed(s: Seq<char>) -> Seq<char> {
    trimmed_end(trimmed_start(s))
}

/// The part of the text before the first `c`; all of it if there is none.
pub open spec fn before_char(s: Seq<char>, c: char) -> Seq<char>
    decreases s.len(),
{
    if s.len() == 0 || s[0] == c {
        Seq::empty()
    } else {
        seq![s[0]] + before_char(s.skip(1), c)
    }
}

/// The place of the first `c`, or the end, gives the part before it.
pub proof fn lemma_before_char(s: Seq<char>, c: char, k: int)
    requires
        0 <= k <= s.len(),
        forall|j: int| 0 <= j < k ==> #[trigger] s[j] != c,
        k == s.len() || s[k] == c,
    ensures
        before_char(s, c) == s.take(k),
    decreases s.len(),
{
    if k == 0 {
        assert(s.take(0) =~= Seq::<char>::empty());
    } else {
        assert(s[0] != c);
        let rest = s.skip(1);
        assert forall|j: int| 0 <= j < k - 1 implies #[trigger] rest[j] != c by {
            assert(rest[j] == s[j + 1]);
        }
        lemma_before_char(rest, c, k - 1);
        assert(s.take(k) =~= seq![s[0]] + rest.take(k - 1));
    }
}

/// The part of the trimmed text before the first `c`.
pub(crate) fn trimmed_before(text: &str, c: char) -> (r: String)
    ensures
        r@ == before_char(trimmed(text@), c),
{
    let s = chars_of(text);
    let mut i: usize = 0;
    proof {
        assert(s@.skip(0) =~= s@);
    }
    while i < s.len() && white(s[i])
        invariant
            i <= s@.len(),
            trimmed_start(s@) == trimmed_start(s@.skip(i as int)),
        decreases s@.len() - i,
    {
        proof {
            assert(s@.skip(i as int)[0] == s@[i as int]);
            assert(s@.skip(i as int).skip(1) =~= s@.skip(i + 1));
        }
        i = i + 1;
    }
    proof {
        if i < s@.len() {
            assert(s@.skip(i as int)[0] == s@[i as int]);
        }
    }
    let ghost head = s@.skip(i as int);
    let mut j: usize = s.len();
    proof {
        assert(s@.subrange(i as int, j as int) =~= head);
    }
    while j > i && white(s[j - 1])
        invariant
            i <= j <= s@.len(),
            trimmed_end(head) == trimmed_end(s@.subrange(i as int, j as int)),
        decreases j,
    {
        proof {
            let part = s@.subrange(i as int, j as int);
            assert(part.last() == s@[j - 1]);
            assert(part.drop_last() =~= s@.subrange(i as int, j - 1));
        }
        j = j - 1;
    }
    let ghost body = s@.subrange(i as int, j as int);
    proof {
        if j > i {
            assert(body.last() == s@[j - 1]);
        }
        assert(trimmed(s@) == body);
    }
    let mut k: usize = i;
    while k < j && s[k] != c
        invariant
            i <= k <= j <= s@.len(),
            forall|m: int| i <= m < k ==> #[trigger] s@[m] != c,
        decreases j - k,
    {
        k = k + 1;
    }
    proof {
        assert forall|m: int| 0 <= m < k - i implies #[trigger] body[m] != c by {
            assert(body[m] == s@[m + i]);
        }
        lemma_before_char(body, c, k - i);
        assert(body.take(k - i) =~= s@.subrange(i as int, k as int));
    }
    String::from_str(text.substring_char(i, k))
}

/// Whether `c` is a decimal digit.
pub open spec fn is_digit(c: char) -> bool {
    '0' <= c <= '9'
}

/// The number that decimal digits give.
pub open spec fn number_of(s: Seq<char>) -> nat
    decreases s.len(),
{
    if s.len() == 0 {
        0
    } else {
        number_of(s.drop_last()) * 10 + (s.last() as nat - '0' as nat) as nat
    }
}

/// A number below 256 in decimal digits.
pub open spec fn small_number(digits: Seq<char>) -> Option<nat> {
    if digits.len() > 0 && (forall|i: int| 0 <= i < digits.len() ==> is_digit(#[trigger] digits[i]))
        && number_of(digits) <= 255 {
        Some(number_of(digits))
    } else {
        None
    }
}

/// A number below 256 in decimal digits, with a plus sign in front or without.
pub open spec fn octet_of(s: Seq<char>) -> Option<nat> {
    if s.len() > 0 && s[0] == '+' {
        small_number(s.skip(1))
    } else {
        small_number(s)
    }
}

proof fn lemma_number_grows(s: Seq<char>, i: int)
    requires
        0 <= i <= s.len(),
        forall|j: int| 0 <= j < s.len() ==> is_digit(#[trigger] s[j]),
    ensures
        number_of(s.take(i)) <= number_of(s),
    decreases s.len(),
{
    if i < s.len() {
        let rest = s.drop_last();
        assert forall|j: int| 0 <= j < rest.len() implies is_digit(#[trigger] rest[j]) by {
            assert(rest[j] == s[j]);
        }
        assert(rest.take(i) =~= s.take(i));
        lemma_number_grows(rest, i);
        assert(is_digit(s[s.len() - 1]));
    } else {
        assert(s.take(i) =~= s);
    }
}

/// Reads a number below 256.
pub(crate) fn octet_value(s: &[char]) -> (r: Option<u8>)
    ensures
        r is Some <==> octet_of(s@) is Some,
        r matches Some(n) ==> octet_of(s@) == Some(n as nat),
{
    let start: usize = if s.len() > 0 && s[0] == '+' {
        1
    } else {
        0
    };
    let ghost digits = s@.skip(start as int);
    proof {
        assert(start == 0 ==> digits =~= s@);
    }
    if start == s.len() {
        return None;
    }
    let mut value: u16 = 0;
    let mut i: usize = start;
    proof {
        assert(digits.take(0) =~= Seq::<char>::empty());
    }
    while i < s.len()
        invariant
            start <= i <= s@.len(),
            digits == s@.skip(start as int),
            octet_of(s@) == small_number(digits),
            value <= 255,
            value == number_of(digits.take(i - start)),
            forall|j: int| 0 <= j < i - start ==> is_digit(#[trigger] digits[j]),
        decreases s@.len() - i,
    {
        let c = s[i];
        assert(digits[i - start] == c);
        if c < '0' || c > '9' {
            return None;
        }
        let ghost before = digits.take(i - start);
        let ghost upto = digits.take(i - start + 1);
        proof {
            assert(upto.drop_last() =~= before);
            assert(upto.last() == c);
        }
        value = value * 10 + (c as u16 - '0' as u16);
        if value > 255 {
            proof {
                if forall|j: int| 0 <= j < digits.len() ==> is_digit(#[trigger] digits[j]) {
                    lemma_number_grows(digits, i - start + 1);
                }
            }
            return None;
        }
        i = i + 1;
    }
    proof {
        assert(digits.take(i - start) =~= digits);
    }
    Some(value as u8)
}

/// A cut text is the longest start of the text that has at most `limit` bytes.
pub proof fn lemma_cut_keeps_the_longest_start(text: Seq<char>, limit: nat)
    ensures
        ({
            let n = cut_to(text, limit).len() as int;
            &&& n <= text.len()
            &&& cut_to(text, limit) == text.take(n)
            &&& byte_len(text) <= limit ==> n == text.len()
            &&& n < text.len() ==> byte_len(text.take(n + 1)) > limit
        }),
    decreases text.len(),
{
    if text.len() > 0 && byte_len(text) > limit {
        let head = text.drop_last();
        lemma_cut_keeps_the_longest_start(head, limit);
        let n = cut_to(head, limit).len() as int;
        assert(head.take(n) =~= text.take(n));
        if n < head.len() {
            assert(head.take(n + 1) =~= text.take(n + 1));
        } else {
            assert(text.take(n + 1) =~= text);
        }
    } else {
        assert(text.take(text.len() as int) =~= text);
    }
}

/// The first place where two texts differ decides which comes first, and a text
/// comes before every longer one that it starts.
pub proof fn lemma_first_difference_decides(a: Seq<char>, b: Seq<char>, k: int)
    requires
        0 <= k <= a.len(),
        k <= b.len(),
        forall|i: int| 0 <= i < k ==> #[trigger] a[i] == b[i],
    ensures
        k < a.len() && k < b.len() && a[k] != b[k] ==> (text_before(a, b) <==> a[k] < b[k]),
        k == a.len() ==> (text_before(a, b) <==> a.len() < b.len()),
        k == b.len() ==> !text_before(a, b),
    decreases k,
{
    if k > 0 {
        let x = a.skip(1);
        let y = b.skip(1);
        assert(a[0] == b[0]);
        assert forall|i: int| 0 <= i < k - 1 implies #[trigger] x[i] == y[i] by {
            assert(a[i + 1] == b[i + 1]);
        }
        lemma_first_difference_decides(x, y, k - 1);
    }
}

/// The decimal digits of a number read as that number, and the first of several
/// is not zero.
pub proof fn lemma_decimal_reads_back(n: nat)
    ensures
        number_of(decimal(n)) == n,
        decimal(n).len() > 0,
        forall|i: int| 0 <= i < decimal(n).len() ==> is_digit(#[trigger] decimal(n)[i]),
        decimal(n).len() > 1 ==> decimal(n)[0] != '0',
        n > 0 ==> decimal(n)[0] != '0',
    decreases n,
{
    if n < 10 {
        let one = seq![digit_char(n)];
        assert(one.drop_last() =~= Seq::<char>::empty());
        assert(number_of(one.drop_last()) == 0);
    } else {
        lemma_decimal_reads_back(n / 10);
        let head = decimal(n / 10);
        assert(decimal(n).drop_last() =~= head);
        assert(decimal(n)[0] == head[0]);
    }
}

/// A negative number is written as a minus sign and its size.
pub proof fn lemma_signs_stand_in_front(n: int)
    ensures
        n >= 0 ==> signed_decimal(n) == decimal(n as nat),
        n < 0 ==> signed_decimal(n)[0] == '-' && signed_decimal(n).skip(1) == decimal((-n) as nat),
{
    reveal_strlit("-");
    if n < 0 {
        assert(signed_decimal(n).skip(1) =~= decimal((-n) as nat));
    }
}

/// Trimming the start takes off exactly the white space that a text starts with.
pub proof fn lemma_trimmed_start_is_the_rest(s: Seq<char>, k: int)
    requires
        0 <= k <= s.len(),
        forall|i: int| 0 <= i < k ==> is_white(#[trigger] s[i]),
        k < s.len() ==> !is_white(s[k]),
    ensures
        trimmed_start(s) == s.skip(k),
    decreases k,
{
    if k > 0 {
        let rest = s.skip(1);
        assert(is_white(s[0]));
        assert forall|i: int| 0 <= i < k - 1 implies is_white(#[trigger] rest[i]) by {
            assert(is_white(s[i + 1]));
        }
        lemma_trimmed_start_is_the_rest(rest, k - 1);
        assert(rest.skip(k - 1) =~= s.skip(k));
    } else {
        assert(s.skip(0) =~= s);
    }
}

/// Trimming the end takes off exactly the white space that a text ends with.
pub proof fn lemma_trimmed_end_is_the_start(s: Seq<char>, k: int)
    requires
        0 <= k <= s.len(),
        forall|i: int| k <= i < s.len() ==> is_white(#[trigger] s[i]),
        k > 0 ==> !is_white(s[k - 1]),
    ensures
        trimmed_end(s) == s.take(k),
    decreases s.len(),
{
    if k < s.len() {
        let rest = s.drop_last();
        assert(is_white(s[s.len() - 1]));
        assert forall|i: int| k <= i < rest.len() implies is_white(#[trigger] rest[i]) by {
            assert(is_white(s[i]));
        }
        lemma_trimmed_end_is_the_start(rest, k);
        assert(rest.take(k) =~= s.take(k));
    } else {
        assert(s.take(k) =~= s);
    }
}

/// A trimmed text neither starts nor ends with white space.
pub proof fn lemma_trimmed_ends_are_plain(s: Seq<char>)
    ensures
        trimmed(s).len() > 0 ==> !is_white(trimmed(s)[0]) && !is_white(trimmed(s).last()),
        s.len() > 0 && !is_white(s[0]) && !is_white(s.last()) ==> trimmed(s) == s,
{
    lemma_start_is_plain(s);
    let t = trimmed_start(s);
    lemma_end_is_plain(t);
}

proof fn lemma_start_is_plain(s: Seq<char>)
    ensures
        trimmed_start(s).len() > 0 ==> !is_white(trimmed_start(s)[0]),
    decreases s.len(),
{
    if s.len() > 0 && is_white(s[0]) {
        lemma_start_is_plain(s.skip(1));
    }
}

proof fn lemma_end_is_plain(s: Seq<char>)
    ensures
        trimmed_end(s).len() > 0 ==> !is_white(trimmed_end(s).last()) && trimmed_end(s)[0] == s[0],
    decreases s.len(),
{
    if s.len() > 0 && is_white(s.last()) {
        lemma_end_is_plain(s.drop_last());
    }
}

/// Digits read with the first one highest, and at most one plus sign may stand in
/// front of them.
pub proof fn lemma_digits_read_in_order(s: Seq<char>, last: char)
    ensures
        number_of(Seq::<char>::empty()) == 0,
        is_digit(last) ==> number_of(s.push(last)) == 10 * number_of(s) + (last as int - '0' as int),
        s.len() > 0 && s[0] == '+' ==> octet_of(s) == small_number(s.skip(1)),
        s.len() > 0 && s[0] != '+' ==> octet_of(s) == small_number(s),
        octet_of(Seq::<char>::empty()) is None,
{
    assert(s.push(last).drop_last() =~= s);
}

/// A number below 256 is read exactly if there are digits and nothing else.
pub proof fn lemma_small_numbers(digits: Seq<char>)
    ensures
        small_number(digits) is Some <==> digits.len() > 0 && (forall|i: int|
            0 <= i < digits.len() ==> '0' <= #[trigger] digits[i] <= '9') && number_of(digits)
            < 256,
        small_number(digits) matches Some(n) ==> n == number_of(digits),
{
    if forall|i: int| 0 <= i < digits.len() ==> '0' <= #[trigger] digits[i] <= '9' {
        assert forall|i: int| 0 <= i < digits.len() implies is_digit(#[trigger] digits[i]) by {}
    } else {
        let i = choose|i: int| 0 <= i < digits.len() && !('0' <= #[trigger] digits[i] <= '9');
        assert(!is_digit(digits[i]));
    }
}

/// Only the letters from `A` to `Z` have another form in lower case, thirty-two
/// places on.
pub proof fn lemma_ascii_letters_lower(c: char)
    ensures
        'A' <= c <= 'Z' ==> ascii_lowered(c) as u32 == c as u32 + 32,
        !('A' <= c <= 'Z') ==> ascii_lowered(c) == c,
{
}

} // verus!
