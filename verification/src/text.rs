//! Text: the few string operations that the rest of the crate is built on,
//! each stated over sequences of characters.
use vstd::prelude::*;
use vstd::string::*;
use vstd::utf8::encode_utf8;

verus! {

/// `String::push` of the standard library appends one character.
pub assume_specification[ String::push ](s: &mut String, ch: char)
    ensures
        final(s)@ == old(s)@.push(ch),
;

/// The characters with the Unicode `White_Space` property.
pub open spec fn is_space(c: char) -> bool {
    ||| '\u{9}' <= c <= '\u{d}'
    ||| c == ' '
    ||| c == '\u{85}'
    ||| c == '\u{a0}'
    ||| c == '\u{1680}'
    ||| '\u{2000}' <= c <= '\u{200a}'
    ||| c == '\u{2028}'
    ||| c == '\u{2029}'
    ||| c == '\u{202f}'
    ||| c == '\u{205f}'
    ||| c == '\u{3000}'
}

/// Whether `c` is white space.
pub fn char_is_space(c: char) -> (r: bool)
    ensures
        r == is_space(c),
{
    ('\u{9}' <= c && c <= '\u{d}') || c == ' ' || c == '\u{85}' || c == '\u{a0}' || c == '\u{1680}'
        || ('\u{2000}' <= c && c <= '\u{200a}') || c == '\u{2028}' || c == '\u{2029}' || c
        == '\u{202f}' || c == '\u{205f}' || c == '\u{3000}'
}

/// `s` without the white space in front.
pub open spec fn trim_front(s: Seq<char>) -> Seq<char>
    decreases s.len(),
{
    if s.len() > 0 && is_space(s[0]) {
        trim_front(s.drop_first())
    } else {
        s
    }
}

/// `s` without the white space behind.
pub open spec fn trim_back(s: Seq<char>) -> Seq<char>
    decreases s.len(),
{
    if s.len() > 0 && is_space(s.last()) {
        trim_back(s.drop_last())
    } else {
        s
    }
}

/// `s` without the white space around it.
pub open spec fn trimmed(s: Seq<char>) -> Seq<char> {
    trim_back(trim_front(s))
}

/// The pieces of `s` between occurrences of `sep`: one more than there are
/// occurrences, so a string without any is one piece.
pub open spec fn pieces(s: Seq<char>, sep: char) -> Seq<Seq<char>>
    decreases s.len(),
{
    if s.len() == 0 {
        seq![Seq::<char>::empty()]
    } else {
        let before = pieces(s.drop_last(), sep);
        if s.last() == sep {
            before.push(Seq::empty())
        } else {
            before.drop_last().push(before.last().push(s.last()))
        }
    }
}

/// The names in a comma-separated list: empty pieces are skipped, the white
/// space around each of the others is dropped.
pub open spec fn listed_names(s: Seq<char>) -> Seq<Seq<char>> {
    kept_names(pieces(s, ','))
}

/// The pieces that are not empty, each without the white space around it.
pub open spec fn kept_names(parts: Seq<Seq<char>>) -> Seq<Seq<char>> {
    parts.filter(|p: Seq<char>| p.len() > 0).map_values(|p: Seq<char>| trimmed(p))
}

/// The texts of a vector of strings.
pub open spec fn texts(v: Seq<String>) -> Seq<Seq<char>> {
    v.map_values(|s: String| s@)
}

/// The character of a decimal digit.
pub open spec fn digit_char(d: nat) -> char {
    ('0' as u32 + d) as char
}

/// The decimal notation of `n`, without leading zeros.
pub open spec fn decimal(n: nat) -> Seq<char>
    decreases n,
{
    if n < 10 {
        seq![digit_char(n)]
    } else {
        decimal(n / 10).push(digit_char(n % 10))
    }
}

/// `n` spaces.
pub open spec fn spaces(n: nat) -> Seq<char> {
    Seq::new(n, |i: int| ' ')
}

/// `s` with spaces in front of it up to a width of `width`.
pub open spec fn right_aligned(s: Seq<char>, width: nat) -> Seq<char> {
    if s.len() < width {
        spaces((width - s.len()) as nat) + s
    } else {
        s
    }
}

/// Whether `c` is an ASCII digit.
pub open spec fn is_digit(c: char) -> bool {
    '0' <= c <= '9'
}

/// The number that a string of digits denotes.
pub open spec fn digits_value(s: Seq<char>) -> nat
    decreases s.len(),
{
    if s.len() == 0 {
        0
    } else {
        digits_value(s.drop_last()) * 10 + (s.last() as nat - '0' as nat) as nat
    }
}

/// The digits of an unsigned number, which may have one `+` in front.
pub open spec fn unsigned_digits(s: Seq<char>) -> Seq<char> {
    if s.len() > 0 && s[0] == '+' {
        s.drop_first()
    } else {
        s
    }
}

/// The unsigned 64-bit number that `s` is the notation of: one or more digits,
/// with an optional `+` in front, whose value fits.
pub open spec fn parsed_u64(s: Seq<char>) -> Option<u64> {
    let digits = unsigned_digits(s);
    if digits.len() > 0 && (forall|i: int| 0 <= i < digits.len() ==> is_digit(#[trigger] digits[i]))
        && digits_value(digits) <= u64::MAX {
        Some(digits_value(digits) as u64)
    } else {
        None
    }
}

/// Strict lexicographic order of byte strings.
pub open spec fn bytes_less(a: Seq<u8>, b: Seq<u8>) -> bool
    decreases a.len(),
{
    if b.len() == 0 {
        false
    } else if a.len() == 0 {
        true
    } else if a[0] != b[0] {
        a[0] < b[0]
    } else {
        bytes_less(a.drop_first(), b.drop_first())
    }
}

/// The order of text: that of its UTF-8 bytes.
pub open spec fn text_less(a: Seq<char>, b: Seq<char>) -> bool {
    bytes_less(encode_utf8(a), encode_utf8(b))
}

/// The characters of `s`.
pub fn chars_of(s: &str) -> (r: Vec<char>)
    ensures
        r@ == s@,
{
    let mut v: Vec<char> = Vec::new();
    for c in it: s.chars()
        invariant
            it.seq() == s@,
            v@ == it.seq().take(it.index() as int),
    {
        v.push(c);
        assert(it.seq().take(it.index() as int).push(c) =~= it.seq().take(it.index() + 1));
    }
    assert(v@ =~= s@);
    v
}

/// The text of the characters `v[from..to]`.
pub fn string_of(v: &Vec<char>, from: usize, to: usize) -> (r: String)
    requires
        from <= to <= v@.len(),
    ensures
        r@ == v@.subrange(from as int, to as int),
{
    let mut s: String = String::new();
    let mut i: usize = from;
    assert(s@ =~= v@.subrange(from as int, i as int));
    while i < to
        invariant
            from <= i <= to <= v@.len(),
            s@ == v@.subrange(from as int, i as int),
        decreases to - i,
    {
        s.push(v[i]);
        assert(v@.subrange(from as int, i as int).push(v@[i as int]) =~= v@.subrange(
            from as int,
            i + 1,
        ));
        i += 1;
    }
    s
}

/// Whether `a` and `b` are the same text.
pub fn str_eq(a: &str, b: &str) -> (r: bool)
    ensures
        r == (a@ == b@),
{
    let x: &[u8] = a.as_bytes();
    let y: &[u8] = b.as_bytes();
    proof {
        vstd::utf8::encode_utf8_decode_utf8(a@);
        vstd::utf8::encode_utf8_decode_utf8(b@);
    }
    if x.len() != y.len() {
        return false;
    }
    let mut i: usize = 0;
    while i < x.len()
        invariant
            i <= x@.len(),
            x@.len() == y@.len(),
            forall|j: int| 0 <= j < i ==> x@[j] == y@[j],
            x@ == encode_utf8(a@),
            y@ == encode_utf8(b@),
        decreases x@.len() - i,
    {
        if x[i] != y[i] {
            return false;
        }
        i += 1;
    }
    assert(x@ =~= y@);
    true
}

/// Two byte strings that agree up to `i` compare as what follows does.
proof fn lemma_bytes_less_skip(a: Seq<u8>, b: Seq<u8>, i: int)
    requires
        0 <= i <= a.len(),
        i <= b.len(),
        forall|j: int| 0 <= j < i ==> a[j] == b[j],
    ensures
        bytes_less(a, b) == bytes_less(a.skip(i), b.skip(i)),
    decreases i,
{
    if i == 0 {
        assert(a.skip(0) =~= a);
        assert(b.skip(0) =~= b);
    } else {
        lemma_bytes_less_skip(a.drop_first(), b.drop_first(), i - 1);
        assert(a.drop_first().skip(i - 1) =~= a.skip(i));
        assert(b.drop_first().skip(i - 1) =~= b.skip(i));
    }
}

/// Whether `a` comes before `b` in the order of text.
pub fn str_less(a: &str, b: &str) -> (r: bool)
    ensures
        r == text_less(a@, b@),
{
    let x: &[u8] = a.as_bytes();
    let y: &[u8] = b.as_bytes();
    let mut i: usize = 0;
    while i < x.len() && i < y.len()
        invariant
            i <= x@.len(),
            i <= y@.len(),
            forall|j: int| 0 <= j < i ==> x@[j] == y@[j],
            x@ == encode_utf8(a@),
            y@ == encode_utf8(b@),
        decreases x@.len() - i,
    {
        if x[i] != y[i] {
            proof {
                lemma_bytes_less_skip(x@, y@, i as int);
            }
            return x[i] < y[i];
        }
        i += 1;
    }
    proof {
        lemma_bytes_less_skip(x@, y@, i as int);
    }
    i < y.len()
}

/// The order of byte strings is a strict total order.
pub proof fn lemma_bytes_less_total(a: Seq<u8>, b: Seq<u8>)
    ensures
        !bytes_less(a, a),
        a != b ==> (bytes_less(a, b) <==> !bytes_less(b, a)),
        bytes_less(a, b) ==> !bytes_less(b, a),
    decreases a.len(),
{
    if a.len() > 0 {
        lemma_bytes_less_total(a.drop_first(), a.drop_first());
        if b.len() > 0 {
            lemma_bytes_less_total(a.drop_first(), b.drop_first());
            if a[0] == b[0] && a.drop_first() == b.drop_first() {
                assert(a =~= seq![a[0]] + a.drop_first());
                assert(b =~= seq![b[0]] + b.drop_first());
            }
        }
    } else if b.len() == 0 {
        assert(a =~= b);
    }
}

/// The order of byte strings is transitive.
pub proof fn lemma_bytes_less_transitive(a: Seq<u8>, b: Seq<u8>, c: Seq<u8>)
    requires
        bytes_less(a, b),
        bytes_less(b, c),
    ensures
        bytes_less(a, c),
    decreases a.len(),
{
    if a.len() > 0 && a[0] == b[0] && b[0] == c[0] {
        lemma_bytes_less_transitive(a.drop_first(), b.drop_first(), c.drop_first());
    }
}

/// The order of text is a strict total order.
pub proof fn lemma_text_less_total(a: Seq<char>, b: Seq<char>)
    ensures
        !text_less(a, a),
        a != b ==> (text_less(a, b) <==> !text_less(b, a)),
        text_less(a, b) ==> !text_less(b, a),
{
    vstd::utf8::encode_utf8_decode_utf8(a);
    vstd::utf8::encode_utf8_decode_utf8(b);
    lemma_bytes_less_total(encode_utf8(a), encode_utf8(b));
}

/// Where the text of `v[from..to]` begins and ends without the white space
/// around it.
pub fn trim_bounds(v: &Vec<char>, from: usize, to: usize) -> (r: (usize, usize))
    requires
        from <= to <= v@.len(),
    ensures
        from <= r.0 <= r.1 <= to,
        v@.subrange(r.0 as int, r.1 as int) == trimmed(v@.subrange(from as int, to as int)),
{
    let ghost whole = v@.subrange(from as int, to as int);
    let mut lo: usize = from;
    while lo < to && char_is_space(v[lo])
        invariant
            from <= lo <= to <= v@.len(),
            whole == v@.subrange(from as int, to as int),
            trim_front(whole) == trim_front(v@.subrange(lo as int, to as int)),
        decreases to - lo,
    {
        assert(v@.subrange(lo as int, to as int).drop_first() =~= v@.subrange(lo + 1, to as int));
        lo += 1;
    }
    let ghost front = v@.subrange(lo as int, to as int);
    assert(trim_front(whole) == front);
    let mut hi: usize = to;
    while lo < hi && char_is_space(v[hi - 1])
        invariant
            from <= lo <= hi <= to <= v@.len(),
            front == v@.subrange(lo as int, to as int),
            trim_back(front) == trim_back(v@.subrange(lo as int, hi as int)),
        decreases hi - lo,
    {
        assert(v@.subrange(lo as int, hi as int).drop_last() =~= v@.subrange(lo as int, hi - 1));
        hi -= 1;
    }
    (lo, hi)
}

/// One more piece adds its name, if it has one.
proof fn lemma_kept_names_push(parts: Seq<Seq<char>>, p: Seq<char>)
    ensures
        kept_names(parts.push(p)) == if p.len() > 0 {
            kept_names(parts).push(trimmed(p))
        } else {
            kept_names(parts)
        },
{
    reveal(Seq::filter);
    assert(parts.push(p).drop_last() =~= parts);
    assert(kept_names(parts.push(p)) =~= if p.len() > 0 {
        kept_names(parts).push(trimmed(p))
    } else {
        kept_names(parts)
    });
}

/// Adds the name in `v[from..to]`, if there is one.
fn push_name(names: &mut Vec<String>, v: &Vec<char>, from: usize, to: usize, parts: Ghost<
    Seq<Seq<char>>,
>)
    requires
        from <= to <= v@.len(),
        texts(old(names)@) == kept_names(parts@),
    ensures
        texts(final(names)@) == kept_names(
            parts@.push(v@.subrange(from as int, to as int)),
        ),
{
    proof {
        lemma_kept_names_push(parts@, v@.subrange(from as int, to as int));
    }
    if from < to {
        let (lo, hi) = trim_bounds(v, from, to);
        let ghost before = names@;
        names.push(string_of(v, lo, hi));
        assert(texts(names@) =~= texts(before).push(
            trimmed(v@.subrange(from as int, to as int)),
        ));
    }
}

/// The names in the comma-separated list `s`.
pub fn split_names(s: &str) -> (r: Vec<String>)
    ensures
        texts(r@) == listed_names(s@),
{
    let v: Vec<char> = chars_of(s);
    let mut names: Vec<String> = Vec::new();
    let mut start: usize = 0;
    let mut i: usize = 0;
    proof {
        reveal(Seq::filter);
        assert(v@.take(0) =~= Seq::<char>::empty());
        assert(pieces(v@.take(0), ',').drop_last() =~= Seq::<Seq<char>>::empty());
        assert(texts(names@) =~= kept_names(Seq::empty()));
        assert(v@.subrange(0, 0) =~= Seq::<char>::empty());
    }
    while i < v.len()
        invariant
            start <= i <= v@.len(),
            v@ == s@,
            pieces(v@.take(i as int), ',').len() > 0,
            pieces(v@.take(i as int), ',').last() == v@.subrange(start as int, i as int),
            texts(names@) == kept_names(pieces(v@.take(i as int), ',').drop_last()),
        decreases v@.len() - i,
    {
        let ghost parts = pieces(v@.take(i as int), ',');
        assert(v@.take(i + 1).drop_last() =~= v@.take(i as int));
        if v[i] == ',' {
            push_name(&mut names, &v, start, i, Ghost(parts.drop_last()));
            assert(parts.drop_last().push(parts.last()) =~= parts);
            assert(pieces(v@.take(i + 1), ',').drop_last() =~= parts);
            start = i + 1;
            assert(v@.subrange(start as int, i + 1) =~= Seq::<char>::empty());
        } else {
            assert(pieces(v@.take(i + 1), ',').drop_last() =~= parts.drop_last());
            assert(v@.subrange(start as int, i as int).push(v@[i as int]) =~= v@.subrange(
                start as int,
                i + 1,
            ));
        }
        i += 1;
    }
    proof {
        assert(v@.take(v@.len() as int) =~= v@);
        let parts = pieces(v@, ',');
        assert(parts.drop_last().push(parts.last()) =~= parts);
    }
    let len: usize = v.len();
    push_name(&mut names, &v, start, len, Ghost(pieces(v@, ',').drop_last()));
    names
}

/// Whether `name` is among `names`.
pub fn contains_name(names: &Vec<String>, name: &str) -> (r: bool)
    ensures
        r == texts(names@).contains(name@),
{
    let mut i: usize = 0;
    while i < names.len()
        invariant
            i <= names@.len(),
            forall|j: int| 0 <= j < i ==> texts(names@)[j] != name@,
        decreases names@.len() - i,
    {
        if str_eq(names[i].as_str(), name) {
            assert(texts(names@)[i as int] == name@);
            return true;
        }
        i += 1;
    }
    false
}

/// The value of digits grows with each digit added.
proof fn lemma_digits_value_grows(s: Seq<char>, i: int)
    requires
        0 <= i <= s.len(),
    ensures
        digits_value(s.take(i)) <= digits_value(s),
    decreases s.len() - i,
{
    if i < s.len() {
        lemma_digits_value_grows(s, i + 1);
        assert(s.take(i + 1).drop_last() =~= s.take(i));
    } else {
        assert(s.take(i) =~= s);
    }
}

/// The unsigned number that `v[from..to]` is the notation of, if it is one.
pub fn parse_u64(v: &Vec<char>, from: usize, to: usize) -> (r: Option<u64>)
    requires
        from <= to <= v@.len(),
    ensures
        r == parsed_u64(v@.subrange(from as int, to as int)),
{
    let ghost whole = v@.subrange(from as int, to as int);
    let start: usize = if from < to && v[from] == '+' {
        from + 1
    } else {
        from
    };
    let ghost digits = v@.subrange(start as int, to as int);
    assert(digits =~= unsigned_digits(whole));
    if start == to {
        return None;
    }
    let mut n: u64 = 0;
    let mut i: usize = start;
    assert(digits.take(0) =~= Seq::<char>::empty());
    while i < to
        invariant
            start <= i <= to <= v@.len(),
            whole == v@.subrange(from as int, to as int),
            digits == v@.subrange(start as int, to as int),
            digits == unsigned_digits(whole),
            digits.len() > 0,
            n == digits_value(digits.take(i - start)),
            forall|j: int| 0 <= j < i - start ==> is_digit(#[trigger] digits[j]),
        decreases to - i,
    {
        let c: char = v[i];
        assert(c == digits[i - start]);
        assert(digits.take(i - start + 1).drop_last() =~= digits.take(i - start));
        if !('0' <= c && c <= '9') {
            return None;
        }
        let d: u64 = (c as u32 - '0' as u32) as u64;
        proof {
            lemma_digits_value_grows(digits, i - start + 1);
        }
        match n.checked_mul(10) {
            None => {
                return None;
            },
            Some(m) => match m.checked_add(d) {
                None => {
                    return None;
                },
                Some(next) => {
                    n = next;
                },
            },
        }
        i += 1;
    }
    assert(digits.take(digits.len() as int) =~= digits);
    Some(n)
}

/// The decimal notation of `n`.
pub fn decimal_string(n: u64) -> (r: String)
    ensures
        r@ == decimal(n as nat),
{
    let mut rev: Vec<char> = Vec::new();
    let mut rest: u64 = n;
    while rest >= 10
        invariant
            decimal(n as nat) =~= decimal(rest as nat) + rev@.reverse(),
        decreases rest,
    {
        let d: u8 = (rest % 10) as u8;
        let c: char = (48u8 + d) as char;
        let ghost before = rev@;
        rev.push(c);
        assert(c == digit_char(rest as nat % 10));
        assert(rev@.reverse() =~= seq![c] + before.reverse());
        rest = rest / 10;
    }
    let d: u8 = rest as u8;
    let c: char = (48u8 + d) as char;
    let ghost before = rev@;
    rev.push(c);
    assert(c == digit_char(rest as nat));
    assert(rev@.reverse() =~= seq![c] + before.reverse());
    assert(decimal(n as nat) =~= rev@.reverse());
    let mut out: String = String::new();
    let mut i: usize = rev.len();
    assert(out@ =~= rev@.reverse().take(0));
    while i > 0
        invariant
            i <= rev@.len(),
            out@ == rev@.reverse().take(rev@.len() - i),
        decreases i,
    {
        i -= 1;
        out.push(rev[i]);
        assert(rev@.reverse().take(rev@.len() - i - 1).push(rev@[i as int]) =~= rev@.reverse().take(
            rev@.len() - i,
        ));
    }
    assert(rev@.reverse().take(rev@.len() as int) =~= rev@.reverse());
    out
}

/// Appends `text` to `out`, with spaces in front of it up to a width of `width`.
pub fn append_right_aligned(out: &mut String, text: &str, width: usize)
    ensures
        final(out)@ == old(out)@ + right_aligned(text@, width as nat),
{
    let len: usize = text.unicode_len();
    if len < width {
        let mut k: usize = 0;
        assert(out@ =~= old(out)@ + spaces(0));
        while k < width - len
            invariant
                len < width,
                k <= width - len,
                out@ == old(out)@ + spaces(k as nat),
            decreases width - len - k,
        {
            out.push(' ');
            k += 1;
            assert((old(out)@ + spaces((k - 1) as nat)).push(' ') =~= old(out)@ + spaces(k as nat));
        }
        let ghost padded = out@;
        out.append(text);
        assert(out@ =~= old(out)@ + (spaces((width - len) as nat) + text@));
    } else {
        out.append(text);
    }
}

/// Appends the decimal notation of `n` to `out`.
pub fn append_decimal(out: &mut String, n: u64)
    ensures
        final(out)@ == old(out)@ + decimal(n as nat),
{
    let text: String = decimal_string(n);
    out.append(text.as_str());
}

/// Whether a text is white space throughout.
pub open spec fn all_space(s: Seq<char>) -> bool {
    forall|i: int| #![trigger s[i]] 0 <= i < s.len() ==> is_space(s[i])
}

/// Whether a text neither begins nor ends with white space.
pub open spec fn is_trimmed(s: Seq<char>) -> bool {
    s.len() > 0 ==> !is_space(s[0]) && !is_space(s.last())
}

/// White space in front is dropped.
proof fn lemma_trim_front(w: Seq<char>, s: Seq<char>)
    requires
        all_space(w),
    ensures
        trim_front(w + s) == trim_front(s),
    decreases w.len(),
{
    if w.len() == 0 {
        assert(w + s =~= s);
    } else {
        let rest = w.drop_first();
        assert(all_space(rest)) by {
            assert forall|i: int| #![trigger rest[i]] 0 <= i < rest.len() implies is_space(
                rest[i],
            ) by {
                assert(rest[i] == w[i + 1]);
            }
        }
        lemma_trim_front(rest, s);
        assert((w + s).drop_first() =~= rest + s);
        assert((w + s)[0] == w[0]);
    }
}

/// White space behind is dropped.
proof fn lemma_trim_back(s: Seq<char>, w: Seq<char>)
    requires
        all_space(w),
    ensures
        trim_back(s + w) == trim_back(s),
    decreases w.len(),
{
    if w.len() == 0 {
        assert(s + w =~= s);
    } else {
        let rest = w.drop_last();
        assert(all_space(rest)) by {
            assert forall|i: int| #![trigger rest[i]] 0 <= i < rest.len() implies is_space(
                rest[i],
            ) by {
                assert(rest[i] == w[i]);
            }
        }
        lemma_trim_back(s, rest);
        assert((s + w).drop_last() =~= s + rest);
        assert((s + w).last() == w[w.len() - 1]);
    }
}

/// What is left without the white space around it is what stood between.
pub proof fn lemma_trimmed(w: Seq<char>, s: Seq<char>, z: Seq<char>)
    requires
        all_space(w),
        all_space(z),
        is_trimmed(s),
        s.len() > 0,
    ensures
        trimmed(w + s + z) == s,
{
    assert(w + s + z =~= w + (s + z));
    lemma_trim_front(w, s + z);
    assert((s + z)[0] == s[0]);
    lemma_trim_back(s, z);
}

/// What is left of a text neither begins nor ends with white space, and is left again.
pub proof fn lemma_trimmed_again(s: Seq<char>)
    ensures
        is_trimmed(trimmed(s)),
        trimmed(trimmed(s)) == trimmed(s),
{
    let front = trim_front(s);
    lemma_front_left(s);
    lemma_back_left(front);
}

/// What is left behind the white space in front does not begin with any.
proof fn lemma_front_left(s: Seq<char>)
    ensures
        trim_front(s).len() > 0 ==> !is_space(trim_front(s)[0]),
    decreases s.len(),
{
    if s.len() > 0 && is_space(s[0]) {
        lemma_front_left(s.drop_first());
    }
}

/// What is left before the white space behind does not end with any, and begins as before.
proof fn lemma_back_left(s: Seq<char>)
    ensures
        trim_back(s).len() > 0 ==> !is_space(trim_back(s).last()) && s.len() > 0 && trim_back(s)[0]
            == s[0],
    decreases s.len(),
{
    if s.len() > 0 && is_space(s.last()) {
        lemma_back_left(s.drop_last());
    }
}

/// The character of a digit is one, and no other character.
proof fn lemma_digit_char(d: nat)
    requires
        d < 10,
    ensures
        is_digit(digit_char(d)),
        digit_char(d) as nat - '0' as nat == d,
        !is_space(digit_char(d)),
        digit_char(d) != '+',
{
}

/// The decimal notation of a number is made of digits that stand for the number.
pub proof fn lemma_decimal(n: nat)
    ensures
        decimal(n).len() > 0,
        forall|i: int|
            #![trigger decimal(n)[i]]
            0 <= i < decimal(n).len() ==> is_digit(decimal(n)[i]) && !is_space(decimal(n)[i])
                && decimal(n)[i] != '+',
        digits_value(decimal(n)) == n,
    decreases n,
{
    lemma_digit_char(n % 10);
    if n < 10 {
        lemma_digit_char(n);
        assert(decimal(n).drop_last() =~= Seq::<char>::empty());
        assert(digits_value(Seq::<char>::empty()) == 0);
    } else {
        lemma_decimal(n / 10);
        assert(decimal(n).drop_last() =~= decimal(n / 10));
    }
}

/// The decimal notation of a number is read as the number.
pub proof fn lemma_decimal_is_parsed(n: u64)
    ensures
        parsed_u64(decimal(n as nat)) == Some(n),
{
    lemma_decimal(n as nat);
    let s = decimal(n as nat);
    assert(s[0] != '+');
}

/// The small letter of an ASCII capital; another character itself.
pub open spec fn lower_char(c: char) -> char {
    if 'A' <= c <= 'Z' {
        (c as u32 + 32) as char
    } else {
        c
    }
}

/// A text with ASCII capitals made small.
pub open spec fn lowered(s: Seq<char>) -> Seq<char> {
    s.map_values(|c: char| lower_char(c))
}

/// Making capitals small leaves white space, digits and signs as they are, and makes none.
proof fn lemma_lower_char(c: char)
    ensures
        is_space(lower_char(c)) == is_space(c),
        is_digit(lower_char(c)) == is_digit(c),
        is_digit(c) ==> lower_char(c) == c,
        (lower_char(c) == '+') == (c == '+'),
{
}

/// White space is dropped alike from a text with capitals made small.
pub proof fn lemma_lowered_trimmed(s: Seq<char>)
    ensures
        trimmed(lowered(s)) == lowered(trimmed(s)),
{
    lemma_lowered_front(s);
    lemma_lowered_back(trim_front(s));
}

proof fn lemma_lowered_front(s: Seq<char>)
    ensures
        trim_front(lowered(s)) == lowered(trim_front(s)),
    decreases s.len(),
{
    if s.len() > 0 {
        lemma_lower_char(s[0]);
        lemma_lowered_front(s.drop_first());
        assert(lowered(s).drop_first() =~= lowered(s.drop_first()));
    }
}

proof fn lemma_lowered_back(s: Seq<char>)
    ensures
        trim_back(lowered(s)) == lowered(trim_back(s)),
    decreases s.len(),
{
    if s.len() > 0 {
        lemma_lower_char(s.last());
        lemma_lowered_back(s.drop_last());
        assert(lowered(s).drop_last() =~= lowered(s.drop_last()));
    }
}

/// A number is read alike from a text with capitals made small.
pub proof fn lemma_lowered_parsed(s: Seq<char>)
    ensures
        parsed_u64(lowered(s)) == parsed_u64(s),
{
    let (a, b) = (unsigned_digits(s), unsigned_digits(lowered(s)));
    if s.len() > 0 {
        lemma_lower_char(s[0]);
    }
    assert(b =~= lowered(a));
    assert forall|i: int| 0 <= i < a.len() implies is_digit(#[trigger] b[i]) == is_digit(a[i])
        && (is_digit(a[i]) ==> b[i] == a[i]) by {
        lemma_lower_char(a[i]);
    }
    if forall|i: int| 0 <= i < a.len() ==> is_digit(#[trigger] a[i]) {
        assert(a =~= b);
    } else {
        let i = choose|i: int| 0 <= i < a.len() && !is_digit(#[trigger] a[i]);
        assert(!is_digit(b[i]));
    }
}

/// The texts with a character between each two of them.
pub open spec fn joined_by(parts: Seq<Seq<char>>, sep: char) -> Seq<char>
    decreases parts.len(),
{
    if parts.len() == 0 {
        Seq::empty()
    } else if parts.len() == 1 {
        parts[0]
    } else {
        joined_by(parts.drop_last(), sep).push(sep) + parts.last()
    }
}

/// The pieces of a text hold no separator, and with separators between them they are the text.
pub proof fn law_pieces_make_up_the_text(s: Seq<char>, sep: char)
    ensures
        pieces(s, sep).len() > 0,
        joined_by(pieces(s, sep), sep) == s,
        forall|i: int|
            #![trigger pieces(s, sep)[i]]
            0 <= i < pieces(s, sep).len() ==> !pieces(s, sep)[i].contains(sep),
    decreases s.len(),
{
    let all = pieces(s, sep);
    if s.len() == 0 {
        assert(all =~= seq![Seq::<char>::empty()]);
        assert(joined_by(all, sep) =~= s);
    } else {
        let before = pieces(s.drop_last(), sep);
        law_pieces_make_up_the_text(s.drop_last(), sep);
        assert(s =~= s.drop_last().push(s.last()));
        if s.last() == sep {
            assert(all.drop_last() =~= before);
            assert(joined_by(all, sep) =~= s);
            assert forall|i: int| #![trigger all[i]] 0 <= i < all.len() implies !all[i].contains(
                sep,
            ) by {
                if i < before.len() {
                    assert(all[i] == before[i]);
                }
            }
        } else {
            let n = before.len() - 1;
            assert(all.drop_last() =~= before.drop_last());
            assert(all.last() == before.last().push(s.last()));
            assert(before.last() == before[n]);
            if before.len() == 1 {
                assert(joined_by(all, sep) =~= s);
            } else {
                assert(joined_by(before, sep) == joined_by(before.drop_last(), sep).push(sep)
                    + before.last());
                assert(joined_by(all, sep) =~= s);
            }
            assert forall|i: int| #![trigger all[i]] 0 <= i < all.len() implies !all[i].contains(
                sep,
            ) by {
                if i < n {
                    assert(all[i] == before[i]);
                } else {
                    if all[i].contains(sep) {
                        let j = choose|j: int| 0 <= j < all[i].len() && all[i][j] == sep;
                        assert(before[n][j] == sep);
                        assert(before[n].contains(sep));
                    }
                }
            }
        }
    }
}

/// The names of a list are its pieces that are not empty, without the white space around them: each
/// of those, and nothing else.
pub proof fn law_names_are_the_pieces(s: Seq<char>, name: Seq<char>)
    ensures
        listed_names(s).contains(name) <==> exists|i: int|
            #![trigger pieces(s, ',')[i]]
            0 <= i < pieces(s, ',').len() && pieces(s, ',')[i].len() > 0 && trimmed(
                pieces(s, ',')[i],
            ) == name,
{
    lemma_kept_names(pieces(s, ','), name);
}

proof fn lemma_kept_names(parts: Seq<Seq<char>>, name: Seq<char>)
    ensures
        kept_names(parts).contains(name) <==> exists|i: int|
            #![trigger parts[i]]
            0 <= i < parts.len() && parts[i].len() > 0 && trimmed(parts[i]) == name,
    decreases parts.len(),
{
    if parts.len() == 0 {
        reveal(Seq::filter);
    } else {
        let front = parts.drop_last();
        let p = parts.last();
        let n = parts.len() - 1;
        lemma_kept_names(front, name);
        lemma_kept_names_push(front, p);
        assert(front.push(p) =~= parts);
        let (a, b) = (kept_names(front), kept_names(parts));
        if b.contains(name) {
            let j = choose|j: int| 0 <= j < b.len() && b[j] == name;
            if j < a.len() {
                assert(a[j] == name);
                let i = choose|i: int|
                    #![trigger front[i]]
                    0 <= i < front.len() && front[i].len() > 0 && trimmed(front[i]) == name;
                assert(parts[i] == front[i]);
            } else {
                assert(parts[n] == p);
            }
        }
        if exists|i: int|
            #![trigger parts[i]]
            0 <= i < parts.len() && parts[i].len() > 0 && trimmed(parts[i]) == name {
            let i = choose|i: int|
                #![trigger parts[i]]
                0 <= i < parts.len() && parts[i].len() > 0 && trimmed(parts[i]) == name;
            if i < n {
                assert(front[i] == parts[i]);
                let j = choose|j: int| 0 <= j < a.len() && a[j] == name;
                assert(b[j] == name);
            } else {
                assert(b[a.len() as int] == name);
            }
        }
    }
}

/// A text that is right-aligned ends with the text, has only spaces before it, and is as wide as
/// asked for unless the text is wider.
pub proof fn law_right_aligned_texts_end_with_the_text(s: Seq<char>, width: nat, i: int)
    ensures
        ({
            let r = right_aligned(s, width);
            &&& r.len() == (if s.len() < width {
                width
            } else {
                s.len()
            })
            &&& r.skip(r.len() - s.len()) == s
            &&& 0 <= i < r.len() - s.len() ==> r[i] == ' '
        }),
{
    let r = right_aligned(s, width);
    assert(r.skip(r.len() - s.len()) =~= s);
}

/// The decimal notation of a number tells which it is, and begins with no zero unless that is all.
pub proof fn law_decimals_tell_numbers_apart(a: nat, b: nat)
    ensures
        decimal(a) == decimal(b) ==> a == b,
        decimal(a).len() > 1 ==> decimal(a)[0] != '0',
    decreases a,
{
    lemma_decimal(a);
    lemma_decimal(b);
    if a >= 10 {
        law_decimals_tell_numbers_apart(a / 10, b);
        lemma_decimal(a / 10);
        assert(decimal(a)[0] == decimal(a / 10)[0]);
        if a / 10 < 10 {
            lemma_digit_char(a / 10);
            assert(decimal(a / 10) == seq![digit_char(a / 10)]);
        } else {
            lemma_decimal(a / 10 / 10);
            assert(decimal(a / 10).len() > 1);
        }
    }
}

/// A text is read as a number just where it is digits, with a sign in front or none, and stands for
/// one that fits.
pub proof fn law_only_digits_are_numbers(s: Seq<char>, digits: Seq<char>)
    requires
        s == digits || s == seq!['+'] + digits,
        digits.len() > 0,
        digits[0] != '+',
    ensures
        parsed_u64(s) is Some <==> (forall|i: int|
            #![trigger digits[i]]
            0 <= i < digits.len() ==> '0' <= digits[i] <= '9') && digits_value(digits) <= u64::MAX,
        parsed_u64(s) matches Some(n) ==> n == digits_value(digits),
        parsed_u64(Seq::empty()) is None,
        parsed_u64(seq!['+']) is None,
{
    if s == seq!['+'] + digits {
        assert(s.drop_first() =~= digits);
        assert(s[0] == '+');
    }
    assert(unsigned_digits(s) == digits);
    assert(seq!['+'].drop_first() =~= Seq::empty());
}

/// Texts are in the order of their bytes: where they first differ the smaller byte comes first, and
/// a text comes before all that it is the beginning of.
pub proof fn law_texts_are_in_the_order_of_their_bytes(a: Seq<char>, b: Seq<char>, n: int)
    requires
        0 <= n <= encode_utf8(a).len(),
        n < encode_utf8(b).len(),
        forall|i: int|
            #![trigger encode_utf8(a)[i]]
            0 <= i < n ==> encode_utf8(a)[i] == encode_utf8(b)[i],
        n < encode_utf8(a).len() ==> encode_utf8(a)[n] < encode_utf8(b)[n],
    ensures
        text_less(a, b),
        !text_less(b, a),
{
    lemma_bytes_in_order(encode_utf8(a), encode_utf8(b), n);
}

proof fn lemma_bytes_in_order(a: Seq<u8>, b: Seq<u8>, n: int)
    requires
        0 <= n <= a.len(),
        n < b.len(),
        forall|i: int| #![trigger a[i]] 0 <= i < n ==> a[i] == b[i],
        n < a.len() ==> a[n] < b[n],
    ensures
        bytes_less(a, b),
        !bytes_less(b, a),
    decreases n,
{
    if n > 0 {
        let (c, d) = (a.drop_first(), b.drop_first());
        assert(a[0] == b[0]);
        assert forall|i: int| #![trigger c[i]] 0 <= i < n - 1 implies c[i] == d[i] by {
            assert(a[i + 1] == b[i + 1]);
        }
        if n < a.len() {
            assert(c[n - 1] == a[n] && d[n - 1] == b[n]);
        }
        lemma_bytes_in_order(c, d, n - 1);
    }
}

} // verus!
