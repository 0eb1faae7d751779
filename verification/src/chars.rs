//! Character-level helpers shared by the numeral codec and the command
//! parser: digit values, ASCII lower-casing, whitespace trimming, underscore
//! removal, and conversions between `&str`, `Vec<char>` and `String`.

use vstd::prelude::*;
use vstd::string::StrSliceExecFns;

verus! {

/// Numeric value of a digit character, for any radix up to 16.
/// A character that is a digit in no supported radix is mapped to 16.
pub open spec fn digit_val(c: char) -> nat {
    match c {
        '0' => 0,
        '1' => 1,
        '2' => 2,
        '3' => 3,
        '4' => 4,
        '5' => 5,
        '6' => 6,
        '7' => 7,
        '8' => 8,
        '9' => 9,
        'a' => 10,
        'b' => 11,
        'c' => 12,
        'd' => 13,
        'e' => 14,
        'f' => 15,
        _ => 16,
    }
}

/// `c` is a valid digit for the given radix.
pub open spec fn is_digit(c: char, radix: nat) -> bool {
    digit_val(c) < radix
}

/// Every character of `s` is a valid digit for the given radix.
pub open spec fn all_digits(s: Seq<char>, radix: nat) -> bool {
    forall|i: int| 0 <= i < s.len() ==> is_digit(s[i], radix)
}

/// Value of a digit string read most-significant digit first.
pub open spec fn seq_val(s: Seq<char>, radix: nat) -> nat
    decreases s.len(),
{
    if s.len() == 0 {
        0
    } else {
        seq_val(s.drop_last(), radix) * radix + digit_val(s.last())
    }
}

/// The canonical (lower-case) digit character for a value below 16.
pub open spec fn digit_char(v: nat) -> char {
    if v == 0 {
        '0'
    } else if v == 1 {
        '1'
    } else if v == 2 {
        '2'
    } else if v == 3 {
        '3'
    } else if v == 4 {
        '4'
    } else if v == 5 {
        '5'
    } else if v == 6 {
        '6'
    } else if v == 7 {
        '7'
    } else if v == 8 {
        '8'
    } else if v == 9 {
        '9'
    } else if v == 10 {
        'a'
    } else if v == 11 {
        'b'
    } else if v == 12 {
        'c'
    } else if v == 13 {
        'd'
    } else if v == 14 {
        'e'
    } else {
        'f'
    }
}

/// ASCII whitespace, the set that tokenizing and trimming recognize.
pub open spec fn is_space(c: char) -> bool {
    c == ' ' || c == '\t' || c == '\n' || c == '\r' || c == '\u{000C}'
}

/// ASCII lower-casing of a single character; other characters are unchanged.
pub open spec fn lower_char(c: char) -> char {
    match c {
        'A' => 'a',
        'B' => 'b',
        'C' => 'c',
        'D' => 'd',
        'E' => 'e',
        'F' => 'f',
        'G' => 'g',
        'H' => 'h',
        'I' => 'i',
        'J' => 'j',
        'K' => 'k',
        'L' => 'l',
        'M' => 'm',
        'N' => 'n',
        'O' => 'o',
        'P' => 'p',
        'Q' => 'q',
        'R' => 'r',
        'S' => 's',
        'T' => 't',
        'U' => 'u',
        'V' => 'v',
        'W' => 'w',
        'X' => 'x',
        'Y' => 'y',
        'Z' => 'z',
        _ => c,
    }
}

/// ASCII lower-casing of a whole character sequence.
pub open spec fn lower_seq(s: Seq<char>) -> Seq<char> {
    Seq::new(s.len(), |i: int| lower_char(s[i]))
}

/// Leading whitespace removed.
pub open spec fn trim_start(s: Seq<char>) -> Seq<char>
    decreases s.len(),
{
    if s.len() > 0 && is_space(s.first()) {
        trim_start(s.drop_first())
    } else {
        s
    }
}

/// Trailing whitespace removed.
pub open spec fn trim_end(s: Seq<char>) -> Seq<char>
    decreases s.len(),
{
    if s.len() > 0 && is_space(s.last()) {
        trim_end(s.drop_last())
    } else {
        s
    }
}

/// Surrounding whitespace removed.
pub open spec fn trim(s: Seq<char>) -> Seq<char> {
    trim_end(trim_start(s))
}

/// All underscore characters removed, other characters kept in order.
pub open spec fn without_underscores(s: Seq<char>) -> Seq<char>
    decreases s.len(),
{
    if s.len() == 0 {
        Seq::empty()
    } else if s.last() == '_' {
        without_underscores(s.drop_last())
    } else {
        without_underscores(s.drop_last()).push(s.last())
    }
}

/// A trailing unsigned-literal suffix `u` removed, if present.
pub open spec fn strip_suffix_u(s: Seq<char>) -> Seq<char> {
    if s.len() > 0 && s.last() == 'u' {
        s.drop_last()
    } else {
        s
    }
}

/// A leading `0x`-style radix prefix (`'0'` followed by `marker`) removed,
/// if present.
pub open spec fn strip_radix_prefix(s: Seq<char>, marker: char) -> Seq<char> {
    if s.len() >= 2 && s[0] == '0' && s[1] == marker {
        s.skip(2)
    } else {
        s
    }
}

/// Executable mirror of [`digit_val`].
pub fn digit_of(c: char) -> (r: u8)
    ensures
        r as nat == digit_val(c),
{
    match c {
        '0' => 0,
        '1' => 1,
        '2' => 2,
        '3' => 3,
        '4' => 4,
        '5' => 5,
        '6' => 6,
        '7' => 7,
        '8' => 8,
        '9' => 9,
        'a' => 10,
        'b' => 11,
        'c' => 12,
        'd' => 13,
        'e' => 14,
        'f' => 15,
        _ => 16,
    }
}

/// Executable mirror of [`digit_char`].
pub fn digit_char_of(v: u64) -> (c: char)
    requires
        v < 16,
    ensures
        c == digit_char(v as nat),
{
    if v == 0 {
        '0'
    } else if v == 1 {
        '1'
    } else if v == 2 {
        '2'
    } else if v == 3 {
        '3'
    } else if v == 4 {
        '4'
    } else if v == 5 {
        '5'
    } else if v == 6 {
        '6'
    } else if v == 7 {
        '7'
    } else if v == 8 {
        '8'
    } else if v == 9 {
        '9'
    } else if v == 10 {
        'a'
    } else if v == 11 {
        'b'
    } else if v == 12 {
        'c'
    } else if v == 13 {
        'd'
    } else if v == 14 {
        'e'
    } else {
        'f'
    }
}

/// Executable mirror of [`is_space`].
pub fn is_space_char(c: char) -> (r: bool)
    ensures
        r == is_space(c),
{
    c == ' ' || c == '\t' || c == '\n' || c == '\r' || c == '\u{000C}'
}

/// Executable mirror of [`lower_char`].
pub fn lower_char_of(c: char) -> (r: char)
    ensures
        r == lower_char(c),
{
    match c {
        'A' => 'a',
        'B' => 'b',
        'C' => 'c',
        'D' => 'd',
        'E' => 'e',
        'F' => 'f',
        'G' => 'g',
        'H' => 'h',
        'I' => 'i',
        'J' => 'j',
        'K' => 'k',
        'L' => 'l',
        'M' => 'm',
        'N' => 'n',
        'O' => 'o',
        'P' => 'p',
        'Q' => 'q',
        'R' => 'r',
        'S' => 's',
        'T' => 't',
        'U' => 'u',
        'V' => 'v',
        'W' => 'w',
        'X' => 'x',
        'Y' => 'y',
        'Z' => 'z',
        _ => c,
    }
}

/// The characters of a string slice, in order.
pub fn str_to_chars(s: &str) -> (v: Vec<char>)
    ensures
        v@ == s@,
{
    let n: usize = s.unicode_len();
    let mut v: Vec<char> = Vec::new();
    for i in 0..n
        invariant
            n == s@.len(),
            v@ == s@.subrange(0, i as int),
    {
        v.push(s.get_char(i));
        assert(s@.subrange(0, i + 1) =~= s@.subrange(0, i as int).push(s@[i as int]));
    }
    assert(s@.subrange(0, n as int) =~= s@);
    v
}

/// Relies on `String`'s `FromIterator<char>` impl: collecting an iterator of
/// chars yields a string whose characters are exactly those chars, in order.
#[verifier::external_body]
pub(crate) fn chars_to_string(v: &Vec<char>) -> (s: String)
    ensures
        s@ == v@,
{
    v.iter().collect()
}

/// A trailing `u` removed, executable mirror of [`strip_suffix_u`].
pub fn strip_u_vec(v: Vec<char>) -> (r: Vec<char>)
    ensures
        r@ == strip_suffix_u(v@),
{
    let mut v = v;
    if v.len() > 0 && v[v.len() - 1] == 'u' {
        v.pop();
    }
    v
}

/// If every character at or past `k` is whitespace and the one before `k`
/// (if any) is not, trimming the end keeps exactly the first `k` characters.
proof fn lemma_trim_end_take(s: Seq<char>, k: int)
    requires
        0 <= k <= s.len(),
        forall|j: int| k <= j < s.len() ==> is_space(s[j]),
        k == 0 || !is_space(s[k - 1]),
    ensures
        trim_end(s) == s.take(k),
    decreases s.len(),
{
    if k == s.len() {
        assert(s.take(k) =~= s);
    } else {
        assert(is_space(s.last()));
        lemma_trim_end_take(s.drop_last(), k);
        assert(s.drop_last().take(k) =~= s.take(k));
    }
}

/// If every character before `k` is whitespace and the one at `k` (if any)
/// is not, trimming the start drops exactly the first `k` characters.
proof fn lemma_trim_start_skip(s: Seq<char>, k: int)
    requires
        0 <= k <= s.len(),
        forall|j: int| 0 <= j < k ==> is_space(s[j]),
        k == s.len() || !is_space(s[k]),
    ensures
        trim_start(s) == s.skip(k),
    decreases k,
{
    if k == 0 {
        assert(s.skip(0) =~= s);
    } else {
        assert(is_space(s.first()));
        lemma_trim_start_skip(s.drop_first(), k - 1);
        assert(s.drop_first().skip(k - 1) =~= s.skip(k));
    }
}

/// Surrounding whitespace removed, executable mirror of [`trim`].
pub fn trim_vec(v: &Vec<char>) -> (r: Vec<char>)
    ensures
        r@ == trim(v@),
{
    let mut start: usize = 0;
    while start < v.len() && is_space_char(v[start])
        invariant
            start <= v.len(),
            forall|j: int| 0 <= j < start ==> is_space(v@[j]),
        decreases v.len() - start,
    {
        start += 1;
    }
    proof {
        lemma_trim_start_skip(v@, start as int);
    }
    let mut end: usize = v.len();
    while end > start && is_space_char(v[end - 1])
        invariant
            start <= end <= v.len(),
            forall|j: int| end <= j < v.len() ==> is_space(v@[j]),
        decreases end,
    {
        end -= 1;
    }
    proof {
        let t = v@.skip(start as int);
        assert(forall|j: int| end - start <= j < t.len() ==> is_space(t[j]));
        lemma_trim_end_take(t, end - start);
        assert(t.take(end - start) =~= v@.subrange(start as int, end as int));
    }
    let mut r: Vec<char> = Vec::new();
    let mut i: usize = start;
    while i < end
        invariant
            start <= i <= end <= v.len(),
            r@ == v@.subrange(start as int, i as int),
        decreases end - i,
    {
        r.push(v[i]);
        assert(v@.subrange(start as int, i + 1) =~= v@.subrange(start as int, i as int).push(
            v@[i as int],
        ));
        i += 1;
    }
    r
}

/// ASCII lower-casing, executable mirror of [`lower_seq`].
pub fn lower_vec(v: &Vec<char>) -> (r: Vec<char>)
    ensures
        r@ == lower_seq(v@),
{
    let mut r: Vec<char> = Vec::new();
    let mut i: usize = 0;
    while i < v.len()
        invariant
            i <= v.len(),
            r@.len() == i,
            forall|j: int| 0 <= j < i ==> r@[j] == lower_char(v@[j]),
        decreases v.len() - i,
    {
        r.push(lower_char_of(v[i]));
        i += 1;
    }
    assert(r@ =~= lower_seq(v@));
    r
}

/// Underscores removed, executable mirror of [`without_underscores`].
pub fn strip_underscores_vec(v: &Vec<char>) -> (r: Vec<char>)
    ensures
        r@ == without_underscores(v@),
{
    let mut r: Vec<char> = Vec::new();
    let mut i: usize = 0;
    while i < v.len()
        invariant
            i <= v.len(),
            r@ == without_underscores(v@.take(i as int)),
        decreases v.len() - i,
    {
        let c = v[i];
        proof {
            assert(v@.take(i + 1).drop_last() =~= v@.take(i as int));
            assert(v@.take(i + 1).last() == v@[i as int]);
        }
        if c != '_' {
            r.push(c);
        }
        i += 1;
    }
    assert(v@.take(v@.len() as int) =~= v@);
    r
}

/// A radix prefix removed, executable mirror of [`strip_radix_prefix`].
pub fn strip_prefix_vec(v: Vec<char>, marker: char) -> (r: Vec<char>)
    ensures
        r@ == strip_radix_prefix(v@, marker),
{
    if v.len() >= 2 && v[0] == '0' && v[1] == marker {
        let mut r: Vec<char> = Vec::new();
        let mut i: usize = 2;
        while i < v.len()
            invariant
                2 <= i <= v.len(),
                r@ == v@.subrange(2, i as int),
            decreases v.len() - i,
        {
            r.push(v[i]);
            assert(v@.subrange(2, i + 1) =~= v@.subrange(2, i as int).push(v@[i as int]));
            i += 1;
        }
        assert(v@.subrange(2, v@.len() as int) =~= v@.skip(2));
        r
    } else {
        v
    }
}

/// Reading one more digit multiplies the prefix value by the radix and adds
/// the digit.
pub proof fn lemma_seq_val_take_succ(s: Seq<char>, radix: nat, i: int)
    requires
        0 <= i < s.len(),
    ensures
        seq_val(s.take(i + 1), radix) == seq_val(s.take(i), radix) * radix + digit_val(s[i]),
{
    assert(s.take(i + 1).drop_last() =~= s.take(i));
    assert(s.take(i + 1).last() == s[i]);
}

/// The value of a concatenation: the left part is shifted up by one radix
/// power per right-hand digit.
pub proof fn lemma_seq_val_append(a: Seq<char>, b: Seq<char>, radix: nat)
    ensures
        seq_val(a + b, radix) == seq_val(a, radix) * vstd::arithmetic::power::pow(
            radix as int,
            b.len(),
        ) + seq_val(b, radix),
    decreases b.len(),
{
    let p = vstd::arithmetic::power::pow(radix as int, b.len());
    if b.len() == 0 {
        assert(a + b =~= a);
        assert(p == 1) by {
            vstd::arithmetic::power::lemma_pow0(radix as int);
        }
    } else {
        lemma_seq_val_append(a, b.drop_last(), radix);
        let p0 = vstd::arithmetic::power::pow(radix as int, (b.len() - 1) as nat);
        assert((a + b).drop_last() =~= a + b.drop_last());
        assert((a + b).last() == b.last());
        assert(p == radix * p0) by {
            vstd::arithmetic::power::lemma_pow_adds(radix as int, 1, (b.len() - 1) as nat);
            vstd::arithmetic::power::lemma_pow1(radix as int);
        }
        assert((seq_val(a, radix) * p0 + seq_val(b.drop_last(), radix)) * radix == seq_val(
            a,
            radix,
        ) * (radix * p0) + seq_val(b.drop_last(), radix) * radix) by (nonlinear_arith);
    }
}

/// Trimming a sequence with no whitespace leaves it unchanged.
pub proof fn lemma_trim_id(s: Seq<char>)
    requires
        forall|i: int| 0 <= i < s.len() ==> !is_space(s[i]),
    ensures
        trim(s) == s,
{
    lemma_trim_start_skip(s, 0);
    assert(s.skip(0) =~= s);
    lemma_trim_end_take(s, s.len() as int);
    assert(s.take(s.len() as int) =~= s);
}

/// Lower-casing a sequence with no upper-case characters leaves it
/// unchanged.
pub proof fn lemma_lower_id(s: Seq<char>)
    requires
        forall|i: int| 0 <= i < s.len() ==> lower_char(s[i]) == s[i],
    ensures
        lower_seq(s) == s,
{
    assert(lower_seq(s) =~= s);
}

/// Underscore removal distributes over concatenation.
pub proof fn lemma_without_underscores_add(a: Seq<char>, b: Seq<char>)
    ensures
        without_underscores(a + b) == without_underscores(a) + without_underscores(b),
    decreases b.len(),
{
    if b.len() == 0 {
        assert(a + b =~= a);
        assert(without_underscores(a) + without_underscores(b) =~= without_underscores(a));
    } else {
        lemma_without_underscores_add(a, b.drop_last());
        assert((a + b).drop_last() =~= a + b.drop_last());
        assert((a + b).last() == b.last());
        if b.last() == '_' {
            assert(without_underscores(a + b) == without_underscores(a) + without_underscores(b));
        } else {
            assert(without_underscores(a) + without_underscores(b.drop_last()).push(b.last())
                =~= (without_underscores(a) + without_underscores(b.drop_last())).push(b.last()));
        }
    }
}

/// Removing underscores from a sequence that has none leaves it unchanged.
pub proof fn lemma_without_underscores_id(s: Seq<char>)
    requires
        forall|i: int| 0 <= i < s.len() ==> s[i] != '_',
    ensures
        without_underscores(s) == s,
    decreases s.len(),
{
    if s.len() > 0 {
        lemma_without_underscores_id(s.drop_last());
        assert(s.drop_last().push(s.last()) =~= s);
    }
}

/// A valid digit of any supported radix is lower-case and is not
/// whitespace, not an underscore and not the suffix marker `u`.
pub proof fn lemma_digit_not_special(c: char)
    requires
        digit_val(c) < 16,
    ensures
        !is_space(c),
        lower_char(c) == c,
        c != 'u',
        c != '_',
        c != 'x',
{
}

/// Lower-casing maps no character to `u` except `u` and `U` themselves.
pub proof fn lemma_lower_to_u(c: char)
    requires
        c != 'u',
        c != 'U',
    ensures
        lower_char(c) != 'u',
{
}

/// Lower-casing neither creates nor removes whitespace.
pub proof fn lemma_space_lower(c: char)
    ensures
        is_space(lower_char(c)) == is_space(c),
{
}

/// Lower-casing is idempotent.
pub proof fn lemma_lower_idempotent(c: char)
    ensures
        lower_char(lower_char(c)) == lower_char(c),
{
}

proof fn lemma_trim_start_lower(s: Seq<char>)
    ensures
        trim_start(lower_seq(s)) == lower_seq(trim_start(s)),
    decreases s.len(),
{
    if s.len() > 0 {
        lemma_space_lower(s.first());
        assert(lower_seq(s).first() == lower_char(s.first()));
        if is_space(s.first()) {
            lemma_trim_start_lower(s.drop_first());
            assert(lower_seq(s).drop_first() =~= lower_seq(s.drop_first()));
        }
    } else {
        assert(lower_seq(s) =~= s);
    }
}

proof fn lemma_trim_end_lower(s: Seq<char>)
    ensures
        trim_end(lower_seq(s)) == lower_seq(trim_end(s)),
    decreases s.len(),
{
    if s.len() > 0 {
        lemma_space_lower(s.last());
        assert(lower_seq(s).last() == lower_char(s.last()));
        if is_space(s.last()) {
            lemma_trim_end_lower(s.drop_last());
            assert(lower_seq(s).drop_last() =~= lower_seq(s.drop_last()));
        }
    } else {
        assert(lower_seq(s) =~= s);
    }
}

/// Trimming commutes with lower-casing.
pub proof fn lemma_trim_lower_commute(s: Seq<char>)
    ensures
        trim(lower_seq(s)) == lower_seq(trim(s)),
{
    lemma_trim_start_lower(s);
    lemma_trim_end_lower(trim_start(s));
}

/// Lower-casing a whole sequence is idempotent.
pub proof fn lemma_lower_seq_idempotent(s: Seq<char>)
    ensures
        lower_seq(lower_seq(s)) == lower_seq(s),
{
    assert forall|i: int| 0 <= i < s.len() implies #[trigger] lower_seq(lower_seq(s))[i]
        == lower_seq(s)[i] by {
        lemma_lower_idempotent(s[i]);
    }
    assert(lower_seq(lower_seq(s)) =~= lower_seq(s));
}

/// Removing underscores from a sequence of binary digits and underscores
/// leaves only binary digits.
pub proof fn lemma_without_underscores_binary(s: Seq<char>)
    requires
        forall|i: int| 0 <= i < s.len() ==> #[trigger] s[i] == '0' || s[i] == '1' || s[i] == '_',
    ensures
        forall|i: int|
            0 <= i < without_underscores(s).len() ==> #[trigger] without_underscores(s)[i] == '0'
                || without_underscores(s)[i] == '1',
    decreases s.len(),
{
    if s.len() > 0 {
        lemma_without_underscores_binary(s.drop_last());
        let w0 = without_underscores(s.drop_last());
        if s.last() != '_' {
            assert(forall|i: int| 0 <= i < w0.len() ==> w0.push(s.last())[i] == w0[i]);
            assert(w0.push(s.last())[w0.len() as int] == s.last());
        }
    }
}

/// The tail of `v` from `from` onward.
pub fn suffix_vec(v: &Vec<char>, from: usize) -> (r: Vec<char>)
    requires
        from <= v.len(),
    ensures
        r@ == v@.skip(from as int),
{
    let mut r: Vec<char> = Vec::new();
    let mut i: usize = from;
    while i < v.len()
        invariant
            from <= i <= v.len(),
            r@ == v@.subrange(from as int, i as int),
        decreases v.len() - i,
    {
        r.push(v[i]);
        assert(v@.subrange(from as int, i + 1) =~= v@.subrange(from as int, i as int).push(
            v@[i as int],
        ));
        i += 1;
    }
    assert(v@.subrange(from as int, v@.len() as int) =~= v@.skip(from as int));
    r
}

/// Whether the characters of `v` are exactly those of `s`.
pub fn chars_eq_str(v: &Vec<char>, s: &str) -> (r: bool)
    ensures
        r == (v@ == s@),
{
    let n: usize = s.unicode_len();
    if v.len() != n {
        return false;
    }
    let mut i: usize = 0;
    while i < n
        invariant
            i <= n,
            n == v@.len() == s@.len(),
            forall|j: int| 0 <= j < i ==> v@[j] == s@[j],
        decreases n - i,
    {
        if v[i] != s.get_char(i) {
            return false;
        }
        i += 1;
    }
    assert(v@ =~= s@);
    true
}

/// The value of a digit string is at least the value of any of its prefixes.
pub proof fn lemma_seq_val_prefix_le(s: Seq<char>, radix: nat, i: int)
    requires
        0 <= i <= s.len(),
        radix >= 1,
    ensures
        seq_val(s.take(i), radix) <= seq_val(s, radix),
{
    assert(s =~= s.take(i) + s.skip(i));
    lemma_seq_val_append(s.take(i), s.skip(i), radix);
    let p = vstd::arithmetic::power::pow(radix as int, s.skip(i).len());
    assert(p >= 1) by {
        vstd::arithmetic::power::lemma_pow_positive(radix as int, s.skip(i).len());
    }
    assert(seq_val(s.take(i), radix) * p >= seq_val(s.take(i), radix) * 1) by (nonlinear_arith)
        requires p >= 1;
}

} // verus!
