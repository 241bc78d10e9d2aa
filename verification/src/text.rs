//! Verified operations on text.

use vstd::prelude::*;

verus! {

/// `String::push` of std. Trusted: it appends the character to the end.
pub assume_specification[ String::push ](s: &mut String, c: char)
    ensures
        final(s)@ == old(s)@.push(c),
;

/// The characters of `s`.
pub fn chars_of(s: &str) -> (chars: Vec<char>)
    ensures
        chars@ == s@,
{
    let mut chars: Vec<char> = Vec::new();
    for c in it: s.chars()
        invariant
            chars@ == it.seq().take(it.index()),
            it.seq() == s@,
    {
        chars.push(c);
    }
    assert(chars@ =~= s@);
    chars
}

/// The text made of the characters from `from` to `to`.
pub fn text_of(chars: &Vec<char>, from: usize, to: usize) -> (s: String)
    requires
        from <= to <= chars.len(),
    ensures
        s@ == chars@.subrange(from as int, to as int),
{
    let mut s = String::new();
    let mut i: usize = from;
    while i < to
        invariant
            from <= i <= to <= chars.len(),
            s@ == chars@.subrange(from as int, i as int),
        decreases to - i,
    {
        s.push(chars[i]);
        i += 1;
        assert(s@ =~= chars@.subrange(from as int, i as int));
    }
    s
}

// ------------------------------------------------------------------ searching

/// Whether `part` stands in `s` at `i`.
pub open spec fn stands_at(s: Seq<char>, part: Seq<char>, i: int) -> bool {
    &&& 0 <= i
    &&& i + part.len() <= s.len()
    &&& s.subrange(i, i + part.len()) == part
}

/// Whether `part` stands somewhere in `s`.
pub open spec fn has_text(s: Seq<char>, part: Seq<char>) -> bool {
    exists|i: int| stands_at(s, part, i)
}

fn matches_at(s: &Vec<char>, part: &Vec<char>, i: usize) -> (found: bool)
    requires
        i + part.len() <= s.len(),
    ensures
        found == stands_at(s@, part@, i as int),
{
    let mut k: usize = 0;
    while k < part.len()
        invariant
            k <= part.len(),
            i + part.len() <= s.len(),
            s@.subrange(i as int, i + k) == part@.take(k as int),
        decreases part.len() - k,
    {
        if s[i + k] != part[k] {
            assert(s@.subrange(i as int, i + part.len())[k as int] != part@[k as int]);
            return false;
        }
        k += 1;
        assert(s@.subrange(i as int, i + k) =~= part@.take(k as int));
    }
    assert(part@.take(k as int) =~= part@);
    true
}

/// Tells whether `part` stands somewhere in `s`.
pub fn contains_text(s: &str, part: &str) -> (found: bool)
    ensures
        found == has_text(s@, part@),
{
    let hay = chars_of(s);
    let needle = chars_of(part);
    if needle.len() > hay.len() {
        return false;
    }
    let last: usize = hay.len() - needle.len();
    let mut i: usize = 0;
    while i <= last
        invariant
            last + needle.len() == hay.len(),
            i <= last + 1,
            hay@ == s@,
            needle@ == part@,
            forall|k: int| 0 <= k < i ==> !stands_at(s@, part@, k),
        decreases last + 1 - i,
    {
        if matches_at(&hay, &needle, i) {
            return true;
        }
        if i == last {
            return false;
        }
        i += 1;
    }
    false
}

/// Whether `s` begins with `part`.
pub open spec fn begins_with(s: Seq<char>, part: Seq<char>) -> bool {
    stands_at(s, part, 0)
}

/// Tells whether `s` begins with `part`.
pub fn starts_with_text(s: &str, part: &str) -> (found: bool)
    ensures
        found == begins_with(s@, part@),
{
    let hay = chars_of(s);
    let needle = chars_of(part);
    needle.len() <= hay.len() && matches_at(&hay, &needle, 0)
}

/// The first position of `c` in `s`, or the length of `s`.
pub open spec fn first_pos(s: Seq<char>, c: char) -> int
    decreases s.len(),
{
    if s.len() == 0 {
        0
    } else if s[0] == c {
        0
    } else {
        1 + first_pos(s.skip(1), c)
    }
}

/// What [`first_pos`] finds.
pub proof fn lemma_first_pos(s: Seq<char>, c: char)
    ensures
        0 <= first_pos(s, c) <= s.len(),
        first_pos(s, c) < s.len() ==> s[first_pos(s, c)] == c,
        forall|k: int| 0 <= k < first_pos(s, c) ==> #[trigger] s[k] != c,
        first_pos(s, c) < s.len() <==> s.contains(c),
    decreases s.len(),
{
    if s.len() > 0 && s[0] != c {
        let rest = s.skip(1);
        lemma_first_pos(rest, c);
        assert forall|k: int| 0 <= k < first_pos(s, c) implies #[trigger] s[k] != c by {
            if k > 0 {
                assert(s[k] == rest[k - 1]);
            }
        }
        if s.contains(c) {
            let k = choose|k: int| 0 <= k < s.len() && s[k] == c;
            assert(rest[k - 1] == c);
        }
    }
}

/// A position before which no `c` stands, and at which one stands or the text ends, is
/// what [`first_pos`] finds.
pub proof fn lemma_first_pos_is(s: Seq<char>, c: char, i: int)
    requires
        0 <= i <= s.len(),
        forall|k: int| 0 <= k < i ==> #[trigger] s[k] != c,
        i < s.len() ==> s[i] == c,
    ensures
        first_pos(s, c) == i,
{
    lemma_first_pos(s, c);
}

/// Finds the first `c` among `s`, or gives the length of `s`.
pub fn find_char(s: &Vec<char>, c: char) -> (pos: usize)
    ensures
        pos == first_pos(s@, c),
        pos <= s.len(),
{
    let mut i: usize = 0;
    while i < s.len()
        invariant
            i <= s.len(),
            forall|k: int| 0 <= k < i ==> #[trigger] s@[k] != c,
        decreases s.len() - i,
    {
        if s[i] == c {
            proof {
                lemma_first_pos_is(s@, c, i as int);
            }
            return i;
        }
        i += 1;
    }
    proof {
        lemma_first_pos_is(s@, c, i as int);
    }
    i
}

/// Tells whether `c` stands in `s`.
pub fn contains_char(s: &str, c: char) -> (found: bool)
    ensures
        found == s@.contains(c),
{
    let chars = chars_of(s);
    proof {
        lemma_first_pos(s@, c);
    }
    find_char(&chars, c) < chars.len()
}

// ------------------------------------------------------------------- ordering

/// Whether `a` comes before `b`: at the first difference it has the lower character,
/// or it ends there.
pub open spec fn text_less(a: Seq<char>, b: Seq<char>) -> bool
    decreases a.len(),
{
    if b.len() == 0 {
        false
    } else if a.len() == 0 {
        true
    } else if a[0] == b[0] {
        text_less(a.skip(1), b.skip(1))
    } else {
        (a[0] as int) < (b[0] as int)
    }
}

/// No text comes before itself, and of two texts one comes before the other.
pub proof fn lemma_text_less_total(a: Seq<char>, b: Seq<char>)
    ensures
        text_less(a, b) ==> a != b && !text_less(b, a),
        !text_less(a, b) && !text_less(b, a) ==> a == b,
    decreases a.len(),
{
    if a.len() > 0 && b.len() > 0 {
        if a[0] == b[0] {
            lemma_text_less_total(a.skip(1), b.skip(1));
            if a.skip(1) == b.skip(1) {
                assert(a =~= seq![a[0]] + a.skip(1));
                assert(b =~= seq![b[0]] + b.skip(1));
            }
        }
    } else if a.len() == 0 && b.len() == 0 {
        assert(a =~= b);
    }
}

/// What comes before a text comes before those that follow it.
pub proof fn lemma_text_less_transitive(a: Seq<char>, b: Seq<char>, c: Seq<char>)
    requires
        text_less(a, b),
        text_less(b, c),
    ensures
        text_less(a, c),
    decreases a.len(),
{
    if a.len() > 0 && a[0] == b[0] && b[0] == c[0] {
        lemma_text_less_transitive(a.skip(1), b.skip(1), c.skip(1));
    }
}

/// Tells whether `a` comes before `b`.
pub fn is_text_less(a: &str, b: &str) -> (less: bool)
    ensures
        less == text_less(a@, b@),
{
    let x = chars_of(a);
    let y = chars_of(b);
    let mut i: usize = 0;
    assert(x@.skip(0) =~= x@);
    assert(y@.skip(0) =~= y@);
    while i < x.len() && i < y.len()
        invariant
            i <= x.len(),
            i <= y.len(),
            x@ == a@,
            y@ == b@,
            text_less(x@, y@) == text_less(x@.skip(i as int), y@.skip(i as int)),
        decreases x.len() - i,
    {
        assert(x@.skip(i as int).skip(1) =~= x@.skip(i + 1));
        assert(y@.skip(i as int).skip(1) =~= y@.skip(i + 1));
        if x[i] != y[i] {
            return x[i] < y[i];
        }
        i += 1;
    }
    i < y.len()
}

// ------------------------------------------------------------------- cutting

/// The pieces of `s` between the separators `sep`.
pub open spec fn split_on(s: Seq<char>, sep: char) -> Seq<Seq<char>>
    decreases s.len(),
    via split_on_decreases
{
    let p = first_pos(s, sep);
    if p < s.len() {
        seq![s.take(p)] + split_on(s.skip(p + 1), sep)
    } else {
        seq![s]
    }
}

#[via_fn]
proof fn split_on_decreases(s: Seq<char>, sep: char) {
    lemma_first_pos(s, sep);
}

/// The texts of `pieces`.
pub open spec fn texts(pieces: Seq<String>) -> Seq<Seq<char>> {
    pieces.map_values(|piece: String| piece@)
}

/// One more text.
pub proof fn lemma_texts_push(pieces: Seq<String>, piece: String)
    ensures
        texts(pieces.push(piece)) == texts(pieces).push(piece@),
{
    assert(texts(pieces.push(piece)) =~= texts(pieces).push(piece@));
}

/// Cuts `s` at every `sep`.
pub fn split_text(s: &str, sep: char) -> (pieces: Vec<String>)
    ensures
        texts(pieces@) == split_on(s@, sep),
{
    let chars = chars_of(s);
    let mut pieces: Vec<String> = Vec::new();
    let mut from: usize = 0;
    let mut i: usize = 0;
    assert(chars@.skip(0) =~= chars@);
    while i < chars.len()
        invariant
            from <= i <= chars.len(),
            chars@ == s@,
            forall|k: int| from <= k < i ==> #[trigger] chars@[k] != sep,
            split_on(s@, sep) == texts(pieces@) + split_on(chars@.skip(from as int), sep),
        decreases chars.len() - i,
    {
        if chars[i] == sep {
            let ghost rest = chars@.skip(from as int);
            let ghost before = texts(pieces@);
            pieces.push(text_of(&chars, from, i));
            proof {
                lemma_first_pos_is(rest, sep, i - from);
                assert(rest.take(i - from) =~= chars@.subrange(from as int, i as int));
                assert(rest.skip(i - from + 1) =~= chars@.skip(i + 1));
                assert(texts(pieces@) =~= before.push(rest.take(i - from)));
                assert(before + (seq![rest.take(i - from)] + split_on(
                    chars@.skip(i + 1),
                    sep,
                )) =~= texts(pieces@) + split_on(chars@.skip(i + 1), sep));
            }
            from = i + 1;
        }
        i += 1;
    }
    let ghost rest = chars@.skip(from as int);
    let ghost before = texts(pieces@);
    pieces.push(text_of(&chars, from, i));
    proof {
        lemma_first_pos_is(rest, sep, i - from);
        assert(rest =~= chars@.subrange(from as int, i as int));
        assert(texts(pieces@) =~= before + seq![rest]);
    }
    pieces
}

/// The characters with the Unicode property `White_Space`.
pub open spec fn is_space(c: char) -> bool {
    let n = c as u32;
    ||| 0x09 <= n <= 0x0D
    ||| n == 0x20
    ||| n == 0x85
    ||| n == 0xA0
    ||| n == 0x1680
    ||| 0x2000 <= n <= 0x200A
    ||| n == 0x2028
    ||| n == 0x2029
    ||| n == 0x202F
    ||| n == 0x205F
    ||| n == 0x3000
}

fn space_char(c: char) -> (space: bool)
    ensures
        space == is_space(c),
{
    let n: u32 = c as u32;
    (0x09 <= n && n <= 0x0D) || n == 0x20 || n == 0x85 || n == 0xA0 || n == 0x1680 || (0x2000 <= n
        && n <= 0x200A) || n == 0x2028 || n == 0x2029 || n == 0x202F || n == 0x205F || n == 0x3000
}

/// `s` without the characters at its start that `drop` names.
pub open spec fn without_start(s: Seq<char>, drop: spec_fn(char) -> bool) -> Seq<char>
    decreases s.len(),
{
    if s.len() > 0 && drop(s[0]) {
        without_start(s.skip(1), drop)
    } else {
        s
    }
}

/// `s` without the characters at its end that `drop` names.
pub open spec fn without_end(s: Seq<char>, drop: spec_fn(char) -> bool) -> Seq<char>
    decreases s.len(),
{
    if s.len() > 0 && drop(s.last()) {
        without_end(s.drop_last(), drop)
    } else {
        s
    }
}

/// `s` without white space at either end.
pub open spec fn trimmed(s: Seq<char>) -> Seq<char> {
    without_end(without_start(s, |c: char| is_space(c)), |c: char| is_space(c))
}

/// Whether a character is `c`.
pub open spec fn same_as(c: char) -> spec_fn(char) -> bool {
    |d: char| d == c
}

/// `s` without any `c` at either end.
pub open spec fn stripped_of(s: Seq<char>, c: char) -> Seq<char> {
    without_end(without_start(s, same_as(c)), same_as(c))
}

/// Cuts white space off both ends of `s`.
pub fn trim_text(s: &str) -> (t: String)
    ensures
        t@ == trimmed(s@),
{
    let chars = chars_of(s);
    let ghost drop = |c: char| is_space(c);
    let mut from: usize = 0;
    assert(chars@.skip(0) =~= chars@);
    while from < chars.len() && space_char(chars[from])
        invariant
            from <= chars.len(),
            drop == (|c: char| is_space(c)),
            without_start(chars@, drop) == without_start(chars@.skip(from as int), drop),
        decreases chars.len() - from,
    {
        assert(chars@.skip(from as int).skip(1) =~= chars@.skip(from + 1));
        from += 1;
    }
    let mut to: usize = chars.len();
    let ghost head = without_start(chars@, drop);
    assert(head =~= chars@.subrange(from as int, to as int));
    while to > from && space_char(chars[to - 1])
        invariant
            from <= to <= chars.len(),
            drop == (|c: char| is_space(c)),
            without_end(head, drop) == without_end(chars@.subrange(from as int, to as int), drop),
        decreases to - from,
    {
        assert(chars@.subrange(from as int, to as int).drop_last() =~= chars@.subrange(
            from as int,
            to - 1,
        ));
        to -= 1;
    }
    text_of(&chars, from, to)
}

/// Cuts every `c` off both ends of `s`.
pub fn strip_char(s: &str, c: char) -> (t: String)
    ensures
        t@ == stripped_of(s@, c),
{
    let chars = chars_of(s);
    let ghost drop = same_as(c);
    let mut from: usize = 0;
    assert(chars@.skip(0) =~= chars@);
    while from < chars.len() && chars[from] == c
        invariant
            from <= chars.len(),
            drop == same_as(c),
            without_start(chars@, drop) == without_start(chars@.skip(from as int), drop),
        decreases chars.len() - from,
    {
        assert(chars@.skip(from as int).skip(1) =~= chars@.skip(from + 1));
        from += 1;
    }
    let mut to: usize = chars.len();
    let ghost head = without_start(chars@, drop);
    assert(head =~= chars@.subrange(from as int, to as int));
    while to > from && chars[to - 1] == c
        invariant
            from <= to <= chars.len(),
            drop == same_as(c),
            without_end(head, drop) == without_end(chars@.subrange(from as int, to as int), drop),
        decreases to - from,
    {
        assert(chars@.subrange(from as int, to as int).drop_last() =~= chars@.subrange(
            from as int,
            to - 1,
        ));
        to -= 1;
    }
    text_of(&chars, from, to)
}

/// What follows `prefix` in `s`, if `s` begins with it.
pub open spec fn after_prefix(s: Seq<char>, prefix: Seq<char>) -> Option<Seq<char>> {
    if begins_with(s, prefix) {
        Some(s.skip(prefix.len() as int))
    } else {
        None
    }
}

/// The text of an optional string.
pub open spec fn opt_text(s: Option<String>) -> Option<Seq<char>> {
    match s {
        Some(s) => Some(s@),
        None => None,
    }
}

/// Cuts `prefix` off the start of `s`.
pub fn strip_prefix_text(s: &str, prefix: &str) -> (rest: Option<String>)
    ensures
        opt_text(rest) == after_prefix(s@, prefix@),
{
    if starts_with_text(s, prefix) {
        let chars = chars_of(s);
        let from: usize = chars_of(prefix).len();
        Some(text_of(&chars, from, chars.len()))
    } else {
        None
    }
}

/// `s` with `to` for every `from`.
pub open spec fn replaced(s: Seq<char>, from: char, to: char) -> Seq<char> {
    s.map_values(
        |c: char|
            if c == from {
                to
            } else {
                c
            },
    )
}

/// Puts `to` for every `from` in `s`.
pub fn replace_char(s: &str, from: char, to: char) -> (t: String)
    ensures
        t@ == replaced(s@, from, to),
{
    let chars = chars_of(s);
    let mut t = String::new();
    let mut i: usize = 0;
    while i < chars.len()
        invariant
            i <= chars.len(),
            chars@ == s@,
            t@ == replaced(s@.take(i as int), from, to),
        decreases chars.len() - i,
    {
        t.push(
            if chars[i] == from {
                to
            } else {
                chars[i]
            },
        );
        i += 1;
        assert(t@ =~= replaced(s@.take(i as int), from, to));
    }
    assert(s@.take(i as int) =~= s@);
    t
}

// ------------------------------------------------------------------- numbers

/// The decimal digit of `n`.
pub open spec fn digit(n: int) -> char
    recommends
        0 <= n < 10,
{
    (48 + n) as char
}

/// `n` in decimal notation.
pub open spec fn decimal(n: nat) -> Seq<char>
    decreases n,
{
    if n < 10 {
        seq![digit(n as int)]
    } else {
        decimal(n / 10).push(digit((n % 10) as int))
    }
}

/// Appends `n` in decimal notation.
pub fn push_wide_decimal(s: &mut String, n: u128)
    ensures
        final(s)@ == old(s)@ + decimal(n as nat),
    decreases n,
{
    if n >= 10 {
        push_wide_decimal(s, n / 10);
    }
    let d: u8 = 48 + (n % 10) as u8;
    s.push(d as char);
    proof {
        if n >= 10 {
            assert(s@ =~= old(s)@ + decimal(n as nat));
        }
    }
}

/// Appends `n` in decimal notation.
pub fn push_decimal(s: &mut String, n: u64)
    ensures
        final(s)@ == old(s)@ + decimal(n as nat),
{
    push_wide_decimal(s, n as u128);
}

/// `n` in decimal notation.
pub fn decimal_text(n: u64) -> (s: String)
    ensures
        s@ == decimal(n as nat),
{
    let mut s = String::new();
    push_decimal(&mut s, n);
    assert(s@ =~= decimal(n as nat));
    s
}

/// `count` times `c`.
pub open spec fn repeated(c: char, count: nat) -> Seq<char> {
    Seq::new(count, |i: int| c)
}

/// `s`, filled up with `c` on the left to at least `width` characters.
pub open spec fn padded(s: Seq<char>, c: char, width: nat) -> Seq<char> {
    if s.len() < width {
        repeated(c, (width - s.len()) as nat) + s
    } else {
        s
    }
}

/// `n` in decimal notation, filled up with `c` on the left to at least `width` characters.
pub fn padded_decimal(n: u64, c: char, width: usize) -> (s: String)
    ensures
        s@ == padded(decimal(n as nat), c, width as nat),
{
    let digits = decimal_text(n);
    let len: usize = chars_of(digits.as_str()).len();
    let mut s = String::new();
    let mut k: usize = len;
    while k < width
        invariant
            len <= k,
            k <= width || k == len,
            s@ == repeated(c, (k - len) as nat),
        decreases width - k,
    {
        s.push(c);
        k += 1;
        assert(s@ =~= repeated(c, (k - len) as nat));
    }
    s.append(digits.as_str());
    assert(s@ =~= padded(decimal(n as nat), c, width as nat));
    s
}

/// The value of a decimal digit.
pub open spec fn digit_value(c: char) -> Option<nat> {
    if 48 <= c as u32 <= 57 {
        Some((c as u32 - 48) as nat)
    } else {
        None
    }
}

/// The number that the digits `s` write; nothing if another character is among them.
pub open spec fn digits_value(s: Seq<char>) -> Option<nat>
    decreases s.len(),
{
    if s.len() == 0 {
        Some(0)
    } else {
        match (digits_value(s.drop_last()), digit_value(s.last())) {
            (Some(n), Some(d)) => Some(n * 10 + d),
            _ => None,
        }
    }
}

/// The 32-bit number that `s` writes: one or more digits, after an optional `+`.
pub open spec fn parsed_u32(s: Seq<char>) -> Option<u32> {
    let digits = if s.len() > 0 && s[0] == '+' {
        s.skip(1)
    } else {
        s
    };
    if digits.len() == 0 {
        None
    } else {
        match digits_value(digits) {
            Some(n) => if n <= u32::MAX {
                Some(n as u32)
            } else {
                None
            },
            None => None,
        }
    }
}

/// What digits write is the number that they were made from.
pub proof fn lemma_decimal_value(n: nat)
    ensures
        digits_value(decimal(n)) == Some(n),
    decreases n,
{
    if n < 10 {
        assert(decimal(n).drop_last() =~= Seq::<char>::empty());
        assert(digits_value(decimal(n).drop_last()) == Some(0nat));
    } else {
        lemma_decimal_value(n / 10);
        assert(decimal(n).drop_last() =~= decimal(n / 10));
    }
}

/// A decimal notation consists of digits.
pub proof fn lemma_decimal_digits(n: nat)
    ensures
        forall|i: int|
            0 <= i < decimal(n).len() ==> digit_value(#[trigger] decimal(n)[i]) is Some,
        decimal(n).len() > 0,
    decreases n,
{
    if n >= 10 {
        lemma_decimal_digits(n / 10);
        let d = decimal(n);
        assert forall|i: int| 0 <= i < d.len() implies digit_value(#[trigger] d[i]) is Some by {
            if i < d.len() - 1 {
                assert(d[i] == decimal(n / 10)[i]);
            }
        }
    }
}

/// A number that was written in decimal notation is read back.
pub proof fn law_written_number_is_read_back(n: u32)
    ensures
        parsed_u32(decimal(n as nat)) == Some(n),
{
    lemma_decimal_value(n as nat);
    lemma_decimal_digits(n as nat);
    assert(digit_value(decimal(n as nat)[0]) is Some);
    assert(digit_value('+') is None);
}

proof fn lemma_digits_grow(s: Seq<char>, i: int)
    requires
        0 <= i <= s.len(),
    ensures
        digits_value(s.take(i)) is None ==> digits_value(s) is None,
        digits_value(s) matches Some(n) ==> digits_value(s.take(i)) matches Some(m) && m <= n,
    decreases s.len() - i,
{
    if i < s.len() {
        assert(s.take(i + 1).drop_last() =~= s.take(i));
        lemma_digits_grow(s, i + 1);
    } else {
        assert(s.take(i) =~= s);
    }
}

/// Reads the 32-bit number that `s` writes.
pub fn parse_u32(s: &str) -> (n: Option<u32>)
    ensures
        n == parsed_u32(s@),
{
    let chars = chars_of(s);
    let from: usize = if chars.len() > 0 && chars[0] == '+' {
        1
    } else {
        0
    };
    if from == chars.len() {
        return None;
    }
    let ghost digits = chars@.skip(from as int);
    assert(from == 0 ==> digits =~= chars@);
    let mut n: u64 = 0;
    let mut i: usize = from;
    while i < chars.len()
        invariant
            from <= i <= chars.len(),
            from < chars.len(),
            digits == chars@.skip(from as int),
            n <= u32::MAX,
            digits_value(digits.take(i - from)) == Some(n as nat),
            parsed_u32(s@) == match digits_value(digits) {
                Some(n) => if n <= u32::MAX {
                    Some(n as u32)
                } else {
                    None
                },
                None => None,
            },
        decreases chars.len() - i,
    {
        let c: u32 = chars[i] as u32;
        proof {
            assert(digits.take(i - from + 1).drop_last() =~= digits.take(i - from));
            assert(digits.take(i - from + 1).last() == chars@[i as int]);
            lemma_digits_grow(digits, i - from + 1);
        }
        if c < 48 || c > 57 {
            return None;
        }
        n = n * 10 + (c - 48) as u64;
        if n > u32::MAX as u64 {
            return None;
        }
        i += 1;
    }
    assert(digits.take(i - from) =~= digits);
    Some(n as u32)
}

// ------------------------------------------------------------------------ laws

/// A part is found in every text that has it with something before and after it.
pub proof fn law_parts_are_found(before: Seq<char>, part: Seq<char>, after: Seq<char>)
    ensures
        has_text(before + part + after, part),
        stands_at(before + part + after, part, before.len() as int),
{
    let s = before + part + after;
    let i = before.len() as int;
    assert(s.subrange(i, i + part.len()) =~= part);
    assert(stands_at(s, part, i));
}

/// What is found in a text stands there.
pub proof fn law_found_parts_stand_there(s: Seq<char>, part: Seq<char>) -> (i: int)
    requires
        has_text(s, part),
    ensures
        0 <= i,
        i + part.len() <= s.len(),
        s == s.take(i) + part + s.skip(i + part.len()),
{
    let i = choose|i: int| stands_at(s, part, i);
    assert(s =~= s.take(i) + part + s.skip(i + part.len()));
    i
}

/// A text begins with what it is put together from, and what follows is what is left.
pub proof fn law_prefixes_are_cut_off(prefix: Seq<char>, rest: Seq<char>, s: Seq<char>)
    ensures
        begins_with(prefix + rest, prefix),
        after_prefix(prefix + rest, prefix) == Some(rest),
        after_prefix(s, prefix) matches Some(r) ==> s == prefix + r,
        begins_with(s, prefix) ==> s == prefix + s.skip(prefix.len() as int),
{
    assert((prefix + rest).subrange(0, prefix.len() as int) =~= prefix);
    assert((prefix + rest).skip(prefix.len() as int) =~= rest);
    if begins_with(s, prefix) {
        assert(s =~= prefix + s.skip(prefix.len() as int));
    }
}

/// Cutting a text gives the piece before the first separator, and the pieces of what comes
/// after it; a text without a separator is one piece.
pub proof fn law_pieces_are_cut_at_separators(piece: Seq<char>, sep: char, rest: Seq<char>)
    requires
        !piece.contains(sep),
    ensures
        split_on(piece, sep) == seq![piece],
        split_on(piece + seq![sep] + rest, sep) == seq![piece] + split_on(rest, sep),
{
    let s = piece + seq![sep] + rest;
    let n = piece.len() as int;
    lemma_first_pos_is(piece, sep, n);
    assert forall|k: int| 0 <= k < n implies #[trigger] s[k] != sep by {
        assert(s[k] == piece[k]);
    }
    lemma_first_pos_is(s, sep, n);
    assert(s.take(n) =~= piece);
    assert(s.skip(n + 1) =~= rest);
}

proof fn lemma_start_is_cut_off(lead: Seq<char>, s: Seq<char>, drop: spec_fn(char) -> bool)
    requires
        forall|i: int| 0 <= i < lead.len() ==> drop(#[trigger] lead[i]),
        s.len() > 0 ==> !drop(s[0]),
    ensures
        without_start(lead + s, drop) == s,
    decreases lead.len(),
{
    if lead.len() == 0 {
        assert(lead + s =~= s);
    } else {
        assert(drop(lead[0]));
        assert((lead + s).skip(1) =~= lead.skip(1) + s);
        lemma_start_is_cut_off(lead.skip(1), s, drop);
    }
}

proof fn lemma_end_is_cut_off(s: Seq<char>, tail: Seq<char>, drop: spec_fn(char) -> bool)
    requires
        forall|i: int| 0 <= i < tail.len() ==> drop(#[trigger] tail[i]),
        s.len() > 0 ==> !drop(s.last()),
    ensures
        without_end(s + tail, drop) == s,
    decreases tail.len(),
{
    if tail.len() == 0 {
        assert(s + tail =~= s);
    } else {
        assert(drop(tail[tail.len() - 1]));
        assert((s + tail).drop_last() =~= s + tail.drop_last());
        lemma_end_is_cut_off(s, tail.drop_last(), drop);
    }
}

proof fn lemma_both_ends_are_cut_off(
    lead: Seq<char>,
    s: Seq<char>,
    tail: Seq<char>,
    drop: spec_fn(char) -> bool,
)
    requires
        forall|i: int| 0 <= i < lead.len() ==> drop(#[trigger] lead[i]),
        forall|i: int| 0 <= i < tail.len() ==> drop(#[trigger] tail[i]),
        s.len() > 0 ==> !drop(s[0]) && !drop(s.last()),
    ensures
        without_end(without_start(lead + s + tail, drop), drop) == s,
{
    assert(lead + s + tail =~= lead + (s + tail));
    if s.len() > 0 {
        assert((s + tail)[0] == s[0]);
        lemma_start_is_cut_off(lead, s + tail, drop);
        lemma_end_is_cut_off(s, tail, drop);
    } else {
        assert forall|i: int| 0 <= i < (lead + tail).len() implies drop(
            #[trigger] (lead + tail)[i],
        ) by {
            if i < lead.len() {
                assert(drop(lead[i]));
            } else {
                assert(drop(tail[i - lead.len()]));
            }
        }
        lemma_start_is_cut_off(lead + tail, s, drop);
        assert(lead + (s + tail) =~= (lead + tail) + s);
    }
}

/// White space at both ends is cut off, and nothing else; of white space nothing is left.
pub proof fn law_white_space_is_cut_off(lead: Seq<char>, s: Seq<char>, tail: Seq<char>)
    requires
        forall|i: int| 0 <= i < lead.len() ==> is_space(#[trigger] lead[i]),
        forall|i: int| 0 <= i < tail.len() ==> is_space(#[trigger] tail[i]),
        s.len() > 0 ==> !is_space(s[0]) && !is_space(s.last()),
    ensures
        trimmed(lead + s + tail) == s,
{
    lemma_both_ends_are_cut_off(lead, s, tail, |c: char| is_space(c));
}

/// A character at both ends is cut off as often as it stands there, and nothing else.
pub proof fn law_characters_are_cut_off(lead: nat, s: Seq<char>, tail: nat, c: char)
    requires
        s.len() > 0 ==> s[0] != c && s.last() != c,
    ensures
        stripped_of(Seq::new(lead, |i: int| c) + s + Seq::new(tail, |i: int| c), c) == s,
{
    lemma_both_ends_are_cut_off(
        Seq::new(lead, |i: int| c),
        s,
        Seq::new(tail, |i: int| c),
        same_as(c),
    );
}

/// Blanks, tabs and the ends of lines are white space, and so are the blanks of Unicode; of
/// the characters of ASCII nothing else is.
pub proof fn law_blanks_are_white_space(c: char)
    ensures
        is_space(' ') && is_space('\t') && is_space('\n') && is_space('\r'),
        is_space('\u{b}') && is_space('\u{c}') && is_space('\u{85}') && is_space('\u{a0}'),
        is_space('\u{1680}') && is_space('\u{2028}') && is_space('\u{2029}'),
        is_space('\u{202f}') && is_space('\u{205f}') && is_space('\u{3000}'),
        '\u{2000}' <= c && c <= '\u{200a}' ==> is_space(c),
        '!' <= c && c <= '~' ==> !is_space(c),
        c < '\t' ==> !is_space(c),
        '\u{200b}' <= c && c <= '\u{2027}' ==> !is_space(c),
        '\u{a1}' <= c && c < '\u{1680}' ==> !is_space(c),
{
}

/// Replacing changes one character to the other and keeps all else.
pub proof fn law_characters_are_replaced(s: Seq<char>, from: char, to: char, i: int)
    requires
        0 <= i < s.len(),
    ensures
        replaced(s, from, to).len() == s.len(),
        s[i] == from ==> replaced(s, from, to)[i] == to,
        s[i] != from ==> replaced(s, from, to)[i] == s[i],
{
}

/// The first difference decides which text comes first, and a text comes before those that
/// go on after it.
pub proof fn law_texts_are_ordered(
    common: Seq<char>,
    a: char,
    b: char,
    rest_a: Seq<char>,
    rest_b: Seq<char>,
)
    ensures
        a < b ==> text_less(common + seq![a] + rest_a, common + seq![b] + rest_b),
        a > b ==> !text_less(common + seq![a] + rest_a, common + seq![b] + rest_b),
        text_less(common, common + seq![b] + rest_b),
        !text_less(common + seq![b] + rest_b, common),
    decreases common.len(),
{
    let x = common + seq![a] + rest_a;
    let y = common + seq![b] + rest_b;
    if common.len() > 0 {
        let fewer = common.skip(1);
        assert(x.skip(1) =~= fewer + seq![a] + rest_a);
        assert(y.skip(1) =~= fewer + seq![b] + rest_b);
        law_texts_are_ordered(fewer, a, b, rest_a, rest_b);
    }
}

/// The decimal notation of a number is that of the number without its last digit, and that
/// digit.
pub proof fn law_digits_follow_each_other(n: nat, d: nat)
    requires
        d < 10,
    ensures
        n > 0 ==> decimal(n * 10 + d) == decimal(n).push(('0' as int + d) as char),
        decimal(d) == seq![('0' as int + d) as char],
{
    assert(decimal(d) =~= seq![('0' as int + d) as char]);
}

/// Filling up puts the character before the text until the width is reached, and never
/// shortens.
pub proof fn law_texts_are_filled_up(s: Seq<char>, c: char, width: nat, i: int)
    ensures
        s.len() >= width ==> padded(s, c, width) == s,
        s.len() < width ==> padded(s, c, width).len() == width,
        s.len() < width ==> padded(s, c, width).skip(width - s.len()) == s,
        0 <= i < width - s.len() ==> padded(s, c, width)[i] == c,
{
    if s.len() < width {
        assert(padded(s, c, width).skip(width - s.len()) =~= s);
    }
}

/// A number is read digit by digit, with or without a `+` before it; one that does not fit
/// in 32 bits is not read.
pub proof fn law_numbers_are_read_by_digits(s: Seq<char>, d: nat)
    requires
        s.len() > 0,
        s[0] != '+',
        d < 10,
    ensures
        parsed_u32(s) matches Some(n) ==> {
            let longer = s.push(('0' as int + d) as char);
            &&& n * 10 + d <= 0xFFFF_FFFF ==> parsed_u32(longer) == Some((n * 10 + d) as u32)
            &&& n * 10 + d > 0xFFFF_FFFF ==> parsed_u32(longer) is None
        },
        parsed_u32(seq!['+'] + s) == parsed_u32(s),
        parsed_u32(seq![('0' as int + d) as char]) == Some(d as u32),
{
    let c = ('0' as int + d) as char;
    assert(s.push(c).drop_last() =~= s);
    assert(s.push(c)[0] == s[0]);
    assert((seq!['+'] + s).skip(1) =~= s);
    assert(seq![c].drop_last() =~= seq![]);
    assert(digits_value(seq![c].drop_last()) == Some(0nat));
    assert(digits_value(seq![c]) == Some(d));
}

proof fn lemma_no_digit(c: char)
    requires
        c < '0' || c > '9',
    ensures
        digit_value(c) is None,
{
}

/// What is no number is not read: no digits at all, and any text with another character.
pub proof fn law_other_texts_are_no_numbers(s: Seq<char>, i: int)
    requires
        s.len() > 0,
        s[0] != '+',
        0 <= i < s.len(),
        s[i] < '0' || s[i] > '9',
    ensures
        parsed_u32(s) is None,
        parsed_u32(seq!['+'] + s) is None,
        parsed_u32(seq!['+']) is None,
        parsed_u32(Seq::<char>::empty()) is None,
{
    assert((seq!['+'] + s).skip(1) =~= s);
    assert(seq!['+'].skip(1) =~= Seq::<char>::empty());
    lemma_digits_grow(s, i + 1);
    assert(s.take(i + 1).last() == s[i]);
    lemma_no_digit(s[i]);
    assert(digits_value(s.take(i + 1)) is None);
    assert(digits_value(s) is None);
}

} // verus!
