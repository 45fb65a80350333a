//! Character-level utilities shared by the pattern, scanning and patching
//! modules: digit classification, numeric value of a digit run, and
//! conversions between `String` and `Vec<char>`.

use vstd::prelude::*;

verus! {

/// A decimal digit, the only characters a tag pattern generalizes over.
pub open spec fn is_digit(c: char) -> bool {
    '0' <= c && c <= '9'
}

/// Blank characters accepted between the fields of a declaration line.
pub open spec fn is_blank(c: char) -> bool {
    c == ' ' || c == '\t'
}

/// Numeric value of one decimal digit.
pub open spec fn digit_val(c: char) -> nat
    recommends
        is_digit(c),
{
    ((c as int) - ('0' as int)) as nat
}

/// Value of a run of decimal digits, most significant first.
pub open spec fn digits_val(s: Seq<char>) -> nat
    decreases s.len(),
{
    if s.len() == 0 {
        0
    } else {
        digits_val(s.drop_last()) * 10 + digit_val(s.last())
    }
}

pub exec fn is_digit_char(c: char) -> (r: bool)
    ensures
        r == is_digit(c),
{
    '0' <= c && c <= '9'
}

pub exec fn is_blank_char(c: char) -> (r: bool)
    ensures
        r == is_blank(c),
{
    c == ' ' || c == '\t'
}

/// The value of a digit run never shrinks as the run is extended on the right.
pub proof fn lemma_digits_val_prefix_le(s: Seq<char>, i: int)
    requires
        0 <= i <= s.len(),
    ensures
        digits_val(s.take(i)) <= digits_val(s),
    decreases s.len() - i,
{
    if i < s.len() {
        assert(s.take(i + 1).drop_last() =~= s.take(i));
        assert(s.take(i + 1).last() == s[i]);
        assert(digits_val(s.take(i + 1)) == digits_val(s.take(i)) * 10 + digit_val(s[i]));
        lemma_digits_val_prefix_le(s, i + 1);
    } else {
        assert(s.take(i) =~= s);
    }
}

/// Parses a run of decimal digits as a `u32`; `None` means the value does not
/// fit, never a malformed input (the caller guarantees digits only).
pub exec fn digits_to_u32(s: &Vec<char>) -> (r: Option<u32>)
    requires
        forall|k: int| 0 <= k < s@.len() ==> is_digit(s@[k]),
    ensures
        r is Some <==> digits_val(s@) <= u32::MAX,
        r is Some ==> r->Some_0 == digits_val(s@),
{
    let mut v: u64 = 0;
    let mut i: usize = 0;
    while i < s.len()
        invariant
            forall|k: int| 0 <= k < s@.len() ==> is_digit(s@[k]),
            i <= s@.len(),
            v == digits_val(s@.take(i as int)),
            v <= u32::MAX,
        decreases s@.len() - i,
    {
        let c = s[i];
        let d: u64 = (c as u64) - ('0' as u64);
        proof {
            assert(is_digit(s@[i as int]));
            assert(s@.take(i + 1).drop_last() =~= s@.take(i as int));
            assert(s@.take(i + 1).last() == s@[i as int]);
        }
        v = v * 10 + d;
        i = i + 1;
        if v > u32::MAX as u64 {
            proof {
                lemma_digits_val_prefix_le(s@, i as int);
            }
            return None;
        }
    }
    proof {
        assert(s@.take(s@.len() as int) =~= s@);
    }
    Some(v as u32)
}

/// Length of the maximal blank run at the front of `s`.
pub open spec fn blank_run(s: Seq<char>) -> nat
    decreases s.len(),
{
    if s.len() == 0 || !is_blank(s[0]) {
        0
    } else {
        1 + blank_run(s.skip(1))
    }
}

/// Length of the maximal blank-free run at the front of `s`.
pub open spec fn nonblank_run(s: Seq<char>) -> nat
    decreases s.len(),
{
    if s.len() == 0 || is_blank(s[0]) {
        0
    } else {
        1 + nonblank_run(s.skip(1))
    }
}

/// Number of characters before the first line break in `s`.
pub open spec fn line_run(s: Seq<char>) -> nat
    decreases s.len(),
{
    if s.len() == 0 || s[0] == '\n' {
        0
    } else {
        1 + line_run(s.skip(1))
    }
}

/// Whitespace accepted between a field name and its value in registry
/// metadata.
pub open spec fn is_space(c: char) -> bool {
    c == ' ' || c == '\t' || c == '\n' || c == '\r'
}

pub exec fn is_space_char(c: char) -> (r: bool)
    ensures
        r == is_space(c),
{
    c == ' ' || c == '\t' || c == '\n' || c == '\r'
}

/// Length of the maximal whitespace run at the front of `s`.
pub open spec fn space_run(s: Seq<char>) -> nat
    decreases s.len(),
{
    if s.len() == 0 || !is_space(s[0]) {
        0
    } else {
        1 + space_run(s.skip(1))
    }
}

/// Number of characters before the first occurrence of `stop` in `s`.
pub open spec fn stop_run(stop: char, s: Seq<char>) -> nat
    decreases s.len(),
{
    if s.len() == 0 || s[0] == stop {
        0
    } else {
        1 + stop_run(stop, s.skip(1))
    }
}

pub proof fn lemma_space_run_is(s: Seq<char>, n: int)
    requires
        0 <= n <= s.len(),
        forall|i: int| 0 <= i < n ==> is_space(s[i]),
        n == s.len() || !is_space(s[n]),
    ensures
        space_run(s) == n,
    decreases n,
{
    if n > 0 {
        assert(is_space(s[0]));
        lemma_space_run_is(s.skip(1), n - 1);
    }
}

pub proof fn lemma_stop_run_is(stop: char, s: Seq<char>, n: int)
    requires
        0 <= n <= s.len(),
        forall|i: int| 0 <= i < n ==> s[i] != stop,
        n == s.len() || s[n] == stop,
    ensures
        stop_run(stop, s) == n,
    decreases n,
{
    if n > 0 {
        assert(s[0] != stop);
        lemma_stop_run_is(stop, s.skip(1), n - 1);
    }
}

/// First index at or after `from` where the whitespace run starting there
/// ends.
pub exec fn space_run_end(s: &[char], from: usize) -> (r: usize)
    requires
        from <= s@.len(),
    ensures
        from <= r <= s@.len(),
        r - from == space_run(s@.skip(from as int)),
        forall|i: int| from <= i < r ==> is_space(s@[i]),
        r < s@.len() ==> !is_space(s@[r as int]),
{
    let n: usize = s.len();
    let mut j: usize = from;
    while j < n && is_space_char(s[j])
        invariant
            from <= j <= n,
            n == s@.len(),
            forall|i: int| from <= i < j ==> is_space(s@[i]),
        decreases n - j,
    {
        j = j + 1;
    }
    proof {
        assert forall|i: int| 0 <= i < j - from implies is_space(s@.skip(from as int)[i]) by {
            assert(s@.skip(from as int)[i] == s@[i + from]);
        }
        if j < n {
            assert(s@.skip(from as int)[j - from] == s@[j as int]);
        }
        lemma_space_run_is(s@.skip(from as int), j - from);
    }
    j
}

/// Index of the first occurrence of `stop` at or after `from`, or the end.
pub exec fn stop_run_end(s: &[char], from: usize, stop: char) -> (r: usize)
    requires
        from <= s@.len(),
    ensures
        from <= r <= s@.len(),
        r - from == stop_run(stop, s@.skip(from as int)),
        forall|i: int| from <= i < r ==> s@[i] != stop,
        r < s@.len() ==> s@[r as int] == stop,
{
    let n: usize = s.len();
    let mut j: usize = from;
    while j < n && s[j] != stop
        invariant
            from <= j <= n,
            n == s@.len(),
            forall|i: int| from <= i < j ==> s@[i] != stop,
        decreases n - j,
    {
        j = j + 1;
    }
    proof {
        assert forall|i: int| 0 <= i < j - from implies s@.skip(from as int)[i] != stop by {
            assert(s@.skip(from as int)[i] == s@[i + from]);
        }
        if j < n {
            assert(s@.skip(from as int)[j - from] == s@[j as int]);
        }
        lemma_stop_run_is(stop, s@.skip(from as int), j - from);
    }
    j
}

pub proof fn lemma_space_run_le(s: Seq<char>)
    ensures
        space_run(s) <= s.len(),
    decreases s.len(),
{
    if s.len() > 0 && is_space(s[0]) {
        lemma_space_run_le(s.skip(1));
    }
}

pub proof fn lemma_stop_run_le(stop: char, s: Seq<char>)
    ensures
        stop_run(stop, s) <= s.len(),
    decreases s.len(),
{
    if s.len() > 0 && s[0] != stop {
        lemma_stop_run_le(stop, s.skip(1));
    }
}

pub proof fn lemma_line_run_le(s: Seq<char>)
    ensures
        line_run(s) <= s.len(),
    decreases s.len(),
{
    if s.len() > 0 && s[0] != '\n' {
        lemma_line_run_le(s.skip(1));
    }
}

pub proof fn lemma_blank_run_is(s: Seq<char>, n: int)
    requires
        0 <= n <= s.len(),
        forall|i: int| 0 <= i < n ==> is_blank(s[i]),
        n == s.len() || !is_blank(s[n]),
    ensures
        blank_run(s) == n,
    decreases n,
{
    if n > 0 {
        assert(is_blank(s[0]));
        lemma_blank_run_is(s.skip(1), n - 1);
    }
}

pub proof fn lemma_nonblank_run_is(s: Seq<char>, n: int)
    requires
        0 <= n <= s.len(),
        forall|i: int| 0 <= i < n ==> !is_blank(s[i]),
        n == s.len() || is_blank(s[n]),
    ensures
        nonblank_run(s) == n,
    decreases n,
{
    if n > 0 {
        assert(!is_blank(s[0]));
        lemma_nonblank_run_is(s.skip(1), n - 1);
    }
}

pub proof fn lemma_line_run_is(s: Seq<char>, n: int)
    requires
        0 <= n <= s.len(),
        forall|i: int| 0 <= i < n ==> s[i] != '\n',
        n == s.len() || s[n] == '\n',
    ensures
        line_run(s) == n,
    decreases n,
{
    if n > 0 {
        assert(s[0] != '\n');
        lemma_line_run_is(s.skip(1), n - 1);
    }
}

/// Facts that follow from the value of `blank_run`.
pub proof fn lemma_blank_run_props(s: Seq<char>)
    ensures
        blank_run(s) <= s.len(),
        forall|j: int| 0 <= j < blank_run(s) ==> is_blank(s[j]),
        blank_run(s) < s.len() ==> !is_blank(s[blank_run(s) as int]),
    decreases s.len(),
{
    if s.len() > 0 && is_blank(s[0]) {
        lemma_blank_run_props(s.skip(1));
        assert forall|j: int| 0 <= j < blank_run(s) implies is_blank(s[j]) by {
            if j > 0 {
                assert(s.skip(1)[j - 1] == s[j]);
            }
        }
        if blank_run(s) < s.len() {
            assert(s.skip(1)[blank_run(s) - 1] == s[blank_run(s) as int]);
        }
    }
}

/// Facts that follow from the value of `nonblank_run`.
pub proof fn lemma_nonblank_run_props(s: Seq<char>)
    ensures
        nonblank_run(s) <= s.len(),
        forall|j: int| 0 <= j < nonblank_run(s) ==> !is_blank(s[j]),
        nonblank_run(s) < s.len() ==> is_blank(s[nonblank_run(s) as int]),
    decreases s.len(),
{
    if s.len() > 0 && !is_blank(s[0]) {
        lemma_nonblank_run_props(s.skip(1));
        assert forall|j: int| 0 <= j < nonblank_run(s) implies !is_blank(s[j]) by {
            if j > 0 {
                assert(s.skip(1)[j - 1] == s[j]);
            }
        }
        if nonblank_run(s) < s.len() {
            assert(s.skip(1)[nonblank_run(s) - 1] == s[nonblank_run(s) as int]);
        }
    }
}

/// First index at or after `from` where the blank run starting there ends.
pub exec fn blank_run_end(s: &[char], from: usize) -> (r: usize)
    requires
        from <= s@.len(),
    ensures
        from <= r <= s@.len(),
        r - from == blank_run(s@.skip(from as int)),
        forall|i: int| from <= i < r ==> is_blank(s@[i]),
        r < s@.len() ==> !is_blank(s@[r as int]),
{
    let n: usize = s.len();
    let mut j: usize = from;
    while j < n && is_blank_char(s[j])
        invariant
            from <= j <= n,
            n == s@.len(),
            forall|i: int| from <= i < j ==> is_blank(s@[i]),
        decreases n - j,
    {
        j = j + 1;
    }
    proof {
        assert forall|i: int| 0 <= i < j - from implies is_blank(s@.skip(from as int)[i]) by {
            assert(s@.skip(from as int)[i] == s@[i + from]);
        }
        if j < n {
            assert(s@.skip(from as int)[j - from] == s@[j as int]);
        }
        lemma_blank_run_is(s@.skip(from as int), j - from);
    }
    j
}

/// First index at or after `from` where the blank-free run starting there
/// ends.
pub exec fn nonblank_run_end(s: &[char], from: usize) -> (r: usize)
    requires
        from <= s@.len(),
    ensures
        from <= r <= s@.len(),
        r - from == nonblank_run(s@.skip(from as int)),
        forall|i: int| from <= i < r ==> !is_blank(s@[i]),
        r < s@.len() ==> is_blank(s@[r as int]),
{
    let n: usize = s.len();
    let mut j: usize = from;
    while j < n && !is_blank_char(s[j])
        invariant
            from <= j <= n,
            n == s@.len(),
            forall|i: int| from <= i < j ==> !is_blank(s@[i]),
        decreases n - j,
    {
        j = j + 1;
    }
    proof {
        assert forall|i: int| 0 <= i < j - from implies !is_blank(s@.skip(from as int)[i]) by {
            assert(s@.skip(from as int)[i] == s@[i + from]);
        }
        if j < n {
            assert(s@.skip(from as int)[j - from] == s@[j as int]);
        }
        lemma_nonblank_run_is(s@.skip(from as int), j - from);
    }
    j
}

/// Index of the first line break at or after `from`, or the end of the text.
pub exec fn line_end(s: &[char], from: usize) -> (r: usize)
    requires
        from <= s@.len(),
    ensures
        from <= r <= s@.len(),
        r - from == line_run(s@.skip(from as int)),
        forall|i: int| from <= i < r ==> s@[i] != '\n',
        r < s@.len() ==> s@[r as int] == '\n',
{
    let n: usize = s.len();
    let mut j: usize = from;
    while j < n && s[j] != '\n'
        invariant
            from <= j <= n,
            n == s@.len(),
            forall|i: int| from <= i < j ==> s@[i] != '\n',
        decreases n - j,
    {
        j = j + 1;
    }
    proof {
        assert forall|i: int| 0 <= i < j - from implies s@.skip(from as int)[i] != '\n' by {
            assert(s@.skip(from as int)[i] == s@[i + from]);
        }
        if j < n {
            assert(s@.skip(from as int)[j - from] == s@[j as int]);
        }
        lemma_line_run_is(s@.skip(from as int), j - from);
    }
    j
}

/// Copies a string into a vector of its characters.
pub exec fn str_to_chars(s: &str) -> (r: Vec<char>)
    ensures
        r@ == s@,
{
    let n: usize = s.unicode_len();
    let mut r: Vec<char> = Vec::new();
    let mut i: usize = 0;
    while i < n
        invariant
            i <= n,
            n == s@.len(),
            r@ == s@.take(i as int),
        decreases n - i,
    {
        r.push(s.get_char(i));
        proof {
            assert(r@ =~= s@.take(i + 1));
        }
        i = i + 1;
    }
    proof {
        assert(r@ =~= s@);
    }
    r
}

/// Lexicographic order on character sequences, by code point.
pub open spec fn seq_char_le(a: Seq<char>, b: Seq<char>) -> bool
    decreases a.len(),
{
    if a.len() == 0 {
        true
    } else if b.len() == 0 {
        false
    } else if (a[0] as u32) == (b[0] as u32) {
        seq_char_le(a.skip(1), b.skip(1))
    } else {
        (a[0] as u32) < (b[0] as u32)
    }
}

/// The order is total.
pub proof fn lemma_seq_char_le_total(a: Seq<char>, b: Seq<char>)
    ensures
        seq_char_le(a, b) || seq_char_le(b, a),
    decreases a.len(),
{
    if a.len() > 0 && b.len() > 0 && (a[0] as u32) == (b[0] as u32) {
        lemma_seq_char_le_total(a.skip(1), b.skip(1));
    }
}

/// The order is transitive.
pub proof fn lemma_seq_char_le_trans(a: Seq<char>, b: Seq<char>, c: Seq<char>)
    requires
        seq_char_le(a, b),
        seq_char_le(b, c),
    ensures
        seq_char_le(a, c),
    decreases a.len(),
{
    if a.len() > 0 && b.len() > 0 && c.len() > 0 && (a[0] as u32) == (b[0] as u32) && (b[0] as u32)
        == (c[0] as u32) {
        lemma_seq_char_le_trans(a.skip(1), b.skip(1), c.skip(1));
    }
}

/// Decides the lexicographic order on two strings.
pub exec fn str_le(a: &String, b: &String) -> (r: bool)
    ensures
        r == seq_char_le(a@, b@),
{
    let av = str_to_chars(a.as_str());
    let bv = str_to_chars(b.as_str());
    let na: usize = av.len();
    let nb: usize = bv.len();
    let mut i: usize = 0;
    proof {
        assert(a@.skip(0) =~= a@);
        assert(b@.skip(0) =~= b@);
    }
    while i < na && i < nb
        invariant
            i <= na,
            i <= nb,
            na == a@.len(),
            nb == b@.len(),
            av@ == a@,
            bv@ == b@,
            seq_char_le(a@, b@) == seq_char_le(a@.skip(i as int), b@.skip(i as int)),
        decreases na - i,
    {
        let ca = av[i];
        let cb = bv[i];
        proof {
            assert(a@.skip(i as int)[0] == a@[i as int]);
            assert(b@.skip(i as int)[0] == b@[i as int]);
            assert(a@.skip(i as int).skip(1) =~= a@.skip(i as int + 1));
            assert(b@.skip(i as int).skip(1) =~= b@.skip(i as int + 1));
        }
        if (ca as u32) != (cb as u32) {
            return (ca as u32) < (cb as u32);
        }
        i = i + 1;
    }
    proof {
        if i >= na {
            assert(a@.skip(i as int).len() == 0);
        } else {
            assert(b@.skip(i as int).len() == 0);
            assert(a@.skip(i as int).len() > 0);
        }
    }
    i >= na
}

/// String equality, exposed with its view-level meaning.
pub exec fn string_eq(a: &String, b: &String) -> (r: bool)
    ensures
        r == (a@ == b@),
{
    a.eq(b)
}

/// Relies on `String`'s `FromIterator<char>` impl: collecting chars yields the
/// string of exactly those chars in order.
#[verifier::external_body]
pub exec fn chars_to_string(v: &Vec<char>) -> (r: String)
    ensures
        r@ == v@,
{
    v.iter().collect()
}

} // verus!
