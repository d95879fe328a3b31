//! Character and string utilities shared by the configuration and path logic.
use vstd::prelude::*;

verus! {

/// `String::push`: the string gains `c` at its end.
#[verifier::external_body]
pub(crate) fn push_char(s: &mut String, c: char)
    ensures
        final(s)@ == old(s)@.push(c),
{
    s.push(c)
}

/// The characters of a string slice, in order.
pub fn chars_of(s: &str) -> (v: Vec<char>)
    ensures
        v@ == s@,
{
    let mut v: Vec<char> = Vec::new();
    for c in it: s.chars()
        invariant
            v@ == it.seq().take(it.index() as int),
            it.seq() == s@,
    {
        v.push(c);
    }
    v
}

/// A string holding the given characters.
pub fn string_of(v: &[char]) -> (s: String)
    ensures
        s@ == v@,
{
    let mut s = String::new();
    let mut i: usize = 0;
    while i < v.len()
        invariant
            i <= v.len(),
            s@ == v@.take(i as int),
        decreases v.len() - i,
    {
        push_char(&mut s, v[i]);
        assert(v@.take(i as int).push(v@[i as int]) =~= v@.take(i + 1));
        i += 1;
    }
    assert(v@.take(v.len() as int) =~= v@);
    s
}

} // verus!

verus! {

/// The views of a sequence of character vectors.
pub open spec fn char_views(v: Seq<Vec<char>>) -> Seq<Seq<char>> {
    v.map_values(|x: Vec<char>| x@)
}

/// The views of a sequence of strings.
pub open spec fn string_views(v: Seq<String>) -> Seq<Seq<char>> {
    v.map_values(|x: String| x@)
}

/// The pieces of `s` between occurrences of `sep`, as `str::split` with a
/// `char` pattern yields them: empty pieces included, always at least one.
pub open spec fn split(s: Seq<char>, sep: char) -> Seq<Seq<char>>
    decreases s.len(),
{
    if s.len() == 0 {
        seq![Seq::<char>::empty()]
    } else {
        let p = split(s.drop_last(), sep);
        if s.last() == sep {
            p.push(Seq::<char>::empty())
        } else {
            p.update(p.len() - 1, p.last().push(s.last()))
        }
    }
}

/// `split` never yields an empty list of pieces.
pub proof fn lemma_split_nonempty(s: Seq<char>, sep: char)
    ensures
        split(s, sep).len() >= 1,
    decreases s.len(),
{
    if s.len() > 0 {
        lemma_split_nonempty(s.drop_last(), sep);
    }
}

/// Splits a character sequence at every `sep`.
pub fn split_chars(v: &[char], sep: char) -> (r: Vec<Vec<char>>)
    ensures
        char_views(r@) == split(v@, sep),
{
    let mut done: Vec<Vec<char>> = Vec::new();
    let mut cur: Vec<char> = Vec::new();
    let mut i: usize = 0;
    assert(v@.take(0) =~= Seq::<char>::empty());
    assert(char_views(done@).push(cur@) =~= split(v@.take(0), sep));
    while i < v.len()
        invariant
            i <= v.len(),
            char_views(done@).push(cur@) == split(v@.take(i as int), sep),
        decreases v.len() - i,
    {
        let c = v[i];
        let ghost pre = v@.take(i as int);
        let ghost next = v@.take(i + 1);
        assert(next.drop_last() =~= pre);
        assert(next.last() == c);
        proof {
            lemma_split_nonempty(pre, sep);
        }
        if c == sep {
            done.push(cur);
            cur = Vec::new();
            assert(char_views(done@).push(cur@) =~= split(pre, sep).push(Seq::<char>::empty()));
        } else {
            let ghost old_cur = cur@;
            cur.push(c);
            assert(char_views(done@).push(cur@) =~= split(pre, sep).update(
                split(pre, sep).len() - 1,
                old_cur.push(c),
            ));
        }
        i += 1;
    }
    assert(v@.take(v.len() as int) =~= v@);
    done.push(cur);
    assert(char_views(done@) =~= split(v@, sep));
    done
}

/// Whether `c` is white space in the sense of Unicode's `White_Space`
/// property, which `char::is_whitespace` and `str::trim` use.
pub open spec fn is_ws(c: char) -> bool {
    let u = c as u32;
    ||| 0x09 <= u <= 0x0D
    ||| u == 0x20
    ||| u == 0x85
    ||| u == 0xA0
    ||| u == 0x1680
    ||| 0x2000 <= u <= 0x200A
    ||| u == 0x2028
    ||| u == 0x2029
    ||| u == 0x202F
    ||| u == 0x205F
    ||| u == 0x3000
}

/// `s` without its leading white space.
pub open spec fn trim_start(s: Seq<char>) -> Seq<char>
    decreases s.len(),
{
    if s.len() > 0 && is_ws(s[0]) {
        trim_start(s.drop_first())
    } else {
        s
    }
}

/// `s` without its trailing white space.
pub open spec fn trim_end(s: Seq<char>) -> Seq<char>
    decreases s.len(),
{
    if s.len() > 0 && is_ws(s.last()) {
        trim_end(s.drop_last())
    } else {
        s
    }
}

/// `s` without leading and trailing white space, as `str::trim` gives it.
pub open spec fn trim(s: Seq<char>) -> Seq<char> {
    trim_end(trim_start(s))
}

/// Executable white-space test.
pub fn is_whitespace(c: char) -> (b: bool)
    ensures
        b == is_ws(c),
{
    let u = c as u32;
    (0x09 <= u && u <= 0x0D) || u == 0x20 || u == 0x85 || u == 0xA0 || u == 0x1680 || (0x2000
        <= u && u <= 0x200A) || u == 0x2028 || u == 0x2029 || u == 0x202F || u == 0x205F || u
        == 0x3000
}

/// Removes leading and trailing white space.
pub fn trim_chars(v: &[char]) -> (r: Vec<char>)
    ensures
        r@ == trim(v@),
{
    let n = v.len();
    let mut a: usize = 0;
    assert(v@.skip(0) =~= v@);
    while a < n && is_whitespace(v[a])
        invariant
            a <= n,
            n == v@.len(),
            trim_start(v@) == trim_start(v@.skip(a as int)),
        decreases n - a,
    {
        assert(v@.skip(a as int).drop_first() =~= v@.skip(a + 1));
        a += 1;
    }
    assert(trim_start(v@) == v@.skip(a as int));
    let mut b: usize = n;
    assert(v@.subrange(a as int, n as int) =~= v@.skip(a as int));
    while b > a && is_whitespace(v[b - 1])
        invariant
            a <= b <= n,
            n == v@.len(),
            trim_end(v@.skip(a as int)) == trim_end(v@.subrange(a as int, b as int)),
        decreases b - a,
    {
        assert(v@.subrange(a as int, b as int).drop_last() =~= v@.subrange(a as int, b - 1));
        b -= 1;
    }
    assert(trim_end(v@.subrange(a as int, b as int)) == v@.subrange(a as int, b as int));
    let mut r: Vec<char> = Vec::new();
    let mut k: usize = a;
    while k < b
        invariant
            a <= k <= b <= n,
            n == v@.len(),
            r@ == v@.subrange(a as int, k as int),
        decreases b - k,
    {
        r.push(v[k]);
        assert(v@.subrange(a as int, k + 1) =~= v@.subrange(a as int, k as int).push(v@[k as int]));
        k += 1;
    }
    r
}

} // verus!

verus! {

/// `needle` occurs in `hay` starting at index `i`.
pub open spec fn occurs_at(hay: Seq<u8>, needle: Seq<u8>, i: int) -> bool {
    0 <= i && i + needle.len() <= hay.len() && hay.subrange(i, i + needle.len()) == needle
}

/// `needle` occurs somewhere in `hay` (an empty needle occurs everywhere).
pub open spec fn contains_bytes(hay: Seq<u8>, needle: Seq<u8>) -> bool {
    exists|i: int| occurs_at(hay, needle, i)
}

/// The first index at which `needle` occurs in `hay`, as `str::find` reports it.
pub fn find_bytes(hay: &[u8], needle: &[u8]) -> (r: Option<usize>)
    ensures
        match r {
            Some(i) => occurs_at(hay@, needle@, i as int) && forall|j: int|
                0 <= j < i ==> !occurs_at(hay@, needle@, j),
            None => !contains_bytes(hay@, needle@),
        },
{
    if needle.len() > hay.len() {
        return None;
    }
    let last = hay.len() - needle.len();
    let mut i: usize = 0;
    loop
        invariant
            i <= last,
            last == hay@.len() - needle@.len(),
            forall|j: int| 0 <= j < i ==> !occurs_at(hay@, needle@, j),
        decreases last - i,
    {
        let mut k: usize = 0;
        let mut same = true;
        assert(hay@.subrange(i as int, i as int) =~= needle@.subrange(0, 0));
        while k < needle.len()
            invariant
                i <= last,
                last == hay@.len() - needle@.len(),
                needle@.len() <= hay@.len(),
                k <= needle@.len(),
                same == (hay@.subrange(i as int, i + k) == needle@.subrange(0, k as int)),
            decreases needle@.len() - k,
        {
            let hl = hay.len();
            assert(i + k < hl);
            if hay[i + k] != needle[k] {
                same = false;
                assert(hay@.subrange(i as int, i + k + 1)[k as int] != needle@.subrange(
                    0,
                    k + 1,
                )[k as int]);
            } else if same {
                assert(hay@.subrange(i as int, i + k + 1) =~= hay@.subrange(i as int, i + k).push(
                    hay@[i + k],
                ));
                assert(needle@.subrange(0, k + 1) =~= needle@.subrange(0, k as int).push(
                    needle@[k as int],
                ));
            }
            if !same {
                assert(hay@.subrange(i as int, i + k + 1) != needle@.subrange(0, k + 1)) by {
                    if hay@.subrange(i as int, i + k + 1) == needle@.subrange(0, k + 1) {
                        assert(hay@.subrange(i as int, i + k) =~= hay@.subrange(i as int, i + k
                            + 1).take(k as int));
                        assert(needle@.subrange(0, k as int) =~= needle@.subrange(0, k + 1).take(
                            k as int,
                        ));
                    }
                }
            }
            k += 1;
        }
        assert(needle@.subrange(0, needle@.len() as int) =~= needle@);
        if same {
            return Some(i);
        }
        if i == last {
            assert forall|j: int| !occurs_at(hay@, needle@, j) by {
                if 0 <= j && j + needle@.len() <= hay@.len() {
                    assert(j <= i);
                }
            }
            return None;
        }
        i += 1;
    }
}

/// An ASCII decimal digit.
pub open spec fn is_digit(c: char) -> bool {
    '0' <= c <= '9'
}

/// Every character of `s` is a decimal digit.
pub open spec fn all_digits(s: Seq<char>) -> bool {
    forall|i: int| 0 <= i < s.len() ==> is_digit(#[trigger] s[i])
}

/// The number that the decimal digits `s` write.
pub open spec fn digits_value(s: Seq<char>) -> nat
    decreases s.len(),
{
    if s.len() == 0 {
        0
    } else {
        digits_value(s.drop_last()) * 10 + ((s.last() as u32) - ('0' as u32)) as nat
    }
}

/// What `u64::from_str_radix(s, 10)` gives: an optional `+`, then one or more
/// digits whose value fits in a `u64`.
pub open spec fn parse_u64(s: Seq<char>) -> Option<u64> {
    let d = if s.len() > 0 && s[0] == '+' {
        s.drop_first()
    } else {
        s
    };
    if d.len() > 0 && all_digits(d) && digits_value(d) <= u64::MAX {
        Some(digits_value(d) as u64)
    } else {
        None
    }
}

/// What `i64::from_str_radix(s, 10)` gives: an optional `+` or `-`, then one or
/// more digits whose signed value fits in an `i64`.
pub open spec fn parse_i64(s: Seq<char>) -> Option<i64> {
    let signed = s.len() > 0 && (s[0] == '+' || s[0] == '-');
    let d = if signed {
        s.drop_first()
    } else {
        s
    };
    let v: int = if s.len() > 0 && s[0] == '-' {
        -(digits_value(d) as int)
    } else {
        digits_value(d) as int
    };
    if d.len() > 0 && all_digits(d) && i64::MIN <= v <= i64::MAX {
        Some(v as i64)
    } else {
        None
    }
}

proof fn lemma_digits_value_monotone(s: Seq<char>, i: int)
    requires
        0 <= i <= s.len(),
        all_digits(s),
    ensures
        digits_value(s.take(i)) <= digits_value(s),
    decreases s.len() - i,
{
    if i < s.len() {
        lemma_digits_value_monotone(s, i + 1);
        assert(s.take(i + 1).drop_last() =~= s.take(i));
    } else {
        assert(s.take(i) =~= s);
    }
}

/// Reads the digits of `d` as a `u64`, `None` when one is not a digit, when
/// there are none, or when the value does not fit.
fn digits_u64(d: &[char]) -> (r: Option<u64>)
    ensures
        r == (if d@.len() > 0 && all_digits(d@) && digits_value(d@) <= u64::MAX {
            Some(digits_value(d@) as u64)
        } else {
            None::<u64>
        }),
{
    if d.len() == 0 {
        return None;
    }
    let mut acc: u64 = 0;
    let mut i: usize = 0;
    assert(d@.take(0) =~= Seq::<char>::empty());
    while i < d.len()
        invariant
            i <= d@.len(),
            all_digits(d@.take(i as int)),
            acc as nat == digits_value(d@.take(i as int)),
        decreases d.len() - i,
    {
        let c = d[i];
        assert(d@.take(i + 1).drop_last() =~= d@.take(i as int));
        if !('0' <= c && c <= '9') {
            assert(!is_digit(d@[i as int]));
            return None;
        }
        let dv = (c as u32 - '0' as u32) as u64;
        match acc.checked_mul(10) {
            None => {
                proof {
                    assert(all_digits(d@.take(i + 1)));
                    if all_digits(d@) {
                        lemma_digits_value_monotone(d@, i + 1);
                    }
                }
                return None;
            },
            Some(m) => match m.checked_add(dv) {
                None => {
                    proof {
                        assert(all_digits(d@.take(i + 1)));
                        if all_digits(d@) {
                            lemma_digits_value_monotone(d@, i + 1);
                        }
                    }
                    return None;
                },
                Some(n) => {
                    acc = n;
                },
            },
        }
        assert(all_digits(d@.take(i + 1)));
        i += 1;
    }
    assert(d@.take(d@.len() as int) =~= d@);
    Some(acc)
}

/// `u64::from_str_radix(s, 10)` on the characters `s`.
pub fn parse_u64_chars(s: &[char]) -> (r: Option<u64>)
    ensures
        r == parse_u64(s@),
{
    if s.len() > 0 && s[0] == '+' {
        let rest = slice_from(s, 1);
        assert(rest@ =~= s@.drop_first());
        digits_u64(&rest)
    } else {
        digits_u64(s)
    }
}

/// `i64::from_str_radix(s, 10)` on the characters `s`.
pub fn parse_i64_chars(s: &[char]) -> (r: Option<i64>)
    ensures
        r == parse_i64(s@),
{
    let neg = s.len() > 0 && s[0] == '-';
    let signed = s.len() > 0 && (s[0] == '+' || s[0] == '-');
    let d = if signed {
        slice_from(s, 1)
    } else {
        slice_from(s, 0)
    };
    assert(signed ==> d@ =~= s@.drop_first());
    assert(!signed ==> d@ =~= s@);
    match digits_u64(&d) {
        None => {
            proof {
                if d@.len() > 0 && all_digits(d@) {
                    assert(digits_value(d@) > u64::MAX);
                }
            }
            None
        },
        Some(m) => {
            if neg {
                if m <= 0x8000_0000_0000_0000 {
                    if m == 0x8000_0000_0000_0000 {
                        Some(i64::MIN)
                    } else {
                        Some(-(m as i64))
                    }
                } else {
                    None
                }
            } else {
                if m <= 0x7fff_ffff_ffff_ffff {
                    Some(m as i64)
                } else {
                    None
                }
            }
        },
    }
}

/// The characters of `s` from index `start` on.
pub fn slice_from(s: &[char], start: usize) -> (r: Vec<char>)
    requires
        start <= s@.len(),
    ensures
        r@ == s@.skip(start as int),
{
    let mut r: Vec<char> = Vec::new();
    let mut k: usize = start;
    while k < s.len()
        invariant
            start <= k <= s@.len(),
            r@ == s@.subrange(start as int, k as int),
        decreases s.len() - k,
    {
        r.push(s[k]);
        assert(s@.subrange(start as int, k + 1) =~= s@.subrange(start as int, k as int).push(
            s@[k as int],
        ));
        k += 1;
    }
    r
}

/// The characters of `s` from `start` up to, not including, `end`.
pub fn slice_range(s: &[char], start: usize, end: usize) -> (r: Vec<char>)
    requires
        start <= end <= s@.len(),
    ensures
        r@ == s@.subrange(start as int, end as int),
{
    let mut r: Vec<char> = Vec::new();
    let mut k: usize = start;
    while k < end
        invariant
            start <= k <= end <= s@.len(),
            r@ == s@.subrange(start as int, k as int),
        decreases end - k,
    {
        r.push(s[k]);
        assert(s@.subrange(start as int, k + 1) =~= s@.subrange(start as int, k as int).push(
            s@[k as int],
        ));
        k += 1;
    }
    r
}

/// The index of the first `c` in `s`, as `Seq::index_of_first` describes it.
pub fn first_index(s: &[char], c: char) -> (r: Option<usize>)
    ensures
        match r {
            Some(i) => i < s@.len() && s@[i as int] == c && forall|j: int|
                0 <= j < i ==> s@[j] != c,
            None => !s@.contains(c),
        },
        r matches Some(i) ==> s@.index_of_first(c) == Some(i as int),
        r is None ==> s@.index_of_first(c) is None,
{
    let mut i: usize = 0;
    while i < s.len()
        invariant
            i <= s@.len(),
            forall|j: int| 0 <= j < i ==> s@[j] != c,
        decreases s.len() - i,
    {
        if s[i] == c {
            proof {
                s@.index_of_first_ensures(c);
            }
            return Some(i);
        }
        i += 1;
    }
    proof {
        s@.index_of_first_ensures(c);
    }
    None
}

} // verus!

verus! {

/// What `usize::from_str_radix(s, 10)` gives: an optional `+`, then one or
/// more digits whose value fits in a `usize`.
pub open spec fn parse_usize(s: Seq<char>) -> Option<usize> {
    let d = if s.len() > 0 && s[0] == '+' {
        s.drop_first()
    } else {
        s
    };
    if d.len() > 0 && all_digits(d) && digits_value(d) <= usize::MAX {
        Some(digits_value(d) as usize)
    } else {
        None
    }
}

/// `usize::from_str_radix(s, 10)` on the characters `s`.
pub fn parse_usize_chars(s: &[char]) -> (r: Option<usize>)
    ensures
        r == parse_usize(s@),
{
    let d = if s.len() > 0 && s[0] == '+' {
        slice_from(s, 1)
    } else {
        slice_from(s, 0)
    };
    assert(s@.len() > 0 && s@[0] == '+' ==> d@ =~= s@.drop_first());
    assert(!(s@.len() > 0 && s@[0] == '+') ==> d@ =~= s@);
    match digits_u64(&d) {
        None => {
            proof {
                if d@.len() > 0 && all_digits(d@) {
                    assert(digits_value(d@) > u64::MAX);
                }
            }
            None
        },
        Some(m) => {
            if m as u128 <= usize::MAX as u128 {
                Some(m as usize)
            } else {
                None
            }
        },
    }
}

} // verus!

verus! {

proof fn lemma_split_step_concat(x: Seq<Seq<char>>, y: Seq<Seq<char>>, c: char, sep: char)
    requires
        y.len() >= 1,
    ensures
        (if c == sep {
            (x + y).push(Seq::<char>::empty())
        } else {
            (x + y).update((x + y).len() - 1, (x + y).last().push(c))
        }) =~= x + (if c == sep {
            y.push(Seq::<char>::empty())
        } else {
            y.update(y.len() - 1, y.last().push(c))
        }),
{
}

/// Splitting two texts joined by the separator gives the pieces of the
/// first followed by the pieces of the second.
pub proof fn lemma_split_join(a: Seq<char>, b: Seq<char>, sep: char)
    ensures
        split(a + seq![sep] + b, sep) == split(a, sep) + split(b, sep),
    decreases b.len(),
{
    let s = a + seq![sep] + b;
    if b.len() == 0 {
        assert(s =~= a.push(sep));
        assert(s.drop_last() =~= a);
        assert(split(a, sep).push(Seq::<char>::empty()) =~= split(a, sep) + split(b, sep));
    } else {
        assert(s.drop_last() =~= a + seq![sep] + b.drop_last());
        assert(s.last() == b.last());
        lemma_split_join(a, b.drop_last(), sep);
        lemma_split_nonempty(b.drop_last(), sep);
        lemma_split_step_concat(split(a, sep), split(b.drop_last(), sep), b.last(), sep);
    }
}

} // verus!

verus! {

/// Whether the characters `v` spell `w`.
pub fn same_chars(v: &[char], w: &[char]) -> (b: bool)
    ensures
        b == (v@ == w@),
{
    if v.len() != w.len() {
        return false;
    }
    let mut i: usize = 0;
    while i < v.len()
        invariant
            i <= v@.len(),
            v@.len() == w@.len(),
            forall|j: int| 0 <= j < i ==> v@[j] == w@[j],
        decreases v.len() - i,
    {
        if v[i] != w[i] {
            return false;
        }
        i += 1;
    }
    assert(v@ =~= w@);
    true
}

} // verus!

verus! {

/// A text without the separator is a single piece.
pub proof fn lemma_split_without_sep(s: Seq<char>, sep: char)
    requires
        !s.contains(sep),
    ensures
        split(s, sep) == seq![s],
    decreases s.len(),
{
    if s.len() > 0 {
        assert(!s.drop_last().contains(sep)) by {
            if s.drop_last().contains(sep) {
                let k = choose|k: int| 0 <= k < s.drop_last().len() && s.drop_last()[k] == sep;
                assert(s[k] == sep);
            }
        }
        lemma_split_without_sep(s.drop_last(), sep);
        assert(s.last() != sep) by {
            assert(s[s.len() - 1] == s.last());
        }
        assert(s.drop_last().push(s.last()) =~= s);
    } else {
        assert(s =~= Seq::<char>::empty());
    }
}

} // verus!
