use vstd::prelude::*;
use vstd::std_specs::iter::IteratorSpec;

verus! {

broadcast use vstd::string::group_string_axioms;

/// The pieces of `s` between occurrences of `sep`, as `str::split` gives them:
/// always at least one piece, and `k` separators give `k + 1` pieces.
pub open spec fn split(s: Seq<char>, sep: char) -> Seq<Seq<char>>
    decreases s.len(),
{
    if s.len() == 0 {
        seq![Seq::empty()]
    } else {
        let before = split(s.drop_last(), sep);
        if s.last() == sep {
            before.push(Seq::empty())
        } else {
            before.update(before.len() - 1, before.last().push(s.last()))
        }
    }
}

/// Splitting always gives at least one piece.
pub proof fn lemma_split_nonempty(s: Seq<char>, sep: char)
    ensures
        split(s, sep).len() >= 1,
    decreases s.len(),
{
    if s.len() > 0 {
        lemma_split_nonempty(s.drop_last(), sep);
    }
}

/// The characters of `s`, one element each.
pub fn chars_of(s: &str) -> (r: Vec<char>)
    ensures
        r@ == s@,
{
    broadcast use vstd::string::next_postcondition;

    let mut it = s.chars();
    let mut r: Vec<char> = Vec::new();
    loop
        invariant
            it.obeys_prophetic_iter_laws(),
            it.decrease() is Some,
            r@ + it.remaining() == s@,
        decreases it.decrease()->0,
    {
        match it.next() {
            Some(c) => {
                r.push(c);
                assert(r@ + it.remaining() =~= s@);
            },
            None => {
                assert(r@ =~= s@);
                return r;
            },
        }
    }
}

/// Splits `s@.subrange(0, n)` on `sep`; each range `(a, b)` marks one piece.
pub fn split_ranges(s: &Vec<char>, n: usize, sep: char) -> (r: Vec<(usize, usize)>)
    requires
        n <= s.len(),
    ensures
        r.len() == split(s@.take(n as int), sep).len(),
        forall|i: int|
            0 <= i < r.len() ==> r[i].0 <= r[i].1 && r[i].1 <= n,
        forall|i: int|
            0 <= i < r.len() ==> s@.subrange(r[i].0 as int, r[i].1 as int)
                == #[trigger] split(s@.take(n as int), sep)[i],
{
    let mut r: Vec<(usize, usize)> = Vec::new();
    let mut start: usize = 0;
    let mut i: usize = 0;
    while i < n
        invariant
            n <= s.len(),
            start <= i <= n,
            r.len() + 1 == split(s@.take(i as int), sep).len(),
            forall|j: int|
                0 <= j < r.len() ==> r[j].0 <= r[j].1 && r[j].1 <= i,
            forall|j: int|
                0 <= j < r.len() ==> s@.subrange(
                    r[j].0 as int,
                    r[j].1 as int,
                ) == #[trigger] split(s@.take(i as int), sep)[j],
            split(s@.take(i as int), sep).last() == s@.subrange(start as int, i as int),
        decreases n - i,
    {
        let ghost before = split(s@.take(i as int), sep);
        proof {
            lemma_split_nonempty(s@.take(i as int), sep);
            assert(s@.take(i + 1).drop_last() =~= s@.take(i as int));
            assert(s@.take(i + 1).last() == s@[i as int]);
        }
        let ghost after = split(s@.take(i + 1), sep);
        if s[i] == sep {
            r.push((start, i));
            start = i + 1;
            proof {
                assert(after == before.push(Seq::empty()));
                assert(s@.subrange(start as int, i + 1) =~= Seq::<char>::empty());
                assert forall|j: int| 0 <= j < r.len() implies r[j].0 <= r[j].1 && r[j].1 <= i + 1
                    && s@.subrange(r[j].0 as int, r[j].1 as int) == #[trigger] after[j] by {
                    if j < r.len() - 1 {
                        assert(after[j] == before[j]);
                    }
                }
            }
        } else {
            proof {
                assert(after == before.update(before.len() - 1, before.last().push(s@[i as int])));
                assert(s@.subrange(start as int, i + 1) =~= s@.subrange(start as int, i as int).push(s@[i as int]));
                assert forall|j: int| 0 <= j < r.len() implies r[j].0 <= r[j].1 && r[j].1 <= i + 1
                    && s@.subrange(r[j].0 as int, r[j].1 as int) == #[trigger] after[j] by {
                    assert(after[j] == before[j]);
                }
            }
        }
        i = i + 1;
    }
    proof {
        lemma_split_nonempty(s@.take(n as int), sep);
    }
    let ghost before = r@;
    r.push((start, n));
    proof {
        assert forall|j: int| 0 <= j < r.len() implies r[j].0 <= r[j].1 && r[j].1 <= n
            && s@.subrange(r[j].0 as int, r[j].1 as int) == #[trigger] split(s@.take(n as int), sep)[j] by {
            if j < r.len() - 1 {
                assert(r[j] == before[j]);
            }
        }
    }
    r
}

/// Unicode whitespace (the White_Space property), the characters that
/// `char::is_whitespace` accepts: U+0009 to U+000D, U+0020, U+0085, U+00A0,
/// U+1680, U+2000 to U+200A, U+2028, U+2029, U+202F, U+205F and U+3000.
pub open spec fn is_blank(c: char) -> bool {
    let u = c as u32;
    (0x09 <= u && u <= 0x0D) || u == 0x20 || u == 0x85 || u == 0xA0 || u == 0x1680 || (0x2000
        <= u && u <= 0x200A) || u == 0x2028 || u == 0x2029 || u == 0x202F || u == 0x205F || u
        == 0x3000
}

/// `s` without its leading whitespace.
pub open spec fn trim_start(s: Seq<char>) -> Seq<char>
    decreases s.len(),
{
    if s.len() > 0 && is_blank(s[0]) {
        trim_start(s.drop_first())
    } else {
        s
    }
}

/// `s` without its trailing whitespace.
pub open spec fn trim_end(s: Seq<char>) -> Seq<char>
    decreases s.len(),
{
    if s.len() > 0 && is_blank(s.last()) {
        trim_end(s.drop_last())
    } else {
        s
    }
}

/// The index of the first whitespace character of `s`, or `s.len()` if there is none.
pub open spec fn first_blank(s: Seq<char>) -> int
    decreases s.len(),
{
    if s.len() == 0 {
        0
    } else if is_blank(s[0]) {
        0
    } else {
        1 + first_blank(s.drop_first())
    }
}

/// Tells whether `c` is whitespace.
pub fn is_blank_char(c: char) -> (r: bool)
    ensures
        r == is_blank(c),
{
    let u = c as u32;
    (0x09 <= u && u <= 0x0D) || u == 0x20 || u == 0x85 || u == 0xA0 || u == 0x1680 || (0x2000
        <= u && u <= 0x200A) || u == 0x2028 || u == 0x2029 || u == 0x202F || u == 0x205F || u
        == 0x3000
}

/// The start of `s@.subrange(a, b)` once leading whitespace is dropped.
pub fn skip_blanks(s: &Vec<char>, a: usize, b: usize) -> (r: usize)
    requires
        a <= b <= s.len(),
    ensures
        a <= r <= b,
        trim_start(s@.subrange(a as int, b as int)) == s@.subrange(r as int, b as int),
{
    let mut i = a;
    while i < b && is_blank_char(s[i])
        invariant
            a <= i <= b <= s.len(),
            trim_start(s@.subrange(a as int, b as int)) == trim_start(s@.subrange(i as int, b as int)),
        decreases b - i,
    {
        assert(s@.subrange(i as int, b as int).drop_first() =~= s@.subrange(i + 1, b as int));
        i = i + 1;
    }
    i
}

/// The end of `s@.subrange(a, b)` once trailing whitespace is dropped.
pub fn trim_blanks_end(s: &Vec<char>, a: usize, b: usize) -> (r: usize)
    requires
        a <= b <= s.len(),
    ensures
        a <= r <= b,
        trim_end(s@.subrange(a as int, b as int)) == s@.subrange(a as int, r as int),
{
    let mut i = b;
    while i > a && is_blank_char(s[i - 1])
        invariant
            a <= i <= b <= s.len(),
            trim_end(s@.subrange(a as int, b as int)) == trim_end(s@.subrange(a as int, i as int)),
        decreases i - a,
    {
        assert(s@.subrange(a as int, i as int).drop_last() =~= s@.subrange(a as int, i - 1));
        i = i - 1;
    }
    i
}

/// The position of the first whitespace character in `s@.subrange(a, b)`, or `b`.
pub fn find_blank(s: &Vec<char>, a: usize, b: usize) -> (r: usize)
    requires
        a <= b <= s.len(),
    ensures
        a <= r <= b,
        r - a == first_blank(s@.subrange(a as int, b as int)),
{
    let mut i = a;
    while i < b && !is_blank_char(s[i])
        invariant
            a <= i <= b <= s.len(),
            first_blank(s@.subrange(a as int, b as int)) == (i - a) + first_blank(
                s@.subrange(i as int, b as int),
            ),
        decreases b - i,
    {
        assert(s@.subrange(i as int, b as int).drop_first() =~= s@.subrange(i + 1, b as int));
        i = i + 1;
    }
    i
}

/// Relies on `String::push`, which appends one character at the end.
#[verifier::external_body]
pub(crate) fn push_char(s: &mut String, c: char)
    ensures
        final(s)@ == old(s)@.push(c),
{
    s.push(c)
}

/// Appends `v@.subrange(a, b)` to `s`.
pub fn push_range(s: &mut String, v: &Vec<char>, a: usize, b: usize)
    requires
        a <= b <= v.len(),
    ensures
        final(s)@ == old(s)@ + v@.subrange(a as int, b as int),
{
    let mut i = a;
    while i < b
        invariant
            a <= i <= b <= v.len(),
            s@ == old(s)@ + v@.subrange(a as int, i as int),
        decreases b - i,
    {
        push_char(s, v[i]);
        assert(s@ =~= old(s)@ + v@.subrange(a as int, i + 1));
        i = i + 1;
    }
}

/// A new string that holds `v@.subrange(a, b)`.
pub fn string_of(v: &Vec<char>, a: usize, b: usize) -> (r: String)
    requires
        a <= b <= v.len(),
    ensures
        r@ == v@.subrange(a as int, b as int),
{
    let mut r = String::new();
    push_range(&mut r, v, a, b);
    assert(r@ =~= v@.subrange(a as int, b as int));
    r
}

} // verus!
