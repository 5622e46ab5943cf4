use vstd::prelude::*;

use crate::attributes::{attribute_pairs, attribute_value, pair_view, GtfLineAttributes};
use crate::attributes::get_unquoted_string;
use crate::text::{chars_of, push_char, push_range, split, split_ranges, string_of};

verus! {

/// A decimal digit.
pub open spec fn is_digit(c: char) -> bool {
    '0' <= c && c <= '9'
}

/// Every character of `s` is a decimal digit.
pub open spec fn all_digits(s: Seq<char>) -> bool {
    forall|i: int| 0 <= i < s.len() ==> is_digit(#[trigger] s[i])
}

/// The number that a string of decimal digits writes.
pub open spec fn digits_value(s: Seq<char>) -> int
    decreases s.len(),
{
    if s.len() == 0 {
        0
    } else {
        digits_value(s.drop_last()) * 10 + (s.last() as u32 - '0' as u32)
    }
}

/// The integer that `s` writes: an optional sign, then at least one decimal digit.
pub open spec fn int_value(s: Seq<char>) -> Option<int> {
    if s.len() > 0 && (s[0] == '+' || s[0] == '-') {
        let d = s.drop_first();
        if d.len() > 0 && all_digits(d) {
            Some(if s[0] == '-' { -digits_value(d) } else { digits_value(d) })
        } else {
            None
        }
    } else if s.len() > 0 && all_digits(s) {
        Some(digits_value(s))
    } else {
        None
    }
}

/// The `i32` that `s` writes; none if `s` is no integer or does not fit.
pub open spec fn parse_i32(s: Seq<char>) -> Option<i32> {
    match int_value(s) {
        Some(v) => if i32::MIN <= v && v <= i32::MAX {
            Some(v as i32)
        } else {
            None
        },
        None => None,
    }
}

proof fn lemma_digits_prefix(s: Seq<char>, j: int)
    requires
        all_digits(s),
        0 <= j <= s.len(),
    ensures
        0 <= digits_value(s.take(j)) <= digits_value(s),
    decreases s.len(),
{
    if s.len() > 0 {
        assert(all_digits(s.drop_last()));
        if j == s.len() {
            assert(s.take(j) =~= s);
            lemma_digits_prefix(s.drop_last(), j - 1);
        } else {
            assert(s.drop_last().take(j) =~= s.take(j));
            lemma_digits_prefix(s.drop_last(), j);
            lemma_digits_prefix(s.drop_last(), s.len() - 1);
            assert(s.drop_last().take(s.len() - 1) =~= s.drop_last());
        }
    } else {
        assert(s.take(j) =~= s);
    }
}

/// Reads the `i32` that `s@.subrange(a, b)` writes.
pub fn parse_i32_range(s: &Vec<char>, a: usize, b: usize) -> (r: Option<i32>)
    requires
        a <= b <= s.len(),
    ensures
        r == parse_i32(s@.subrange(a as int, b as int)),
{
    let ghost w = s@.subrange(a as int, b as int);
    if a == b {
        return None;
    }
    let signed = s[a] == '+' || s[a] == '-';
    let negative = s[a] == '-';
    let start = if signed { a + 1 } else { a };
    let ghost d = s@.subrange(start as int, b as int);
    proof {
        assert(w[0] == s@[a as int]);
        if signed {
            assert(w.drop_first() =~= d);
        } else {
            assert(w =~= d);
        }
    }
    if start == b {
        return None;
    }
    let mut acc: u64 = 0;
    let mut i = start;
    while i < b
        invariant
            a <= start <= i <= b <= s.len(),
            d == s@.subrange(start as int, b as int),
            w == s@.subrange(a as int, b as int),
            w.len() > 0,
            signed == (w[0] == '+' || w[0] == '-'),
            negative == (w[0] == '-'),
            signed ==> w.drop_first() == d,
            !signed ==> w == d,
            d.take(i - start) == s@.subrange(start as int, i as int),
            all_digits(s@.subrange(start as int, i as int)),
            acc as int == digits_value(s@.subrange(start as int, i as int)),
            acc <= 2147483648,
        decreases b - i,
    {
        let c = s[i];
        if !('0' <= c && c <= '9') {
            assert(d[i - start] == c);
            assert(!is_digit(d[i - start]));
            return None;
        }
        let ghost prev = s@.subrange(start as int, i as int);
        assert(s@.subrange(start as int, i + 1).drop_last() =~= prev);
        acc = acc * 10 + (c as u32 - '0' as u32) as u64;
        i = i + 1;
        assert(d.take(i - start) =~= s@.subrange(start as int, i as int));
        assert(all_digits(s@.subrange(start as int, i as int)));
        if acc > 2147483648 {
            proof {
                if all_digits(d) {
                    lemma_digits_prefix(d, i - start);
                    assert(digits_value(d) > 2147483648);
                }
            }
            return None;
        }
    }
    assert(d.take(b - start) =~= d);
    if negative {
        Some((0 - acc as i64) as i32)
    } else if acc <= 2147483647 {
        Some(acc as i32)
    } else {
        None
    }
}

/// `s` without its trailing line feeds.
pub open spec fn trim_newlines(s: Seq<char>) -> Seq<char>
    decreases s.len(),
{
    if s.len() > 0 && s.last() == '\n' {
        trim_newlines(s.drop_last())
    } else {
        s
    }
}

/// The tab-separated columns of a line.
pub open spec fn line_fields(line: Seq<char>) -> Seq<Seq<char>> {
    split(trim_newlines(line), '\t')
}

/// The fields, each followed by one space.
pub open spec fn join_fields(fields: Seq<Seq<char>>) -> Seq<char>
    decreases fields.len(),
{
    if fields.len() == 0 {
        Seq::empty()
    } else {
        join_fields(fields.drop_last()) + fields.last() + seq![' ']
    }
}

/// The attribute column: the ninth field and any after it, joined by spaces.
pub open spec fn attribute_text(fields: Seq<Seq<char>>) -> Seq<char> {
    join_fields(fields.skip(8))
}

/// What one line of the file says.
pub struct LineModel {
    pub kind: Seq<char>,
    pub start_offset: i32,
    pub end_offset: i32,
    pub gene_name: Seq<char>,
    pub transcript_id: Seq<char>,
}

/// The record of a line: none where it has fewer than nine fields, or where
/// its fourth or fifth field is no `i32`.
pub open spec fn parse_line(line: Seq<char>) -> Option<LineModel> {
    let f = line_fields(line);
    if f.len() < 9 {
        None
    } else {
        match (parse_i32(f[3]), parse_i32(f[4])) {
            (Some(start), Some(end)) => {
                let pairs = attribute_pairs(attribute_text(f));
                Some(
                    LineModel {
                        kind: f[2],
                        start_offset: start,
                        end_offset: end,
                        gene_name: attribute_value(pairs, "gene_name"@),
                        transcript_id: attribute_value(pairs, "transcript_id"@),
                    },
                )
            },
            _ => None,
        }
    }
}

/// The fields of one line that matter here.
pub struct GtfLineParts {
    pub kind: String,
    pub start_offset: i32,
    pub end_offset: i32,
    pub gene_name: String,
    pub transcript_id: String,
}

impl View for GtfLineParts {
    type V = LineModel;

    open spec fn view(&self) -> LineModel {
        LineModel {
            kind: self.kind@,
            start_offset: self.start_offset,
            end_offset: self.end_offset,
            gene_name: self.gene_name@,
            transcript_id: self.transcript_id@,
        }
    }
}

/// Reads one line of the file. A trailing line feed is ignored; the line is
/// left as it was.
pub fn get_gtf_line_parts(line: &mut String) -> (r: Option<GtfLineParts>)
    ensures
        final(line)@ == old(line)@,
        match r {
            Some(p) => parse_line(old(line)@) == Some(p@),
            None => parse_line(old(line)@) is None,
        },
{
    let v = chars_of(line.as_str());
    let mut n = v.len();
    assert(v@.take(n as int) =~= v@);
    while n > 0 && v[n - 1] == '\n'
        invariant
            n <= v.len(),
            trim_newlines(v@) == trim_newlines(v@.take(n as int)),
        decreases n,
    {
        assert(v@.take(n as int).drop_last() =~= v@.take(n - 1));
        n = n - 1;
    }
    let ghost f = split(v@.take(n as int), '\t');
    assert(f == line_fields(line@));
    let fields = split_ranges(&v, n, '\t');
    if fields.len() < 9 {
        return None;
    }
    let start_offset = match parse_i32_range(&v, fields[3].0, fields[3].1) {
        Some(x) => x,
        None => {
            return None;
        },
    };
    let end_offset = match parse_i32_range(&v, fields[4].0, fields[4].1) {
        Some(x) => x,
        None => {
            return None;
        },
    };
    let ghost g = f.skip(8);
    let mut text = String::new();
    let mut k: usize = 8;
    assert(g.take(0) =~= Seq::<Seq<char>>::empty());
    while k < fields.len()
        invariant
            8 <= k <= fields.len() == f.len(),
            g == f.skip(8),
            forall|j: int| 0 <= j < fields.len() ==> fields[j].0 <= fields[j].1 && fields[j].1 <= v.len(),
            forall|j: int|
                0 <= j < fields.len() ==> v@.subrange(fields[j].0 as int, fields[j].1 as int)
                    == #[trigger] f[j],
            text@ == join_fields(g.take(k - 8)),
        decreases fields.len() - k,
    {
        assert(g.take(k - 7).drop_last() =~= g.take(k - 8));
        assert(g.take(k - 7).last() == f[k as int]);
        push_range(&mut text, &v, fields[k].0, fields[k].1);
        push_char(&mut text, ' ');
        k = k + 1;
        assert(text@ =~= join_fields(g.take(k - 8)));
    }
    assert(g.take(k - 8) =~= g);
    let attributes = GtfLineAttributes::new(text);
    let pairs = attributes.pairs();
    let ghost pv = attribute_pairs(attribute_text(f));
    let gene_key = "gene_name".to_owned();
    let transcript_key = "transcript_id".to_owned();
    proof {
        reveal_strlit("gene_name");
        reveal_strlit("transcript_id");
        assert("gene_name"@.len() == 9);
        assert("transcript_id"@.len() == 13);
        assert(gene_key@ != transcript_key@);
    }
    let mut gene_name = String::new();
    let mut transcript_id = String::new();
    let mut j: usize = 0;
    assert(pv.take(0) =~= Seq::<(Seq<char>, Seq<char>)>::empty());
    while j < pairs.len()
        invariant
            pairs@.map_values(|p: (String, String)| pair_view(p)) == pv,
            j <= pairs.len(),
            gene_key@ == "gene_name"@,
            transcript_key@ == "transcript_id"@,
            gene_key@ != transcript_key@,
            gene_name@ == attribute_value(pv.take(j as int), "gene_name"@),
            transcript_id@ == attribute_value(pv.take(j as int), "transcript_id"@),
        decreases pairs.len() - j,
    {
        assert(pv.take(j + 1).drop_last() =~= pv.take(j as int));
        assert(pv.take(j + 1).last() == pair_view(pairs[j as int]));
        if pairs[j].0 == gene_key {
            gene_name = get_unquoted_string(pairs[j].1.clone());
        } else if pairs[j].0 == transcript_key {
            transcript_id = get_unquoted_string(pairs[j].1.clone());
        }
        j = j + 1;
    }
    assert(pv.take(j as int) =~= pv);
    let kind = string_of(&v, fields[2].0, fields[2].1);
    Some(GtfLineParts { kind, start_offset, end_offset, gene_name, transcript_id })
}

} // verus!
