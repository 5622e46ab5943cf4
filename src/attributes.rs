use vstd::prelude::*;

use crate::text::{
    chars_of, find_blank, first_blank, skip_blanks, split, split_ranges, string_of, trim_blanks_end,
    trim_end, trim_start,
};

verus! {

/// `s` without one enclosing pair of double quotes, if it has one.
pub open spec fn unquote(s: Seq<char>) -> Seq<char> {
    if s.len() >= 2 && s[0] == '"' && s.last() == '"' {
        s.subrange(1, s.len() - 1)
    } else {
        s
    }
}

/// The key and the raw value of one `;`-separated chunk of the attribute column:
/// the trimmed chunk is cut at its first run of whitespace. A chunk with no
/// whitespace inside (an empty or blank one among them) gives no pair.
pub open spec fn key_value(chunk: Seq<char>) -> Option<(Seq<char>, Seq<char>)> {
    let t = trim_end(trim_start(chunk));
    let k = first_blank(t);
    if k < t.len() {
        Some((t.take(k), trim_start(t.skip(k))))
    } else {
        None
    }
}

/// The pairs of the chunks that give one, in order.
pub open spec fn pairs_of(chunks: Seq<Seq<char>>) -> Seq<(Seq<char>, Seq<char>)>
    decreases chunks.len(),
{
    if chunks.len() == 0 {
        Seq::empty()
    } else {
        let before = pairs_of(chunks.drop_last());
        match key_value(chunks.last()) {
            Some(kv) => before.push(kv),
            None => before,
        }
    }
}

/// The key/value pairs of an attribute column.
pub open spec fn attribute_pairs(text: Seq<char>) -> Seq<(Seq<char>, Seq<char>)> {
    pairs_of(split(text, ';'))
}

/// The unquoted value of the last pair whose key is `key`; empty if there is none.
pub open spec fn attribute_value(pairs: Seq<(Seq<char>, Seq<char>)>, key: Seq<char>) -> Seq<char>
    decreases pairs.len(),
{
    if pairs.len() == 0 {
        Seq::empty()
    } else if pairs.last().0 == key {
        unquote(pairs.last().1)
    } else {
        attribute_value(pairs.drop_last(), key)
    }
}

/// Strips one enclosing pair of double quotes from an attribute value.
pub fn get_unquoted_string(possibly_quoted: String) -> (r: String)
    ensures
        r@ == unquote(possibly_quoted@),
{
    let v = chars_of(possibly_quoted.as_str());
    let n = v.len();
    if n >= 2 && v[0] == '"' && v[n - 1] == '"' {
        string_of(&v, 1, n - 1)
    } else {
        assert(v@.subrange(0, n as int) =~= v@);
        string_of(&v, 0, n)
    }
}

/// The key/value pairs of one attribute column, read in one pass.
pub struct GtfLineAttributes {
    pairs: Vec<(String, String)>,
}

/// The model of one key/value pair.
pub open spec fn pair_view(p: (String, String)) -> (Seq<char>, Seq<char>) {
    (p.0@, p.1@)
}

impl View for GtfLineAttributes {
    type V = Seq<(Seq<char>, Seq<char>)>;

    closed spec fn view(&self) -> Seq<(Seq<char>, Seq<char>)> {
        self.pairs@.map_values(|p: (String, String)| pair_view(p))
    }
}

impl GtfLineAttributes {
    /// Splits `attribute_string` on `;` and keeps each chunk that holds a key
    /// and a value.
    pub fn new(attribute_string: String) -> (r: GtfLineAttributes)
        ensures
            r@ == attribute_pairs(attribute_string@),
    {
        let v = chars_of(attribute_string.as_str());
        let chunks = split_ranges(&v, v.len(), ';');
        let ghost parts = split(v@.take(v.len() as int), ';');
        assert(v@.take(v.len() as int) =~= v@);
        let mut pairs: Vec<(String, String)> = Vec::new();
        let mut i: usize = 0;
        while i < chunks.len()
            invariant
                chunks.len() == parts.len(),
                forall|j: int|
                    0 <= j < chunks.len() ==> chunks[j].0 <= chunks[j].1 && chunks[j].1 <= v.len(),
                forall|j: int|
                    0 <= j < chunks.len() ==> v@.subrange(chunks[j].0 as int, chunks[j].1 as int)
                        == #[trigger] parts[j],
                0 <= i <= chunks.len(),
                pairs@.map_values(|p: (String, String)| pair_view(p)) == pairs_of(parts.take(i as int)),
            decreases chunks.len() - i,
        {
            let (c0, c1) = chunks[i];
            let a = skip_blanks(&v, c0, c1);
            let b = trim_blanks_end(&v, a, c1);
            let k = find_blank(&v, a, b);
            let ghost t = v@.subrange(a as int, b as int);
            proof {
                assert(parts.take(i + 1).drop_last() =~= parts.take(i as int));
                assert(parts.take(i + 1).last() == parts[i as int]);
                assert(trim_end(trim_start(parts[i as int])) == t);
            }
            if k < b {
                let va = skip_blanks(&v, k, b);
                let key = string_of(&v, a, k);
                let value = string_of(&v, va, b);
                let ghost before = pairs@;
                pairs.push((key, value));
                proof {
                    assert(t.take(k - a) =~= v@.subrange(a as int, k as int));
                    assert(t.skip(k - a) =~= v@.subrange(k as int, b as int));
                    assert(pairs@.map_values(|p: (String, String)| pair_view(p)) =~= before.map_values(
                        |p: (String, String)| pair_view(p),
                    ).push((key@, value@)));
                }
            }
            i = i + 1;
        }
        assert(parts.take(chunks.len() as int) =~= parts);
        GtfLineAttributes { pairs }
    }

    /// The pairs, in the order of the column.
    pub fn pairs(&self) -> (r: &Vec<(String, String)>)
        ensures
            r@.map_values(|p: (String, String)| pair_view(p)) == self@,
    {
        &self.pairs
    }
}

} // verus!
