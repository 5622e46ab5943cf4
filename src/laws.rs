use vstd::prelude::*;

use crate::attributes::{attribute_pairs, attribute_value, key_value, pairs_of, unquote};
use crate::line::parse_line;
use crate::text::{first_blank, is_blank, split, trim_end, trim_start};
use crate::transcripts::{
    add_exon, exon_of, grouped, key_index, keys_distinct, lemma_key_index, lemma_key_index_props,
    line_matches, matching_records, Exon, GroupingModel,
};

verus! {

/// The exons of transcript `t` in a grouping; empty if it has no entry.
pub open spec fn lookup(g: GroupingModel, t: Seq<char>) -> Seq<Exon> {
    let i = key_index(g, t);
    if i < g.len() {
        g[i].1
    } else {
        Seq::empty()
    }
}

/// The exons of the records of transcript `t`, in order.
pub open spec fn exons_for(recs: Seq<(Seq<char>, Exon)>, t: Seq<char>) -> Seq<Exon>
    decreases recs.len(),
{
    if recs.len() == 0 {
        Seq::empty()
    } else {
        let before = exons_for(recs.drop_last(), t);
        if recs.last().0 == t {
            before.push(recs.last().1)
        } else {
            before
        }
    }
}

/// How many exons a grouping holds, over all its entries.
pub open spec fn exon_total(g: GroupingModel) -> int
    decreases g.len(),
{
    if g.len() == 0 {
        0
    } else {
        exon_total(g.drop_last()) + g.last().1.len()
    }
}

/// How many of `lines` are `exon` lines of gene `gene`.
pub open spec fn matching_line_count(lines: Seq<Seq<char>>, gene: Seq<char>) -> int
    decreases lines.len(),
{
    if lines.len() == 0 {
        0
    } else {
        matching_line_count(lines.drop_last(), gene) + if line_matches(lines.last(), gene) {
            1int
        } else {
            0int
        }
    }
}

proof fn lemma_lookup_add(g: GroupingModel, t2: Seq<char>, e: Exon, t: Seq<char>)
    ensures
        lookup(add_exon(g, t2, e), t) == (if t == t2 {
            lookup(g, t).push(e)
        } else {
            lookup(g, t)
        }),
{
    let i = key_index(g, t2);
    let k = key_index(g, t);
    lemma_key_index_props(g, t2);
    lemma_key_index_props(g, t);
    let g2 = add_exon(g, t2, e);
    if i < g.len() {
        if t == t2 {
            lemma_key_index(g2, t, i);
        } else {
            lemma_key_index(g2, t, k);
        }
    } else {
        if t == t2 {
            lemma_key_index(g2, t, i);
            assert(lookup(g, t) == Seq::<Exon>::empty());
            assert(seq![e] =~= Seq::<Exon>::empty().push(e));
        } else if k < g.len() {
            lemma_key_index(g2, t, k);
        } else {
            lemma_key_index(g2, t, g2.len() as int);
        }
    }
}

proof fn lemma_lookup_grouped(recs: Seq<(Seq<char>, Exon)>, t: Seq<char>)
    ensures
        lookup(grouped(recs), t) == exons_for(recs, t),
    decreases recs.len(),
{
    if recs.len() > 0 {
        lemma_lookup_grouped(recs.drop_last(), t);
        lemma_lookup_add(grouped(recs.drop_last()), recs.last().0, recs.last().1, t);
    } else {
        lemma_key_index_props(grouped(recs), t);
    }
}

proof fn lemma_add_distinct(g: GroupingModel, t: Seq<char>, e: Exon)
    requires
        keys_distinct(g),
    ensures
        keys_distinct(add_exon(g, t, e)),
{
    lemma_key_index_props(g, t);
}

proof fn lemma_grouped_distinct(recs: Seq<(Seq<char>, Exon)>)
    ensures
        keys_distinct(grouped(recs)),
    decreases recs.len(),
{
    if recs.len() > 0 {
        lemma_grouped_distinct(recs.drop_last());
        lemma_add_distinct(grouped(recs.drop_last()), recs.last().0, recs.last().1);
    }
}

/// The exons of each transcript id are the exons of its matching lines, in the
/// order of those lines in the file, whether or not the lines stand together.
pub proof fn law_order_kept(lines: Seq<Seq<char>>, gene: Seq<char>, t: Seq<char>)
    ensures
        lookup(grouped(matching_records(lines, gene)), t) == exons_for(
            matching_records(lines, gene),
            t,
        ),
        keys_distinct(grouped(matching_records(lines, gene))),
{
    lemma_lookup_grouped(matching_records(lines, gene), t);
    lemma_grouped_distinct(matching_records(lines, gene));
}

proof fn lemma_total_update(g: GroupingModel, i: int, x: (Seq<char>, Seq<Exon>))
    requires
        0 <= i < g.len(),
    ensures
        exon_total(g.update(i, x)) == exon_total(g) - g[i].1.len() + x.1.len(),
    decreases g.len(),
{
    if i < g.len() - 1 {
        assert(g.update(i, x).drop_last() =~= g.drop_last().update(i, x));
        lemma_total_update(g.drop_last(), i, x);
    } else {
        assert(g.update(i, x).drop_last() =~= g.drop_last());
    }
}

proof fn lemma_total_grouped(recs: Seq<(Seq<char>, Exon)>)
    ensures
        exon_total(grouped(recs)) == recs.len(),
    decreases recs.len(),
{
    if recs.len() > 0 {
        let g = grouped(recs.drop_last());
        let t = recs.last().0;
        lemma_total_grouped(recs.drop_last());
        lemma_key_index_props(g, t);
        let i = key_index(g, t);
        if i < g.len() {
            lemma_total_update(g, i, (t, g[i].1.push(recs.last().1)));
        } else {
            assert(g.push((t, seq![recs.last().1])).drop_last() =~= g);
        }
    }
}

proof fn lemma_records_count(lines: Seq<Seq<char>>, gene: Seq<char>)
    ensures
        matching_records(lines, gene).len() == matching_line_count(lines, gene),
    decreases lines.len(),
{
    if lines.len() > 0 {
        lemma_records_count(lines.drop_last(), gene);
    }
}

/// The grouping holds one exon for each `exon` line of the gene, no more and
/// no fewer.
pub proof fn law_exon_count(lines: Seq<Seq<char>>, gene: Seq<char>)
    ensures
        exon_total(grouped(matching_records(lines, gene))) == matching_line_count(lines, gene),
{
    lemma_total_grouped(matching_records(lines, gene));
    lemma_records_count(lines, gene);
}

proof fn lemma_exons_for_origin(recs: Seq<(Seq<char>, Exon)>, t: Seq<char>, j: int)
    requires
        0 <= j < exons_for(recs, t).len(),
    ensures
        exists|m: int|
            0 <= m < recs.len() && #[trigger] recs[m].0 == t && recs[m].1 == exons_for(recs, t)[j],
    decreases recs.len(),
{
    let before = exons_for(recs.drop_last(), t);
    if j < before.len() {
        lemma_exons_for_origin(recs.drop_last(), t, j);
        let m = choose|m: int|
            0 <= m < recs.drop_last().len() && #[trigger] recs.drop_last()[m].0 == t
                && recs.drop_last()[m].1 == before[j];
        assert(recs[m] == recs.drop_last()[m]);
    } else {
        assert(recs[recs.len() - 1].0 == t);
    }
}

proof fn lemma_records_origin(lines: Seq<Seq<char>>, gene: Seq<char>, m: int)
    requires
        0 <= m < matching_records(lines, gene).len(),
    ensures
        exists|i: int|
            0 <= i < lines.len() && line_matches(#[trigger] lines[i], gene) && matching_records(
                lines,
                gene,
            )[m] == (parse_line(lines[i])->Some_0.transcript_id, exon_of(
                parse_line(lines[i])->Some_0,
            )),
    decreases lines.len(),
{
    let before = matching_records(lines.drop_last(), gene);
    if m < before.len() {
        lemma_records_origin(lines.drop_last(), gene, m);
        let i = choose|i: int|
            0 <= i < lines.drop_last().len() && line_matches(#[trigger] lines.drop_last()[i], gene)
                && before[m] == (parse_line(lines.drop_last()[i])->Some_0.transcript_id, exon_of(
                parse_line(lines.drop_last()[i])->Some_0,
            ));
        assert(lines[i] == lines.drop_last()[i]);
    } else {
        assert(lines[lines.len() - 1] == lines.last());
    }
}

/// Every exon of the grouping comes from an `exon` line of the gene that names
/// its transcript id, and holds that line's fourth and fifth columns as they
/// stand.
pub proof fn law_exon_from_line(lines: Seq<Seq<char>>, gene: Seq<char>, k: int, j: int)
    requires
        0 <= k < grouped(matching_records(lines, gene)).len(),
        0 <= j < grouped(matching_records(lines, gene))[k].1.len(),
    ensures
        exists|i: int|
            0 <= i < lines.len() && line_matches(#[trigger] lines[i], gene) && ({
                let m = parse_line(lines[i])->Some_0;
                &&& m.transcript_id == grouped(matching_records(lines, gene))[k].0
                &&& m.start_offset == grouped(matching_records(lines, gene))[k].1[j].start_offset
                &&& m.end_offset == grouped(matching_records(lines, gene))[k].1[j].end_offset
            }),
{
    let recs = matching_records(lines, gene);
    let g = grouped(recs);
    let t = g[k].0;
    lemma_grouped_distinct(recs);
    lemma_key_index(g, t, k);
    lemma_lookup_grouped(recs, t);
    lemma_exons_for_origin(recs, t, j);
    let m = choose|m: int| 0 <= m < recs.len() && #[trigger] recs[m].0 == t && recs[m].1 == exons_for(recs, t)[j];
    lemma_records_origin(lines, gene, m);
}

/// A line that is not an `exon` line of the gene (another kind, another gene,
/// or a line that cannot be read) adds nothing to the grouping.
pub proof fn law_other_line_adds_nothing(lines: Seq<Seq<char>>, line: Seq<char>, gene: Seq<char>)
    requires
        !line_matches(line, gene),
    ensures
        grouped(matching_records(lines.push(line), gene)) == grouped(matching_records(lines, gene)),
{
    assert(lines.push(line).drop_last() =~= lines);
}

/// The grouping depends on the lines and the gene name alone: reading the same
/// lines again gives an equal grouping, entry for entry and in the same order.
pub proof fn law_same_lines_same_grouping(
    first: Seq<Seq<char>>,
    second: Seq<Seq<char>>,
    gene: Seq<char>,
)
    requires
        first == second,
    ensures
        grouped(matching_records(first, gene)) == grouped(matching_records(second, gene)),
{
}

proof fn lemma_split_without_sep(s: Seq<char>, sep: char)
    requires
        forall|i: int| 0 <= i < s.len() ==> s[i] != sep,
    ensures
        split(s, sep) == seq![s],
    decreases s.len(),
{
    if s.len() > 0 {
        lemma_split_without_sep(s.drop_last(), sep);
        assert(split(s.drop_last(), sep).last().push(s.last()) =~= s);
        assert(seq![s.drop_last()].update(0, s) =~= seq![s]);
    } else {
        assert(s =~= Seq::<char>::empty());
    }
}

proof fn lemma_first_blank_at(s: Seq<char>, k: int)
    requires
        0 <= k < s.len(),
        is_blank(s[k]),
        forall|j: int| 0 <= j < k ==> !is_blank(s[j]),
    ensures
        first_blank(s) == k,
    decreases k,
{
    if k > 0 {
        assert forall|j: int| 0 <= j < k - 1 implies !is_blank(s.drop_first()[j]) by {
            assert(s.drop_first()[j] == s[j + 1]);
        }
        lemma_first_blank_at(s.drop_first(), k - 1);
    }
}

/// The one attribute of the chunk `key` + space + `raw`, and its value.
proof fn lemma_one_pair(key: Seq<char>, raw: Seq<char>)
    requires
        key.len() > 0,
        raw.len() > 0,
        forall|i: int| 0 <= i < key.len() ==> !is_blank(#[trigger] key[i]) && key[i] != ';',
        forall|i: int| 0 <= i < raw.len() ==> #[trigger] raw[i] != ';',
        !is_blank(raw[0]),
        !is_blank(raw.last()),
    ensures
        attribute_value(attribute_pairs(key + seq![' '] + raw + seq![';']), key) == unquote(raw),
{
    let chunk = key + seq![' '] + raw;
    let text = key + seq![' '] + raw + seq![';'];
    assert forall|i: int| 0 <= i < chunk.len() implies chunk[i] != ';' by {
        if i < key.len() {
            assert(chunk[i] == key[i]);
        } else if i > key.len() {
            assert(chunk[i] == raw[i - key.len() - 1]);
        }
    }
    lemma_split_without_sep(chunk, ';');
    assert(text.drop_last() =~= chunk);
    assert(split(text, ';') == seq![chunk].push(Seq::<char>::empty()));
    let chunks = seq![chunk, Seq::<char>::empty()];
    assert(split(text, ';') =~= chunks);
    assert(chunks.drop_last() =~= seq![chunk]);
    assert(seq![chunk].drop_last() =~= Seq::<Seq<char>>::empty());
    assert(chunk[0] == key[0]);
    assert(chunk.last() == raw.last());
    assert(trim_start(chunk) == chunk);
    assert(trim_end(chunk) == chunk);
    assert forall|j: int| 0 <= j < key.len() implies !is_blank(chunk[j]) by {
        assert(chunk[j] == key[j]);
    }
    lemma_first_blank_at(chunk, key.len() as int);
    assert(chunk.take(key.len() as int) =~= key);
    assert(chunk.skip(key.len() as int).drop_first() =~= raw);
    assert(raw[0] == chunk.skip(key.len() as int).drop_first()[0]);
    assert(chunk.skip(key.len() as int)[0] == ' ');
    assert(trim_start(raw) == raw);
    assert(trim_start(chunk.skip(key.len() as int)) == trim_start(chunk.skip(key.len() as int).drop_first()));
    assert(trim_start(chunk.skip(key.len() as int)) == raw);
    assert(key_value(chunk) == Some((key, raw)));
    assert(key_value(Seq::<char>::empty()) is None);
    assert(chunks.last() == Seq::<char>::empty());
    assert(seq![chunk].last() == chunk);
    assert(pairs_of(Seq::<Seq<char>>::empty()) == Seq::<(Seq<char>, Seq<char>)>::empty());
    assert(pairs_of(seq![chunk]) == pairs_of(Seq::<Seq<char>>::empty()).push((key, raw)));
    assert(pairs_of(seq![chunk]) =~= seq![(key, raw)]);
    let pairs = pairs_of(chunks);
    assert(pairs == seq![(key, raw)]);
    assert(pairs.drop_last() =~= Seq::<(Seq<char>, Seq<char>)>::empty());
}

/// An attribute value reads the same written with double quotes
/// (`gene_name "BRCA1";`) and without (`gene_name BRCA1;`).
pub proof fn law_quoting(key: Seq<char>, value: Seq<char>)
    requires
        key.len() > 0,
        value.len() > 0,
        forall|i: int| 0 <= i < key.len() ==> !is_blank(#[trigger] key[i]) && key[i] != ';',
        forall|i: int| 0 <= i < value.len() ==> #[trigger] value[i] != ';',
        !is_blank(value[0]),
        !is_blank(value.last()),
        !(value.len() >= 2 && value[0] == '"' && value.last() == '"'),
    ensures
        attribute_value(attribute_pairs(key + seq![' ', '"'] + value + seq!['"', ';']), key) == value,
        attribute_value(attribute_pairs(key + seq![' '] + value + seq![';']), key) == value,
{
    let quoted = seq!['"'] + value + seq!['"'];
    assert forall|i: int| 0 <= i < quoted.len() implies #[trigger] quoted[i] != ';' by {
        if 0 < i < quoted.len() - 1 {
            assert(quoted[i] == value[i - 1]);
        }
    }
    lemma_one_pair(key, quoted);
    assert(key + seq![' ', '"'] + value + seq!['"', ';'] =~= key + seq![' '] + quoted + seq![';']);
    assert(quoted.subrange(1, quoted.len() - 1) =~= value);
    lemma_one_pair(key, value);
}

/// The transcript id of a line that can be read.
pub open spec fn line_transcript(line: Seq<char>) -> Seq<char> {
    parse_line(line)->Some_0.transcript_id
}

/// How many of `lines` are `exon` lines of gene `gene` with transcript id `t`.
pub open spec fn transcript_line_count(lines: Seq<Seq<char>>, gene: Seq<char>, t: Seq<char>) -> int
    decreases lines.len(),
{
    if lines.len() == 0 {
        0
    } else {
        transcript_line_count(lines.drop_last(), gene, t) + if line_matches(lines.last(), gene)
            && line_transcript(lines.last()) == t {
            1int
        } else {
            0int
        }
    }
}

/// Where the exon of line `i` stands in the grouping: the index of its
/// transcript's entry, and how many earlier lines of that transcript precede it.
pub open spec fn exon_slot(lines: Seq<Seq<char>>, gene: Seq<char>, i: int) -> (int, int) {
    let t = line_transcript(lines[i]);
    (
        key_index(grouped(matching_records(lines, gene)), t),
        transcript_line_count(lines.take(i), gene, t),
    )
}

proof fn lemma_exons_for_len(lines: Seq<Seq<char>>, gene: Seq<char>, t: Seq<char>)
    ensures
        exons_for(matching_records(lines, gene), t).len() == transcript_line_count(lines, gene, t),
    decreases lines.len(),
{
    if lines.len() > 0 {
        lemma_exons_for_len(lines.drop_last(), gene, t);
        let before = matching_records(lines.drop_last(), gene);
        if line_matches(lines.last(), gene) {
            assert(matching_records(lines, gene).drop_last() =~= before);
        }
    }
}

proof fn lemma_exon_position(lines: Seq<Seq<char>>, gene: Seq<char>, t: Seq<char>, i: int)
    requires
        0 <= i < lines.len(),
        line_matches(lines[i], gene),
        line_transcript(lines[i]) == t,
    ensures
        transcript_line_count(lines.take(i), gene, t) < exons_for(matching_records(lines, gene), t).len(),
        exons_for(matching_records(lines, gene), t)[transcript_line_count(lines.take(i), gene, t)]
            == exon_of(parse_line(lines[i])->Some_0),
    decreases lines.len(),
{
    let before = matching_records(lines.drop_last(), gene);
    lemma_exons_for_len(lines.drop_last(), gene, t);
    lemma_count_grows(lines, gene, t, 0, i);
    assert(transcript_line_count(lines.take(0), gene, t) == 0);
    if line_matches(lines.last(), gene) {
        assert(matching_records(lines, gene).drop_last() =~= before);
    }
    if i == lines.len() - 1 {
        assert(lines.take(i) =~= lines.drop_last());
        assert(lines.last() == lines[i]);
        let m = parse_line(lines[i])->Some_0;
        assert(matching_records(lines, gene) == before.push((m.transcript_id, exon_of(m))));
        assert(exons_for(matching_records(lines, gene), t) == exons_for(before, t).push(exon_of(m)));
        assert(transcript_line_count(lines.take(i), gene, t) == exons_for(before, t).len());
        assert(exons_for(matching_records(lines, gene), t)[transcript_line_count(lines.take(i), gene, t)] == exon_of(m));
    } else {
        assert(lines.drop_last().take(i) =~= lines.take(i));
        assert(lines.drop_last()[i] == lines[i]);
        lemma_exon_position(lines.drop_last(), gene, t, i);
        let recs = matching_records(lines, gene);
        let p = transcript_line_count(lines.take(i), gene, t);
        assert(p == transcript_line_count(lines.drop_last().take(i), gene, t));
        assert(p < exons_for(before, t).len());
        assert(exons_for(before, t)[p] == exon_of(parse_line(lines[i])->Some_0));
        if line_matches(lines.last(), gene) {
            if recs.last().0 == t {
                assert(exons_for(recs, t) == exons_for(before, t).push(recs.last().1));
                assert(exons_for(before, t).push(recs.last().1)[p] == exons_for(before, t)[p]);
            } else {
                assert(exons_for(recs, t) == exons_for(before, t));
            }
        } else {
            assert(recs == before);
        }
        assert(exons_for(recs, t)[p] == exon_of(parse_line(lines[i])->Some_0));
    }
}

proof fn lemma_count_grows(lines: Seq<Seq<char>>, gene: Seq<char>, t: Seq<char>, a: int, b: int)
    requires
        0 <= a <= b <= lines.len(),
    ensures
        transcript_line_count(lines.take(a), gene, t) <= transcript_line_count(lines.take(b), gene, t),
    decreases b - a,
{
    if a < b {
        lemma_count_grows(lines, gene, t, a, b - 1);
        assert(lines.take(b).drop_last() =~= lines.take(b - 1));
    }
}

proof fn lemma_line_at(lines: Seq<Seq<char>>, gene: Seq<char>, t: Seq<char>, j: int)
    requires
        0 <= j < transcript_line_count(lines, gene, t),
    ensures
        exists|i: int|
            0 <= i < lines.len() && line_matches(#[trigger] lines[i], gene) && line_transcript(lines[i])
                == t && transcript_line_count(lines.take(i), gene, t) == j,
    decreases lines.len(),
{
    if j < transcript_line_count(lines.drop_last(), gene, t) {
        lemma_line_at(lines.drop_last(), gene, t, j);
        let i = choose|i: int|
            0 <= i < lines.drop_last().len() && line_matches(#[trigger] lines.drop_last()[i], gene)
                && line_transcript(lines.drop_last()[i]) == t && transcript_line_count(
                lines.drop_last().take(i),
                gene,
                t,
            ) == j;
        assert(lines.drop_last().take(i) =~= lines.take(i));
        assert(lines[i] == lines.drop_last()[i]);
    } else {
        assert(lines.take(lines.len() - 1) =~= lines.drop_last());
        assert(lines[lines.len() - 1] == lines.last());
    }
}

/// The exon of each `exon` line of the gene stands in its slot: in the entry of
/// its transcript id, at the position given by the earlier lines of that
/// transcript, with the line's fourth and fifth columns as they stand.
pub proof fn law_exon_slot(lines: Seq<Seq<char>>, gene: Seq<char>, i: int)
    requires
        0 <= i < lines.len(),
        line_matches(lines[i], gene),
    ensures
        ({
            let g = grouped(matching_records(lines, gene));
            let (k, p) = exon_slot(lines, gene, i);
            &&& 0 <= k < g.len()
            &&& g[k].0 == line_transcript(lines[i])
            &&& 0 <= p < g[k].1.len()
            &&& g[k].1[p] == exon_of(parse_line(lines[i])->Some_0)
        }),
{
    let recs = matching_records(lines, gene);
    let g = grouped(recs);
    let t = line_transcript(lines[i]);
    lemma_exon_position(lines, gene, t, i);
    lemma_lookup_grouped(recs, t);
    lemma_key_index_props(g, t);
    lemma_count_grows(lines, gene, t, 0, i);
    assert(transcript_line_count(lines.take(0), gene, t) == 0);
}

/// Two different `exon` lines of the gene have different slots, so no exon of
/// the grouping stands for two lines.
pub proof fn law_slots_distinct(lines: Seq<Seq<char>>, gene: Seq<char>, i: int, j: int)
    requires
        0 <= i < lines.len(),
        0 <= j < lines.len(),
        i != j,
        line_matches(lines[i], gene),
        line_matches(lines[j], gene),
    ensures
        exon_slot(lines, gene, i) != exon_slot(lines, gene, j),
{
    let g = grouped(matching_records(lines, gene));
    law_exon_slot(lines, gene, i);
    law_exon_slot(lines, gene, j);
    if line_transcript(lines[i]) == line_transcript(lines[j]) {
        if i < j {
            law_order_index(lines, gene, i, j);
        } else {
            law_order_index(lines, gene, j, i);
        }
    }
}

/// Every exon of the grouping is the exon of some `exon` line of the gene:
/// the line whose slot it is.
pub proof fn law_every_slot_has_line(lines: Seq<Seq<char>>, gene: Seq<char>, k: int, j: int)
    requires
        0 <= k < grouped(matching_records(lines, gene)).len(),
        0 <= j < grouped(matching_records(lines, gene))[k].1.len(),
    ensures
        exists|i: int|
            0 <= i < lines.len() && line_matches(#[trigger] lines[i], gene) && exon_slot(lines, gene, i)
                == (k, j),
{
    let recs = matching_records(lines, gene);
    let g = grouped(recs);
    let t = g[k].0;
    lemma_grouped_distinct(recs);
    lemma_key_index(g, t, k);
    lemma_lookup_grouped(recs, t);
    lemma_exons_for_len(lines, gene, t);
    lemma_line_at(lines, gene, t, j);
    let i = choose|i: int|
        0 <= i < lines.len() && line_matches(#[trigger] lines[i], gene) && line_transcript(lines[i])
            == t && transcript_line_count(lines.take(i), gene, t) == j;
    assert(exon_slot(lines, gene, i) == (k, j));
}

/// Of two `exon` lines of the gene with the same transcript id, the earlier
/// line's exon comes first in that transcript's entry, whatever lies between.
pub proof fn law_order_index(lines: Seq<Seq<char>>, gene: Seq<char>, i: int, j: int)
    requires
        0 <= i < j < lines.len(),
        line_matches(lines[i], gene),
        line_matches(lines[j], gene),
        line_transcript(lines[i]) == line_transcript(lines[j]),
    ensures
        exon_slot(lines, gene, i).0 == exon_slot(lines, gene, j).0,
        exon_slot(lines, gene, i).1 < exon_slot(lines, gene, j).1,
{
    let t = line_transcript(lines[i]);
    lemma_count_grows(lines, gene, t, i + 1, j);
    assert(lines.take(i + 1).drop_last() =~= lines.take(i));
    assert(lines.take(i + 1).last() == lines[i]);
}

} // verus!
