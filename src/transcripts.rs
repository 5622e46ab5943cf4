use vstd::prelude::*;

use crate::line::{get_gtf_line_parts, parse_line, LineModel};

verus! {

/// One exon's coordinates, as the file gives them (1-based, inclusive).
#[derive(Debug, Clone, Copy, PartialEq, Eq, Structural)]
pub struct Exon {
    pub start_offset: i32,
    pub end_offset: i32,
}

/// A grouping as a sequence of (transcript id, exons) entries, in the order in
/// which each transcript id first matched.
pub type GroupingModel = Seq<(Seq<char>, Seq<Exon>)>;

/// The exon that a line record gives.
pub open spec fn exon_of(m: LineModel) -> Exon {
    Exon { start_offset: m.start_offset, end_offset: m.end_offset }
}

/// The line is an `exon` line of gene `gene`.
pub open spec fn line_matches(line: Seq<char>, gene: Seq<char>) -> bool {
    match parse_line(line) {
        Some(m) => m.kind == "exon"@ && m.gene_name == gene,
        None => false,
    }
}

/// The transcript id and exon of each line that matches `gene`, in file order.
pub open spec fn matching_records(lines: Seq<Seq<char>>, gene: Seq<char>) -> Seq<
    (Seq<char>, Exon),
>
    decreases lines.len(),
{
    if lines.len() == 0 {
        Seq::empty()
    } else {
        let before = matching_records(lines.drop_last(), gene);
        if line_matches(lines.last(), gene) {
            let m = parse_line(lines.last())->Some_0;
            before.push((m.transcript_id, exon_of(m)))
        } else {
            before
        }
    }
}

/// The index of the entry whose key is `t`, or `g.len()` if there is none.
pub open spec fn key_index(g: GroupingModel, t: Seq<char>) -> int
    decreases g.len(),
{
    if g.len() == 0 {
        0
    } else if g[0].0 == t {
        0
    } else {
        1 + key_index(g.drop_first(), t)
    }
}

/// `g` after one more exon of transcript `t`: appended to its entry, or in a
/// new entry at the end.
pub open spec fn add_exon(g: GroupingModel, t: Seq<char>, e: Exon) -> GroupingModel {
    let i = key_index(g, t);
    if i < g.len() {
        g.update(i, (t, g[i].1.push(e)))
    } else {
        g.push((t, seq![e]))
    }
}

/// The grouping that a sequence of records builds.
pub open spec fn grouped(recs: Seq<(Seq<char>, Exon)>) -> GroupingModel
    decreases recs.len(),
{
    if recs.len() == 0 {
        Seq::empty()
    } else {
        add_exon(grouped(recs.drop_last()), recs.last().0, recs.last().1)
    }
}

/// No two entries share a transcript id.
pub open spec fn keys_distinct(g: GroupingModel) -> bool {
    forall|i: int, j: int| 0 <= i < g.len() && 0 <= j < g.len() && i != j ==> g[i].0 != g[j].0
}

/// `i` is the key index of `t` when no earlier entry has key `t` and entry
/// `i` has it, or `i` is the end.
pub proof fn lemma_key_index(g: GroupingModel, t: Seq<char>, i: int)
    requires
        0 <= i <= g.len(),
        forall|j: int| 0 <= j < i ==> g[j].0 != t,
        i == g.len() || g[i].0 == t,
    ensures
        key_index(g, t) == i,
    decreases i,
{
    if i > 0 {
        assert(g[0].0 != t);
        assert forall|j: int| 0 <= j < i - 1 implies g.drop_first()[j].0 != t by {
            assert(g.drop_first()[j] == g[j + 1]);
        }
        lemma_key_index(g.drop_first(), t, i - 1);
    }
}

/// The key index is in bounds, names an entry with key `t` unless it is the
/// end, and no earlier entry has key `t`.
pub proof fn lemma_key_index_props(g: GroupingModel, t: Seq<char>)
    ensures
        0 <= key_index(g, t) <= g.len(),
        key_index(g, t) < g.len() ==> g[key_index(g, t)].0 == t,
        forall|j: int| 0 <= j < key_index(g, t) ==> g[j].0 != t,
    decreases g.len(),
{
    if g.len() > 0 && g[0].0 != t {
        lemma_key_index_props(g.drop_first(), t);
        assert forall|j: int| 0 <= j < key_index(g, t) implies g[j].0 != t by {
            if j > 0 {
                assert(g.drop_first()[j - 1] == g[j]);
            }
        }
    }
}

/// The model of one entry.
pub open spec fn entry_view(e: (String, Vec<Exon>)) -> (Seq<char>, Seq<Exon>) {
    (e.0@, e.1@)
}

/// Transcript id to exons, each transcript's exons in the order of the file.
pub struct Grouping {
    entries: Vec<(String, Vec<Exon>)>,
}

impl View for Grouping {
    type V = GroupingModel;

    closed spec fn view(&self) -> GroupingModel {
        self.entries@.map_values(|e: (String, Vec<Exon>)| entry_view(e))
    }
}

impl Grouping {
    /// Each transcript id has at most one entry.
    pub open spec fn wf(&self) -> bool {
        keys_distinct(self@)
    }

    /// An empty grouping.
    pub fn new() -> (r: Grouping)
        ensures
            r@ == Seq::<(Seq<char>, Seq<Exon>)>::empty(),
            r.wf(),
    {
        let r = Grouping { entries: Vec::new() };
        assert(r@ =~= Seq::<(Seq<char>, Seq<Exon>)>::empty());
        r
    }

    /// The entries, in the order in which their transcript ids first matched.
    pub fn entries(&self) -> (r: &Vec<(String, Vec<Exon>)>)
        ensures
            r@.map_values(|e: (String, Vec<Exon>)| entry_view(e)) == self@,
    {
        &self.entries
    }

    /// Appends `exon` to the entry of `transcript_id`, making the entry if
    /// there is none.
    pub fn add_exon(&mut self, transcript_id: String, exon: Exon)
        requires
            old(self).wf(),
        ensures
            final(self)@ == add_exon(old(self)@, transcript_id@, exon),
            final(self).wf(),
    {
        let ghost g = self@;
        let mut i: usize = 0;
        while i < self.entries.len() && !(self.entries[i].0 == transcript_id)
            invariant
                self@ == g,
                i <= self.entries.len(),
                forall|j: int| 0 <= j < i ==> g[j].0 != transcript_id@,
            decreases self.entries.len() - i,
        {
            assert(g[i as int] == entry_view(self.entries[i as int]));
            i = i + 1;
        }
        proof {
            if i < self.entries.len() {
                assert(g[i as int] == entry_view(self.entries[i as int]));
            }
            lemma_key_index(g, transcript_id@, i as int);
        }
        if i < self.entries.len() {
            self.entries[i].1.push(exon);
            assert(self@ =~= add_exon(g, transcript_id@, exon));
        } else {
            let mut exons: Vec<Exon> = Vec::new();
            exons.push(exon);
            self.entries.push((transcript_id, exons));
            assert(self@ =~= add_exon(g, transcript_id@, exon));
        }
    }

    /// Adds the exon of `line` when the line is an `exon` line of gene
    /// `gene_name` (exact, case-sensitive); leaves the grouping as it was
    /// otherwise, also when the line cannot be read.
    pub fn add_line(&mut self, line: &str, gene_name: &str)
        requires
            old(self).wf(),
        ensures
            final(self).wf(),
            final(self)@ == (if line_matches(line@, gene_name@) {
                let m = parse_line(line@)->Some_0;
                add_exon(old(self)@, m.transcript_id, exon_of(m))
            } else {
                old(self)@
            }),
    {
        let mut text = line.to_owned();
        let exon_kind = "exon".to_owned();
        let gene = gene_name.to_owned();
        if let Some(parts) = get_gtf_line_parts(&mut text) {
            if parts.kind == exon_kind && parts.gene_name == gene {
                let exon = Exon { start_offset: parts.start_offset, end_offset: parts.end_offset };
                self.add_exon(parts.transcript_id, exon);
            }
        }
    }
}

/// The text of each line.
pub open spec fn lines_view(lines: Seq<String>) -> Seq<Seq<char>> {
    lines.map_values(|l: String| l@)
}

/// Groups the exons of gene `gene_name` by transcript id, reading `lines` in
/// order. Lines that cannot be read are skipped.
pub fn aggregate(lines: &Vec<String>, gene_name: &str) -> (r: Grouping)
    ensures
        r.wf(),
        r@ == grouped(matching_records(lines_view(lines@), gene_name@)),
{
    let ghost ls = lines_view(lines@);
    let mut g = Grouping::new();
    let mut i: usize = 0;
    assert(ls.take(0) =~= Seq::<Seq<char>>::empty());
    while i < lines.len()
        invariant
            ls == lines_view(lines@),
            i <= lines.len(),
            g.wf(),
            g@ == grouped(matching_records(ls.take(i as int), gene_name@)),
        decreases lines.len() - i,
    {
        assert(ls.take(i + 1).drop_last() =~= ls.take(i as int));
        assert(ls.take(i + 1).last() == lines[i as int]@);
        g.add_line(lines[i].as_str(), gene_name);
        proof {
            let recs = matching_records(ls.take(i + 1), gene_name@);
            if line_matches(ls[i as int], gene_name@) {
                assert(recs.drop_last() =~= matching_records(ls.take(i as int), gene_name@));
            }
        }
        i = i + 1;
    }
    assert(ls.take(i as int) =~= ls);
    g
}

} // verus!