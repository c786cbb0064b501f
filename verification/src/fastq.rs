//! FASTQ records: four consecutive text lines form one record.

use crate::utils;
use vstd::prelude::*;

verus! {

/// Index of the first space in `s`, or `s.len()` when there is none.
pub open spec fn first_space(s: Seq<char>) -> int
    decreases s.len(),
{
    if s.len() == 0 {
        0
    } else if s[0] == ' ' {
        0
    } else {
        1 + first_space(s.drop_first())
    }
}

/// The name part of a header line: everything before the first space, or
/// the whole line when it has no space.
pub open spec fn name_of(id: Seq<char>) -> Seq<char> {
    id.take(first_space(id))
}

/// The description part of a header line: everything after the first
/// space, or nothing when the line has no space.
pub open spec fn desc_of(id: Seq<char>) -> Option<Seq<char>> {
    if first_space(id) < id.len() {
        Some(id.skip(first_space(id) + 1))
    } else {
        None
    }
}

/// `first_space` is exactly the index before which no space stands.
proof fn lemma_first_space(s: Seq<char>, k: int)
    requires
        0 <= k <= s.len(),
        forall|j: int| 0 <= j < k ==> s[j] != ' ',
        k < s.len() ==> s[k] == ' ',
    ensures
        first_space(s) == k,
    decreases s.len(),
{
    if s.len() == 0 {
    } else if s[0] == ' ' {
        assert(k == 0);
    } else {
        let t = s.drop_first();
        assert(t =~= s.subrange(1, s.len() as int));
        assert(forall|j: int| 0 <= j < k - 1 ==> t[j] == s[j + 1]);
        lemma_first_space(t, k - 1);
    }
}

/// One FASTQ read: the four lines it was built from, stored verbatim.
#[allow(non_camel_case_types)]
#[derive(Debug, PartialEq, Eq)]
pub struct record {
    /// Header line: name, then an optional description after the first space.
    pub id: String,
    /// Raw sequence text, unvalidated.
    pub seq: String,
    /// Separator line, stored verbatim, unchecked.
    pub symbol: String,
    /// Raw quality string, unvalidated and not length-checked against `seq`.
    pub qual: String,
}

/// The mathematical model of a record: its four lines as character
/// sequences.
#[verifier::ext_equal]
pub struct RecordModel {
    pub id: Seq<char>,
    pub seq: Seq<char>,
    pub symbol: Seq<char>,
    pub qual: Seq<char>,
}

impl View for record {
    type V = RecordModel;

    open spec fn view(&self) -> RecordModel {
        RecordModel { id: self.id@, seq: self.seq@, symbol: self.symbol@, qual: self.qual@ }
    }
}

impl record {
    /// An empty record: all four lines empty.
    pub fn new() -> (r: Self)
        ensures
            r@.id == Seq::<char>::empty(),
            r@.seq == Seq::<char>::empty(),
            r@.symbol == Seq::<char>::empty(),
            r@.qual == Seq::<char>::empty(),
    {
        Self {
            id: String::new(),
            seq: String::new(),
            symbol: String::new(),
            qual: String::new(),
        }
    }

    /// Read length: the character count of the raw sequence line, with no
    /// look at the quality line.
    pub fn len(&self) -> (r: usize)
        ensures
            r == self@.seq.len(),
    {
        self.seq.as_str().unicode_len()
    }

    /// The read name: the header line up to its first space, or the whole
    /// header line when it has no space.
    pub fn name(&self) -> (r: &str)
        ensures
            r@ == name_of(self@.id),
    {
        let k = find_space(self.id.as_str());
        let r = self.id.as_str().substring_char(0, k);
        proof {
            assert(r@ =~= name_of(self.id@));
        }
        r
    }

    /// The description: the header line after its first space, or nothing
    /// when it has no space.
    pub fn desc(&self) -> (r: Option<&str>)
        ensures
            (r is Some) == (desc_of(self@.id) is Some),
            r matches Some(d) ==> Some(d@) == desc_of(self@.id),
    {
        let n: usize = self.id.as_str().unicode_len();
        let k = find_space(self.id.as_str());
        if k < n {
            let d = self.id.as_str().substring_char(k + 1, n);
            proof {
                assert(d@ =~= self.id@.skip(first_space(self.id@) + 1));
            }
            Some(d)
        } else {
            None
        }
    }
}

/// Index of the first space of `s`, or its length when it has none.
fn find_space(s: &str) -> (r: usize)
    ensures
        r as int == first_space(s@),
        r <= s@.len(),
{
    let n: usize = s.unicode_len();
    let mut i: usize = 0;
    while i < n
        invariant
            i <= n,
            n == s@.len(),
            forall|j: int| 0 <= j < i ==> s@[j] != ' ',
        decreases n - i,
    {
        if s.get_char(i) == ' ' {
            proof {
                lemma_first_space(s@, i as int);
            }
            return i;
        }
        i += 1;
    }
    proof {
        lemma_first_space(s@, n as int);
    }
    n
}

/// The records a line stream yields: each group of four consecutive lines
/// in order, with a trailing group of fewer than four lines yielding
/// nothing.
pub open spec fn records_of(lines: Seq<Seq<char>>) -> Seq<RecordModel>
    decreases lines.len(),
{
    if lines.len() < 4 {
        Seq::empty()
    } else {
        seq![
            RecordModel { id: lines[0], seq: lines[1], symbol: lines[2], qual: lines[3] },
        ] + records_of(lines.skip(4))
    }
}

/// Count law: a stream of `n` lines yields exactly `n / 4` records; a
/// trailing group of fewer than four lines is dropped, and an empty stream
/// yields none.
pub proof fn lemma_records_count(lines: Seq<Seq<char>>)
    ensures
        records_of(lines).len() == lines.len() / 4,
    decreases lines.len(),
{
    if lines.len() < 4 {
    } else {
        lemma_records_count(lines.skip(4));
    }
}

/// Order law: the records come in input order, the `i`-th built from lines
/// `4*i` through `4*i + 3`.
pub proof fn lemma_records_order(lines: Seq<Seq<char>>, i: int)
    requires
        0 <= i < records_of(lines).len(),
    ensures
        records_of(lines)[i].id == lines[4 * i],
        records_of(lines)[i].seq == lines[4 * i + 1],
        records_of(lines)[i].symbol == lines[4 * i + 2],
        records_of(lines)[i].qual == lines[4 * i + 3],
    decreases i,
{
    lemma_records_count(lines);
    if i > 0 {
        lemma_records_count(lines.skip(4));
        lemma_records_order(lines.skip(4), i - 1);
        assert(records_of(lines)[i] == records_of(lines.skip(4))[i - 1]);
        assert(lines.skip(4)[4 * (i - 1)] == lines[4 * i]);
        assert(lines.skip(4)[4 * (i - 1) + 1] == lines[4 * i + 1]);
        assert(lines.skip(4)[4 * (i - 1) + 2] == lines[4 * i + 2]);
        assert(lines.skip(4)[4 * (i - 1) + 3] == lines[4 * i + 3]);
    }
}

/// A lazy, forward-only reader that groups a line stream into records.
#[allow(non_camel_case_types)]
pub struct fqreader {
    /// The decoded lines of the input.
    pub lines: Vec<String>,
    /// How many lines have been consumed.
    pub pos: usize,
}

impl fqreader {
    /// The cursor never passes the end of the lines.
    pub open spec fn wf(&self) -> bool {
        self.pos <= self.lines@.len()
    }

    /// The lines not yet consumed.
    pub open spec fn remaining(&self) -> Seq<Seq<char>> {
        self.lines@.map_values(|s: String| s@).skip(self.pos as int)
    }

    /// Open a reader over the content of an input. When `compressed` is
    /// set the content is decompressed first; a buffer that is not a
    /// well-formed gzip stream yields nothing. The surviving bytes are
    /// split into lines, and lines that fail to decode are silently
    /// skipped.
    pub fn new(data: Vec<u8>, compressed: bool) -> (r: Option<fqreader>)
        ensures
            !compressed ==> (r matches Some(f) && f.wf() && f.pos == 0 && f.remaining()
                == utils::decoded_lines(data@)),
            compressed ==> (match utils::gunzip_of(data@) {
                Some(plain) => r matches Some(f) && f.wf() && f.pos == 0 && f.remaining()
                    == utils::decoded_lines(plain),
                None => r is None,
            }),
    {
        let plain: Vec<u8>;
        if compressed {
            match utils::gzip_decompress(&data) {
                Some(v) => {
                    plain = v;
                },
                None => {
                    return None;
                },
            }
        } else {
            plain = data;
        }
        let lines = utils::decode_lines(&plain);
        let f = fqreader { lines, pos: 0 };
        proof {
            assert(f.remaining() =~= f.lines@.map_values(|s: String| s@));
        }
        Some(f)
    }

    /// Pull the next record: the next four lines in order become `id`,
    /// `seq`, `symbol` and `qual`. When fewer than four lines remain, the
    /// stream ends without a record and the trailing lines are discarded.
    pub fn next(&mut self) -> (r: Option<record>)
        requires
            old(self).wf(),
        ensures
            final(self).wf(),
            final(self).lines == old(self).lines,
            old(self).remaining().len() >= 4 ==> (r matches Some(rec) && rec@.id == old(
                self,
            ).remaining()[0] && rec@.seq == old(self).remaining()[1] && rec@.symbol == old(
                self,
            ).remaining()[2] && rec@.qual == old(self).remaining()[3] && final(self).remaining()
                == old(self).remaining().skip(4)),
            old(self).remaining().len() < 4 ==> (r is None && final(self).remaining().len()
                == 0),
    {
        if self.lines.len() - self.pos >= 4 {
            let rec = record {
                id: self.lines[self.pos].clone(),
                seq: self.lines[self.pos + 1].clone(),
                symbol: self.lines[self.pos + 2].clone(),
                qual: self.lines[self.pos + 3].clone(),
            };
            self.pos = self.pos + 4;
            proof {
                assert(self.remaining() =~= old(self).remaining().skip(4));
            }
            Some(rec)
        } else {
            self.pos = self.lines.len();
            None
        }
    }

    /// Pull every remaining record, in input order.
    pub fn read_all(&mut self) -> (r: Vec<record>)
        requires
            old(self).wf(),
        ensures
            final(self).wf(),
            r@.map_values(|x: record| x@) == records_of(old(self).remaining()),
    {
        let mut out: Vec<record> = Vec::new();
        proof {
            assert(out@.map_values(|x: record| x@) =~= Seq::<RecordModel>::empty());
        }
        loop
            invariant
                self.wf(),
                records_of(old(self).remaining()) == out@.map_values(|x: record| x@)
                    + records_of(self.remaining()),
            ensures
                self.wf(),
                records_of(old(self).remaining()) == out@.map_values(|x: record| x@)
                    + records_of(self.remaining()),
                self.remaining().len() < 4,
            decreases self.remaining().len(),
        {
            let ghost rem0 = self.remaining();
            let ghost before = out@.map_values(|x: record| x@);
            match self.next() {
                Some(rec) => {
                    out.push(rec);
                    proof {
                        assert(rec@ =~= records_of(rem0)[0]);
                        assert(out@.map_values(|x: record| x@) =~= before.push(rec@));
                        assert(before.push(rec@) =~= before + seq![records_of(rem0)[0]]);
                        assert(seq![records_of(rem0)[0]] + records_of(rem0.skip(4))
                            =~= records_of(rem0));
                        assert(before + seq![records_of(rem0)[0]] + records_of(rem0.skip(4))
                            =~= before + records_of(rem0));
                    }
                },
                None => {
                    break;
                },
            }
        }
        proof {
            assert(records_of(self.remaining()) =~= Seq::<RecordModel>::empty());
            assert(out@.map_values(|x: record| x@) + Seq::<RecordModel>::empty() =~= out@
                .map_values(|x: record| x@));
        }
        out
    }
}

/// The four output lines of a record, in the order they are read back.
pub open spec fn record_lines(m: RecordModel) -> Seq<Seq<char>> {
    seq![m.id, m.seq, m.symbol, m.qual]
}

/// The output lines of a record sequence, in order.
pub open spec fn records_lines(rs: Seq<RecordModel>) -> Seq<Seq<char>>
    decreases rs.len(),
{
    if rs.len() == 0 {
        Seq::empty()
    } else {
        record_lines(rs[0]) + records_lines(rs.drop_first())
    }
}

/// Each of the record's lines can stand as an output line: no embedded
/// newline, no trailing carriage return.
pub open spec fn record_safe(m: RecordModel) -> bool {
    utils::line_safe(m.id) && utils::line_safe(m.seq) && utils::line_safe(m.symbol)
        && utils::line_safe(m.qual)
}

proof fn lemma_records_lines_snoc(rs: Seq<RecordModel>, m: RecordModel)
    ensures
        records_lines(rs.push(m)) == records_lines(rs) + record_lines(m),
    decreases rs.len(),
{
    if rs.len() == 0 {
        assert(rs.push(m)[0] == m);
        assert(rs.push(m).drop_first() =~= Seq::<RecordModel>::empty());
        assert(records_lines(Seq::<RecordModel>::empty()) =~= Seq::<Seq<char>>::empty());
        assert(records_lines(rs.push(m)) == record_lines(m) + records_lines(
            Seq::<RecordModel>::empty(),
        ));
        assert(records_lines(rs.push(m)) =~= records_lines(rs) + record_lines(m));
    } else {
        assert(rs.push(m).drop_first() =~= rs.drop_first().push(m));
        assert(rs.push(m)[0] == rs[0]);
        lemma_records_lines_snoc(rs.drop_first(), m);
        assert(records_lines(rs.push(m)) == record_lines(rs[0]) + records_lines(
            rs.drop_first().push(m),
        ));
        assert(record_lines(rs[0]) + (records_lines(rs.drop_first()) + record_lines(m))
            =~= (record_lines(rs[0]) + records_lines(rs.drop_first())) + record_lines(m));
    }
}

/// Grouping the written lines back into records yields the records that
/// were written, field for field.
pub proof fn lemma_records_lines_round_trip(rs: Seq<RecordModel>)
    ensures
        records_lines(rs).len() == 4 * rs.len(),
        records_of(records_lines(rs)) == rs,
    decreases rs.len(),
{
    if rs.len() == 0 {
        assert(records_of(records_lines(rs)) =~= rs);
    } else {
        lemma_records_lines_round_trip(rs.drop_first());
        let ls = records_lines(rs);
        assert(ls.skip(4) =~= records_lines(rs.drop_first()));
        assert(records_of(ls)[0] =~= rs[0]);
        assert(records_of(ls) =~= rs);
    }
}

proof fn lemma_records_lines_safe(rs: Seq<RecordModel>)
    requires
        forall|i: int| 0 <= i < rs.len() ==> record_safe(rs[i]),
    ensures
        forall|i: int|
            0 <= i < records_lines(rs).len() ==> utils::line_safe(records_lines(rs)[i]),
    decreases rs.len(),
{
    if rs.len() == 0 {
    } else {
        let t = rs.drop_first();
        assert(forall|i: int| 0 <= i < t.len() ==> t[i] == rs[i + 1]);
        lemma_records_lines_safe(t);
        assert forall|i: int|
            0 <= i < records_lines(rs).len() implies utils::line_safe(records_lines(rs)[i]) by {
            if i >= 4 {
                assert(records_lines(rs)[i] == records_lines(t)[i - 4]);
            }
        }
    }
}

/// Round trip: the bytes written for a sequence of line-safe records read
/// back as exactly those records.
pub proof fn lemma_round_trip(rs: Seq<RecordModel>)
    requires
        forall|i: int| 0 <= i < rs.len() ==> record_safe(rs[i]),
    ensures
        records_of(utils::decoded_lines(utils::join_lines(records_lines(rs)))) == rs,
{
    lemma_records_lines_safe(rs);
    utils::lemma_decoded_join(records_lines(rs));
    lemma_records_lines_round_trip(rs);
}

proof fn lemma_records_of_concat(l1: Seq<Seq<char>>, l2: Seq<Seq<char>>)
    requires
        l1.len() % 4 == 0,
    ensures
        records_of(l1 + l2) == records_of(l1) + records_of(l2),
    decreases l1.len(),
{
    if l1.len() == 0 {
        assert(l1 + l2 =~= l2);
        assert(records_of(l1) + records_of(l2) =~= records_of(l2));
    } else {
        assert((l1 + l2).skip(4) =~= l1.skip(4) + l2);
        lemma_records_of_concat(l1.skip(4), l2);
        assert(records_of(l1 + l2) =~= records_of(l1) + records_of(l2));
    }
}

/// Append law: a second write after a line-aligned, newline-terminated
/// first one preserves the first, and reading back yields the records of
/// both writes in the order written.
pub proof fn lemma_append_preserves(b1: Seq<u8>, b2: Seq<u8>)
    requires
        b1.len() == 0 || b1[b1.len() - 1] == 0x0au8,
        utils::decoded_lines(b1).len() % 4 == 0,
    ensures
        records_of(utils::decoded_lines(b1 + b2)) == records_of(utils::decoded_lines(b1))
            + records_of(utils::decoded_lines(b2)),
{
    utils::lemma_decoded_lines_append(b1, b2);
    lemma_records_of_concat(utils::decoded_lines(b1), utils::decoded_lines(b2));
}

/// Write records as a plain byte buffer: four lines per record, each
/// ended with one newline.
pub fn write_records(recs: &Vec<record>) -> (r: Vec<u8>)
    ensures
        r@ == utils::join_lines(records_lines(recs@.map_values(|x: record| x@))),
        r@.len() == 0 || r@[r@.len() - 1] == 0x0au8,
        (forall|i: int| 0 <= i < recs@.len() ==> record_safe(recs@[i]@)) ==> (
        utils::decoded_lines(r@) == records_lines(recs@.map_values(|x: record| x@))
            && records_of(utils::decoded_lines(r@)) == recs@.map_values(|x: record| x@)
            && utils::decoded_lines(r@).len() % 4 == 0),
{
    let ghost views = recs@.map_values(|x: record| x@);
    let mut lines: Vec<String> = Vec::new();
    let mut i: usize = 0;
    proof {
        assert(views.take(0) =~= Seq::<RecordModel>::empty());
        assert(lines@.map_values(|s: String| s@) =~= records_lines(views.take(0)));
    }
    while i < recs.len()
        invariant
            i <= recs@.len(),
            views == recs@.map_values(|x: record| x@),
            lines@.map_values(|s: String| s@) == records_lines(views.take(i as int)),
        decreases recs@.len() - i,
    {
        let ghost before = lines@.map_values(|s: String| s@);
        lines.push(recs[i].id.clone());
        lines.push(recs[i].seq.clone());
        lines.push(recs[i].symbol.clone());
        lines.push(recs[i].qual.clone());
        proof {
            lemma_records_lines_snoc(views.take(i as int), views[i as int]);
            assert(views.take(i + 1) =~= views.take(i as int).push(views[i as int]));
            assert(lines@.map_values(|s: String| s@) =~= before + record_lines(views[i as int]));
        }
        i += 1;
    }
    proof {
        assert(views.take(views.len() as int) =~= views);
    }
    let r = utils::lines_to_bytes(&lines);
    proof {
        lemma_records_lines_round_trip(views);
        if forall|i: int| 0 <= i < recs@.len() ==> record_safe(#[trigger] recs@[i]@) {
            assert(forall|i: int| 0 <= i < views.len() ==> record_safe(views[i]));
            lemma_records_lines_safe(views);
            utils::lemma_decoded_join(records_lines(views));
        }
    }
    r
}

/// Write records gzip-compressed, as a `.gz` or `.gzip` output gets them:
/// one complete gzip member holding the plain encoding.
pub fn write_records_gz(recs: &Vec<record>) -> (r: Vec<u8>)
    ensures
        utils::has_gz_magic(r@),
        utils::gunzip_of(r@) == Some(
            utils::join_lines(records_lines(recs@.map_values(|x: record| x@))),
        ),
        (forall|i: int| 0 <= i < recs@.len() ==> record_safe(recs@[i]@)) ==> records_of(
            utils::decoded_lines(utils::gunzip_of(r@).unwrap()),
        ) == recs@.map_values(|x: record| x@),
        forall|pre: Seq<u8>|
            utils::gunzip_of(pre) is Some ==> #[trigger] utils::gunzip_of(pre + r@) == Some(
                utils::gunzip_of(pre).unwrap() + utils::join_lines(
                    records_lines(recs@.map_values(|x: record| x@)),
                ),
            ),
{
    let plain = write_records(recs);
    utils::gzip_compress(&plain)
}

} // verus!
