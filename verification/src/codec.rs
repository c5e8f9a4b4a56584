use vstd::prelude::*;
use crate::digits::{
    dec_val, lemma_u32_dec_digits, lemma_u32_dec_val, parse_u32, parses_as_u32, u32_dec,
    u32_to_string,
};
use crate::text::{lemma_split_append, lemma_split_len, lemma_split_no_delim, split_on, split_str,
    str_views};
use crate::thought::{seq_view, RecView, Thought};

verus! {

/// Loading failed on a malformed data line: a non-integer id field or
/// fewer than three comma-separated fields.
#[derive(Debug)]
pub struct ParseError;

/// The header line that begins every saved file and is skipped on load.
pub open spec fn header() -> Seq<char> {
    "id,timestamp,message,tags"@
}

/// One record as a line: the four fields joined by the comma delimiter,
/// the id in decimal. Fields are written as they are; the format does
/// not escape an embedded delimiter.
pub open spec fn render_line(rv: RecView) -> Seq<char> {
    u32_dec(rv.id as nat) + seq![','] + rv.timestamp + seq![','] + rv.message + seq![','] + rv.tags
}

/// The record lines of a file, each ended by a line break, in stored order.
pub open spec fn render_lines(rs: Seq<RecView>) -> Seq<char>
    decreases rs.len(),
{
    if rs.len() == 0 {
        Seq::empty()
    } else {
        render_line(rs[0]) + seq!['\n'] + render_lines(rs.skip(1))
    }
}

/// A whole file: the header line, then one line per record.
pub open spec fn render_file(rs: Seq<RecView>) -> Seq<char> {
    header() + seq!['\n'] + render_lines(rs)
}

/// A line read back as a record: split on commas into at least three
/// fields, the first a decimal id. A missing fourth field is an empty
/// tag string; fields past the fourth are ignored.
pub open spec fn parse_line(l: Seq<char>) -> Option<RecView> {
    let fs = split_on(l, ',');
    if fs.len() < 3 {
        None
    } else if !parses_as_u32(fs[0]) {
        None
    } else {
        Some(
            RecView {
                id: dec_val(fs[0]) as u32,
                timestamp: fs[1],
                message: fs[2],
                tags: if fs.len() >= 4 {
                    fs[3]
                } else {
                    Seq::empty()
                },
            },
        )
    }
}

/// Lines read back in order; empty lines are skipped; one malformed
/// line fails the whole load.
pub open spec fn parse_lines(ls: Seq<Seq<char>>) -> Option<Seq<RecView>>
    decreases ls.len(),
{
    if ls.len() == 0 {
        Some(Seq::empty())
    } else if ls[0].len() == 0 {
        parse_lines(ls.skip(1))
    } else {
        match (parse_line(ls[0]), parse_lines(ls.skip(1))) {
            (Some(rv), Some(rest)) => Some(seq![rv] + rest),
            _ => None,
        }
    }
}

/// A whole file read back: the first line is skipped when it is exactly
/// the header, and the file order of records is preserved.
pub open spec fn parse_file(s: Seq<char>) -> Option<Seq<RecView>> {
    let ls = split_on(s, '\n');
    let data = if ls[0] == header() {
        ls.skip(1)
    } else {
        ls
    };
    parse_lines(data)
}

impl Thought {
    /// This record as one line of the file format, without the line break.
    pub fn to_csv(&self) -> (r: String)
        ensures
            r@ == render_line(self@),
    {
        let mut s = u32_to_string(self.id);
        s.append(",");
        s.append(self.timestamp.as_str());
        s.append(",");
        s.append(self.message.as_str());
        s.append(",");
        s.append(self.tags.as_str());
        proof {
            reveal_strlit(",");
            assert(s@ =~= render_line(self@));
        }
        s
    }
}

/// Serializes the header line followed by one line per record, in
/// stored order.
pub fn save_rows_to_string(rows: &Vec<Thought>) -> (r: String)
    ensures
        r@ == render_file(seq_view(rows@)),
{
    let mut out = String::from_str("id,timestamp,message,tags");
    out.append("\n");
    proof {
        reveal_strlit("\n");
        assert(seq_view(rows@).take(0) =~= Seq::<RecView>::empty());
        assert(out@ =~= render_file(seq_view(rows@).take(0)));
    }
    let mut i: usize = 0;
    while i < rows.len()
        invariant
            0 <= i <= rows@.len(),
            out@ == render_file(seq_view(rows@).take(i as int)),
        decreases rows@.len() - i,
    {
        let line = rows[i].to_csv();
        out.append(line.as_str());
        out.append("\n");
        i = i + 1;
        proof {
            reveal_strlit("\n");
            let vs = seq_view(rows@);
            assert(vs[i as int - 1] == rows@[i as int - 1]@);
            lemma_render_lines_snoc(vs.take(i as int));
            assert(vs.take(i as int).drop_last() =~= vs.take(i as int - 1));
            assert(vs.take(i as int).last() == vs[i as int - 1]);
            assert(out@ =~= render_file(vs.take(i as int)));
        }
    }
    proof {
        assert(seq_view(rows@).take(rows@.len() as int) =~= seq_view(rows@));
    }
    out
}

proof fn lemma_render_lines_snoc(rs: Seq<RecView>)
    requires
        rs.len() > 0,
    ensures
        render_lines(rs) == render_lines(rs.drop_last()) + render_line(rs.last()) + seq!['\n'],
    decreases rs.len(),
{
    if rs.len() == 1 {
        assert(rs.skip(1) =~= Seq::<RecView>::empty());
        assert(rs.drop_last() =~= Seq::<RecView>::empty());
        assert(render_lines(rs) =~= render_lines(rs.drop_last()) + render_line(rs.last())
            + seq!['\n']);
    } else {
        lemma_render_lines_snoc(rs.skip(1));
        assert(rs.skip(1).drop_last() =~= rs.drop_last().skip(1));
        assert(rs.skip(1).last() == rs.last());
        assert(rs.drop_last()[0] == rs[0]);
        assert(rs.drop_last().len() > 0);
        assert(render_lines(rs) =~= render_lines(rs.drop_last()) + render_line(rs.last())
            + seq!['\n']);
    }
}

/// Parses the file format: the first line is skipped when it is exactly
/// the header, empty lines are skipped, and every other line must split
/// on commas into at least three fields with a decimal u32 id first.
/// Returns the records in file order, or `ParseError` on the first
/// malformed line.
pub fn load_rows_from_str(content: &str) -> (r: Result<Vec<Thought>, ParseError>)
    ensures
        match r {
            Ok(v) => parse_file(content@) == Some(seq_view(v@)),
            Err(_) => parse_file(content@) is None,
        },
{
    let lines = split_str(content, '\n');
    let ghost all = str_views(lines@);
    proof {
        lemma_split_len(content@, '\n');
        assert(all.len() == lines@.len());
        assert(all[0] == lines@[0]@);
    }
    let hdr = String::from_str("id,timestamp,message,tags");
    let mut start: usize = 0;
    if lines[0].eq(&hdr) {
        start = 1;
    }
    let ghost data = if all[0] == header() {
        all.skip(1)
    } else {
        all
    };
    proof {
        assert(parse_file(content@) == parse_lines(data));
        if start == 0 {
            assert(all.skip(0) =~= all);
        }
        assert(parse_lines(all.skip(start as int)) == parse_lines(data));
        assert(seq_view(Seq::<Thought>::empty()) =~= Seq::<RecView>::empty());
    }
    let mut out: Vec<Thought> = Vec::new();
    let mut i: usize = start;
    while i < lines.len()
        invariant
            start as int <= i as int <= lines@.len(),
            all == str_views(lines@),
            all.len() == lines@.len(),
            parse_file(content@) == parse_lines(data),
            match parse_lines(all.skip(i as int)) {
                Some(rest) => parse_lines(data) == Some(seq_view(out@) + rest),
                None => parse_lines(data) is None,
            },
        decreases lines@.len() - i,
    {
        proof {
            assert(all.skip(i as int).len() > 0);
            assert(all.skip(i as int)[0] == all[i as int]);
            assert(all[i as int] == lines@[i as int]@);
            assert(all.skip(i as int).skip(1) =~= all.skip(i as int + 1));
        }
        let line = &lines[i];
        if line.as_str().unicode_len() == 0 {
            i = i + 1;
        } else {
            let fields = split_str(line.as_str(), ',');
            let ghost fvs = str_views(fields@);
            proof {
                assert(fvs == split_on(all[i as int], ','));
                assert(fields@.len() == fvs.len());
            }
            if fields.len() < 3 {
                proof {
                    assert(parse_line(all[i as int]) is None);
                }
                return Err(ParseError);
            }
            let id_opt = parse_u32(fields[0].as_str());
            proof {
                assert(fields@[0]@ == fvs[0]);
            }
            match id_opt {
                None => {
                    proof {
                        assert(!parses_as_u32(fvs[0]));
                        assert(parse_line(all[i as int]) is None);
                    }
                    return Err(ParseError);
                },
                Some(id) => {
                    let timestamp = fields[1].clone();
                    let message = fields[2].clone();
                    let tags = if fields.len() >= 4 {
                        fields[3].clone()
                    } else {
                        String::new()
                    };
                    let t = Thought { id, timestamp, message, tags };
                    proof {
                        assert(fields@[1]@ == fvs[1]);
                        assert(fields@[2]@ == fvs[2]);
                        if fvs.len() >= 4 {
                            assert(fields@[3]@ == fvs[3]);
                        }
                        assert(id as int == dec_val(fvs[0]));
                        assert(parse_line(all[i as int]) == Some(t@));
                        assert(seq_view(out@.push(t)) =~= seq_view(out@).push(t@));
                        if parse_lines(all.skip(i as int + 1)) is Some {
                            let rest = parse_lines(all.skip(i as int + 1))->Some_0;
                            assert(parse_lines(all.skip(i as int)) == Some(seq![t@] + rest));
                            assert(seq_view(out@) + (seq![t@] + rest) =~= seq_view(out@).push(t@)
                                + rest);
                        }
                    }
                    out.push(t);
                    i = i + 1;
                },
            }
        }
    }
    proof {
        assert(all.skip(lines@.len() as int) =~= Seq::<Seq<char>>::empty());
        assert(seq_view(out@) + Seq::<RecView>::empty() =~= seq_view(out@));
    }
    Ok(out)
}

/// A field that neither holds the comma delimiter nor a line break, so
/// the format writes it back unambiguously.
pub open spec fn field_safe(f: Seq<char>) -> bool {
    forall|i: int| 0 <= i < f.len() ==> ((#[trigger] f[i]) != ',' && f[i] != '\n')
}

/// A record whose text fields are free of the delimiter and of line
/// breaks; saving then loading recovers such records exactly.
pub open spec fn csv_safe(rv: RecView) -> bool {
    field_safe(rv.timestamp) && field_safe(rv.message) && field_safe(rv.tags)
}

pub open spec fn no_newline(f: Seq<char>) -> bool {
    forall|i: int| 0 <= i < f.len() ==> (#[trigger] f[i]) != '\n'
}

proof fn lemma_no_newline_concat(a: Seq<char>, b: Seq<char>)
    requires
        no_newline(a),
        no_newline(b),
    ensures
        no_newline(a + b),
{
    assert forall|i: int| 0 <= i < (a + b).len() implies (a + b)[i] != '\n' by {
        if i < a.len() {
            assert((a + b)[i] == a[i]);
        } else {
            assert((a + b)[i] == b[i - a.len()]);
        }
    }
}

proof fn lemma_render_line_reads_back(rv: RecView)
    requires
        csv_safe(rv),
    ensures
        parse_line(render_line(rv)) == Some(rv),
        render_line(rv).len() > 0,
        no_newline(render_line(rv)),
{
    let l = render_line(rv);
    let idc = u32_dec(rv.id as nat);
    lemma_u32_dec_digits(rv.id as nat);
    lemma_u32_dec_val(rv.id as nat);
    let rest2 = rv.message + seq![','] + rv.tags;
    let rest1 = rv.timestamp + seq![','] + rest2;
    assert(l =~= idc + seq![','] + rest1);
    lemma_split_append(idc, rest1, ',');
    lemma_split_append(rv.timestamp, rest2, ',');
    lemma_split_append(rv.message, rv.tags, ',');
    lemma_split_no_delim(rv.tags, ',');
    let fs = split_on(l, ',');
    assert(fs =~= seq![idc, rv.timestamp, rv.message, rv.tags]);
    assert(parses_as_u32(fs[0]));
    assert(dec_val(fs[0]) as u32 == rv.id);
    assert(parse_line(l) == Some(rv));
    assert(no_newline(idc));
    assert(no_newline(seq![',']));
    lemma_no_newline_concat(rv.message, seq![','] + rv.tags);
    lemma_no_newline_concat(seq![','], rv.tags);
    lemma_no_newline_concat(rv.timestamp, seq![','] + rest2);
    lemma_no_newline_concat(seq![','], rest2);
    lemma_no_newline_concat(idc, seq![','] + rest1);
    lemma_no_newline_concat(seq![','], rest1);
}

proof fn lemma_lines_read_back(rs: Seq<RecView>)
    requires
        forall|i: int| 0 <= i < rs.len() ==> csv_safe(#[trigger] rs[i]),
    ensures
        parse_lines(split_on(render_lines(rs), '\n')) == Some(rs),
    decreases rs.len(),
{
    if rs.len() == 0 {
        assert(render_lines(rs) == Seq::<char>::empty());
        let ls = split_on(render_lines(rs), '\n');
        assert(ls == seq![Seq::<char>::empty()]);
        assert(ls[0].len() == 0);
        assert(ls.skip(1) =~= Seq::<Seq<char>>::empty());
        assert(parse_lines(ls.skip(1)) == Some(Seq::<RecView>::empty()));
        assert(parse_lines(ls) == Some(Seq::<RecView>::empty()));
        assert(rs =~= Seq::<RecView>::empty());
    } else {
        assert(csv_safe(rs[0]));
        lemma_render_line_reads_back(rs[0]);
        let l0 = render_line(rs[0]);
        let tail = render_lines(rs.skip(1));
        assert(render_lines(rs) == l0 + seq!['\n'] + tail);
        lemma_split_append(l0, tail, '\n');
        let ls = split_on(render_lines(rs), '\n');
        assert(ls == seq![l0] + split_on(tail, '\n'));
        assert(ls[0] == l0);
        assert(ls.len() > 0);
        assert(ls.skip(1) =~= split_on(tail, '\n'));
        assert(forall|i: int|
            0 <= i < rs.skip(1).len() ==> #[trigger] rs.skip(1)[i] == rs[i + 1]);
        lemma_lines_read_back(rs.skip(1));
        assert(parse_lines(ls) == Some(seq![rs[0]] + rs.skip(1)));
        assert(seq![rs[0]] + rs.skip(1) =~= rs);
    }
}

proof fn lemma_header_no_newline()
    ensures
        no_newline(header()),
        header().len() > 0,
{
    reveal_strlit("id,timestamp,message,tags");
}

/// Saving and loading round-trip: loading what was saved yields the
/// same records, field for field and in the same order, for any store
/// whose text fields hold neither the delimiter nor a line break.
pub proof fn lemma_save_load_round_trip(rs: Seq<RecView>)
    requires
        forall|i: int| 0 <= i < rs.len() ==> csv_safe(#[trigger] rs[i]),
    ensures
        parse_file(render_file(rs)) == Some(rs),
{
    let f = render_file(rs);
    lemma_header_no_newline();
    lemma_split_append(header(), render_lines(rs), '\n');
    let ls = split_on(f, '\n');
    assert(ls == seq![header()] + split_on(render_lines(rs), '\n'));
    assert(ls[0] == header());
    lemma_split_len(render_lines(rs), '\n');
    assert(ls.skip(1) =~= split_on(render_lines(rs), '\n'));
    lemma_lines_read_back(rs);
}

} // verus!
