//! The document model: a post's four-line metadata header plus its
//! ordered body elements, with parsing from and serialization to the
//! wire form.

use vstd::prelude::*;

use chrono::TimeZone;

use crate::element::{
    gen_line_spec, lemma_parse_generate_line, line_canonical, parse_line_spec, ElemModel,
    SynElement,
};
use crate::text::{
    append_chars, chars_to_string, dec_spec, is_digit, is_space, join_spec, join_strings,
    parse_u64_chars, parse_u64_spec, split_chars, split_spec, str_to_chars, trim_chars,
    trim_spec, u64_to_dec,
};

verus! {

/// One post: metadata header plus body elements.
pub struct SynFile {
    title: String,
    tags: Vec<String>,
    posted: u64,
    summary: String,
    elements: Vec<SynElement>,
}

/// The mathematical shape of a document.
#[verifier::ext_equal]
pub struct DocModel {
    pub title: Seq<char>,
    pub tags: Seq<Seq<char>>,
    pub posted: u64,
    pub summary: Seq<char>,
    pub elements: Seq<ElemModel>,
}

/// The models of a sequence of elements.
pub open spec fn elems_view(s: Seq<SynElement>) -> Seq<ElemModel> {
    s.map_values(|e: SynElement| e@)
}

impl View for SynFile {
    type V = DocModel;

    closed spec fn view(&self) -> DocModel {
        DocModel {
            title: self.title@,
            tags: self.tags.deep_view(),
            posted: self.posted,
            summary: self.summary@,
            elements: elems_view(self.elements@),
        }
    }
}

/// The timestamp a header line stands for: its decimal value, or the
/// fallback `0` when the line does not parse as an unsigned number.
pub open spec fn posted_of(t: Seq<char>) -> u64 {
    match parse_u64_spec(t) {
        Some(v) => v,
        None => 0,
    }
}

/// What flushing a candidate block contributes: nothing for an empty
/// candidate or one that fails to parse, else the parsed element.
pub open spec fn flush_spec(cand: Seq<char>) -> Seq<ElemModel> {
    if cand.len() == 0 {
        Seq::empty()
    } else {
        match parse_line_spec(cand) {
            Some(e) => seq![e],
            None => Seq::empty(),
        }
    }
}

/// The body scanner: lines accumulate into a candidate block; a blank
/// line (empty after trimming) flushes the candidate; accumulated lines
/// are rejoined with the newline they were split at; the end of input
/// flushes what remains.  Malformed candidates are dropped, not fatal.
pub open spec fn scan_spec(lines: Seq<Seq<char>>, cand: Seq<char>) -> Seq<ElemModel>
    decreases lines.len(),
{
    if lines.len() == 0 {
        flush_spec(cand)
    } else if trim_spec(lines[0]).len() == 0 {
        flush_spec(cand) + scan_spec(lines.drop_first(), Seq::empty())
    } else {
        scan_spec(
            lines.drop_first(),
            if cand.len() == 0 {
                lines[0]
            } else {
                cand + seq!['\n'] + lines[0]
            },
        )
    }
}

/// The document the first four lines describe: title, comma-separated
/// tags each trimmed, posted timestamp with `0` as fallback, summary.
pub open spec fn header_doc(lines: Seq<Seq<char>>, elements: Seq<ElemModel>) -> DocModel {
    DocModel {
        title: trim_spec(lines[0]),
        tags: split_spec(lines[1], ',').map_values(|t: Seq<char>| trim_spec(t)),
        posted: posted_of(trim_spec(lines[2])),
        summary: trim_spec(lines[3]),
        elements,
    }
}

/// The document a full text stands for: `None` exactly when fewer than
/// four header lines are present; the body is scanned for blank-line
/// separated element blocks.
pub open spec fn parse_document_spec(text: Seq<char>) -> Option<DocModel> {
    let lines = split_spec(text, '\n');
    if lines.len() < 4 {
        None
    } else {
        Some(header_doc(lines, scan_spec(lines.skip(4), Seq::empty())))
    }
}

/// The document a text's header alone stands for: the same header
/// fields, the body left empty.
pub open spec fn parse_metadata_spec(text: Seq<char>) -> Option<DocModel> {
    let lines = split_spec(text, '\n');
    if lines.len() < 4 {
        None
    } else {
        Some(header_doc(lines, Seq::empty()))
    }
}

/// The wire form of a body: each element's line followed by one blank
/// separator line.
pub open spec fn body_spec(es: Seq<ElemModel>) -> Seq<char>
    decreases es.len(),
{
    if es.len() == 0 {
        Seq::empty()
    } else {
        gen_line_spec(es[0]) + seq!['\n'] + seq!['\n'] + body_spec(es.drop_first())
    }
}

/// The canonical wire form of a document: the four header lines, each
/// followed by a newline, one blank line, then the body.
pub open spec fn serialize_spec(d: DocModel) -> Seq<char> {
    d.title + seq!['\n'] + join_spec(d.tags, ',') + seq!['\n'] + dec_spec(d.posted as int)
        + seq!['\n'] + d.summary + seq!['\n'] + seq!['\n'] + body_spec(d.elements)
}

impl SynFile {
    /// Parses a full document: four header lines, then the body scanned
    /// into elements.  Fails exactly when fewer than four header lines
    /// are present; a malformed body block is dropped, never fatal; an
    /// unparsable posted field becomes `0`, never an error.
    pub fn parse_document(text: &str) -> (r: Result<Self, ()>)
        ensures
            r is Ok <==> parse_document_spec(text@) is Some,
            r is Ok ==> r->Ok_0@ == parse_document_spec(text@)->Some_0,
    {
        let v = str_to_chars(text);
        let lines = split_chars(v.as_slice(), '\n');
        let ghost ldv = lines.deep_view();
        proof {
            assert(ldv == split_spec(text@, '\n'));
        }
        if lines.len() < 4 {
            return Err(());
        }
        let (title, tags, posted, summary) = Self::header_fields(&lines);
        let mut elements: Vec<SynElement> = Vec::new();
        let mut cand: Vec<char> = Vec::new();
        let mut i: usize = 4;
        proof {
            assert(ldv.skip(4) =~~= ldv.skip(4));
        }
        while i < lines.len()
            invariant
                4 <= i <= lines@.len(),
                ldv == lines.deep_view(),
                scan_spec(ldv.skip(4), Seq::empty()) == elems_view(elements@) + scan_spec(
                    ldv.skip(i as int),
                    cand@,
                ),
            decreases lines@.len() - i,
        {
            let ghost rem = ldv.skip(i as int);
            proof {
                assert(rem.len() > 0);
                assert(rem[0] == ldv[i as int]);
                assert(rem.drop_first() =~~= ldv.skip(i as int + 1));
                assert(ldv[i as int] == lines@[i as int]@);
            }
            let t = trim_chars(lines[i].as_slice());
            if t.len() == 0 {
                let ghost evs = elems_view(elements@);
                let ghost cv = cand@;
                if cand.len() > 0 {
                    let block = chars_to_string(cand.as_slice());
                    match SynElement::parse_line(block) {
                        Ok(e) => {
                            elements.push(e);
                            proof {
                                assert(elems_view(elements@) =~= evs + seq![e@]);
                                assert(flush_spec(cv) == seq![e@]);
                            }
                        },
                        Err(_) => {
                            proof {
                                assert(flush_spec(cv) =~= Seq::<ElemModel>::empty());
                            }
                        },
                    }
                }
                cand = Vec::new();
                proof {
                    assert(scan_spec(rem, cv) == flush_spec(cv) + scan_spec(
                        ldv.skip(i as int + 1),
                        Seq::empty(),
                    ));
                    assert(elems_view(elements@) =~= evs + flush_spec(cv));
                    assert(evs + scan_spec(rem, cv) =~= elems_view(elements@) + scan_spec(
                        ldv.skip(i as int + 1),
                        cand@,
                    ));
                }
            } else {
                let ghost cv = cand@;
                if cand.len() > 0 {
                    cand.push('\n');
                }
                append_chars(&mut cand, lines[i].as_slice());
                proof {
                    if cv.len() == 0 {
                        assert(cand@ =~= ldv[i as int]);
                    } else {
                        assert(cand@ =~= cv + seq!['\n'] + ldv[i as int]);
                    }
                    assert(scan_spec(rem, cv) == scan_spec(ldv.skip(i as int + 1), cand@));
                }
            }
            i = i + 1;
        }
        proof {
            assert(ldv.skip(i as int).len() == 0);
            assert(scan_spec(ldv.skip(i as int), cand@) == flush_spec(cand@));
        }
        let ghost evs = elems_view(elements@);
        let ghost cv = cand@;
        if cand.len() > 0 {
            let block = chars_to_string(cand.as_slice());
            match SynElement::parse_line(block) {
                Ok(e) => {
                    elements.push(e);
                    proof {
                        assert(elems_view(elements@) =~= evs + seq![e@]);
                        assert(flush_spec(cv) == seq![e@]);
                    }
                },
                Err(_) => {
                    proof {
                        assert(flush_spec(cv) =~= Seq::<ElemModel>::empty());
                    }
                },
            }
        }
        proof {
            assert(elems_view(elements@) =~= evs + flush_spec(cv));
            assert(elems_view(elements@) == scan_spec(ldv.skip(4), Seq::empty()));
        }
        let r = SynFile { title, tags, posted, summary, elements };
        proof {
            assert(r@ =~~= parse_document_spec(text@)->Some_0);
        }
        Ok(r)
    }

    /// Parses the header alone, leaving the body unread: the same four
    /// header lines, an empty element sequence.
    pub fn parse_metadata(text: &str) -> (r: Result<Self, ()>)
        ensures
            r is Ok <==> parse_metadata_spec(text@) is Some,
            r is Ok ==> r->Ok_0@ == parse_metadata_spec(text@)->Some_0,
    {
        let v = str_to_chars(text);
        let lines = split_chars(v.as_slice(), '\n');
        if lines.len() < 4 {
            return Err(());
        }
        let (title, tags, posted, summary) = Self::header_fields(&lines);
        let elements: Vec<SynElement> = Vec::new();
        let r = SynFile { title, tags, posted, summary, elements };
        proof {
            assert(elems_view(r.elements@) =~= Seq::<ElemModel>::empty());
            assert(r@ =~~= parse_metadata_spec(text@)->Some_0);
        }
        Ok(r)
    }

    /// Reads the four header fields out of the document's lines.
    fn header_fields(lines: &Vec<Vec<char>>) -> (r: (String, Vec<String>, u64, String))
        requires
            lines@.len() >= 4,
        ensures
            r.0@ == trim_spec(lines.deep_view()[0]),
            r.1.deep_view() == split_spec(lines.deep_view()[1], ',').map_values(
                |t: Seq<char>| trim_spec(t),
            ),
            r.2 == posted_of(trim_spec(lines.deep_view()[2])),
            r.3@ == trim_spec(lines.deep_view()[3]),
    {
        let ghost ldv = lines.deep_view();
        let title = chars_to_string(trim_chars(lines[0].as_slice()).as_slice());
        let tag_parts = split_chars(lines[1].as_slice(), ',');
        let ghost tv = split_spec(ldv[1], ',').map_values(|t: Seq<char>| trim_spec(t));
        let mut tags: Vec<String> = Vec::new();
        let mut j: usize = 0;
        proof {
            assert(ldv[1] == lines@[1]@);
            assert(tags.deep_view() =~~= tv.take(0));
        }
        while j < tag_parts.len()
            invariant
                j <= tag_parts@.len(),
                tag_parts.deep_view() == split_spec(ldv[1], ','),
                tv == split_spec(ldv[1], ',').map_values(|t: Seq<char>| trim_spec(t)),
                tags.deep_view() == tv.take(j as int),
            decreases tag_parts@.len() - j,
        {
            let ghost before = tags.deep_view();
            let tag = chars_to_string(trim_chars(tag_parts[j].as_slice()).as_slice());
            tags.push(tag);
            proof {
                assert(tag_parts.deep_view()[j as int] == tag_parts@[j as int]@);
                assert(tv[j as int] == trim_spec(tag_parts.deep_view()[j as int]));
                assert(tags.deep_view() =~~= before.push(tag@));
                assert(tags.deep_view() =~~= tv.take(j as int + 1));
            }
            j = j + 1;
        }
        proof {
            assert(tv.take(tag_parts@.len() as int) =~~= tv);
        }
        let pt = trim_chars(lines[2].as_slice());
        let posted: u64 = match parse_u64_chars(pt.as_slice()) {
            Some(val) => val,
            None => 0,
        };
        let summary = chars_to_string(trim_chars(lines[3].as_slice()).as_slice());
        proof {
            assert(ldv[0] == lines@[0]@);
            assert(ldv[2] == lines@[2]@);
            assert(ldv[3] == lines@[3]@);
        }
        (title, tags, posted, summary)
    }

    /// Writes the canonical wire form: the four header lines, each
    /// followed by a newline, one blank line, then each element's line
    /// followed by one blank line.  The document is left unchanged.
    pub fn serialize(&self) -> (r: String)
        ensures
            r@ == serialize_spec(self@),
    {
        let mut r = String::new();
        r.append(self.title.as_str());
        crate::text::push_char(&mut r, '\n');
        let joined = join_strings(&self.tags, ',');
        r.append(joined.as_str());
        crate::text::push_char(&mut r, '\n');
        let dec = chars_to_string(u64_to_dec(self.posted).as_slice());
        r.append(dec.as_str());
        crate::text::push_char(&mut r, '\n');
        r.append(self.summary.as_str());
        crate::text::push_char(&mut r, '\n');
        crate::text::push_char(&mut r, '\n');
        let ghost head = r@;
        let mut i: usize = 0;
        proof {
            assert(head + body_spec(elems_view(self.elements@).take(0)) =~= head);
        }
        while i < self.elements.len()
            invariant
                i <= self.elements@.len(),
                r@ == head + body_spec(elems_view(self.elements@).take(i as int)),
                head == self.title@ + seq!['\n'] + join_spec(self.tags.deep_view(), ',')
                    + seq!['\n'] + dec_spec(self.posted as int) + seq!['\n'] + self.summary@
                    + seq!['\n'] + seq!['\n'],
            decreases self.elements@.len() - i,
        {
            let ghost before = elems_view(self.elements@).take(i as int);
            let line = self.elements[i].generate_line();
            r.append(line.as_str());
            crate::text::push_char(&mut r, '\n');
            crate::text::push_char(&mut r, '\n');
            proof {
                let now = elems_view(self.elements@).take(i as int + 1);
                assert(now =~= before.push(elems_view(self.elements@)[i as int]));
                lemma_body_snoc(before, elems_view(self.elements@)[i as int]);
                assert(elems_view(self.elements@)[i as int] == self.elements@[i as int]@);
                assert(r@ =~= head + body_spec(now));
            }
            i = i + 1;
        }
        proof {
            assert(elems_view(self.elements@).take(self.elements@.len() as int) =~= elems_view(
                self.elements@,
            ));
            assert(r@ =~= serialize_spec(self@));
        }
        r
    }

    /// The post's title.
    pub fn get_title(&self) -> (r: &String)
        ensures
            r@ == self@.title,
    {
        &self.title
    }

    /// The post's tags, in declaration order.
    pub fn get_tags(&self) -> (r: &Vec<String>)
        ensures
            r.deep_view() == self@.tags,
    {
        &self.tags
    }

    /// The posted timestamp, in seconds since the epoch.
    pub fn get_posted(&self) -> (r: &u64)
        ensures
            *r == self@.posted,
    {
        &self.posted
    }

    /// The posted timestamp rendered as a calendar date and time in the
    /// machine's local time zone: abbreviated weekday, day, abbreviated
    /// month, year, 24-hour time, numeric offset.  The text depends on
    /// the local time zone, so nothing further is promised of it.
    ///
    /// Relies on chrono's `TimeZone::timestamp_opt` and `DateTime::format`:
    /// `timestamp_opt` with zero nanoseconds returns `Single` for every
    /// in-range number of seconds, so the bound on `posted` keeps the
    /// conversion from panicking.
    #[verifier::external_body]
    pub fn get_posted_str(&self) -> String
        requires
            self@.posted <= 253_402_300_799u64,
    {
        let date_time = chrono::Local.timestamp_opt(self.posted as i64, 0).unwrap();
        format!("{}", date_time.format("%a, %d %b %Y %H:%M:%S %z"))
    }

    /// The post's summary line.
    pub fn get_summary(&self) -> (r: &String)
        ensures
            r@ == self@.summary,
    {
        &self.summary
    }

    /// The body elements, in document order.
    pub fn get_elements(&self) -> (r: &Vec<SynElement>)
        ensures
            elems_view(r@) == self@.elements,
    {
        &self.elements
    }
}

/// An element that survives the document round trip: its wire line is
/// canonical, and none of the physical lines it spans is blank, so the
/// scanner re-accumulates the whole block before flushing it.
pub open spec fn doc_element(e: ElemModel) -> bool {
    &&& line_canonical(e)
    &&& forall|i: int|
        0 <= i < split_spec(gen_line_spec(e), '\n').len() ==> trim_spec(
            #[trigger] split_spec(gen_line_spec(e), '\n')[i],
        ).len() > 0
}

/// A document that serialization writes in exactly the form the parser
/// reads back: a trimmed single-line title and summary, at least one
/// tag, each tag trimmed and free of commas and newlines, and every
/// body element canonical, newline-free and non-empty on the wire.
pub open spec fn doc_canonical(d: DocModel) -> bool {
    &&& trim_spec(d.title) == d.title
    &&& !d.title.contains('\n')
    &&& d.tags.len() >= 1
    &&& forall|i: int|
        0 <= i < d.tags.len() ==> trim_spec(#[trigger] d.tags[i]) == d.tags[i]
            && !d.tags[i].contains(',') && !d.tags[i].contains('\n')
    &&& trim_spec(d.summary) == d.summary
    &&& !d.summary.contains('\n')
    &&& forall|i: int| 0 <= i < d.elements.len() ==> doc_element(#[trigger] d.elements[i])
}

/// Non-blank lines only accumulate: scanning them before `rest` is
/// scanning `rest` with the candidate extended by those lines, rejoined
/// with newlines.
proof fn lemma_scan_accumulate(ls: Seq<Seq<char>>, rest: Seq<Seq<char>>, cand: Seq<char>)
    requires
        ls.len() >= 1,
        forall|i: int| 0 <= i < ls.len() ==> trim_spec(#[trigger] ls[i]).len() > 0,
    ensures
        scan_spec(ls + rest, cand) == scan_spec(
            rest,
            if cand.len() == 0 {
                join_spec(ls, '\n')
            } else {
                cand + seq!['\n'] + join_spec(ls, '\n')
            },
        ),
    decreases ls.len(),
{
    let all = ls + rest;
    assert(all[0] == ls[0]);
    assert(ls[0].len() > 0) by {
        if ls[0].len() == 0 {
            assert(trim_spec(ls[0]).len() == 0);
        }
    }
    let c1 = if cand.len() == 0 {
        ls[0]
    } else {
        cand + seq!['\n'] + ls[0]
    };
    if ls.len() == 1 {
        assert(all.drop_first() =~~= rest);
        assert(join_spec(ls, '\n') == ls[0]);
        assert(scan_spec(all, cand) == scan_spec(rest, c1));
    } else {
        let tail = ls.drop_first();
        assert(forall|i: int| 0 <= i < tail.len() ==> tail[i] == ls[i + 1]);
        assert(all.drop_first() =~~= tail + rest);
        lemma_scan_accumulate(tail, rest, c1);
        assert(c1.len() > 0);
        assert(scan_spec(all, cand) == scan_spec(rest, c1 + seq!['\n'] + join_spec(tail, '\n')));
        assert(join_spec(ls, '\n') == ls[0] + seq!['\n'] + join_spec(tail, '\n'));
        if cand.len() == 0 {
            assert(c1 + seq!['\n'] + join_spec(tail, '\n') =~= join_spec(ls, '\n'));
        } else {
            assert(c1 + seq!['\n'] + join_spec(tail, '\n') =~= cand + seq!['\n'] + join_spec(
                ls,
                '\n',
            ));
        }
    }
}

/// Scanning the serialized body recovers exactly its elements.
proof fn lemma_scan_body(es: Seq<ElemModel>)
    requires
        forall|i: int| 0 <= i < es.len() ==> doc_element(#[trigger] es[i]),
    ensures
        scan_spec(split_spec(body_spec(es), '\n'), Seq::empty()) == es,
    decreases es.len(),
{
    if es.len() == 0 {
        assert(body_spec(es) == Seq::<char>::empty());
        let lines = split_spec(Seq::<char>::empty(), '\n');
        assert(lines == seq![Seq::<char>::empty()]);
        assert(trim_spec(Seq::<char>::empty()).len() == 0);
        assert(lines.drop_first() =~~= Seq::<Seq<char>>::empty());
        assert(flush_spec(Seq::empty()) =~= Seq::<ElemModel>::empty());
        assert(scan_spec(Seq::<Seq<char>>::empty(), Seq::<char>::empty()) == flush_spec(
            Seq::<char>::empty(),
        ));
        assert(scan_spec(lines, Seq::empty()) == flush_spec(Seq::empty()) + scan_spec(
            lines.drop_first(),
            Seq::empty(),
        ));
        assert(scan_spec(lines, Seq::empty()) =~= es);
    } else {
        let e = es[0];
        let g = gen_line_spec(e);
        let rest = es.drop_first();
        assert(forall|i: int| 0 <= i < rest.len() ==> rest[i] == es[i + 1]);
        lemma_scan_body(rest);
        let tail = body_spec(rest);
        assert(body_spec(es) =~= g + seq!['\n'] + (seq!['\n'] + tail));
        crate::text::lemma_split_sep_concat(g, seq!['\n'] + tail, '\n');
        assert(seq!['\n'] + tail =~= Seq::<char>::empty() + seq!['\n'] + tail);
        crate::text::lemma_split_concat(Seq::<char>::empty(), tail, '\n');
        let gl = split_spec(g, '\n');
        let bl = split_spec(tail, '\n');
        let lines = split_spec(body_spec(es), '\n');
        assert(lines =~~= gl + (seq![Seq::<char>::empty()] + bl));
        crate::text::lemma_split_len(g, '\n');
        lemma_scan_accumulate(gl, seq![Seq::<char>::empty()] + bl, Seq::empty());
        crate::text::lemma_join_split(g, '\n');
        let lines2 = seq![Seq::<char>::empty()] + bl;
        assert(scan_spec(lines, Seq::empty()) == scan_spec(lines2, g));
        assert(trim_spec(lines2[0]).len() == 0);
        assert(lines2.drop_first() =~~= bl);
        assert(g.len() > 0) by {
            assert(trim_spec(gl[0]).len() > 0);
            if g.len() == 0 {
                assert(gl == seq![Seq::<char>::empty()]);
                assert(trim_spec(gl[0]).len() == 0);
            }
        }
        assert(scan_spec(lines2, g) == flush_spec(g) + scan_spec(bl, Seq::empty()));
        lemma_parse_generate_line(e);
        assert(flush_spec(g) == seq![e]);
        assert(seq![e] + rest =~= es);
    }
}

/// Round trip through the wire form: parsing what `serialize` writes
/// for a canonical document reproduces an equal document.
pub proof fn lemma_parse_serialize_document(d: DocModel)
    requires
        doc_canonical(d),
    ensures
        parse_document_spec(serialize_spec(d)) == Some(d),
{
    let nl = seq!['\n'];
    let text = serialize_spec(d);
    let j = join_spec(d.tags, ',');
    let p = dec_spec(d.posted as int);
    let body = body_spec(d.elements);
    crate::text::lemma_join_no_char(d.tags, ',', '\n');
    crate::text::lemma_dec_digits(d.posted as int);
    assert(forall|i: int| 0 <= i < p.len() ==> p[i] != '\n' && !is_space(#[trigger] p[i])) by {
        assert(forall|i: int| 0 <= i < p.len() ==> is_digit(#[trigger] p[i]));
    }
    assert(!p.contains('\n'));
    let t4 = Seq::<char>::empty() + nl + body;
    let t3 = d.summary + nl + t4;
    let t2 = p + nl + t3;
    let t1 = j + nl + t2;
    assert(text =~= d.title + nl + t1);
    crate::text::lemma_split_concat(d.title, t1, '\n');
    crate::text::lemma_split_concat(j, t2, '\n');
    crate::text::lemma_split_concat(p, t3, '\n');
    crate::text::lemma_split_concat(d.summary, t4, '\n');
    assert(!Seq::<char>::empty().contains('\n'));
    crate::text::lemma_split_concat(Seq::<char>::empty(), body, '\n');
    let bl = split_spec(body, '\n');
    let lines = split_spec(text, '\n');
    assert(lines =~~= seq![d.title, j, p, d.summary, Seq::<char>::empty()] + bl);
    crate::text::lemma_split_len(body, '\n');
    assert(lines.len() >= 5);
    assert(lines[0] == d.title);
    assert(lines[1] == j);
    assert(lines[2] == p);
    assert(lines[3] == d.summary);
    crate::text::lemma_split_join(d.tags, ',');
    let mapped = split_spec(lines[1], ',').map_values(|t: Seq<char>| trim_spec(t));
    assert(mapped =~~= d.tags) by {
        assert(forall|i: int|
            0 <= i < d.tags.len() ==> mapped[i] == trim_spec(#[trigger] d.tags[i]));
    }
    assert(p.len() >= 1);
    crate::text::lemma_trim_id(p);
    crate::text::lemma_parse_dec(d.posted);
    assert(posted_of(trim_spec(lines[2])) == d.posted);
    assert(lines.skip(4) =~~= seq![Seq::<char>::empty()] + bl);
    lemma_scan_body(d.elements);
    let lines2 = seq![Seq::<char>::empty()] + bl;
    assert(trim_spec(Seq::<char>::empty()).len() == 0);
    assert(lines2.drop_first() =~~= bl);
    assert(flush_spec(Seq::empty()) =~= Seq::<ElemModel>::empty());
    assert(scan_spec(lines2, Seq::empty()) =~= d.elements);
    assert(header_doc(lines, scan_spec(lines.skip(4), Seq::empty())) =~~= d);
}

/// One more element appends its line and a blank separator line.
proof fn lemma_body_snoc(es: Seq<ElemModel>, e: ElemModel)
    ensures
        body_spec(es.push(e)) == body_spec(es) + gen_line_spec(e) + seq!['\n'] + seq!['\n'],
    decreases es.len(),
{
    if es.len() == 0 {
        assert(es.push(e)[0] == e);
        assert(es.push(e).drop_first() =~~= Seq::<ElemModel>::empty());
        assert(body_spec(Seq::<ElemModel>::empty()) =~= Seq::<char>::empty());
        assert(body_spec(es.push(e)) == gen_line_spec(e) + seq!['\n'] + seq!['\n'] + body_spec(
            Seq::<ElemModel>::empty(),
        ));
        assert(body_spec(es.push(e)) =~= body_spec(es) + gen_line_spec(e) + seq!['\n']
            + seq!['\n']);
    } else {
        lemma_body_snoc(es.drop_first(), e);
        assert(es.push(e)[0] == es[0]);
        assert(es.push(e).drop_first() =~~= es.drop_first().push(e));
        assert(body_spec(es.push(e)) =~= body_spec(es) + gen_line_spec(e) + seq!['\n']
            + seq!['\n']);
    }
}

} // verus!
