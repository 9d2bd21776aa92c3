//! The element grammar: one wire line to and from one markup element,
//! and the HTML fragment an element renders as.

use vstd::prelude::*;

use crate::text::{
    join_spec,
    chars_eq, chars_range, chars_to_string, is_space, push_char, split_chars, split_spec,
    starts_with, str_to_chars, trim_chars, trim_spec,
};

verus! {

/// One markup unit of a post body.
#[derive(PartialEq, Eq, Clone, Debug)]
pub enum SynElement {
    /// Free-form paragraph content; may hold embedded newlines standing
    /// for line breaks.
    Text(String),
    /// A single-line code block.
    Code(String),
    /// A section header.
    Heading(String),
    /// An image reference: path, alternative text and inline style.
    Image { path: String, alt: String, style: String },
    /// A horizontal divider.
    LineH,
}

/// The mathematical shape of an element: the same variants over
/// character sequences.
#[verifier::ext_equal]
pub enum ElemModel {
    Text(Seq<char>),
    Code(Seq<char>),
    Heading(Seq<char>),
    Image { path: Seq<char>, alt: Seq<char>, style: Seq<char> },
    LineH,
}

impl View for SynElement {
    type V = ElemModel;

    open spec fn view(&self) -> ElemModel {
        match self {
            SynElement::Text(t) => ElemModel::Text(t@),
            SynElement::Code(t) => ElemModel::Code(t@),
            SynElement::Heading(t) => ElemModel::Heading(t@),
            SynElement::Image { path, alt, style } => ElemModel::Image {
                path: path@,
                alt: alt@,
                style: style@,
            },
            SynElement::LineH => ElemModel::LineH,
        }
    }
}

/// The divider's wire line.
pub open spec fn hline_line() -> Seq<char> {
    seq!['-', '-', '-']
}

/// The marker that opens an image line.
pub open spec fn img_marker() -> Seq<char> {
    seq!['.', 'i', 'm', 'g', ' ']
}

/// The marker that opens a code line.
pub open spec fn code_marker() -> Seq<char> {
    seq!['.', 'c', 'o', 'd', 'e', ' ']
}

/// The element an already-trimmed wire line stands for, tried in this
/// order: the divider, a heading, an image, a code line, free text.
/// `None` exactly when the line is an image line whose payload does not
/// split into three fields.
pub open spec fn classify_spec(t: Seq<char>) -> Option<ElemModel> {
    if t == hline_line() {
        Some(ElemModel::LineH)
    } else if t.len() >= 1 && t[0] == '#' {
        Some(ElemModel::Heading(t.drop_first()))
    } else if img_marker().is_prefix_of(t) {
        let parts = split_spec(t.skip(5), '|');
        if parts.len() == 3 {
            Some(ElemModel::Image { path: parts[0], alt: parts[1], style: parts[2] })
        } else {
            None
        }
    } else if code_marker().is_prefix_of(t) {
        Some(ElemModel::Code(t.skip(6)))
    } else {
        Some(ElemModel::Text(t))
    }
}

/// The element a raw wire line stands for: the line is trimmed of
/// surrounding whitespace, then classified.
pub open spec fn parse_line_spec(raw: Seq<char>) -> Option<ElemModel> {
    classify_spec(trim_spec(raw))
}

/// The wire line an element writes back to.
pub open spec fn gen_line_spec(e: ElemModel) -> Seq<char> {
    match e {
        ElemModel::Text(t) => t,
        ElemModel::Code(t) => code_marker() + t,
        ElemModel::Heading(t) => seq!['#'] + t,
        ElemModel::Image { path, alt, style } => img_marker() + path + seq!['|'] + alt + seq!['|']
            + style,
        ElemModel::LineH => hline_line(),
    }
}

/// `t` with each newline replaced by a `<br>` tag.
pub open spec fn replace_nl_spec(t: Seq<char>) -> Seq<char>
    decreases t.len(),
{
    if t.len() == 0 {
        Seq::empty()
    } else if t[0] == '\n' {
        "<br>"@ + replace_nl_spec(t.drop_first())
    } else {
        seq![t[0]] + replace_nl_spec(t.drop_first())
    }
}

/// The HTML fragment an element renders as.  No escaping is performed:
/// payload text is emitted verbatim.
pub open spec fn tag_spec(e: ElemModel) -> Seq<char> {
    match e {
        ElemModel::Text(t) => "<p>"@ + replace_nl_spec(t) + "</p>"@,
        ElemModel::Code(t) => "<p class='code'>"@ + t + "</p>"@,
        ElemModel::Heading(t) => "<h2>"@ + t + "</h2>"@,
        ElemModel::Image { path, alt, style } => "<img src='"@ + path + "' style='"@ + style
            + "'>"@ + alt + "</img>"@,
        ElemModel::LineH => "<div class='hline'></div>"@,
    }
}

impl SynElement {
    /// Parses one wire line, stripped of its terminator, into an element.
    /// Fails exactly on an image line whose payload is not three
    /// pipe-separated fields; every other line parses, free text as the
    /// last resort.
    pub fn parse_line(line: String) -> (r: Result<Self, ()>)
        ensures
            r is Ok <==> parse_line_spec(line@) is Some,
            r is Ok ==> r->Ok_0@ == parse_line_spec(line@)->Some_0,
    {
        let v = str_to_chars(line.as_str());
        let t = trim_chars(v.as_slice());
        let hline: Vec<char> = str_to_chars("---");
        let img: Vec<char> = str_to_chars(".img ");
        let code: Vec<char> = str_to_chars(".code ");
        proof {
            reveal_strlit("---");
            reveal_strlit(".img ");
            reveal_strlit(".code ");
            assert(hline@ =~= hline_line());
            assert(img@ =~= img_marker());
            assert(code@ =~= code_marker());
        }
        if chars_eq(t.as_slice(), hline.as_slice()) {
            Ok(SynElement::LineH)
        } else if t.len() >= 1 && t[0] == '#' {
            let rest = chars_range(t.as_slice(), 1, t.len());
            proof {
                assert(rest@ =~= t@.drop_first());
            }
            Ok(SynElement::Heading(chars_to_string(rest.as_slice())))
        } else if starts_with(t.as_slice(), img.as_slice()) {
            let rest = chars_range(t.as_slice(), 5, t.len());
            proof {
                assert(rest@ =~= t@.skip(5));
            }
            let parts = split_chars(rest.as_slice(), '|');
            if parts.len() == 3 {
                proof {
                    assert(parts.deep_view()[0] == parts@[0]@);
                    assert(parts.deep_view()[1] == parts@[1]@);
                    assert(parts.deep_view()[2] == parts@[2]@);
                }
                Ok(
                    SynElement::Image {
                        path: chars_to_string(parts[0].as_slice()),
                        alt: chars_to_string(parts[1].as_slice()),
                        style: chars_to_string(parts[2].as_slice()),
                    },
                )
            } else {
                Err(())
            }
        } else if starts_with(t.as_slice(), code.as_slice()) {
            let rest = chars_range(t.as_slice(), 6, t.len());
            proof {
                assert(rest@ =~= t@.skip(6));
            }
            Ok(SynElement::Code(chars_to_string(rest.as_slice())))
        } else {
            Ok(SynElement::Text(chars_to_string(t.as_slice())))
        }
    }

    /// Writes the element back to its wire line: the exact inverse of the
    /// payload encoding `parse_line` reads.
    pub fn generate_line(&self) -> (r: String)
        ensures
            r@ == gen_line_spec(self@),
    {
        match self {
            SynElement::Text(text) => text.clone(),
            SynElement::Code(text) => {
                let mut r = String::from_str(".code ");
                r.append(text.as_str());
                proof {
                    reveal_strlit(".code ");
                    assert(".code "@ =~= code_marker());
                }
                r
            },
            SynElement::Heading(text) => {
                let mut r = String::from_str("#");
                r.append(text.as_str());
                proof {
                    reveal_strlit("#");
                    assert("#"@ =~= seq!['#']);
                }
                r
            },
            SynElement::Image { path, alt, style } => {
                let mut r = String::from_str(".img ");
                r.append(path.as_str());
                push_char(&mut r, '|');
                r.append(alt.as_str());
                push_char(&mut r, '|');
                r.append(style.as_str());
                proof {
                    reveal_strlit(".img ");
                    assert(".img "@ =~= img_marker());
                    assert(r@ =~= gen_line_spec(self@));
                }
                r
            },
            SynElement::LineH => {
                let r = String::from_str("---");
                proof {
                    reveal_strlit("---");
                    assert("---"@ =~= hline_line());
                }
                r
            },
        }
    }

    /// Renders the element as its HTML fragment.  Text paragraphs have
    /// each embedded newline replaced by a `<br>` tag; nothing is
    /// HTML-escaped anywhere, so untrusted payloads reach the output
    /// verbatim.
    pub fn generate_tag(&self) -> (r: String)
        ensures
            r@ == tag_spec(self@),
    {
        match self {
            SynElement::Text(text) => {
                let replaced = replace_newlines(text.as_str());
                let mut r = String::from_str("<p>");
                r.append(replaced.as_str());
                r.append("</p>");
                r
            },
            SynElement::Code(text) => {
                let mut r = String::from_str("<p class='code'>");
                r.append(text.as_str());
                r.append("</p>");
                r
            },
            SynElement::Heading(text) => {
                let mut r = String::from_str("<h2>");
                r.append(text.as_str());
                r.append("</h2>");
                r
            },
            SynElement::Image { path, alt, style } => {
                let mut r = String::from_str("<img src='");
                r.append(path.as_str());
                r.append("' style='");
                r.append(style.as_str());
                r.append("'>");
                r.append(alt.as_str());
                r.append("</img>");
                r
            },
            SynElement::LineH => String::from_str("<div class='hline'></div>"),
        }
    }
}

/// An element whose wire line reads back to the same element: the
/// payload survives the trimming and the first-match classification
/// that `parse_line` applies.
pub open spec fn line_canonical(e: ElemModel) -> bool {
    match e {
        ElemModel::Text(t) => trim_spec(t) == t && t != hline_line() && !(t.len() >= 1 && t[0]
            == '#') && !img_marker().is_prefix_of(t) && !code_marker().is_prefix_of(t),
        ElemModel::Code(t) => t.len() >= 1 && !is_space(t.last()),
        ElemModel::Heading(t) => t.len() == 0 || !is_space(t.last()),
        ElemModel::Image { path, alt, style } => !path.contains('|') && !alt.contains('|')
            && !style.contains('|') && (style.len() == 0 || !is_space(style.last())),
        ElemModel::LineH => true,
    }
}

/// The wire line of a canonical element carries no surrounding
/// whitespace, so trimming leaves it unchanged.
pub proof fn lemma_gen_line_trimmed(e: ElemModel)
    requires
        line_canonical(e),
    ensures
        trim_spec(gen_line_spec(e)) == gen_line_spec(e),
{
    let g = gen_line_spec(e);
    match e {
        ElemModel::Text(t) => {},
        ElemModel::Code(t) => {
            assert(g[0] == '.');
            assert(g.last() == t.last());
            crate::text::lemma_trim_id(g);
        },
        ElemModel::Heading(t) => {
            assert(g[0] == '#');
            if t.len() == 0 {
                assert(g.last() == '#');
            } else {
                assert(g.last() == t.last());
            }
            crate::text::lemma_trim_id(g);
        },
        ElemModel::Image { path, alt, style } => {
            assert(g[0] == '.');
            if style.len() == 0 {
                assert(g.last() == '|');
            } else {
                assert(g.last() == style.last());
            }
            crate::text::lemma_trim_id(g);
        },
        ElemModel::LineH => {
            assert(g[0] == '-');
            assert(g.last() == '-');
            crate::text::lemma_trim_id(g);
        },
    }
}

/// Round trip from an element: parsing the wire line a canonical
/// element generates returns that element.
pub proof fn lemma_parse_generate_line(e: ElemModel)
    requires
        line_canonical(e),
    ensures
        parse_line_spec(gen_line_spec(e)) == Some(e),
{
    let g = gen_line_spec(e);
    lemma_gen_line_trimmed(e);
    match e {
        ElemModel::Text(t) => {},
        ElemModel::Code(t) => {
            assert(g[0] == '.');
            assert(g != hline_line());
            assert(g[1] == 'c');
            if img_marker().is_prefix_of(g) {
                assert(img_marker()[1] == g.subrange(0, 5)[1]);
                assert(false);
            }
            assert(g.subrange(0, 6) =~= code_marker());
            assert(code_marker().is_prefix_of(g));
            assert(g.skip(6) =~= t);
            assert(classify_spec(g) == Some(e));
        },
        ElemModel::Heading(t) => {
            assert(g[0] == '#');
            assert(g != hline_line());
            assert(g.drop_first() =~= t);
            assert(classify_spec(g) == Some(e));
        },
        ElemModel::Image { path, alt, style } => {
            assert(g[0] == '.');
            assert(g != hline_line());
            assert(g.subrange(0, 5) =~= img_marker());
            assert(img_marker().is_prefix_of(g));
            let payload = path + seq!['|'] + alt + seq!['|'] + style;
            assert(g.skip(5) =~= payload);
            assert(payload =~= path + seq!['|'] + (alt + seq!['|'] + style));
            crate::text::lemma_split_concat(path, alt + seq!['|'] + style, '|');
            crate::text::lemma_split_concat(alt, style, '|');
            crate::text::lemma_split_no_sep(style, '|');
            let parts = split_spec(payload, '|');
            assert(parts =~~= seq![path, alt, style]);
            assert(parts.len() == 3);
            assert(classify_spec(g) == Some(
                ElemModel::Image { path: parts[0], alt: parts[1], style: parts[2] },
            ));
            assert(classify_spec(g) == Some(e));
        },
        ElemModel::LineH => {
            assert(g == hline_line());
        },
    }
}

/// Round trip from a wire line: a well-formed line with no surrounding
/// whitespace parses to an element that generates the same line again.
/// Well-formed means: if the line is an image line, its payload splits
/// into exactly three fields.
pub proof fn lemma_generate_parse_line(s: Seq<char>)
    requires
        trim_spec(s) == s,
        img_marker().is_prefix_of(s) ==> split_spec(s.skip(5), '|').len() == 3,
    ensures
        parse_line_spec(s) is Some,
        gen_line_spec(parse_line_spec(s)->Some_0) == s,
{
    if s == hline_line() {
    } else if s.len() >= 1 && s[0] == '#' {
        assert(seq!['#'] + s.drop_first() =~= s);
    } else if img_marker().is_prefix_of(s) {
        let parts = split_spec(s.skip(5), '|');
        crate::text::lemma_join_split(s.skip(5), '|');
        assert(parts.len() == 3);
        let r2 = parts.drop_first();
        assert(r2.len() == 2);
        assert(r2[0] == parts[1]);
        let r3 = r2.drop_first();
        assert(r3.len() == 1);
        assert(r3[0] == parts[2]);
        assert(join_spec(r3, '|') == parts[2]);
        assert(join_spec(r2, '|') == parts[1] + seq!['|'] + parts[2]);
        assert(join_spec(parts, '|') == parts[0] + seq!['|'] + (parts[1] + seq!['|'] + parts[2]));
        assert(s.skip(5) == parts[0] + seq!['|'] + (parts[1] + seq!['|'] + parts[2]));
        let e = classify_spec(s)->Some_0;
        assert(e == ElemModel::Image { path: parts[0], alt: parts[1], style: parts[2] });
        assert(gen_line_spec(e) =~= img_marker() + s.skip(5));
        assert(img_marker() =~= s.subrange(0, 5));
        assert(img_marker() + s.skip(5) =~= s);
    } else if code_marker().is_prefix_of(s) {
        assert(code_marker() =~= s.subrange(0, 6));
        assert(code_marker() + s.skip(6) =~= s);
    } else {
    }
}

/// Replacing newlines distributes over concatenation.
proof fn lemma_replace_nl_concat(a: Seq<char>, b: Seq<char>)
    ensures
        replace_nl_spec(a + b) == replace_nl_spec(a) + replace_nl_spec(b),
    decreases a.len(),
{
    if a.len() == 0 {
        assert(a + b =~= b);
        assert(replace_nl_spec(a) + replace_nl_spec(b) =~= replace_nl_spec(b));
    } else {
        lemma_replace_nl_concat(a.drop_first(), b);
        assert((a + b).drop_first() =~= a.drop_first() + b);
        assert((a + b)[0] == a[0]);
        assert(replace_nl_spec(a + b) =~= replace_nl_spec(a) + replace_nl_spec(b));
    }
}

/// `s` with each newline replaced by a `<br>` tag.
fn replace_newlines(s: &str) -> (r: String)
    ensures
        r@ == replace_nl_spec(s@),
{
    let v = str_to_chars(s);
    let mut r = String::new();
    let mut i: usize = 0;
    while i < v.len()
        invariant
            i <= v@.len(),
            v@ == s@,
            r@ == replace_nl_spec(v@.take(i as int)),
        decreases v@.len() - i,
    {
        let ghost before = v@.take(i as int);
        let c = v[i];
        if c == '\n' {
            r.append("<br>");
        } else {
            push_char(&mut r, c);
        }
        i = i + 1;
        proof {
            assert(v@.take(i as int) =~= before + seq![c]);
            lemma_replace_nl_concat(before, seq![c]);
            assert(seq![c].drop_first() =~= Seq::<char>::empty());
            assert(seq![c].len() == 1 && seq![c][0] == c);
            assert(replace_nl_spec(Seq::<char>::empty()) =~= Seq::<char>::empty());
            if c == '\n' {
                assert(replace_nl_spec(seq![c]) =~= "<br>"@);
            } else {
                assert(replace_nl_spec(seq![c]) =~= seq![c]);
            }
        }
    }
    proof {
        assert(v@.take(v@.len() as int) =~= v@);
    }
    r
}

} // verus!
