//! Splitting Markdown into retrieval chunks along headings and paragraphs.
use vstd::prelude::*;

use crate::paths::{relative_path, spec_relative_path};
use crate::model::{drafts_view, ChunkDraft, ChunkSpec, MarkdownDocument};
use crate::text::{
    byte_len, byte_len_of, chars_of, join, lemma_encode_append, join_with, lemma_seqs_push, lines, push_all, seqs,
    skip_ws, slice_chars, split_lines, string_of, trim, trim_bounds, trim_start, trimmed,
};

verus! {

/// The number of `'#'` characters that `s` starts with.
pub open spec fn leading_hashes(s: Seq<char>) -> nat
    decreases s.len(),
{
    if s.len() > 0 && s[0] == '#' {
        1 + leading_hashes(s.drop_first())
    } else {
        0
    }
}

/// An ATX heading line: after leading whitespace, one to six `'#'` and a
/// non-blank title; the level and the trimmed title.
pub open spec fn spec_parse_heading(line: Seq<char>) -> Option<(nat, Seq<char>)> {
    let t = trim_start(line);
    let h = leading_hashes(t);
    if h == 0 || h > 6 {
        None
    } else {
        let rest = trim(t.skip(h as int));
        if rest.len() == 0 {
            None
        } else {
            Some((h, rest))
        }
    }
}

proof fn lemma_leading_hashes(s: Seq<char>, n: int)
    requires
        0 <= n <= s.len(),
        forall|k: int| 0 <= k < n ==> #[trigger] s[k] == '#',
        n == s.len() || s[n] != '#',
    ensures
        leading_hashes(s) == n,
    decreases n,
{
    if n > 0 {
        lemma_leading_hashes(s.drop_first(), n - 1);
    }
}

/// The level and title of `line` if it is a heading.
fn parse_heading(line: &Vec<char>) -> (r: Option<(usize, Vec<char>)>)
    ensures
        match r {
            Some((n, h)) => spec_parse_heading(line@) == Some((n as nat, h@)),
            None => spec_parse_heading(line@) is None,
        },
{
    let len = line.len();
    let a = skip_ws(line, 0, len);
    let ghost t = line@.subrange(a as int, len as int);
    assert(line@.subrange(0, len as int) =~= line@);
    let mut h: usize = 0;
    while a + h < len && line[a + h] == '#'
        invariant
            a <= len == line@.len(),
            a + h <= len,
            t == line@.subrange(a as int, len as int),
            forall|k: int| 0 <= k < h ==> #[trigger] t[k] == '#',
        decreases len - (a + h),
    {
        h = h + 1;
    }
    proof {
        lemma_leading_hashes(t, h as int);
    }
    if h == 0 || h > 6 {
        return None;
    }
    let (b, e) = trim_bounds(line, a + h, len);
    assert(t.skip(h as int) =~= line@.subrange(a + h, len as int));
    if b == e {
        return None;
    }
    Some((h, slice_chars(line, b, e)))
}

/// The separator between the titles of nested headings.
pub open spec fn heading_sep() -> Seq<char> {
    seq![' ', '>', ' ']
}

/// One newline.
pub open spec fn newline() -> Seq<char> {
    seq!['\n']
}

/// The sections so far with the body lines of the open section trimmed and
/// joined, if that body is not blank.
pub open spec fn flush(
    sections: Seq<(Seq<char>, Seq<char>)>,
    heading: Seq<char>,
    body: Seq<Seq<char>>,
) -> Seq<(Seq<char>, Seq<char>)> {
    let b = trim(join(body, newline()));
    if b.len() > 0 {
        sections.push((heading, b))
    } else {
        sections
    }
}

/// The heading stack after a heading of `level` with title `h`: the headings
/// above that level stay, `h` goes on top.
pub open spec fn nest(headings: Seq<Seq<char>>, level: nat, h: Seq<char>) -> Seq<Seq<char>> {
    let keep = if level - 1 < headings.len() {
        (level - 1) as int
    } else {
        headings.len() as int
    };
    headings.take(keep).push(h)
}

/// The closed sections, the heading stack and the body lines of the open
/// section, after reading `lines`.
pub struct SectionState {
    pub sections: Seq<(Seq<char>, Seq<char>)>,
    pub headings: Seq<Seq<char>>,
    pub body: Seq<Seq<char>>,
}

pub open spec fn sections_state(lines: Seq<Seq<char>>) -> SectionState
    decreases lines.len(),
{
    if lines.len() == 0 {
        SectionState { sections: Seq::empty(), headings: Seq::empty(), body: Seq::empty() }
    } else {
        let st = sections_state(lines.drop_last());
        match spec_parse_heading(lines.last()) {
            Some((level, h)) => SectionState {
                sections: flush(st.sections, join(st.headings, heading_sep()), st.body),
                headings: nest(st.headings, level, h),
                body: Seq::empty(),
            },
            None => SectionState {
                sections: st.sections,
                headings: st.headings,
                body: st.body.push(lines.last()),
            },
        }
    }
}

/// The sections of `content`: each non-blank body with the path of the
/// headings above it, joined with `" > "`.
pub open spec fn spec_split_sections(content: Seq<char>) -> Seq<(Seq<char>, Seq<char>)> {
    let st = sections_state(lines(content));
    flush(st.sections, join(st.headings, heading_sep()), st.body)
}

/// The views of a sequence of (heading, body) pairs.
pub open spec fn pairs(v: Seq<(Vec<char>, Vec<char>)>) -> Seq<(Seq<char>, Seq<char>)> {
    Seq::new(v.len(), |i: int| (v[i].0@, v[i].1@))
}

fn copy_chars(v: &Vec<char>) -> (r: Vec<char>)
    ensures
        r@ == v@,
{
    let r = slice_chars(v, 0, v.len());
    assert(v@.subrange(0, v@.len() as int) =~= v@);
    r
}

fn chars_lit3(a: char, b: char, c: char) -> (r: Vec<char>)
    ensures
        r@ == seq![a, b, c],
{
    let mut r = Vec::new();
    r.push(a);
    r.push(b);
    r.push(c);
    assert(r@ =~= seq![a, b, c]);
    r
}

fn flush_section(
    sections: &mut Vec<(Vec<char>, Vec<char>)>,
    heading_path: &Vec<char>,
    lines: &Vec<Vec<char>>,
)
    ensures
        pairs(final(sections)@) == flush(pairs(old(sections)@), heading_path@, seqs(lines@)),
{
    let mut nl: Vec<char> = Vec::new();
    nl.push('\n');
    assert(nl@ =~= newline());
    let joined = join_with(lines, &nl);
    let body = trimmed(&joined);
    if body.len() > 0 {
        let h = copy_chars(heading_path);
        let ghost before = sections@;
        sections.push((h, body));
        assert(pairs(sections@) =~= pairs(before).push((heading_path@, body@)));
    }
}

fn split_sections(content: &Vec<char>) -> (r: Vec<(Vec<char>, Vec<char>)>)
    ensures
        pairs(r@) == spec_split_sections(content@),
{
    let lines = split_lines(content);
    let ghost ls = seqs(lines@);
    let sep = chars_lit3(' ', '>', ' ');
    let mut sections: Vec<(Vec<char>, Vec<char>)> = Vec::new();
    let mut headings: Vec<Vec<char>> = Vec::new();
    let mut current_body: Vec<Vec<char>> = Vec::new();
    let mut current_heading: Vec<char> = Vec::new();
    assert(join(seqs(headings@), heading_sep()) =~= current_heading@);
    assert(ls.take(0) =~= Seq::<Seq<char>>::empty());
    assert(pairs(sections@) =~= Seq::<(Seq<char>, Seq<char>)>::empty());
    assert(seqs(headings@) =~= Seq::<Seq<char>>::empty());
    assert(seqs(current_body@) =~= Seq::<Seq<char>>::empty());
    for i in 0..lines.len()
        invariant
            ls == seqs(lines@),
            sep@ == heading_sep(),
            sections_state(ls.take(i as int)) == (SectionState {
                sections: pairs(sections@),
                headings: seqs(headings@),
                body: seqs(current_body@),
            }),
            current_heading@ == join(seqs(headings@), heading_sep()),
    {
        assert(ls.take(i + 1).drop_last() =~= ls.take(i as int));
        assert(ls.take(i + 1).last() == lines@[i as int]@);
        match parse_heading(&lines[i]) {
            Some((level, heading)) => {
                flush_section(&mut sections, &current_heading, &current_body);
                current_body = Vec::new();
                let ghost old_h = seqs(headings@);
                headings.truncate(level - 1);
                assert(seqs(headings@) =~= old_h.take(
                    if level - 1 < old_h.len() {
                        (level - 1) as int
                    } else {
                        old_h.len() as int
                    },
                ));
                proof {
                    lemma_seqs_push(headings@, heading);
                }
                headings.push(heading);
                current_heading = join_with(&headings, &sep);
                assert(seqs(current_body@) =~= Seq::<Seq<char>>::empty());
            },
            None => {
                let line = copy_chars(&lines[i]);
                proof {
                    lemma_seqs_push(current_body@, line);
                }
                current_body.push(line);
            },
        }
    }
    assert(ls.take(lines.len() as int) =~= ls);
    flush_section(&mut sections, &current_heading, &current_body);
    sections
}


/// The paragraphs finished so far and the lines of the open one, after
/// reading `lines`; a blank line closes a paragraph.
pub open spec fn paragraphs_state(lines: Seq<Seq<char>>) -> (Seq<Seq<char>>, Seq<Seq<char>>)
    decreases lines.len(),
{
    if lines.len() == 0 {
        (Seq::empty(), Seq::empty())
    } else {
        let (paras, cur) = paragraphs_state(lines.drop_last());
        let line = lines.last();
        if trim(line).len() == 0 {
            if cur.len() > 0 {
                (paras.push(join(cur, newline())), Seq::empty())
            } else {
                (paras, cur)
            }
        } else {
            (paras, cur.push(line))
        }
    }
}

/// The paragraphs of `body`: runs of non-blank lines, joined with newlines.
pub open spec fn spec_split_paragraphs(body: Seq<char>) -> Seq<Seq<char>> {
    let (paras, cur) = paragraphs_state(lines(body));
    if cur.len() > 0 {
        paras.push(join(cur, newline()))
    } else {
        paras
    }
}

fn split_paragraphs(body: &Vec<char>) -> (r: Vec<Vec<char>>)
    ensures
        seqs(r@) == spec_split_paragraphs(body@),
{
    let lines = split_lines(body);
    let ghost ls = seqs(lines@);
    let mut nl: Vec<char> = Vec::new();
    nl.push('\n');
    assert(nl@ =~= newline());
    let mut paragraphs: Vec<Vec<char>> = Vec::new();
    let mut current: Vec<Vec<char>> = Vec::new();
    assert(ls.take(0) =~= Seq::<Seq<char>>::empty());
    assert(seqs(paragraphs@) =~= Seq::<Seq<char>>::empty());
    assert(seqs(current@) =~= Seq::<Seq<char>>::empty());
    for i in 0..lines.len()
        invariant
            ls == seqs(lines@),
            nl@ == newline(),
            paragraphs_state(ls.take(i as int)) == (seqs(paragraphs@), seqs(current@)),
    {
        assert(ls.take(i + 1).drop_last() =~= ls.take(i as int));
        assert(ls.take(i + 1).last() == lines@[i as int]@);
        let (a, b) = trim_bounds(&lines[i], 0, lines[i].len());
        assert(lines@[i as int]@.subrange(0, lines@[i as int]@.len() as int) =~= lines@[i as int]@);
        if a == b {
            if current.len() > 0 {
                let p = join_with(&current, &nl);
                proof {
                    lemma_seqs_push(paragraphs@, p);
                }
                paragraphs.push(p);
                current = Vec::new();
                assert(seqs(current@) =~= Seq::<Seq<char>>::empty());
            }
        } else {
            let line = copy_chars(&lines[i]);
            proof {
                lemma_seqs_push(current@, line);
            }
            current.push(line);
        }
    }
    assert(ls.take(lines.len() as int) =~= ls);
    if current.len() > 0 {
        let p = join_with(&current, &nl);
        proof {
            lemma_seqs_push(paragraphs@, p);
        }
        paragraphs.push(p);
    }
    paragraphs
}

/// `s` cut into consecutive pieces of `k` characters, the last one shorter
/// if need be.
pub open spec fn pieces(s: Seq<char>, k: nat) -> Seq<Seq<char>>
    decreases s.len(),
{
    if s.len() == 0 {
        Seq::empty()
    } else if k == 0 || s.len() <= k {
        seq![s]
    } else {
        seq![s.take(k as int)] + pieces(s.skip(k as int), k)
    }
}

/// A text that fits in `limit` characters stays whole; a longer one is cut
/// into pieces of `limit` characters.
pub open spec fn spec_split_long_text(s: Seq<char>, limit: nat) -> Seq<Seq<char>> {
    if s.len() <= limit {
        seq![s]
    } else {
        pieces(s, limit)
    }
}

fn split_long_text(text: &Vec<char>, limit: usize) -> (r: Vec<Vec<char>>)
    requires
        limit > 0 || text@.len() <= limit,
    ensures
        seqs(r@) == spec_split_long_text(text@, limit as nat),
{
    let len = text.len();
    if len <= limit {
        let mut r: Vec<Vec<char>> = Vec::new();
        let t = copy_chars(text);
        r.push(t);
        assert(seqs(r@) =~= seq![text@]);
        return r;
    }
    let ghost s = text@;
    let mut r: Vec<Vec<char>> = Vec::new();
    let mut i: usize = 0;
    assert(s.skip(0) =~= s);
    assert(seqs(r@) + pieces(s.skip(0), limit as nat) =~= pieces(s, limit as nat));
    while i < len
        invariant
            s == text@,
            len == s.len(),
            0 < limit < len,
            i <= len,
            seqs(r@) + pieces(s.skip(i as int), limit as nat) == pieces(s, limit as nat),
        decreases len - i,
    {
        let j = if len - i <= limit {
            len
        } else {
            i + limit
        };
        let piece = slice_chars(text, i, j);
        let ghost rest = s.skip(i as int);
        proof {
            if len - i <= limit {
                assert(rest =~= piece@);
                assert(s.skip(j as int) =~= Seq::<char>::empty());
            } else {
                assert(rest.take(limit as int) =~= piece@);
                assert(rest.skip(limit as int) =~= s.skip(j as int));
            }
            assert(pieces(rest, limit as nat) =~= seq![piece@] + pieces(s.skip(j as int), limit as nat));
            lemma_seqs_push(r@, piece);
        }
        r.push(piece);
        i = j;
        assert(seqs(r@) + pieces(s.skip(i as int), limit as nat) =~= pieces(s, limit as nat));
    }
    assert(s.skip(len as int) =~= Seq::<char>::empty());
    assert(seqs(r@) =~= pieces(s, limit as nat));
    r
}


/// The separator between two paragraphs of one chunk.
pub open spec fn para_sep() -> Seq<char> {
    seq!['\n', '\n']
}

/// The chunk bodies closed so far and the open body, after one more
/// paragraph: the paragraph joins the open body while that stays within
/// `limit` bytes; a paragraph longer than `limit` bytes closes the open body
/// and is cut by characters on its own.
pub open spec fn merge_step(st: (Seq<Seq<char>>, Seq<char>), para: Seq<char>, limit: nat) -> (
    Seq<Seq<char>>,
    Seq<char>,
) {
    let p = trim(para);
    if p.len() == 0 {
        st
    } else {
        let flushed = st.1.len() > 0 && byte_len(st.1) + byte_len(p) + 2 > limit;
        let b1 = if flushed {
            st.0.push(st.1)
        } else {
            st.0
        };
        let c1 = if flushed {
            Seq::empty()
        } else {
            st.1
        };
        if byte_len(p) > limit {
            let b2 = if c1.len() > 0 {
                b1.push(c1)
            } else {
                b1
            };
            (b2 + spec_split_long_text(p, limit), Seq::empty())
        } else if c1.len() > 0 {
            (b1, c1 + para_sep() + p)
        } else {
            (b1, p)
        }
    }
}

pub open spec fn merge_state(paras: Seq<Seq<char>>, limit: nat) -> (Seq<Seq<char>>, Seq<char>)
    decreases paras.len(),
{
    if paras.len() == 0 {
        (Seq::empty(), Seq::empty())
    } else {
        merge_step(merge_state(paras.drop_last(), limit), paras.last(), limit)
    }
}

/// The chunk bodies of one section body.
pub open spec fn section_bodies(body: Seq<char>, limit: nat) -> Seq<Seq<char>> {
    let (bodies, cur) = merge_state(spec_split_paragraphs(body), limit);
    if trim(cur).len() > 0 {
        bodies.push(cur)
    } else {
        bodies
    }
}

/// Whether `body` has a paragraph with some non-whitespace text.
pub open spec fn text_paragraphs(body: Seq<char>) -> bool {
    exists|j: int|
        0 <= j < spec_split_paragraphs(body).len() && trim(
            #[trigger] spec_split_paragraphs(body)[j],
        ).len() > 0
}

/// Whether some section of `content` has a paragraph with text; chunking
/// such a document cuts text by characters, which takes a positive limit.
pub open spec fn has_text_paragraph(content: Seq<char>) -> bool {
    exists|i: int|
        0 <= i < spec_split_sections(content).len() && text_paragraphs(
            #[trigger] spec_split_sections(content)[i].1,
        )
}

pub open spec fn path_prefix() -> Seq<char> {
    seq!['P', 'a', 't', 'h', ':', ' ']
}

pub open spec fn heading_prefix() -> Seq<char> {
    seq!['H', 'e', 'a', 'd', 'i', 'n', 'g', ':', ' ']
}

/// The text of a chunk: a `Path:` line, a `Heading:` line when there is a
/// heading path, a blank line, and the trimmed body.
pub open spec fn chunk_text(rel: Seq<char>, heading: Seq<char>, body: Seq<char>) -> Seq<char> {
    path_prefix() + rel + newline() + (if heading.len() > 0 {
        heading_prefix() + heading + para_sep()
    } else {
        newline()
    }) + trim(body)
}

pub open spec fn spec_build_chunk(rel: Seq<char>, heading: Seq<char>, body: Seq<char>) -> ChunkSpec {
    ChunkSpec { heading_path: heading, text: chunk_text(rel, heading, body) }
}

/// The chunks of one section.
pub open spec fn section_chunks(rel: Seq<char>, heading: Seq<char>, body: Seq<char>, limit: nat) -> Seq<
    ChunkSpec,
> {
    section_bodies(body, limit).map_values(|b: Seq<char>| spec_build_chunk(rel, heading, b))
}

/// The chunks of the sections, in order.
pub open spec fn all_chunks(rel: Seq<char>, secs: Seq<(Seq<char>, Seq<char>)>, limit: nat) -> Seq<
    ChunkSpec,
>
    decreases secs.len(),
{
    if secs.len() == 0 {
        Seq::empty()
    } else {
        all_chunks(rel, secs.drop_last(), limit) + section_chunks(
            rel,
            secs.last().0,
            secs.last().1,
            limit,
        )
    }
}

/// The chunks of a document: those of its sections, or, where there are
/// none, one chunk of the whole trimmed content without a heading.
pub open spec fn spec_chunk_document(rel: Seq<char>, content: Seq<char>, limit: nat) -> Seq<
    ChunkSpec,
> {
    let cs = all_chunks(rel, spec_split_sections(content), limit);
    if cs.len() == 0 {
        seq![spec_build_chunk(rel, Seq::empty(), trim(content))]
    } else {
        cs
    }
}

fn lit(s: &str) -> (r: Vec<char>)
    ensures
        r@ == s@,
{
    chars_of(s)
}

fn build_chunk(rel: &Vec<char>, heading_path: &Vec<char>, body: &Vec<char>) -> (r: ChunkDraft)
    ensures
        r@ == spec_build_chunk(rel@, heading_path@, body@),
{
    let mut text: Vec<char> = Vec::new();
    let p = lit("Path: ");
    proof {
        reveal_strlit("Path: ");
    }
    assert(p@ =~= path_prefix());
    push_all(&mut text, &p);
    push_all(&mut text, rel);
    text.push('\n');
    if heading_path.len() > 0 {
        let h = lit("Heading: ");
        proof {
            reveal_strlit("Heading: ");
        }
        assert(h@ =~= heading_prefix());
        push_all(&mut text, &h);
        push_all(&mut text, heading_path);
        text.push('\n');
        text.push('\n');
    } else {
        text.push('\n');
    }
    let b = trimmed(body);
    push_all(&mut text, &b);
    assert(text@ =~= chunk_text(rel@, heading_path@, body@));
    ChunkDraft { heading_path: string_of(heading_path), text: string_of(&text) }
}

fn merge_paragraphs(body: &Vec<char>, limit: usize) -> (r: Vec<Vec<char>>)
    requires
        limit > 0 || !text_paragraphs(body@),
    ensures
        seqs(r@) == section_bodies(body@, limit as nat),
{
    let paragraphs = split_paragraphs(body);
    let ghost ps = seqs(paragraphs@);
    let mut bodies: Vec<Vec<char>> = Vec::new();
    let mut current: Vec<char> = Vec::new();
    assert(ps.take(0) =~= Seq::<Seq<char>>::empty());
    assert(seqs(bodies@) =~= Seq::<Seq<char>>::empty());
    for i in 0..paragraphs.len()
        invariant
            ps == seqs(paragraphs@),
            ps == spec_split_paragraphs(body@),
            limit > 0 || !text_paragraphs(body@),
            merge_state(ps.take(i as int), limit as nat) == (seqs(bodies@), current@),
    {
        assert(ps.take(i + 1).drop_last() =~= ps.take(i as int));
        assert(ps.take(i + 1).last() == paragraphs@[i as int]@);
        let p = trimmed(&paragraphs[i]);
        if p.len() > 0 {
            assert(trim(ps[i as int]).len() > 0);
            let p_bytes = byte_len_of(&p, 0, p.len());
            let c_bytes = byte_len_of(&current, 0, current.len());
            assert(p@.subrange(0, p@.len() as int) =~= p@);
            assert(current@.subrange(0, current@.len() as int) =~= current@);
            if current.len() > 0 && c_bytes + p_bytes + 2 > limit as u128 {
                let c = current;
                proof {
                    lemma_seqs_push(bodies@, c);
                }
                bodies.push(c);
                current = Vec::new();
            }
            if p_bytes > limit as u128 {
                if current.len() > 0 {
                    let c = current;
                    proof {
                        lemma_seqs_push(bodies@, c);
                    }
                    bodies.push(c);
                    current = Vec::new();
                }
                let mut pieces = split_long_text(&p, limit);
                let ghost before = bodies@;
                let ghost pv = pieces@;
                bodies.append(&mut pieces);
                assert(seqs(bodies@) =~= seqs(before) + seqs(pv));
            } else {
                if current.len() > 0 {
                    current.push('\n');
                    current.push('\n');
                }
                push_all(&mut current, &p);
            }
            assert(merge_state(ps.take(i + 1), limit as nat).1 =~= current@);
        }
    }
    assert(ps.take(paragraphs.len() as int) =~= ps);
    let (a, b) = trim_bounds(&current, 0, current.len());
    assert(current@.subrange(0, current@.len() as int) =~= current@);
    if a < b {
        proof {
            lemma_seqs_push(bodies@, current);
        }
        bodies.push(current);
    }
    bodies
}

/// Whether some section of `content` has a paragraph with text, which
/// chunking cuts by characters.
pub fn has_text_paragraphs(content: &str) -> (r: bool)
    ensures
        r == has_text_paragraph(content@),
{
    let chars = chars_of(content);
    let sections = split_sections(&chars);
    let ghost secs = pairs(sections@);
    for i in 0..sections.len()
        invariant
            secs == pairs(sections@),
            secs == spec_split_sections(content@),
            forall|k: int| 0 <= k < i ==> !text_paragraphs(#[trigger] secs[k].1),
    {
        let paragraphs = split_paragraphs(&sections[i].1);
        let ghost ps = seqs(paragraphs@);
        assert(secs[i as int].1 == sections@[i as int].1@);
        for j in 0..paragraphs.len()
            invariant
                ps == seqs(paragraphs@),
                ps == spec_split_paragraphs(sections@[i as int].1@),
                i < sections@.len(),
                secs == pairs(sections@),
                secs == spec_split_sections(content@),
                forall|m: int| 0 <= m < j ==> trim(#[trigger] ps[m]).len() == 0,
        {
            let (a, b) = trim_bounds(&paragraphs[j], 0, paragraphs[j].len());
            assert(paragraphs@[j as int]@.subrange(0, paragraphs@[j as int]@.len() as int)
                =~= paragraphs@[j as int]@);
            if a < b {
                assert(secs[i as int].1 == sections@[i as int].1@);
                assert(trim(spec_split_paragraphs(secs[i as int].1)[j as int]).len() > 0);
                assert(text_paragraphs(secs[i as int].1));
                return true;
            }
        }
    }
    false
}

/// The document read from `path` under `root` with text `content`; `None`
/// when `path` is not below `root`.
pub fn document_at(root: &str, path: &str, content: String) -> (r: Option<MarkdownDocument>)
    ensures
        match r {
            Some(d) => spec_relative_path(root@, path@) == Some(d.relative_path@)
                && d.absolute_path@ == path@ && d.content == content,
            None => spec_relative_path(root@, path@) is None,
        },
{
    match relative_path(root, path) {
        Some(relative_path) => Some(
            MarkdownDocument { relative_path, absolute_path: path.to_owned(), content },
        ),
        None => None,
    }
}

/// Splits a document into chunks along its headings and paragraphs, each
/// chunk within `chunk_char_limit` bytes unless one paragraph alone is
/// longer, which is then cut into pieces of `chunk_char_limit` characters.
pub fn chunk_document(doc: &MarkdownDocument, chunk_char_limit: usize) -> (r: Vec<ChunkDraft>)
    requires
        chunk_char_limit > 0 || !has_text_paragraph(doc.content@),
    ensures
        drafts_view(r@) == spec_chunk_document(
            doc.relative_path@,
            doc.content@,
            chunk_char_limit as nat,
        ),
{
    let content = chars_of(doc.content.as_str());
    let rel = chars_of(doc.relative_path.as_str());
    let sections = split_sections(&content);
    let ghost secs = pairs(sections@);
    let mut chunks: Vec<ChunkDraft> = Vec::new();
    assert(secs.take(0) =~= Seq::<(Seq<char>, Seq<char>)>::empty());
    assert(drafts_view(chunks@) =~= Seq::<ChunkSpec>::empty());
    for i in 0..sections.len()
        invariant
            secs == pairs(sections@),
            secs == spec_split_sections(content@),
            content@ == doc.content@,
            rel@ == doc.relative_path@,
            chunk_char_limit > 0 || !has_text_paragraph(doc.content@),
            drafts_view(chunks@) == all_chunks(rel@, secs.take(i as int), chunk_char_limit as nat),
    {
        assert(secs.take(i + 1).drop_last() =~= secs.take(i as int));
        assert(secs.take(i + 1).last() == (sections@[i as int].0@, sections@[i as int].1@));
        assert(secs[i as int] == (sections@[i as int].0@, sections@[i as int].1@));
        proof {
            if chunk_char_limit == 0 {
                assert(!text_paragraphs(spec_split_sections(doc.content@)[i as int].1));
            }
        }
        let bodies = merge_paragraphs(&sections[i].1, chunk_char_limit);
        let ghost before = drafts_view(chunks@);
        let ghost expected = section_chunks(
            rel@,
            sections@[i as int].0@,
            sections@[i as int].1@,
            chunk_char_limit as nat,
        );
        for j in 0..bodies.len()
            invariant
                i < sections@.len(),
                drafts_view(chunks@) == before + expected.take(j as int),
                expected == seqs(bodies@).map_values(
                    |b: Seq<char>| spec_build_chunk(rel@, sections@[i as int].0@, b),
                ),
        {
            let c = build_chunk(&rel, &sections[i].0, &bodies[j]);
            let ghost prev = chunks@;
            chunks.push(c);
            assert(drafts_view(chunks@) =~= drafts_view(prev).push(c@));
            assert(expected.take(j + 1) =~= expected.take(j as int).push(expected[j as int]));
        }
        assert(expected.take(bodies.len() as int) =~= expected);
    }
    assert(secs.take(sections.len() as int) =~= secs);
    if chunks.len() == 0 {
        let t = trimmed(&content);
        let empty: Vec<char> = Vec::new();
        let c = build_chunk(&rel, &empty, &t);
        chunks.push(c);
        assert(drafts_view(chunks@) =~= seq![c@]);
    }
    chunks
}


/// A text has at least as many UTF-8 bytes as characters.
pub proof fn lemma_chars_le_bytes(s: Seq<char>)
    ensures
        s.len() <= byte_len(s),
    decreases s.len(),
{
    if s.len() > 0 {
        lemma_chars_le_bytes(s.drop_first());
        assert(vstd::utf8::encode_scalar(s[0] as u32).len() >= 1);
    }
}

proof fn lemma_para_sep_bytes()
    ensures
        byte_len(para_sep()) == 2,
{
    let sep = para_sep();
    assert(sep.drop_first() =~= seq!['\n']);
    assert(seq!['\n'].drop_first() =~= Seq::<char>::empty());
    assert(vstd::utf8::encode_utf8(Seq::<char>::empty()) =~= Seq::<u8>::empty());
    let one = seq!['\n'];
    assert(vstd::utf8::encode_utf8(one) == vstd::utf8::encode_scalar(one[0] as u32)
        + vstd::utf8::encode_utf8(one.drop_first()));
    assert(vstd::utf8::encode_utf8(sep) == vstd::utf8::encode_scalar(sep[0] as u32)
        + vstd::utf8::encode_utf8(sep.drop_first()));
    assert(vstd::utf8::has_width_1_encoding('\n' as u32));
    assert(vstd::utf8::encode_scalar('\n' as u32).len() == 1);
}

/// Cutting a text into pieces of `k > 0` characters loses and adds nothing,
/// and leaves no piece empty or longer than `k`.
pub proof fn law_pieces(s: Seq<char>, k: nat)
    requires
        k > 0,
    ensures
        pieces(s, k).flatten() == s,
        forall|i: int| 0 <= i < pieces(s, k).len() ==> 0 < (#[trigger] pieces(s, k)[i]).len() <= k,
    decreases s.len(),
{
    if s.len() == 0 {
        assert(pieces(s, k) =~= Seq::<Seq<char>>::empty());
        assert(pieces(s, k).flatten() =~= s);
    } else if s.len() <= k {
        assert(seq![s].drop_first() =~= Seq::<Seq<char>>::empty());
        assert(seq![s].flatten() =~= s + Seq::<Seq<char>>::empty().flatten());
        assert(seq![s].flatten() =~= s);
    } else {
        let rest = pieces(s.skip(k as int), k);
        law_pieces(s.skip(k as int), k);
        let all = seq![s.take(k as int)] + rest;
        assert(all.drop_first() =~= rest);
        assert(all.flatten() == all[0] + all.drop_first().flatten());
        assert(s.take(k as int) + s.skip(k as int) =~= s);
        assert forall|i: int| 0 <= i < all.len() implies 0 < (#[trigger] all[i]).len() <= k by {
            if i > 0 {
                assert(all[i] == rest[i - 1]);
            }
        }
    }
}

/// Every chunk body of a section fits in `limit` characters: paragraphs are
/// merged only while the body stays within `limit` bytes, and a longer
/// paragraph is cut into pieces of `limit` characters.
pub proof fn law_section_bodies_fit(body: Seq<char>, limit: nat)
    requires
        limit > 0 || !text_paragraphs(body),
    ensures
        forall|i: int|
            0 <= i < section_bodies(body, limit).len() ==> (#[trigger] section_bodies(body, limit)[i]).len()
                <= limit,
{
    let ps = spec_split_paragraphs(body);
    lemma_merge_fits(ps, limit);
    let (bodies, cur) = merge_state(ps, limit);
    lemma_chars_le_bytes(cur);
    if trim(cur).len() > 0 {
        assert forall|i: int| 0 <= i < bodies.push(cur).len() implies (#[trigger] bodies.push(
            cur,
        )[i]).len() <= limit by {
            if i < bodies.len() {
                assert(bodies.push(cur)[i] == bodies[i]);
            }
        }
    }
}

proof fn lemma_merge_fits(ps: Seq<Seq<char>>, limit: nat)
    requires
        limit > 0 || forall|j: int| 0 <= j < ps.len() ==> trim(#[trigger] ps[j]).len() == 0,
    ensures
        forall|i: int|
            0 <= i < merge_state(ps, limit).0.len() ==> (#[trigger] merge_state(ps, limit).0[i]).len()
                <= limit,
        byte_len(merge_state(ps, limit).1) <= limit,
    decreases ps.len(),
{
    if ps.len() == 0 {
        assert(vstd::utf8::encode_utf8(Seq::<char>::empty()) =~= Seq::<u8>::empty());
    } else {
        let prev = ps.drop_last();
        assert forall|j: int| 0 <= j < prev.len() implies (limit > 0 || trim(#[trigger] prev[j]).len()
            == 0) by {
            assert(prev[j] == ps[j]);
        }
        lemma_merge_fits(prev, limit);
        let st = merge_state(prev, limit);
        let para = ps.last();
        let p = trim(para);
        if p.len() > 0 {
            assert(ps[ps.len() - 1] == para);
            let flushed = st.1.len() > 0 && byte_len(st.1) + byte_len(p) + 2 > limit;
            let b1 = if flushed {
                st.0.push(st.1)
            } else {
                st.0
            };
            let c1 = if flushed {
                Seq::<char>::empty()
            } else {
                st.1
            };
            lemma_chars_le_bytes(st.1);
            lemma_chars_le_bytes(p);
            assert(vstd::utf8::encode_utf8(Seq::<char>::empty()) =~= Seq::<u8>::empty());
            assert forall|i: int| 0 <= i < b1.len() implies (#[trigger] b1[i]).len() <= limit by {
                if flushed && i == st.0.len() {
                } else {
                    assert(b1[i] == st.0[i]);
                }
            }
            if byte_len(p) > limit {
                let b2 = if c1.len() > 0 {
                    b1.push(c1)
                } else {
                    b1
                };
                lemma_chars_le_bytes(c1);
                assert forall|i: int| 0 <= i < b2.len() implies (#[trigger] b2[i]).len() <= limit by {
                    if i < b1.len() {
                        assert(b2[i] == b1[i]);
                    }
                }
                let cut = spec_split_long_text(p, limit);
                if p.len() > limit {
                    law_pieces(p, limit);
                } else {
                    assert(cut =~= seq![p]);
                }
                assert forall|i: int| 0 <= i < (b2 + cut).len() implies (#[trigger] (b2 + cut)[i]).len()
                    <= limit by {
                    if i < b2.len() {
                        assert((b2 + cut)[i] == b2[i]);
                    } else {
                        assert((b2 + cut)[i] == cut[i - b2.len()]);
                    }
                }
            } else if c1.len() > 0 {
                lemma_encode_append(c1 + para_sep(), p);
                lemma_encode_append(c1, para_sep());
                lemma_para_sep_bytes();
            }
        }
    }
}

/// A document always gives at least one chunk, and every chunk's text starts
/// with the `Path:` line of the document.
pub proof fn law_chunks_name_their_document(rel: Seq<char>, content: Seq<char>, limit: nat)
    ensures
        spec_chunk_document(rel, content, limit).len() >= 1,
        forall|i: int|
            0 <= i < spec_chunk_document(rel, content, limit).len() ==> (#[trigger] spec_chunk_document(
                rel,
                content,
                limit,
            )[i]).text.take((path_prefix() + rel + newline()).len() as int) == path_prefix() + rel
                + newline(),
{
    let secs = spec_split_sections(content);
    lemma_all_chunks_prefix(rel, secs, limit);
    let head = path_prefix() + rel + newline();
    let fallback = spec_build_chunk(rel, Seq::empty(), trim(content));
    assert(fallback.text.take(head.len() as int) =~= head);
}

proof fn lemma_all_chunks_prefix(rel: Seq<char>, secs: Seq<(Seq<char>, Seq<char>)>, limit: nat)
    ensures
        forall|i: int|
            0 <= i < all_chunks(rel, secs, limit).len() ==> (#[trigger] all_chunks(rel, secs, limit)[i]).text.take(
                (path_prefix() + rel + newline()).len() as int,
            ) == path_prefix() + rel + newline(),
    decreases secs.len(),
{
    if secs.len() > 0 {
        lemma_all_chunks_prefix(rel, secs.drop_last(), limit);
        let a = all_chunks(rel, secs.drop_last(), limit);
        let b = section_chunks(rel, secs.last().0, secs.last().1, limit);
        let head = path_prefix() + rel + newline();
        assert forall|i: int| 0 <= i < (a + b).len() implies (#[trigger] (a + b)[i]).text.take(
            head.len() as int,
        ) == head by {
            if i < a.len() {
                assert((a + b)[i] == a[i]);
            } else {
                let bodies = section_bodies(secs.last().1, limit);
                assert((a + b)[i] == b[i - a.len()]);
                assert(b[i - a.len()] == spec_build_chunk(rel, secs.last().0, bodies[i - a.len()]));
                assert(b[i - a.len()].text.take(head.len() as int) =~= head);
            }
        }
    }
}


/// Heading levels: a line whose text, after leading whitespace, starts with a
/// run of exactly `n` `'#'` is a heading of level `n` with the trimmed rest
/// as title when `1 <= n <= 6` and that title is not blank; otherwise it is
/// no heading.
pub proof fn law_heading_levels(line: Seq<char>, n: nat)
    requires
        n <= trim_start(line).len(),
        forall|k: int| 0 <= k < n ==> #[trigger] trim_start(line)[k] == '#',
        n == trim_start(line).len() || trim_start(line)[n as int] != '#',
    ensures
        1 <= n <= 6 && trim(trim_start(line).skip(n as int)).len() > 0 ==> spec_parse_heading(line)
            == Some((n, trim(trim_start(line).skip(n as int)))),
        !(1 <= n <= 6 && trim(trim_start(line).skip(n as int)).len() > 0) ==> spec_parse_heading(
            line,
        ) is None,
{
    lemma_leading_hashes(trim_start(line), n as int);
}


/// Lines `i..j` of `ls` form a maximal run of non-blank lines: each has text
/// after trimming, and the lines just around the run (if any) are blank.
pub open spec fn is_text_run(ls: Seq<Seq<char>>, i: int, j: int) -> bool {
    &&& 0 <= i < j <= ls.len()
    &&& forall|m: int| i <= m < j ==> trim(#[trigger] ls[m]).len() > 0
    &&& (i == 0 || trim(ls[i - 1]).len() == 0)
    &&& (j == ls.len() || trim(ls[j]).len() == 0)
}

/// What holds of the paragraphs and the open run after reading `ls`.
spec fn runs_inv(ls: Seq<Seq<char>>, runs: Seq<(int, int)>, s: int) -> bool {
    let (paras, cur) = paragraphs_state(ls);
    &&& runs.len() == paras.len()
    &&& 0 <= s <= ls.len()
    &&& cur == ls.subrange(s, ls.len() as int)
    &&& forall|m: int| s <= m < ls.len() ==> trim(#[trigger] ls[m]).len() > 0
    &&& (s == 0 || trim(ls[s - 1]).len() == 0)
    &&& forall|k: int|
        #![trigger runs[k]]
        0 <= k < runs.len() ==> {
            &&& is_text_run(ls, runs[k].0, runs[k].1)
            &&& runs[k].1 < s
            &&& paras[k] == join(ls.subrange(runs[k].0, runs[k].1), newline())
        }
    &&& forall|k: int| 0 < k < runs.len() ==> runs[k - 1].1 < #[trigger] runs[k].0
    &&& forall|m: int|
        0 <= m < s && trim(#[trigger] ls[m]).len() > 0 ==> exists|k: int|
            0 <= k < runs.len() && (#[trigger] runs[k]).0 <= m < runs[k].1
}

proof fn lemma_runs(ls: Seq<Seq<char>>) -> (r: (Seq<(int, int)>, int))
    ensures
        runs_inv(ls, r.0, r.1),
    decreases ls.len(),
{
    if ls.len() == 0 {
        assert(ls.subrange(0, 0) =~= Seq::<Seq<char>>::empty());
        (Seq::empty(), 0)
    } else {
        let prev = ls.drop_last();
        let (runs, s) = lemma_runs(prev);
        let n = prev.len() as int;
        let x = ls.last();
        let (paras, cur) = paragraphs_state(prev);
        assert forall|m: int| 0 <= m < n implies #[trigger] ls[m] == prev[m] by {}
        if trim(x).len() == 0 {
            if cur.len() > 0 {
                let runs2 = runs.push((s, n));
                assert(cur =~= ls.subrange(s, n));
                assert(ls.subrange(n + 1, n + 1) =~= Seq::<Seq<char>>::empty());
                assert forall|k: int|
                    #![trigger runs2[k]]
                    0 <= k < runs2.len() implies {
                    &&& is_text_run(ls, runs2[k].0, runs2[k].1)
                    &&& runs2[k].1 < n + 1
                    &&& paragraphs_state(ls).0[k] == join(
                        ls.subrange(runs2[k].0, runs2[k].1),
                        newline(),
                    )
                } by {
                    if k < runs.len() {
                        assert(runs2[k] == runs[k]);
                        assert(ls.subrange(runs[k].0, runs[k].1) =~= prev.subrange(
                            runs[k].0,
                            runs[k].1,
                        ));
                    }
                }
                assert forall|m: int| 0 <= m < n + 1 && trim(#[trigger] ls[m]).len() > 0 implies exists|
                    k: int,
                | 0 <= k < runs2.len() && (#[trigger] runs2[k]).0 <= m < runs2[k].1 by {
                    if m < s {
                        let k = choose|k: int| 0 <= k < runs.len() && (#[trigger] runs[k]).0 <= m < runs[k].1;
                        assert(runs2[k] == runs[k]);
                    } else {
                        assert(runs2[runs.len() as int] == (s, n));
                    }
                }
                assert forall|k: int| 0 < k < runs2.len() implies runs2[k - 1].1 < #[trigger] runs2[k].0 by {
                    if k < runs.len() {
                        assert(runs2[k - 1] == runs[k - 1]);
                        assert(runs2[k] == runs[k]);
                    } else {
                        assert(runs2[k - 1] == runs[k - 1]);
                    }
                }
                (runs2, n + 1)
            } else {
                assert(ls.subrange(n + 1, n + 1) =~= Seq::<Seq<char>>::empty());
                assert(cur =~= Seq::<Seq<char>>::empty());
                assert forall|k: int|
                    #![trigger runs[k]]
                    0 <= k < runs.len() implies {
                    &&& is_text_run(ls, runs[k].0, runs[k].1)
                    &&& runs[k].1 < n + 1
                    &&& paragraphs_state(ls).0[k] == join(ls.subrange(runs[k].0, runs[k].1), newline())
                } by {
                    assert(ls.subrange(runs[k].0, runs[k].1) =~= prev.subrange(runs[k].0, runs[k].1));
                }
                assert forall|m: int| 0 <= m < n + 1 && trim(#[trigger] ls[m]).len() > 0 implies exists|
                    k: int,
                | 0 <= k < runs.len() && (#[trigger] runs[k]).0 <= m < runs[k].1 by {
                    if m < s {
                    } else {
                        assert(s == n);
                    }
                }
                (runs, n + 1)
            }
        } else {
            assert(cur == prev.subrange(s, n));
            assert(cur.push(x) =~= ls.subrange(s, n + 1));
            assert(paragraphs_state(ls) == (paras, cur.push(x)));
            assert forall|k: int|
                #![trigger runs[k]]
                0 <= k < runs.len() implies {
                &&& is_text_run(ls, runs[k].0, runs[k].1)
                &&& runs[k].1 < s
                &&& paragraphs_state(ls).0[k] == join(ls.subrange(runs[k].0, runs[k].1), newline())
            } by {
                assert(ls.subrange(runs[k].0, runs[k].1) =~= prev.subrange(runs[k].0, runs[k].1));
            }
            (runs, s)
        }
    }
}

/// The paragraphs of a section body are exactly its maximal runs of
/// non-blank lines, in order, each joined with newlines: no paragraph holds
/// a blank (whitespace-only) line, a blank line always ends a paragraph, and
/// every line with text belongs to one paragraph.
pub proof fn law_paragraphs_are_text_runs(body: Seq<char>) -> (runs: Seq<(int, int)>)
    ensures
        runs.len() == spec_split_paragraphs(body).len(),
        forall|k: int|
            #![trigger runs[k]]
            0 <= k < runs.len() ==> is_text_run(lines(body), runs[k].0, runs[k].1)
                && spec_split_paragraphs(body)[k] == join(
                lines(body).subrange(runs[k].0, runs[k].1),
                newline(),
            ),
        forall|k: int| 0 < k < runs.len() ==> runs[k - 1].1 < #[trigger] runs[k].0,
        forall|m: int|
            0 <= m < lines(body).len() && trim(#[trigger] lines(body)[m]).len() > 0 ==> exists|
                k: int,
            | 0 <= k < runs.len() && (#[trigger] runs[k]).0 <= m < runs[k].1,
{
    let ls = lines(body);
    let (runs, s) = lemma_runs(ls);
    let (paras, cur) = paragraphs_state(ls);
    let n = ls.len() as int;
    if cur.len() > 0 {
        let runs2 = runs.push((s, n));
        assert(spec_split_paragraphs(body) == paras.push(join(cur, newline())));
        assert forall|k: int|
            #![trigger runs2[k]]
            0 <= k < runs2.len() implies is_text_run(ls, runs2[k].0, runs2[k].1)
            && spec_split_paragraphs(body)[k] == join(ls.subrange(runs2[k].0, runs2[k].1), newline()) by {
            if k < runs.len() {
                assert(runs2[k] == runs[k]);
            }
        }
        assert forall|k: int| 0 < k < runs2.len() implies runs2[k - 1].1 < #[trigger] runs2[k].0 by {
            assert(runs2[k - 1] == runs[k - 1]);
            if k < runs.len() {
                assert(runs2[k] == runs[k]);
            }
        }
        assert forall|m: int| 0 <= m < n && trim(#[trigger] ls[m]).len() > 0 implies exists|k: int|
            0 <= k < runs2.len() && (#[trigger] runs2[k]).0 <= m < runs2[k].1 by {
            if m < s {
                let k = choose|k: int| 0 <= k < runs.len() && (#[trigger] runs[k]).0 <= m < runs[k].1;
                assert(runs2[k] == runs[k]);
            } else {
                assert(runs2[runs.len() as int] == (s, n));
            }
        }
        runs2
    } else {
        assert(s == n);
        runs
    }
}


/// The header line(s) of a chunk: `Path:`, then `Heading:` when there is a
/// heading path, then a blank line.
pub open spec fn chunk_header(rel: Seq<char>, heading: Seq<char>) -> Seq<char> {
    path_prefix() + rel + newline() + (if heading.len() > 0 {
        heading_prefix() + heading + para_sep()
    } else {
        newline()
    })
}

/// A chunk's text is its header followed by a body of at most `limit`
/// characters.
pub open spec fn fits(c: ChunkSpec, rel: Seq<char>, limit: nat) -> bool {
    let h = chunk_header(rel, c.heading_path);
    &&& h.len() <= c.text.len()
    &&& c.text.take(h.len() as int) == h
    &&& c.text.len() <= h.len() + limit
}

proof fn lemma_build_fits(rel: Seq<char>, heading: Seq<char>, body: Seq<char>, limit: nat)
    requires
        body.len() <= limit,
    ensures
        fits(spec_build_chunk(rel, heading, body), rel, limit),
{
    let (a, b) = crate::text::law_trim(body);
    let h = chunk_header(rel, heading);
    let t = chunk_text(rel, heading, body);
    assert(t =~= h + trim(body));
    assert(t.take(h.len() as int) =~= h);
}

proof fn lemma_all_chunks_fit(rel: Seq<char>, secs: Seq<(Seq<char>, Seq<char>)>, limit: nat)
    requires
        forall|i: int| 0 <= i < secs.len() ==> limit > 0 || !text_paragraphs(#[trigger] secs[i].1),
    ensures
        forall|k: int|
            0 <= k < all_chunks(rel, secs, limit).len() ==> fits(
                #[trigger] all_chunks(rel, secs, limit)[k],
                rel,
                limit,
            ),
    decreases secs.len(),
{
    if secs.len() > 0 {
        let prev = secs.drop_last();
        assert forall|i: int| 0 <= i < prev.len() implies limit > 0 || !text_paragraphs(
            #[trigger] prev[i].1,
        ) by {
            assert(prev[i] == secs[i]);
        }
        lemma_all_chunks_fit(rel, prev, limit);
        let last = secs.last();
        assert(secs[secs.len() - 1] == last);
        law_section_bodies_fit(last.1, limit);
        let a = all_chunks(rel, prev, limit);
        let bodies = section_bodies(last.1, limit);
        let b = section_chunks(rel, last.0, last.1, limit);
        assert forall|k: int| 0 <= k < (a + b).len() implies fits(#[trigger] (a + b)[k], rel, limit) by {
            if k < a.len() {
                assert((a + b)[k] == a[k]);
            } else {
                assert((a + b)[k] == b[k - a.len()]);
                assert(b[k - a.len()] == spec_build_chunk(rel, last.0, bodies[k - a.len()]));
                lemma_build_fits(rel, last.0, bodies[k - a.len()], limit);
            }
        }
    }
}

/// Every chunk of a document is its header followed by a body of at most
/// `limit` characters, except a lone headingless chunk of the whole trimmed
/// content, given when no section has text.
pub proof fn law_chunk_bodies_fit(rel: Seq<char>, content: Seq<char>, limit: nat)
    requires
        limit > 0 || !has_text_paragraph(content),
    ensures
        forall|k: int|
            0 <= k < spec_chunk_document(rel, content, limit).len() ==> fits(
                #[trigger] spec_chunk_document(rel, content, limit)[k],
                rel,
                limit,
            ) || (spec_chunk_document(rel, content, limit).len() == 1
                && spec_chunk_document(rel, content, limit)[k] == spec_build_chunk(
                rel,
                Seq::empty(),
                trim(content),
            )),
{
    let secs = spec_split_sections(content);
    assert forall|i: int| 0 <= i < secs.len() implies limit > 0 || !text_paragraphs(
        #[trigger] secs[i].1,
    ) by {}
    lemma_all_chunks_fit(rel, secs, limit);
}


/// The trimmed paragraphs joined with blank lines.
pub open spec fn merged(ps: Seq<Seq<char>>) -> Seq<char> {
    join(ps.map_values(|p: Seq<char>| trim(p)), para_sep())
}

proof fn lemma_join_nonempty(parts: Seq<Seq<char>>, sep: Seq<char>)
    requires
        parts.len() > 0,
        parts[0].len() > 0,
    ensures
        join(parts, sep).len() > 0,
        join(parts, sep)[0] == parts[0][0],
    decreases parts.len(),
{
    if parts.len() > 1 {
        lemma_join_nonempty(parts.drop_last(), sep);
    }
}

proof fn lemma_merge_all_fit(ps: Seq<Seq<char>>, limit: nat)
    requires
        forall|i: int| 0 <= i < ps.len() ==> trim(#[trigger] ps[i]).len() > 0,
        byte_len(merged(ps)) <= limit,
    ensures
        merge_state(ps, limit) == (Seq::<Seq<char>>::empty(), merged(ps)),
    decreases ps.len(),
{
    let ts = ps.map_values(|p: Seq<char>| trim(p));
    if ps.len() == 0 {
        assert(merged(ps) =~= Seq::<char>::empty());
    } else {
        let prev = ps.drop_last();
        let tp = prev.map_values(|p: Seq<char>| trim(p));
        assert(ts.drop_last() =~= tp);
        let p = trim(ps.last());
        assert(ps[ps.len() - 1] == ps.last());
        assert(ts.last() == p);
        lemma_chars_le_bytes(p);
        if prev.len() == 0 {
            assert(ts =~= seq![p]);
            assert(merged(ps) == p);
            assert(merge_state(prev, limit) == (Seq::<Seq<char>>::empty(), Seq::<char>::empty()));
        } else {
            assert(merged(ps) == merged(prev) + para_sep() + p);
            lemma_encode_append(merged(prev) + para_sep(), p);
            lemma_encode_append(merged(prev), para_sep());
            lemma_para_sep_bytes();
            assert forall|i: int| 0 <= i < prev.len() implies trim(#[trigger] prev[i]).len() > 0 by {
                assert(prev[i] == ps[i]);
            }
            lemma_merge_all_fit(prev, limit);
            assert(tp[0] == trim(prev[0]));
            lemma_join_nonempty(tp, para_sep());
        }
    }
}

/// When all paragraphs of a section body fit in `limit` bytes together
/// (trimmed, separated by blank lines), the section gives one body: all of
/// them merged.
pub proof fn law_small_section_is_one_body(body: Seq<char>, limit: nat)
    requires
        forall|i: int|
            0 <= i < spec_split_paragraphs(body).len() ==> trim(
                #[trigger] spec_split_paragraphs(body)[i],
            ).len() > 0,
        spec_split_paragraphs(body).len() > 0,
        byte_len(merged(spec_split_paragraphs(body))) <= limit,
    ensures
        section_bodies(body, limit) == seq![merged(spec_split_paragraphs(body))],
{
    let ps = spec_split_paragraphs(body);
    lemma_merge_all_fit(ps, limit);
    let m = merged(ps);
    let tp = ps.map_values(|p: Seq<char>| trim(p));
    lemma_join_nonempty(tp, para_sep());
    assert(tp[0] == trim(ps[0]));
    let (a, b) = crate::text::law_trim(ps[0]);
    let (i, j) = crate::text::law_trim(m);
    // The first character of `m` starts a trimmed paragraph, so it is no
    // whitespace, and `trim(m)` keeps it.
    assert(!crate::text::is_ws(m[0])) by {
        assert(trim(ps[0])[0] == ps[0][a]);
    }
    if i == j {
        assert(crate::text::is_ws(m[0])) by {
            if i > 0 {
            } else {
                assert(0 >= j);
            }
        }
    }
    assert(section_bodies(body, limit) =~= Seq::<Seq<char>>::empty().push(m));
}

} // verus!
