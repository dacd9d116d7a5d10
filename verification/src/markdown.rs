use vstd::prelude::*;
use vstd::string::*;
use crate::error::ZettariumError;
use crate::model::{Markdown, NoteType, Zettel, ZettelModel};
use crate::tags::views_of;
use crate::text::{chars_to_string, match_at, str_chars};
use crate::time::Timestamp;

verus! {

// ---------------------------------------------------------------------------
// The rendered shape of a note file
// ---------------------------------------------------------------------------

/// One `- name` line per tag, in order.
pub open spec fn tag_lines_chars(tags: Seq<Seq<char>>) -> Seq<char>
    decreases tags.len(),
{
    if tags.len() == 0 {
        Seq::empty()
    } else {
        tag_lines_chars(tags.drop_last()) + "- "@ + tags.last() + "\n"@
    }
}

/// The tag list section of the metadata block.
pub open spec fn tags_block_chars(tags: Seq<Seq<char>>) -> Seq<char> {
    if tags.len() == 0 {
        "tags: []\n"@
    } else {
        "tags:\n"@ + tag_lines_chars(tags)
    }
}

pub open spec fn bool_chars(b: bool) -> Seq<char> {
    if b {
        "true"@
    } else {
        "false"@
    }
}

/// The metadata block: one `name: value` line per record field, then the
/// tag name list. It always ends with a newline.
pub open spec fn meta_chars(z: ZettelModel, tags: Seq<Seq<char>>) -> Seq<char> {
    "id: "@ + z.id + "\n"@ + "title: "@ + z.title + "\n"@ + "type_: "@ + z.type_.name_chars()
        + "\n"@ + "created_at: "@ + z.created_at.iso_chars() + "\n"@ + "updated_at: "@
        + z.updated_at.iso_chars() + "\n"@ + "archived: "@ + bool_chars(z.archived) + "\n"@
        + tags_block_chars(tags)
}

/// A whole note file: the metadata block bracketed by the three-dash
/// delimiter, a blank line, then the body verbatim.
pub open spec fn rendered_chars(z: ZettelModel, tags: Seq<Seq<char>>, body: Seq<char>) -> Seq<
    char,
> {
    "---\n"@ + meta_chars(z, tags) + "---\n\n"@ + body
}

// ---------------------------------------------------------------------------
// Parsing a note file back into its segments
// ---------------------------------------------------------------------------

/// The three-dash delimiter occurs in `s` at position `i`.
pub open spec fn delim_at(s: Seq<char>, i: int) -> bool {
    match_at(s, "---"@, i)
}

/// The first position at or after `i` where the delimiter occurs, or -1.
pub open spec fn first_delim_from(s: Seq<char>, i: int) -> int
    decreases s.len() - i,
{
    if i + 3 > s.len() {
        -1
    } else if delim_at(s, i) {
        i
    } else {
        first_delim_from(s, i + 1)
    }
}

/// `s` without one leading newline, if it has one.
pub open spec fn strip_one_nl(s: Seq<char>) -> Seq<char> {
    if s.len() > 0 && s[0] == '\n' {
        s.drop_first()
    } else {
        s
    }
}

/// What parsing a note file yields: the text between the first two
/// delimiters with one leading newline removed, and the text after the
/// second delimiter with the blank-line artifact (up to two newlines)
/// removed; or nothing, if the file does not hold two delimiters.
pub open spec fn parse_spec(s: Seq<char>) -> Option<(Seq<char>, Seq<char>)> {
    let a = first_delim_from(s, 0);
    if a < 0 {
        None
    } else {
        let b = first_delim_from(s, a + 3);
        if b < 0 {
            None
        } else {
            Some(
                (
                    strip_one_nl(s.subrange(a + 3, b)),
                    strip_one_nl(strip_one_nl(s.subrange(b + 3, s.len() as int))),
                ),
            )
        }
    }
}

// ---------------------------------------------------------------------------
// Executable rendering
// ---------------------------------------------------------------------------

/// Builds the metadata block text of a note and its tag names.
#[verifier::rlimit(60)]
fn meta_text(zettel: &Zettel, tags: &Vec<String>) -> (r: String)
    requires
        zettel.wf(),
    ensures
        r@ == meta_chars(zettel@, views_of(tags@)),
{
    let mut r = String::from_str("id: ");
    r.append(zettel.id.as_str());
    r.append("\n");
    r.append("title: ");
    r.append(zettel.title.as_str());
    r.append("\n");
    r.append("type_: ");
    let kind = zettel.type_.name();
    r.append(kind.as_str());
    r.append("\n");
    r.append("created_at: ");
    let created = zettel.created_at.format_iso();
    r.append(created.as_str());
    r.append("\n");
    r.append("updated_at: ");
    let updated = zettel.updated_at.format_iso();
    r.append(updated.as_str());
    r.append("\n");
    r.append("archived: ");
    if zettel.archived {
        r.append("true");
    } else {
        r.append("false");
    }
    r.append("\n");
    if tags.len() == 0 {
        r.append("tags: []\n");
        assert(views_of(tags@).len() == 0);
    } else {
        r.append("tags:\n");
        let ghost before = r@;
        let mut i: usize = 0;
        while i < tags.len()
            invariant
                i <= tags@.len(),
                r@ == before + tag_lines_chars(views_of(tags@).take(i as int)),
            decreases tags@.len() - i,
        {
            r.append("- ");
            r.append(tags[i].as_str());
            r.append("\n");
            proof {
                assert(views_of(tags@).take(i + 1).drop_last() =~= views_of(tags@).take(i as int));
                assert(views_of(tags@).take(i + 1).last() == tags@[i as int]@);
                assert(r@ =~= before + tag_lines_chars(views_of(tags@).take(i + 1)));
            }
            i = i + 1;
        }
        proof {
            assert(views_of(tags@).take(tags@.len() as int) =~= views_of(tags@));
        }
    }
    proof {
        assert(r@ =~= meta_chars(zettel@, views_of(tags@)));
    }
    r
}

/// Renders a note, its tag names and a body into the text of its file.
/// The output is parsable back into the metadata block and the body; see
/// [`lemma_render_parse_round_trip`].
pub fn render_markdown(zettel: &Zettel, tags: &Vec<String>, body: &str) -> (r: String)
    requires
        zettel.wf(),
    ensures
        r@ == rendered_chars(zettel@, views_of(tags@), body@),
{
    let mut r = String::from_str("---\n");
    let meta = meta_text(zettel, tags);
    r.append(meta.as_str());
    r.append("---\n\n");
    r.append(body);
    proof {
        assert(r@ =~= rendered_chars(zettel@, views_of(tags@), body@));
    }
    r
}

// ---------------------------------------------------------------------------
// Executable parsing
// ---------------------------------------------------------------------------

fn match_delim_at(content: &Vec<char>, i: usize) -> (b: bool)
    requires
        i + 3 <= content@.len(),
    ensures
        b == delim_at(content@, i as int),
{
    proof {
        reveal_strlit("---");
    }
    let n = content.len();
    let c0 = content[i];
    let c1 = content[i + 1];
    let c2 = content[i + 2];
    let hit = c0 == '-' && c1 == '-' && c2 == '-';
    proof {
        if hit {
            assert(content@.subrange(i as int, i + 3) =~= "---"@);
        } else {
            if delim_at(content@, i as int) {
                assert(content@.subrange(i as int, i + 3)[0] == content@[i as int]);
                assert(content@.subrange(i as int, i + 3)[1] == content@[i + 1]);
                assert(content@.subrange(i as int, i + 3)[2] == content@[i + 2]);
            }
        }
    }
    hit
}

fn find_delim_from(content: &Vec<char>, start: usize) -> (r: Option<usize>)
    requires
        start <= content@.len(),
    ensures
        match r {
            Some(j) => j == first_delim_from(content@, start as int) && start <= j && j + 3
                <= content@.len() && delim_at(content@, j as int),
            None => first_delim_from(content@, start as int) == -1,
        },
{
    let n = content.len();
    if n < 3 {
        return None;
    }
    let mut i: usize = start;
    while i <= n - 3
        invariant
            n == content@.len(),
            3 <= n,
            start <= i,
            i <= n,
            first_delim_from(content@, start as int) == first_delim_from(content@, i as int),
        decreases n - i,
    {
        if match_delim_at(content, i) {
            return Some(i);
        }
        i = i + 1;
    }
    None
}

fn strip_one_nl_exec(v: Vec<char>) -> (r: Vec<char>)
    ensures
        r@ == strip_one_nl(v@),
{
    if v.len() > 0 && v[0] == '\n' {
        let r = crate::text::sub_chars(&v, 1, v.len());
        proof {
            assert(v@.subrange(1, v@.len() as int) =~= v@.drop_first());
        }
        r
    } else {
        v
    }
}

/// Splits the text of a note file on the three-dash delimiter into the
/// metadata block and the body, dropping the blank-line artifacts that
/// rendering inserts. Fails with `MalformedFile` when the text does not
/// hold two delimiters.
pub fn parse_markdown_content(content: &str) -> (r: Result<(String, String), ZettariumError>)
    ensures
        match r {
            Ok(p) => parse_spec(content@) == Some((p.0@, p.1@)),
            Err(e) => e is MalformedFile && parse_spec(content@) is None,
        },
{
    let chars = str_chars(content);
    let n = chars.len();
    let a = match find_delim_from(&chars, 0) {
        Some(a) => a,
        None => {
            return Err(ZettariumError::MalformedFile);
        },
    };
    let b = match find_delim_from(&chars, a + 3) {
        Some(b) => b,
        None => {
            return Err(ZettariumError::MalformedFile);
        },
    };
    let meta_raw = crate::text::sub_chars(&chars, a + 3, b);
    let body_raw = crate::text::sub_chars(&chars, b + 3, n);
    let meta = strip_one_nl_exec(meta_raw);
    let body = strip_one_nl_exec(strip_one_nl_exec(body_raw));
    Ok((chars_to_string(&meta), chars_to_string(&body)))
}

/// Re-renders a note file around an unchanged body: parses the existing
/// text, keeps its body, and renders it behind the given (possibly changed)
/// metadata. Fails with `MalformedFile` exactly when parsing does.
pub fn update_markdown_content(zettel: &Zettel, tags: &Vec<String>, existing: &str) -> (r: Result<
    String,
    ZettariumError,
>)
    requires
        zettel.wf(),
    ensures
        match r {
            Ok(out) => parse_spec(existing@) matches Some(p) && out@ == rendered_chars(
                zettel@,
                views_of(tags@),
                p.1,
            ),
            Err(e) => e is MalformedFile && parse_spec(existing@) is None,
        },
{
    match parse_markdown_content(existing) {
        Ok(p) => {
            let (_meta, body) = p;
            Ok(render_markdown(zettel, tags, body.as_str()))
        },
        Err(e) => Err(e),
    }
}

impl Markdown {
    /// The note file text this value renders to.
    pub fn to_text(&self) -> (r: String)
        requires
            self.front_matter.zettel.wf(),
        ensures
            r@ == rendered_chars(
                self.front_matter.zettel@,
                views_of(self.front_matter.tags@),
                self.body@,
            ),
    {
        render_markdown(&self.front_matter.zettel, &self.front_matter.tags, self.body.0.as_str())
    }
}


// ---------------------------------------------------------------------------
// The round trip from rendering to parsing
// ---------------------------------------------------------------------------

/// The three-dash delimiter occurs nowhere in `s`.
pub open spec fn delim_free(s: Seq<char>) -> bool {
    forall|i: int| !delim_at(s, i)
}

/// No character of `s` is a dash.
pub open spec fn no_dash(s: Seq<char>) -> bool {
    forall|i: int| 0 <= i < s.len() ==> s[i] != '-'
}

proof fn lemma_no_dash_delim_free(s: Seq<char>)
    requires
        no_dash(s),
    ensures
        delim_free(s),
{
    reveal_strlit("---");
    assert forall|i: int| !delim_at(s, i) by {
        if delim_at(s, i) {
            assert(s.subrange(i, i + 3)[0] == s[i]);
            assert(s[i] == '-');
        }
    }
}

proof fn lemma_delim_free_short(s: Seq<char>)
    requires
        s.len() < 3,
    ensures
        delim_free(s),
{
    reveal_strlit("---");
}

proof fn lemma_delim_free_concat(a: Seq<char>, b: Seq<char>)
    requires
        delim_free(a),
        delim_free(b),
        !(a.len() > 0 && b.len() > 0 && a.last() == '-' && b[0] == '-'),
    ensures
        delim_free(a + b),
{
    reveal_strlit("---");
    let s = a + b;
    assert forall|i: int| !delim_at(s, i) by {
        if delim_at(s, i) {
            assert(s.subrange(i, i + 3)[0] == s[i]);
            assert(s.subrange(i, i + 3)[1] == s[i + 1]);
            assert(s.subrange(i, i + 3)[2] == s[i + 2]);
            assert(s[i] == '-' && s[i + 1] == '-' && s[i + 2] == '-');
            if i + 3 <= a.len() {
                assert(a.subrange(i, i + 3) =~= s.subrange(i, i + 3));
                assert(delim_at(a, i));
            } else if i >= a.len() {
                assert(b.subrange(i - a.len(), i - a.len() + 3) =~= s.subrange(i, i + 3));
                assert(delim_at(b, i - a.len()));
            } else {
                assert(s[a.len() - 1] == a.last());
                assert(s[a.len() as int] == b[0]);
                assert(i <= a.len() - 1 && a.len() <= i + 2);
                assert(a.last() == '-' && b[0] == '-');
            }
        }
    }
}

proof fn lemma_no_dash_dec(n: nat)
    ensures
        no_dash(crate::text::dec_chars(n)),
    decreases n,
{
    let d = crate::text::dec_chars(n);
    if n < 10 {
        assert(d =~= seq![crate::text::digit_char(n as int)]);
    } else {
        lemma_no_dash_dec(n / 10);
        let head = crate::text::dec_chars(n / 10);
        assert forall|i: int| 0 <= i < d.len() implies d[i] != '-' by {
            if i < head.len() {
                assert(d[i] == head[i]);
            } else {
                assert(d[i] == crate::text::digit_char((n % 10) as int));
            }
        }
    }
}

proof fn lemma_no_dash_pad2(n: nat)
    requires
        n < 100,
    ensures
        no_dash(crate::text::pad2_chars(n)),
        crate::text::pad2_chars(n)[0] != '-',
        crate::text::pad2_chars(n).last() != '-',
        crate::text::pad2_chars(n).len() == 2,
{
    let p = crate::text::pad2_chars(n);
    assert(p =~= seq![
        crate::text::digit_char(n as int / 10),
        crate::text::digit_char(n as int % 10),
    ]);
}

proof fn lemma_no_dash_pad4(n: nat)
    requires
        n < 10000,
    ensures
        no_dash(crate::text::pad4_chars(n)),
        crate::text::pad4_chars(n)[0] != '-',
        crate::text::pad4_chars(n).last() != '-',
        crate::text::pad4_chars(n).len() == 4,
{
    let p = crate::text::pad4_chars(n);
    assert(p =~= seq![
        crate::text::digit_char(n as int / 1000),
        crate::text::digit_char((n as int / 100) % 10),
        crate::text::digit_char((n as int / 10) % 10),
        crate::text::digit_char(n as int % 10),
    ]);
}

proof fn lemma_delim_free_iso(ts: Timestamp)
    requires
        ts.valid(),
    ensures
        delim_free(ts.iso_chars()),
        ts.iso_chars().len() > 0,
        ts.iso_chars().last() != '-',
{
    lemma_no_dash_pad4(ts.year as nat);
    lemma_no_dash_pad2(ts.month as nat);
    lemma_no_dash_pad2(ts.day as nat);
    lemma_no_dash_pad2(ts.hour as nat);
    lemma_no_dash_pad2(ts.minute as nat);
    lemma_no_dash_pad2(ts.second as nat);
    let y = crate::text::pad4_chars(ts.year as nat);
    let mo = crate::text::pad2_chars(ts.month as nat);
    let d = crate::text::pad2_chars(ts.day as nat);
    let h = crate::text::pad2_chars(ts.hour as nat);
    let mi = crate::text::pad2_chars(ts.minute as nat);
    let sec = crate::text::pad2_chars(ts.second as nat);
    lemma_no_dash_delim_free(y);
    lemma_no_dash_delim_free(mo);
    lemma_no_dash_delim_free(d);
    lemma_no_dash_delim_free(h);
    lemma_no_dash_delim_free(mi);
    lemma_no_dash_delim_free(sec);
    lemma_delim_free_short(seq!['-']);
    lemma_delim_free_short(seq!['T']);
    lemma_delim_free_short(seq![':']);
    let s1 = y + seq!['-'];
    lemma_delim_free_concat(y, seq!['-']);
    assert(s1.last() == '-');
    let s2 = s1 + mo;
    lemma_delim_free_concat(s1, mo);
    assert(s2.last() == mo.last());
    let s3 = s2 + seq!['-'];
    lemma_delim_free_concat(s2, seq!['-']);
    let s4 = s3 + d;
    lemma_delim_free_concat(s3, d);
    assert(s4.last() == d.last());
    let s5 = s4 + seq!['T'];
    lemma_delim_free_concat(s4, seq!['T']);
    assert(s5.last() == 'T');
    let s6 = s5 + h;
    lemma_delim_free_concat(s5, h);
    let s7 = s6 + seq![':'];
    lemma_delim_free_concat(s6, seq![':']);
    assert(s7.last() == ':');
    let s8 = s7 + mi;
    lemma_delim_free_concat(s7, mi);
    let s9 = s8 + seq![':'];
    lemma_delim_free_concat(s8, seq![':']);
    let s10 = s9 + sec;
    lemma_delim_free_concat(s9, sec);
    assert(ts.iso_chars() =~= s10);
    assert(ts.iso_chars().last() == sec.last());
}


proof fn lemma_literal_pieces()
    ensures
        no_dash("id: "@),
        no_dash("\n"@),
        no_dash("title: "@),
        no_dash("type_: "@),
        no_dash("created_at: "@),
        no_dash("updated_at: "@),
        no_dash("archived: "@),
        no_dash("true"@),
        no_dash("false"@),
        no_dash("tags: []\n"@),
        no_dash("tags:\n"@),
        no_dash("Fleeting"@),
        no_dash("Permanent"@),
        no_dash("Literature"@),
        no_dash("Structure"@),
        no_dash("Index"@),
        "\n"@.len() == 1 && "\n"@[0] == '\n',
        "tags: []\n"@.len() == 9 && "tags: []\n"@.last() == '\n',
        "tags:\n"@.len() == 6 && "tags:\n"@.last() == '\n',
        "- "@.len() == 2 && "- "@.last() == ' ',
        "id: "@.len() == 4,
{
    reveal_strlit("id: ");
    reveal_strlit("\n");
    reveal_strlit("title: ");
    reveal_strlit("type_: ");
    reveal_strlit("created_at: ");
    reveal_strlit("updated_at: ");
    reveal_strlit("archived: ");
    reveal_strlit("true");
    reveal_strlit("false");
    reveal_strlit("tags: []\n");
    reveal_strlit("tags:\n");
    reveal_strlit("Fleeting");
    reveal_strlit("Permanent");
    reveal_strlit("Literature");
    reveal_strlit("Structure");
    reveal_strlit("Index");
    reveal_strlit("- ");
}

/// `label + value + "\n"` holds no delimiter when the label has no dash
/// and the value holds no delimiter.
proof fn lemma_line_delim_free(label: Seq<char>, value: Seq<char>)
    requires
        no_dash(label),
        delim_free(value),
    ensures
        delim_free(label + value + "\n"@),
        (label + value + "\n"@).last() == '\n',
        (label + value + "\n"@).len() > 0,
{
    lemma_literal_pieces();
    lemma_no_dash_delim_free(label);
    lemma_delim_free_concat(label, value);
    lemma_delim_free_short("\n"@);
    lemma_delim_free_concat(label + value, "\n"@);
    assert((label + value + "\n"@).last() == '\n');
}

proof fn lemma_tag_lines_delim_free(tags: Seq<Seq<char>>)
    requires
        forall|i: int| 0 <= i < tags.len() ==> delim_free(#[trigger] tags[i]),
    ensures
        delim_free(tag_lines_chars(tags)),
        tags.len() > 0 ==> tag_lines_chars(tags).len() > 0 && tag_lines_chars(tags).last()
            == '\n',
    decreases tags.len(),
{
    lemma_literal_pieces();
    if tags.len() == 0 {
        lemma_delim_free_short(tag_lines_chars(tags));
    } else {
        lemma_tag_lines_delim_free(tags.drop_last());
        let prev = tag_lines_chars(tags.drop_last());
        lemma_delim_free_short("- "@);
        lemma_delim_free_concat(prev, "- "@);
        assert((prev + "- "@).last() == ' ');
        lemma_delim_free_concat(prev + "- "@, tags.last());
        lemma_delim_free_short("\n"@);
        lemma_delim_free_concat(prev + "- "@ + tags.last(), "\n"@);
        assert(tag_lines_chars(tags).last() == '\n');
    }
}

proof fn lemma_tags_block_delim_free(tags: Seq<Seq<char>>)
    requires
        forall|i: int| 0 <= i < tags.len() ==> delim_free(#[trigger] tags[i]),
    ensures
        delim_free(tags_block_chars(tags)),
        tags_block_chars(tags).len() > 0,
        tags_block_chars(tags).last() == '\n',
{
    lemma_literal_pieces();
    if tags.len() == 0 {
        lemma_no_dash_delim_free("tags: []\n"@);
    } else {
        lemma_no_dash_delim_free("tags:\n"@);
        lemma_tag_lines_delim_free(tags);
        assert("tags:\n"@.last() == '\n');
        lemma_delim_free_concat("tags:\n"@, tag_lines_chars(tags));
        assert(tags_block_chars(tags).last() == tag_lines_chars(tags).last());
    }
}

/// The metadata block holds no delimiter when the note's id and title and
/// every tag name hold none, and it always ends with a newline.
#[verifier::rlimit(100)]
proof fn lemma_meta_delim_free(z: ZettelModel, tags: Seq<Seq<char>>)
    requires
        delim_free(z.id),
        delim_free(z.title),
        forall|i: int| 0 <= i < tags.len() ==> delim_free(#[trigger] tags[i]),
        z.created_at.valid(),
        z.updated_at.valid(),
    ensures
        delim_free(meta_chars(z, tags)),
        meta_chars(z, tags).len() > 0,
        meta_chars(z, tags).last() == '\n',
{
    lemma_literal_pieces();
    assert(no_dash(z.type_.name_chars())) by {
        match z.type_ {
            NoteType::Fleeting => {},
            NoteType::Permanent => {},
            NoteType::Literature => {},
            NoteType::Structure => {},
            NoteType::Index => {},
        }
    }
    lemma_no_dash_delim_free(z.type_.name_chars());
    lemma_delim_free_iso(z.created_at);
    lemma_delim_free_iso(z.updated_at);
    assert(no_dash(bool_chars(z.archived)));
    lemma_no_dash_delim_free(bool_chars(z.archived));
    let l1 = "id: "@ + z.id + "\n"@;
    let l2 = "title: "@ + z.title + "\n"@;
    let l3 = "type_: "@ + z.type_.name_chars() + "\n"@;
    let l4 = "created_at: "@ + z.created_at.iso_chars() + "\n"@;
    let l5 = "updated_at: "@ + z.updated_at.iso_chars() + "\n"@;
    let l6 = "archived: "@ + bool_chars(z.archived) + "\n"@;
    let tb = tags_block_chars(tags);
    lemma_line_delim_free("id: "@, z.id);
    lemma_line_delim_free("title: "@, z.title);
    lemma_line_delim_free("type_: "@, z.type_.name_chars());
    lemma_line_delim_free("created_at: "@, z.created_at.iso_chars());
    lemma_line_delim_free("updated_at: "@, z.updated_at.iso_chars());
    lemma_line_delim_free("archived: "@, bool_chars(z.archived));
    lemma_tags_block_delim_free(tags);
    lemma_delim_free_concat(l1, l2);
    lemma_delim_free_concat(l1 + l2, l3);
    lemma_delim_free_concat(l1 + l2 + l3, l4);
    lemma_delim_free_concat(l1 + l2 + l3 + l4, l5);
    lemma_delim_free_concat(l1 + l2 + l3 + l4 + l5, l6);
    lemma_delim_free_concat(l1 + l2 + l3 + l4 + l5 + l6, tb);
    assert(meta_chars(z, tags) =~= l1 + l2 + l3 + l4 + l5 + l6 + tb);
    assert((l1 + l2 + l3 + l4 + l5 + l6 + tb).last() == tb.last());
}

proof fn lemma_first_delim_is(s: Seq<char>, from: int, t: int)
    requires
        0 <= from <= t,
        t + 3 <= s.len(),
        delim_at(s, t),
        forall|j: int| from <= j < t ==> !delim_at(s, j),
    ensures
        first_delim_from(s, from) == t,
    decreases t - from,
{
    reveal_strlit("---");
    if from < t {
        lemma_first_delim_is(s, from + 1, t);
    }
}

/// Round trip: parsing what rendering produced yields exactly the metadata
/// block of the note and its tags, and the body verbatim — for every note,
/// tag list and body whose id, title and tag names do not themselves
/// contain the three-dash delimiter.
#[verifier::rlimit(100)]
pub proof fn lemma_render_parse_round_trip(z: ZettelModel, tags: Seq<Seq<char>>, body: Seq<char>)
    requires
        delim_free(z.id),
        delim_free(z.title),
        forall|i: int| 0 <= i < tags.len() ==> delim_free(#[trigger] tags[i]),
        z.created_at.valid(),
        z.updated_at.valid(),
    ensures
        parse_spec(rendered_chars(z, tags, body)) == Some((meta_chars(z, tags), body)),
{
    reveal_strlit("---");
    reveal_strlit("---\n");
    reveal_strlit("---\n\n");
    lemma_meta_delim_free(z, tags);
    let m = meta_chars(z, tags);
    let front = "---\n"@;
    let back = "---\n\n"@;
    let c = rendered_chars(z, tags, body);
    let t2 = 4 + m.len() as int;
    assert(c.len() == 9 + m.len() + body.len());
    assert(forall|i: int| 0 <= i < 4 ==> c[i] == front[i]);
    assert(forall|i: int| 0 <= i < m.len() ==> c[4 + i] == m[i]);
    assert(forall|i: int| 0 <= i < 5 ==> c[t2 + i] == back[i]);
    assert(forall|i: int| 0 <= i < body.len() ==> c[t2 + 5 + i] == body[i]);
    assert(delim_at(c, 0)) by {
        assert(c.subrange(0, 3) =~= "---"@);
    }
    lemma_first_delim_is(c, 0, 0);
    assert(delim_at(c, t2)) by {
        assert(c.subrange(t2, t2 + 3) =~= "---"@);
    }
    assert forall|j: int| 3 <= j < t2 implies !delim_at(c, j) by {
        if delim_at(c, j) {
            assert(c.subrange(j, j + 3)[0] == c[j]);
            assert(c.subrange(j, j + 3)[1] == c[j + 1]);
            assert(c.subrange(j, j + 3)[2] == c[j + 2]);
            if j == 3 {
                assert(c[3] == '\n');
            } else if j + 3 <= t2 {
                assert(c.subrange(j, j + 3) =~= m.subrange(j - 4, j - 1));
                assert(delim_at(m, j - 4));
            } else {
                assert(c[3 + m.len() as int] == m.last());
                assert(j <= 3 + (m.len() as int) && 3 + (m.len() as int) < j + 3);
                assert(c[3 + m.len() as int] == '-');
            }
        }
    }
    lemma_first_delim_is(c, 3, t2);
    let sub1 = c.subrange(3, t2);
    assert(sub1[0] == '\n');
    assert(strip_one_nl(sub1) =~= m);
    let sub2 = c.subrange(t2 + 3, c.len() as int);
    assert(sub2[0] == '\n');
    assert(strip_one_nl(sub2) =~= seq!['\n'] + body);
    assert(strip_one_nl(seq!['\n'] + body) =~= body);
    assert(parse_spec(c) == Some((m, body)));
}


// ---------------------------------------------------------------------------
// File names and cross-reference links
// ---------------------------------------------------------------------------

/// The file name a note's text lives under: its id with the `.md` suffix.
pub fn markdown_file_name(zettel_id: &str) -> (r: String)
    ensures
        r@ == zettel_id@ + ".md"@,
{
    let mut r = String::from_str(zettel_id);
    r.append(".md");
    r
}

/// The relative reference other notes use to link to the note `zettel_id`.
pub open spec fn link_target_chars(zettel_id: Seq<char>) -> Seq<char> {
    "./"@ + zettel_id + ".md"@
}

/// Whether a note body links to the note `zettel_id`, that is, contains the
/// relative reference to its file.
pub fn is_backlink(body: &str, zettel_id: &str) -> (r: bool)
    ensures
        r == crate::text::has_match(body@, link_target_chars(zettel_id@)),
{
    let mut needle = String::from_str("./");
    needle.append(zettel_id);
    needle.append(".md");
    let body_chars = str_chars(body);
    let needle_chars = str_chars(needle.as_str());
    crate::text::contains_chars(&body_chars, &needle_chars)
}

/// The cross-reference link text for a note: `[{title}](./{id}.md)`.
pub fn backlink_syntax(title: &str, zettel_id: &str) -> (r: String)
    ensures
        r@ == "["@ + title@ + "](./"@ + zettel_id@ + ".md)"@,
{
    let mut r = String::from_str("[");
    r.append(title);
    r.append("](./");
    r.append(zettel_id);
    r.append(".md)");
    r
}

} // verus!
