use vstd::prelude::*;
use vstd::string::*;
use crate::error::ZettariumError;
use crate::markdown::{parse_spec, render_markdown, rendered_chars};
use crate::model::{note_type_of_chars, TagModel, Zettel};
use crate::store::{
    attach_all, bump_updated, find_zettel, max_tag_num, zettel_idx, Store, StoreModel,
};
use crate::tags::{dedup_and_warn, dedup_tags, merge_tags, views_of};
use crate::text::{
    ascii_lower_chars, chars_to_string, is_ascii_ws, str_chars, sub_chars, to_ascii_lower,
    trim_start_ws, trim_ws, trim_ws_chars,
};
use crate::time::Timestamp;

verus! {

/// The views of the raw tag names an operation was given: the given list,
/// or none at all.
pub open spec fn given_tags(tags: Option<Vec<String>>) -> Seq<Seq<char>> {
    match tags {
        Some(v) => views_of(v@),
        None => Seq::empty(),
    }
}

/// The tag names of a sequence of tag records.
pub open spec fn names_of(tags: Seq<TagModel>) -> Seq<Seq<char>> {
    tags.map_values(|t: TagModel| t.tag_name)
}

/// Creating a note end to end, up to the first file write: the given tag
/// names are deduplicated case-insensitively, the record and its tag
/// relations are inserted, and the text of the new note file is rendered
/// with `## {title}` as its initial body. The caller writes the file and
/// may then open an editor. Fails exactly as `create_zettel` does, and
/// changes nothing on failure.
pub fn prepare_new_note(
    store: &mut Store,
    title: &str,
    note_type: &str,
    tags: Option<Vec<String>>,
    now: Timestamp,
) -> (r: Result<(Zettel, Vec<String>, String), ZettariumError>)
    requires
        old(store)@.wf(),
        now.valid(),
    ensures
        final(store)@.wf(),
        match r {
            Ok(p) => ({
                let z = p.0;
                let cleaned = p.1;
                let content = p.2;
                &&& views_of(cleaned@) == dedup_tags(given_tags(tags))
                &&& note_type_of_chars(note_type@) == Some(z@.type_)
                &&& z@.id == now.compact_chars()
                &&& z@.title == title@
                &&& z@.created_at == now
                &&& z@.updated_at == now
                &&& !z@.archived
                &&& final(store)@ == attach_all(
                    StoreModel { zettels: old(store)@.zettels.push(z@), ..old(store)@ },
                    now.compact_chars(),
                    views_of(cleaned@),
                )
                &&& content@ == rendered_chars(z@, views_of(cleaned@), "## "@ + title@)
            }),
            Err(e) => final(store)@ == old(store)@ && match e {
                ZettariumError::InvalidNoteType(s) => note_type_of_chars(note_type@) is None
                    && s@ == note_type@,
                ZettariumError::StoreFailure => note_type_of_chars(note_type@) is Some && (
                find_zettel(old(store)@.zettels, now.compact_chars()) is Some || max_tag_num(
                    old(store)@.tags,
                ) + dedup_tags(given_tags(tags)).len() >= 1000000000),
                _ => false,
            },
        },
{
    let raw = match tags {
        Some(v) => v,
        None => Vec::new(),
    };
    proof {
        assert(views_of(raw@) =~= given_tags(tags));
    }
    let cleaned = dedup_and_warn(raw);
    let z = match store.create_zettel(title, note_type, &cleaned, now) {
        Ok(z) => z,
        Err(e) => {
            return Err(e);
        },
    };
    let mut body = String::from_str("## ");
    body.append(title);
    let content = render_markdown(&z, &cleaned, body.as_str());
    Ok((z, cleaned, content))
}

/// The names of a list of tag records, in order.
fn tag_names_vec(tags: &Vec<crate::model::Tag>) -> (r: Vec<String>)
    ensures
        views_of(r@) == names_of(tags@.map_values(|t: crate::model::Tag| t@)),
{
    let ghost mapped = tags@.map_values(|t: crate::model::Tag| t@);
    let mut r: Vec<String> = Vec::new();
    let mut i: usize = 0;
    while i < tags.len()
        invariant
            i <= tags@.len(),
            mapped == tags@.map_values(|t: crate::model::Tag| t@),
            views_of(r@) == names_of(mapped).take(i as int),
        decreases tags@.len() - i,
    {
        let ghost prev = r@;
        proof {
            assert(views_of(prev).len() == prev.len());
            assert(names_of(mapped).take(i as int).len() == i as int);
        }
        r.push(tags[i].tag_name.clone());
        proof {
            assert(r@ == prev.push(tags@[i as int].tag_name));
            assert(mapped[i as int] == tags@[i as int]@);
            assert(names_of(mapped)[i as int] == mapped[i as int].tag_name);
            assert(views_of(r@) =~= names_of(mapped).take(i + 1));
        }
        i = i + 1;
    }
    proof {
        assert(names_of(mapped).take(names_of(mapped).len() as int) =~= names_of(mapped));
        assert(i as int == names_of(mapped).len());
    }
    r
}

/// Editing a note's fields end to end, up to the file write: the existing
/// file text is parsed first — so a malformed file aborts the edit before
/// the record changes — then the given tag names are merged into the note's
/// existing ones (existing names keep their place and casing, new names are
/// appended, all compared case-insensitively), a missing title or type
/// falls back to the stored one, the record is updated, and the note file's
/// text is re-rendered around its unchanged body. The caller reads the
/// existing file text beforehand and writes the result back. Fails with
/// `NotFound` when the id is absent, `MalformedFile` when the existing text
/// does not parse, `InvalidNoteType` when a given type string is not
/// recognized, and `StoreFailure` exactly when merging the tags would
/// exhaust the tag id space; on failure nothing changes.
#[verifier::rlimit(100)]
pub fn apply_edit(
    store: &mut Store,
    zettel_id: &String,
    title: Option<&String>,
    note_type: Option<&String>,
    tags: Option<Vec<String>>,
    existing_content: &str,
    now: Timestamp,
) -> (r: Result<(Zettel, Vec<String>, String), ZettariumError>)
    requires
        old(store)@.wf(),
        now.valid(),
    ensures
        final(store)@.wf(),
        match r {
            Ok(p) => ({
                let z = p.0;
                let merged = p.1;
                let content = p.2;
                let pre = find_zettel(old(store)@.zettels, zettel_id@)->Some_0;
                &&& find_zettel(old(store)@.zettels, zettel_id@) is Some
                &&& views_of(merged@) == (match tags {
                    Some(v) => dedup_tags(
                        names_of(Store::tags_of_spec(old(store)@, zettel_id@)) + views_of(v@),
                    ),
                    None => names_of(Store::tags_of_spec(old(store)@, zettel_id@)),
                })
                &&& z@.id == pre.id
                &&& z@.title == (match title {
                    Some(t) => t@,
                    None => pre.title,
                })
                &&& (match note_type {
                    Some(t) => note_type_of_chars(t@) == Some(z@.type_),
                    None => z@.type_ == pre.type_,
                })
                &&& z@.created_at == pre.created_at
                &&& z@.updated_at == bump_updated(pre.created_at, now)
                &&& z@.archived == pre.archived
                &&& final(store)@ == attach_all(
                    StoreModel {
                        zettels: old(store)@.zettels.update(
                            zettel_idx(old(store)@.zettels, zettel_id@),
                            z@,
                        ),
                        ..old(store)@
                    },
                    zettel_id@,
                    views_of(merged@),
                )
                &&& (parse_spec(existing_content@) matches Some(q) && content@ == rendered_chars(
                    z@,
                    views_of(merged@),
                    q.1,
                ))
            }),
            Err(e) => final(store)@ == old(store)@ && match e {
                ZettariumError::NotFound => find_zettel(old(store)@.zettels, zettel_id@) is None,
                ZettariumError::MalformedFile => find_zettel(old(store)@.zettels, zettel_id@)
                    is Some && parse_spec(existing_content@) is None,
                ZettariumError::InvalidNoteType(s) => find_zettel(old(store)@.zettels, zettel_id@)
                    is Some && parse_spec(existing_content@) is Some && (note_type matches Some(t)
                    && s@ == t@ && note_type_of_chars(t@) is None),
                ZettariumError::StoreFailure => find_zettel(old(store)@.zettels, zettel_id@)
                    is Some && parse_spec(existing_content@) is Some && max_tag_num(
                    old(store)@.tags,
                ) + (match tags {
                    Some(v) => dedup_tags(
                        names_of(Store::tags_of_spec(old(store)@, zettel_id@)) + views_of(v@),
                    ),
                    None => names_of(Store::tags_of_spec(old(store)@, zettel_id@)),
                }).len() >= 1000000000,
                _ => false,
            },
        },
{
    let existing = match store.ensure_zettel_exists(zettel_id) {
        Ok(z) => z,
        Err(_) => {
            return Err(ZettariumError::NotFound);
        },
    };
    let body = match crate::markdown::parse_markdown_content(existing_content) {
        Ok(p) => p.1,
        Err(_) => {
            return Err(ZettariumError::MalformedFile);
        },
    };
    let current_tags = store.get_tag_by_zettel_id(zettel_id);
    let current_names = tag_names_vec(&current_tags);
    let merged = merge_tags(current_names, tags);
    let final_title = match title {
        Some(t) => t.clone(),
        None => existing.title.clone(),
    };
    let final_type = match note_type {
        Some(t) => t.clone(),
        None => existing.type_.name(),
    };
    proof {
        if note_type is None {
            lemma_name_folds_to_stored(existing.type_);
        }
    }
    let updated = match store.update_zettel(
        zettel_id,
        final_title.as_str(),
        final_type.as_str(),
        &merged,
        now,
    ) {
        Ok(z) => z,
        Err(e) => {
            proof {
                if e is NotFound {
                    assert(false);
                }
                if note_type is None && e is InvalidNoteType {
                    assert(false);
                }
                if e is StoreFailure {
                    assert(merged@.len() == views_of(merged@).len());
                }
            }
            return Err(e);
        },
    };
    let content = render_markdown(&updated, &merged, body.as_str());
    Ok((updated, merged, content))
}

proof fn lemma_name_folds_to_stored(t: crate::model::NoteType)
    ensures
        crate::text::ascii_lower_chars(t.name_chars()) == t.stored_chars(),
        note_type_of_chars(t.name_chars()) == Some(t),
{
    reveal_strlit("Fleeting");
    reveal_strlit("fleeting");
    reveal_strlit("Permanent");
    reveal_strlit("permanent");
    reveal_strlit("Literature");
    reveal_strlit("literature");
    reveal_strlit("Structure");
    reveal_strlit("structure");
    reveal_strlit("Index");
    reveal_strlit("index");
    reveal_strlit("f");
    reveal_strlit("p");
    reveal_strlit("l");
    reveal_strlit("s");
    reveal_strlit("i");
    match t {
        crate::model::NoteType::Fleeting => {
            assert(crate::text::ascii_lower_chars("Fleeting"@) =~= "fleeting"@);
        },
        crate::model::NoteType::Permanent => {
            assert(crate::text::ascii_lower_chars("Permanent"@) =~= "permanent"@);
        },
        crate::model::NoteType::Literature => {
            assert(crate::text::ascii_lower_chars("Literature"@) =~= "literature"@);
        },
        crate::model::NoteType::Structure => {
            assert(crate::text::ascii_lower_chars("Structure"@) =~= "structure"@);
            assert("structure"@[0] == 's' && "permanent"@[0] == 'p');
            assert("structure"@ != "permanent"@);
        },
        crate::model::NoteType::Index => {
            assert(crate::text::ascii_lower_chars("Index"@) =~= "index"@);
        },
    }
}


// ---------------------------------------------------------------------------
// Console decisions
// ---------------------------------------------------------------------------

/// Whether a console reply confirms a destructive operation: after ASCII
/// whitespace is trimmed and ASCII letters are lowercased, the reply is
/// exactly `y` or `yes`. Anything else declines, which is a no-op for the
/// caller, not an error.
pub fn confirms_removal(input: &str) -> (b: bool)
    ensures
        b == ({
            let t = ascii_lower_chars(trim_ws(input@));
            t == "y"@ || t == "yes"@
        }),
{
    let chars = str_chars(input);
    let trimmed = trim_ws_chars(&chars);
    let lowered = chars_to_string(&to_ascii_lower(&trimmed));
    lowered.eq(&String::from_str("y")) || lowered.eq(&String::from_str("yes"))
}

/// The position of the first ASCII whitespace character at or after `i`,
/// or the length when there is none.
pub open spec fn first_ws_from(s: Seq<char>, i: int) -> int
    decreases s.len() - i,
{
    if i >= s.len() {
        s.len() as int
    } else if is_ascii_ws(s[i]) {
        i
    } else {
        first_ws_from(s, i + 1)
    }
}

/// The position of the first `|` separator at or after `i`, or the length
/// when there is none.
pub open spec fn first_bar_from(s: Seq<char>, i: int) -> int
    decreases s.len() - i,
{
    if i >= s.len() {
        s.len() as int
    } else if s[i] == '|' {
        i
    } else {
        first_bar_from(s, i + 1)
    }
}

/// The id part of a finder selection line: its first whitespace-delimited
/// token.
pub open spec fn selection_id_chars(s: Seq<char>) -> Seq<char> {
    let t = trim_start_ws(s);
    t.subrange(0, first_ws_from(t, 0))
}

/// The title part of a finder selection line: the text between the first
/// `|` separator and the next one (or the end), trimmed of ASCII
/// whitespace; empty when the line holds no separator.
pub open spec fn selection_title_chars(s: Seq<char>) -> Seq<char> {
    let a = first_bar_from(s, 0);
    if a >= s.len() {
        Seq::empty()
    } else {
        trim_ws(s.subrange(a + 1, first_bar_from(s, a + 1)))
    }
}

/// Splits a finder selection line — `{id} {type} | {title} | {tags}` — back
/// into the note id and the title, for building a cross-reference link to
/// the chosen note.
pub fn parse_find_selection(line: &str) -> (r: (String, String))
    ensures
        r.0@ == selection_id_chars(line@),
        r.1@ == selection_title_chars(line@),
{
    let chars = str_chars(line);
    let n = chars.len();
    let start = crate::text::skip_ws_from_start(&chars);
    let ghost t = chars@.skip(start as int);
    let mut k: usize = start;
    while k < n && !crate::text::is_ws_exec(chars[k])
        invariant
            n == chars@.len(),
            chars@ == line@,
            t == chars@.skip(start as int),
            start <= k <= n,
            first_ws_from(t, 0) == first_ws_from(t, k - start),
        decreases n - k,
    {
        proof {
            assert(t[k - start] == chars@[k as int]);
        }
        k = k + 1;
    }
    proof {
        if k < n {
            assert(t[k - start] == chars@[k as int]);
        }
        assert(first_ws_from(t, k - start) == k - start);
        assert(chars@.subrange(start as int, k as int) =~= t.subrange(0, k - start));
    }
    let id = chars_to_string(&sub_chars(&chars, start, k));
    let mut a: usize = 0;
    while a < n && chars[a] != '|'
        invariant
            n == chars@.len(),
            chars@ == line@,
            a <= n,
            first_bar_from(chars@, 0) == first_bar_from(chars@, a as int),
        decreases n - a,
    {
        a = a + 1;
    }
    proof {
        assert(first_bar_from(chars@, a as int) == a as int);
    }
    if a == n {
        return (id, String::new());
    }
    let mut b: usize = a + 1;
    while b < n && chars[b] != '|'
        invariant
            n == chars@.len(),
            chars@ == line@,
            a + 1 <= b <= n,
            first_bar_from(chars@, a + 1) == first_bar_from(chars@, b as int),
        decreases n - b,
    {
        b = b + 1;
    }
    proof {
        assert(first_bar_from(chars@, b as int) == b as int);
    }
    let raw = sub_chars(&chars, a + 1, b);
    let title = chars_to_string(&trim_ws_chars(&raw));
    (id, title)
}

} // verus!
