use vstd::prelude::*;
use vstd::string::*;
use crate::error::ZettariumError;
use crate::text::{ascii_lower_chars, chars_to_string, str_chars, to_ascii_lower};
use crate::time::Timestamp;

verus! {

// ---------------------------------------------------------------------------
// Note types
// ---------------------------------------------------------------------------

/// The five kinds of note. Any other type string is a parse error and is
/// never coerced silently.
#[derive(Clone, Copy, Debug, PartialEq, Eq, Structural)]
pub enum NoteType {
    Fleeting,
    Permanent,
    Literature,
    Structure,
    Index,
}

/// The note type a string denotes: the full name or its first letter,
/// compared ASCII-case-insensitively; anything else denotes none.
pub open spec fn note_type_of_chars(s: Seq<char>) -> Option<NoteType> {
    let l = ascii_lower_chars(s);
    if l == "fleeting"@ || l == "f"@ {
        Some(NoteType::Fleeting)
    } else if l == "permanent"@ || l == "p"@ {
        Some(NoteType::Permanent)
    } else if l == "literature"@ || l == "l"@ {
        Some(NoteType::Literature)
    } else if l == "structure"@ || l == "s"@ {
        Some(NoteType::Structure)
    } else if l == "index"@ || l == "i"@ {
        Some(NoteType::Index)
    } else {
        None
    }
}

impl NoteType {
    /// The capitalized variant name, as shown to the user.
    pub open spec fn name_chars(self) -> Seq<char> {
        match self {
            NoteType::Fleeting => "Fleeting"@,
            NoteType::Permanent => "Permanent"@,
            NoteType::Literature => "Literature"@,
            NoteType::Structure => "Structure"@,
            NoteType::Index => "Index"@,
        }
    }

    /// The lowercase name, as the record store keeps it in its text column.
    pub open spec fn stored_chars(self) -> Seq<char> {
        match self {
            NoteType::Fleeting => "fleeting"@,
            NoteType::Permanent => "permanent"@,
            NoteType::Literature => "literature"@,
            NoteType::Structure => "structure"@,
            NoteType::Index => "index"@,
        }
    }

    /// The capitalized variant name.
    pub fn name(&self) -> (r: String)
        ensures
            r@ == self.name_chars(),
    {
        match self {
            NoteType::Fleeting => String::from_str("Fleeting"),
            NoteType::Permanent => String::from_str("Permanent"),
            NoteType::Literature => String::from_str("Literature"),
            NoteType::Structure => String::from_str("Structure"),
            NoteType::Index => String::from_str("Index"),
        }
    }

    /// The lowercase stored name.
    pub fn stored_name(&self) -> (r: String)
        ensures
            r@ == self.stored_chars(),
    {
        match self {
            NoteType::Fleeting => String::from_str("fleeting"),
            NoteType::Permanent => String::from_str("permanent"),
            NoteType::Literature => String::from_str("literature"),
            NoteType::Structure => String::from_str("structure"),
            NoteType::Index => String::from_str("index"),
        }
    }

    /// Parses a type string: the full name or its first letter, in any
    /// ASCII case. Every other string is rejected as `InvalidNoteType`,
    /// carrying the string as it was given.
    pub fn parse(s: &str) -> (r: Result<NoteType, ZettariumError>)
        ensures
            match r {
                Ok(t) => note_type_of_chars(s@) == Some(t),
                Err(e) => note_type_of_chars(s@) is None && (e matches
                    ZettariumError::InvalidNoteType(orig) && orig@ == s@),
            },
    {
        let chars = str_chars(s);
        let lowered = chars_to_string(&to_ascii_lower(&chars));
        if lowered == String::from_str("fleeting") || lowered == String::from_str("f") {
            Ok(NoteType::Fleeting)
        } else if lowered == String::from_str("permanent") || lowered == String::from_str("p") {
            Ok(NoteType::Permanent)
        } else if lowered == String::from_str("literature") || lowered == String::from_str("l") {
            Ok(NoteType::Literature)
        } else if lowered == String::from_str("structure") || lowered == String::from_str("s") {
            Ok(NoteType::Structure)
        } else if lowered == String::from_str("index") || lowered == String::from_str("i") {
            Ok(NoteType::Index)
        } else {
            Err(ZettariumError::InvalidNoteType(String::from_str(s)))
        }
    }
}

// ---------------------------------------------------------------------------
// Records
// ---------------------------------------------------------------------------

/// The ghost image of a note record: its fields as mathematical values.
pub struct ZettelModel {
    pub id: Seq<char>,
    pub title: Seq<char>,
    pub type_: NoteType,
    pub created_at: Timestamp,
    pub updated_at: Timestamp,
    pub archived: bool,
}

/// A note record, one row of the note table.
#[derive(Debug, Clone)]
pub struct Zettel {
    pub id: String,
    pub title: String,
    pub type_: NoteType,
    pub created_at: Timestamp,
    pub updated_at: Timestamp,
    pub archived: bool,
}

impl View for Zettel {
    type V = ZettelModel;

    open spec fn view(&self) -> ZettelModel {
        ZettelModel {
            id: self.id@,
            title: self.title@,
            type_: self.type_,
            created_at: self.created_at,
            updated_at: self.updated_at,
            archived: self.archived,
        }
    }
}

impl ZettelModel {
    /// A record's internal invariant: its timestamps are valid instants and
    /// it was never updated before it was created.
    pub open spec fn wf(self) -> bool {
        self.created_at.valid() && self.updated_at.valid() && self.created_at.le(self.updated_at)
    }
}

impl Zettel {
    /// A record's internal invariant, stated of its ghost image.
    pub open spec fn wf(self) -> bool {
        self@.wf()
    }

    /// An equal record, field by field.
    pub fn duplicate(&self) -> (r: Zettel)
        ensures
            r == *self,
    {
        Zettel {
            id: self.id.clone(),
            title: self.title.clone(),
            type_: self.type_,
            created_at: self.created_at,
            updated_at: self.updated_at,
            archived: self.archived,
        }
    }

    /// The multi-line description of the record, one `name: value` line per
    /// field, as the terminal shows it.
    pub fn to_text(&self) -> (r: String)
        requires
            self.wf(),
        ensures
            r@ == "ID: "@ + self.id@ + "\n"@ + "Title: "@ + self.title@ + "\n"@ + "Type: "@
                + self.type_.name_chars() + "\n"@ + "Created: "@
                + self.created_at.display_chars() + "\n"@ + "Updated: "@
                + self.updated_at.display_chars() + "\n"@ + "Archived: "@ + (if self.archived {
                "true"@
            } else {
                "false"@
            }) + "\n"@,
    {
        let mut r = String::from_str("ID: ");
        r.append(self.id.as_str());
        r.append("\n");
        r.append("Title: ");
        r.append(self.title.as_str());
        r.append("\n");
        r.append("Type: ");
        let name = self.type_.name();
        r.append(name.as_str());
        r.append("\n");
        r.append("Created: ");
        let created = self.created_at.format_display();
        r.append(created.as_str());
        r.append("\n");
        r.append("Updated: ");
        let updated = self.updated_at.format_display();
        r.append(updated.as_str());
        r.append("\n");
        r.append("Archived: ");
        if self.archived {
            r.append("true");
        } else {
            r.append("false");
        }
        r.append("\n");
        r
    }
}

/// The ghost image of a tag record.
pub struct TagModel {
    pub id: Seq<char>,
    pub tag_name: Seq<char>,
}

/// A tag record: a store-assigned short code and the tag's name in the
/// casing it was first inserted with.
#[derive(Debug, Clone)]
pub struct Tag {
    pub id: String,
    pub tag_name: String,
}

impl View for Tag {
    type V = TagModel;

    open spec fn view(&self) -> TagModel {
        TagModel { id: self.id@, tag_name: self.tag_name@ }
    }
}

impl Tag {
    /// An equal record, field by field.
    pub fn duplicate(&self) -> (r: Tag)
        ensures
            r == *self,
    {
        Tag { id: self.id.clone(), tag_name: self.tag_name.clone() }
    }

    /// The two-line description of the tag, as the terminal shows it.
    pub fn to_text(&self) -> (r: String)
        ensures
            r@ == "Tag ID: "@ + self.id@ + "\n"@ + "Tag Name: "@ + self.tag_name@ + "\n"@,
    {
        let mut r = String::from_str("Tag ID: ");
        r.append(self.id.as_str());
        r.append("\n");
        r.append("Tag Name: ");
        r.append(self.tag_name.as_str());
        r.append("\n");
        r
    }
}

/// The ghost image of a note-tag relation.
pub struct ZettelTagModel {
    pub zettel_id: Seq<char>,
    pub tag_id: Seq<char>,
}

/// A note-tag relation, one row of the join table; the pair is unique.
#[derive(Debug, Clone)]
pub struct ZettelTag {
    pub zettel_id: String,
    pub tag_id: String,
}

impl View for ZettelTag {
    type V = ZettelTagModel;

    open spec fn view(&self) -> ZettelTagModel {
        ZettelTagModel { zettel_id: self.zettel_id@, tag_id: self.tag_id@ }
    }
}

impl ZettelTag {
    /// The two-line description of the relation, as the terminal shows it.
    pub fn to_text(&self) -> (r: String)
        ensures
            r@ == "Zettel ID: "@ + self.zettel_id@ + "\n"@ + "Tag ID: "@ + self.tag_id@ + "\n"@,
    {
        let mut r = String::from_str("Zettel ID: ");
        r.append(self.zettel_id.as_str());
        r.append("\n");
        r.append("Tag ID: ");
        r.append(self.tag_id.as_str());
        r.append("\n");
        r
    }
}

// ---------------------------------------------------------------------------
// File projection
// ---------------------------------------------------------------------------

/// The free-text body of a note file, preserved verbatim across edits.
#[derive(Debug, Clone)]
pub struct Body(pub String);

impl View for Body {
    type V = Seq<char>;

    open spec fn view(&self) -> Seq<char> {
        self.0@
    }
}

impl Body {
    /// The body text itself.
    pub fn text(&self) -> (r: String)
        ensures
            r@ == self@,
    {
        self.0.clone()
    }
}

/// The metadata carried at the head of a note file: the note's record
/// fields plus its tag names.
#[derive(Debug, Clone)]
pub struct FrontMatter {
    pub zettel: Zettel,
    pub tags: Vec<String>,
}

impl FrontMatter {
    pub fn get_zettel(&self) -> (r: &Zettel)
        ensures
            r == &self.zettel,
    {
        &self.zettel
    }

    pub fn get_tags(&self) -> (r: &Vec<String>)
        ensures
            r == &self.tags,
    {
        &self.tags
    }
}

/// A note file's content in structured form: the metadata block and the body.
#[derive(Debug, Clone)]
pub struct Markdown {
    pub front_matter: FrontMatter,
    pub body: Body,
}

impl Markdown {
    pub fn get_front_matter(&self) -> (r: &FrontMatter)
        ensures
            r == &self.front_matter,
    {
        &self.front_matter
    }

    pub fn get_body(&self) -> (r: &Body)
        ensures
            r == &self.body,
    {
        &self.body
    }
}

} // verus!
