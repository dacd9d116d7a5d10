use vstd::prelude::*;
use crate::error::ZettariumError;
use crate::model::{
    note_type_of_chars, NoteType, Tag, TagModel, Zettel, ZettelModel, ZettelTag, ZettelTagModel,
};
use crate::time::Timestamp;
use crate::text::{lower_of, lowercase};

verus! {

// ---------------------------------------------------------------------------
// The relational state and its invariant
// ---------------------------------------------------------------------------

/// The ghost image of the whole record store: the three tables as
/// mathematical sequences.
pub struct StoreModel {
    pub zettels: Seq<ZettelModel>,
    pub tags: Seq<TagModel>,
    pub links: Seq<ZettelTagModel>,
}

/// The first note record carrying `id`, if any.
pub open spec fn find_zettel(zs: Seq<ZettelModel>, id: Seq<char>) -> Option<ZettelModel>
    decreases zs.len(),
{
    if zs.len() == 0 {
        None
    } else if zs[0].id == id {
        Some(zs[0])
    } else {
        find_zettel(zs.drop_first(), id)
    }
}

/// The position of the first note record carrying `id`.
pub open spec fn zettel_idx(zs: Seq<ZettelModel>, id: Seq<char>) -> int
    decreases zs.len(),
{
    if zs.len() == 0 {
        0
    } else if zs[0].id == id {
        0
    } else {
        1 + zettel_idx(zs.drop_first(), id)
    }
}

/// The first tag whose name folds to `key` under case-insensitive
/// comparison, if any.
pub open spec fn find_tag_by_key(ts: Seq<TagModel>, key: Seq<char>) -> Option<TagModel>
    decreases ts.len(),
{
    if ts.len() == 0 {
        None
    } else if lower_of(ts[0].tag_name) == key {
        Some(ts[0])
    } else {
        find_tag_by_key(ts.drop_first(), key)
    }
}

/// The first tag carrying `id`, if any.
pub open spec fn find_tag_by_id(ts: Seq<TagModel>, id: Seq<char>) -> Option<TagModel>
    decreases ts.len(),
{
    if ts.len() == 0 {
        None
    } else if ts[0].id == id {
        Some(ts[0])
    } else {
        find_tag_by_id(ts.drop_first(), id)
    }
}

/// Some note record carries `id`.
pub open spec fn zettel_id_present(zs: Seq<ZettelModel>, id: Seq<char>) -> bool {
    exists|j: int| 0 <= j < zs.len() && (#[trigger] zs[j]).id == id
}

/// Some tag record carries `id`.
pub open spec fn tag_id_present(ts: Seq<TagModel>, id: Seq<char>) -> bool {
    exists|j: int| 0 <= j < ts.len() && (#[trigger] ts[j]).id == id
}

/// The join table holds the pair `(zid, tid)`.
pub open spec fn has_link(ls: Seq<ZettelTagModel>, zid: Seq<char>, tid: Seq<char>) -> bool {
    exists|i: int| 0 <= i < ls.len() && ls[i].zettel_id == zid && ls[i].tag_id == tid
}

/// A decimal digit character.
pub open spec fn is_digit(c: char) -> bool {
    48 <= c as int && c as int <= 57
}

pub open spec fn all_digits(s: Seq<char>) -> bool {
    forall|i: int| 0 <= i < s.len() ==> is_digit(#[trigger] s[i])
}

/// The number a digit string denotes.
pub open spec fn digits_val(s: Seq<char>) -> nat
    decreases s.len(),
{
    if s.len() == 0 {
        0
    } else {
        digits_val(s.drop_last()) * 10 + (s.last() as int - 48) as nat
    }
}

/// The number carried by a store-generated tag id: `t-` followed by decimal
/// digits. Any other shape carries none.
pub open spec fn tag_num_of(id: Seq<char>) -> Option<nat> {
    if id.len() >= 3 && id[0] == 't' && id[1] == '-' && all_digits(
        id.subrange(2, id.len() as int),
    ) {
        Some(digits_val(id.subrange(2, id.len() as int)))
    } else {
        None
    }
}

/// The largest number any tag id carries; zero when none does.
pub open spec fn max_tag_num(ts: Seq<TagModel>) -> nat
    decreases ts.len(),
{
    if ts.len() == 0 {
        0
    } else {
        let rest = max_tag_num(ts.drop_last());
        match tag_num_of(ts.last().id) {
            Some(n) => if n > rest {
                n
            } else {
                rest
            },
            None => rest,
        }
    }
}

/// The id the store assigns to its next tag: one past the largest number in
/// use, zero padded to at least three digits.
pub open spec fn next_tag_id_chars(ts: Seq<TagModel>) -> Seq<char> {
    "t-"@ + crate::text::pad3_chars(max_tag_num(ts) + 1)
}

impl StoreModel {
    /// The store invariant: note ids are unique; tag ids are unique and tag
    /// names are unique under case-insensitive comparison; join rows are
    /// unique pairs and refer only to existing notes and tags; every note
    /// record is internally well formed.
    pub open spec fn wf(self) -> bool {
        &&& forall|i: int, j: int|
            0 <= i < j < self.zettels.len() ==> (#[trigger] self.zettels[i]).id
                != (#[trigger] self.zettels[j]).id
        &&& forall|i: int| 0 <= i < self.zettels.len() ==> (#[trigger] self.zettels[i]).wf()
        &&& forall|i: int, j: int|
            0 <= i < j < self.tags.len() ==> (#[trigger] self.tags[i]).id
                != (#[trigger] self.tags[j]).id
        &&& forall|i: int, j: int|
            0 <= i < j < self.tags.len() ==> lower_of((#[trigger] self.tags[i]).tag_name)
                != lower_of((#[trigger] self.tags[j]).tag_name)
        &&& forall|i: int, j: int|
            0 <= i < j < self.links.len() ==> !((#[trigger] self.links[i]).zettel_id
                == (#[trigger] self.links[j]).zettel_id && self.links[i].tag_id
                == self.links[j].tag_id)
        &&& forall|i: int|
            0 <= i < self.links.len() ==> zettel_id_present(
                self.zettels,
                (#[trigger] self.links[i]).zettel_id,
            )
        &&& forall|i: int|
            0 <= i < self.links.len() ==> tag_id_present(
                self.tags,
                (#[trigger] self.links[i]).tag_id,
            )
        &&& max_tag_num(self.tags) < 1000000000
    }
}

/// The record store: the note table, the tag table and the note-tag join
/// table. The application loads it from its database at the start of a run
/// and persists it back; every operation in between is verified here.
pub struct Store {
    pub zettels: Vec<Zettel>,
    pub tags: Vec<Tag>,
    pub zettel_tags: Vec<ZettelTag>,
}

impl View for Store {
    type V = StoreModel;

    open spec fn view(&self) -> StoreModel {
        StoreModel {
            zettels: self.zettels@.map_values(|z: Zettel| z@),
            tags: self.tags@.map_values(|t: Tag| t@),
            links: self.zettel_tags@.map_values(|l: ZettelTag| l@),
        }
    }
}

// ---------------------------------------------------------------------------
// Bridging the recursive finders and first-match loops
// ---------------------------------------------------------------------------

proof fn lemma_find_zettel_at(zs: Seq<ZettelModel>, id: Seq<char>, i: int)
    requires
        0 <= i < zs.len(),
        zs[i].id == id,
        forall|j: int| 0 <= j < i ==> (#[trigger] zs[j]).id != id,
    ensures
        find_zettel(zs, id) == Some(zs[i]),
        zettel_idx(zs, id) == i,
    decreases i,
{
    if i > 0 {
        lemma_find_zettel_at(zs.drop_first(), id, i - 1);
        assert(zs.drop_first()[i - 1] == zs[i]);
        assert(forall|j: int|
            0 <= j < i - 1 ==> (#[trigger] zs.drop_first()[j]).id == zs[j + 1].id);
    }
}

proof fn lemma_find_zettel_none(zs: Seq<ZettelModel>, id: Seq<char>)
    requires
        forall|j: int| 0 <= j < zs.len() ==> (#[trigger] zs[j]).id != id,
    ensures
        find_zettel(zs, id) is None,
    decreases zs.len(),
{
    if zs.len() > 0 {
        lemma_find_zettel_none(zs.drop_first(), id);
        assert(forall|j: int|
            0 <= j < zs.len() - 1 ==> (#[trigger] zs.drop_first()[j]).id == zs[j + 1].id);
    }
}

proof fn lemma_find_zettel_some(zs: Seq<ZettelModel>, id: Seq<char>)
    requires
        find_zettel(zs, id) is Some,
    ensures
        ({
            let i = zettel_idx(zs, id);
            0 <= i < zs.len() && zs[i] == find_zettel(zs, id)->Some_0 && zs[i].id == id
                && forall|j: int| 0 <= j < i ==> (#[trigger] zs[j]).id != id
        }),
    decreases zs.len(),
{
    if zs.len() > 0 && zs[0].id != id {
        lemma_find_zettel_some(zs.drop_first(), id);
        let i = zettel_idx(zs, id);
        assert(zs.drop_first()[i - 1] == zs[i]);
        assert forall|j: int| 0 <= j < i implies (#[trigger] zs[j]).id != id by {
            if j > 0 {
                assert(zs.drop_first()[j - 1] == zs[j]);
            }
        }
    }
}

proof fn lemma_find_tag_by_key_at(ts: Seq<TagModel>, key: Seq<char>, i: int)
    requires
        0 <= i < ts.len(),
        lower_of(ts[i].tag_name) == key,
        forall|j: int| 0 <= j < i ==> lower_of((#[trigger] ts[j]).tag_name) != key,
    ensures
        find_tag_by_key(ts, key) == Some(ts[i]),
    decreases i,
{
    if i > 0 {
        lemma_find_tag_by_key_at(ts.drop_first(), key, i - 1);
        assert(ts.drop_first()[i - 1] == ts[i]);
        assert(forall|j: int|
            0 <= j < i - 1 ==> #[trigger] ts.drop_first()[j] == ts[j + 1]);
    }
}

proof fn lemma_find_tag_by_key_none(ts: Seq<TagModel>, key: Seq<char>)
    requires
        forall|j: int| 0 <= j < ts.len() ==> lower_of((#[trigger] ts[j]).tag_name) != key,
    ensures
        find_tag_by_key(ts, key) is None,
    decreases ts.len(),
{
    if ts.len() > 0 {
        lemma_find_tag_by_key_none(ts.drop_first(), key);
        assert(forall|j: int|
            0 <= j < ts.len() - 1 ==> #[trigger] ts.drop_first()[j] == ts[j + 1]);
    }
}

proof fn lemma_find_tag_by_id_at(ts: Seq<TagModel>, id: Seq<char>, i: int)
    requires
        0 <= i < ts.len(),
        ts[i].id == id,
        forall|j: int| 0 <= j < i ==> (#[trigger] ts[j]).id != id,
    ensures
        find_tag_by_id(ts, id) == Some(ts[i]),
    decreases i,
{
    if i > 0 {
        lemma_find_tag_by_id_at(ts.drop_first(), id, i - 1);
        assert(ts.drop_first()[i - 1] == ts[i]);
        assert(forall|j: int|
            0 <= j < i - 1 ==> #[trigger] ts.drop_first()[j] == ts[j + 1]);
    }
}

proof fn lemma_find_tag_by_id_none(ts: Seq<TagModel>, id: Seq<char>)
    requires
        forall|j: int| 0 <= j < ts.len() ==> (#[trigger] ts[j]).id != id,
    ensures
        find_tag_by_id(ts, id) is None,
    decreases ts.len(),
{
    if ts.len() > 0 {
        lemma_find_tag_by_id_none(ts.drop_first(), id);
        assert(forall|j: int|
            0 <= j < ts.len() - 1 ==> #[trigger] ts.drop_first()[j] == ts[j + 1]);
    }
}

// ---------------------------------------------------------------------------
// Reads
// ---------------------------------------------------------------------------

impl Store {
    /// An empty store: no notes, no tags, no relations.
    pub fn new() -> (r: Store)
        ensures
            r@.zettels.len() == 0,
            r@.tags.len() == 0,
            r@.links.len() == 0,
            r@.wf(),
    {
        let r = Store { zettels: Vec::new(), tags: Vec::new(), zettel_tags: Vec::new() };
        proof {
            assert(r@.zettels =~= Seq::<ZettelModel>::empty());
            assert(r@.tags =~= Seq::<TagModel>::empty());
            assert(r@.links =~= Seq::<ZettelTagModel>::empty());
        }
        r
    }

    /// The position of the note carrying `id`, if the store holds one.
    fn position_of_zettel(&self, zettel_id: &String) -> (r: Option<usize>)
        ensures
            match r {
                Some(i) => i < self.zettels@.len() && self@.zettels[i as int].id == zettel_id@
                    && find_zettel(self@.zettels, zettel_id@) == Some(self@.zettels[i as int])
                    && zettel_idx(self@.zettels, zettel_id@) == i,
                None => find_zettel(self@.zettels, zettel_id@) is None,
            },
    {
        let mut i: usize = 0;
        while i < self.zettels.len()
            invariant
                i <= self.zettels@.len(),
                forall|j: int| 0 <= j < i ==> (#[trigger] self@.zettels[j]).id != zettel_id@,
            decreases self.zettels@.len() - i,
        {
            if self.zettels[i].id.eq(zettel_id) {
                proof {
                    assert(self@.zettels[i as int] == self.zettels@[i as int]@);
                    lemma_find_zettel_at(self@.zettels, zettel_id@, i as int);
                }
                return Some(i);
            }
            proof {
                assert(self@.zettels[i as int] == self.zettels@[i as int]@);
            }
            i = i + 1;
        }
        proof {
            lemma_find_zettel_none(self@.zettels, zettel_id@);
        }
        None
    }

    /// The note carrying `id`, or `NotFound`: the record-level existence
    /// check behind every operation that addresses one note.
    pub fn ensure_zettel_exists(&self, zettel_id: &String) -> (r: Result<Zettel, ZettariumError>)
        requires
            self@.wf(),
        ensures
            match r {
                Ok(z) => find_zettel(self@.zettels, zettel_id@) == Some(z@) && z@.wf(),
                Err(e) => e is NotFound && find_zettel(self@.zettels, zettel_id@) is None,
            },
    {
        match self.position_of_zettel(zettel_id) {
            Some(i) => Ok(self.zettels[i].duplicate()),
            None => Err(ZettariumError::NotFound),
        }
    }

    /// The first tag whose name equals `name` under case-insensitive
    /// comparison, if the store holds one.
    pub fn get_tag_name(&self, name: &String) -> (r: Option<Tag>)
        ensures
            match r {
                Some(t) => find_tag_by_key(self@.tags, lower_of(name@)) == Some(t@),
                None => find_tag_by_key(self@.tags, lower_of(name@)) is None,
            },
    {
        let key = lowercase(name.as_str());
        let mut i: usize = 0;
        while i < self.tags.len()
            invariant
                i <= self.tags@.len(),
                key@ == lower_of(name@),
                forall|j: int|
                    0 <= j < i ==> lower_of((#[trigger] self@.tags[j]).tag_name) != lower_of(
                        name@,
                    ),
            decreases self.tags@.len() - i,
        {
            let cand = lowercase(self.tags[i].tag_name.as_str());
            proof {
                assert(self@.tags[i as int] == self.tags@[i as int]@);
            }
            if cand.eq(&key) {
                proof {
                    lemma_find_tag_by_key_at(self@.tags, lower_of(name@), i as int);
                }
                return Some(self.tags[i].duplicate());
            }
            i = i + 1;
        }
        proof {
            lemma_find_tag_by_key_none(self@.tags, lower_of(name@));
        }
        None
    }

    /// Whether the join table relates the note `zettel_id` to the tag
    /// `tag_id`.
    pub fn exists_zettel_tag(&self, zettel_id: &String, tag_id: &String) -> (r: bool)
        ensures
            r == has_link(self@.links, zettel_id@, tag_id@),
    {
        let mut i: usize = 0;
        while i < self.zettel_tags.len()
            invariant
                i <= self.zettel_tags@.len(),
                forall|j: int|
                    0 <= j < i ==> !((#[trigger] self@.links[j]).zettel_id == zettel_id@
                        && self@.links[j].tag_id == tag_id@),
            decreases self.zettel_tags@.len() - i,
        {
            proof {
                assert(self@.links[i as int] == self.zettel_tags@[i as int]@);
            }
            if self.zettel_tags[i].zettel_id.eq(zettel_id) && self.zettel_tags[i].tag_id.eq(
                tag_id,
            ) {
                return true;
            }
            i = i + 1;
        }
        false
    }

    /// The sequence of tags a note is joined to: for each join row carrying
    /// the note's id, in table order, the tag the row refers to.
    pub open spec fn tags_of_spec(m: StoreModel, zid: Seq<char>) -> Seq<TagModel>
        decreases m.links.len(),
    {
        if m.links.len() == 0 {
            Seq::empty()
        } else {
            let rest = StoreModel { links: m.links.drop_last(), ..m };
            let prefix = Self::tags_of_spec(rest, zid);
            if m.links.last().zettel_id == zid {
                match find_tag_by_id(m.tags, m.links.last().tag_id) {
                    Some(t) => prefix.push(t),
                    None => prefix,
                }
            } else {
                prefix
            }
        }
    }

    /// The tag carrying `tag_id`, if the store holds one.
    fn tag_with_id(&self, tag_id: &String) -> (r: Option<Tag>)
        ensures
            match r {
                Some(t) => find_tag_by_id(self@.tags, tag_id@) == Some(t@),
                None => find_tag_by_id(self@.tags, tag_id@) is None,
            },
    {
        let mut i: usize = 0;
        while i < self.tags.len()
            invariant
                i <= self.tags@.len(),
                forall|j: int| 0 <= j < i ==> (#[trigger] self@.tags[j]).id != tag_id@,
            decreases self.tags@.len() - i,
        {
            proof {
                assert(self@.tags[i as int] == self.tags@[i as int]@);
            }
            if self.tags[i].id.eq(tag_id) {
                proof {
                    lemma_find_tag_by_id_at(self@.tags, tag_id@, i as int);
                }
                return Some(self.tags[i].duplicate());
            }
            i = i + 1;
        }
        proof {
            lemma_find_tag_by_id_none(self@.tags, tag_id@);
        }
        None
    }

    /// The tags the note `zettel_id` is joined to, in join-table order.
    pub fn get_tag_by_zettel_id(&self, zettel_id: &String) -> (r: Vec<Tag>)
        ensures
            r@.map_values(|t: Tag| t@) == Self::tags_of_spec(self@, zettel_id@),
    {
        let mut r: Vec<Tag> = Vec::new();
        let mut i: usize = 0;
        while i < self.zettel_tags.len()
            invariant
                i <= self.zettel_tags@.len(),
                r@.map_values(|t: Tag| t@) == Self::tags_of_spec(
                    StoreModel { links: self@.links.take(i as int), ..self@ },
                    zettel_id@,
                ),
            decreases self.zettel_tags@.len() - i,
        {
            let ghost before = StoreModel { links: self@.links.take(i as int), ..self@ };
            let ghost after = StoreModel { links: self@.links.take(i + 1), ..self@ };
            proof {
                assert(after.links.drop_last() =~= before.links);
                assert(self@.links[i as int] == self.zettel_tags@[i as int]@);
                assert(after.links.last() == self@.links[i as int]);
            }
            if self.zettel_tags[i].zettel_id.eq(zettel_id) {
                match self.tag_with_id(&self.zettel_tags[i].tag_id) {
                    Some(t) => {
                        r.push(t);
                        proof {
                            assert(r@.map_values(|t: Tag| t@) =~= Self::tags_of_spec(
                                after,
                                zettel_id@,
                            ));
                        }
                    },
                    None => {
                        proof {
                            assert(r@.map_values(|t: Tag| t@) =~= Self::tags_of_spec(
                                after,
                                zettel_id@,
                            ));
                        }
                    },
                }
            } else {
                proof {
                    assert(r@.map_values(|t: Tag| t@) =~= Self::tags_of_spec(after, zettel_id@));
                }
            }
            i = i + 1;
        }
        proof {
            assert(self@.links.take(self@.links.len() as int) =~= self@.links);
            assert(StoreModel { links: self@.links.take(self@.links.len() as int), ..self@ }
                == self@);
        }
        r
    }

    /// Deletes the note carrying `id` and, with it, every join row that
    /// refers to it. The count says how many notes were deleted: zero when
    /// no record matched — never an error — and one otherwise.
    pub fn remove_zettel(&mut self, zettel_id: &String) -> (r: usize)
        requires
            old(self)@.wf(),
        ensures
            final(self)@.wf(),
            r == 0 <==> find_zettel(old(self)@.zettels, zettel_id@) is None,
            r <= 1,
            final(self)@.zettels == old(self)@.zettels.filter(
                |z: ZettelModel| z.id != zettel_id@,
            ),
            final(self)@.tags == old(self)@.tags,
            final(self)@.links == old(self)@.links.filter(
                |l: ZettelTagModel| l.zettel_id != zettel_id@,
            ),
            find_zettel(final(self)@.zettels, zettel_id@) is None,
    {
        proof {
            reveal(Seq::filter);
        }
        let ghost pre = self@;
        let mut kept: Vec<Zettel> = Vec::new();
        let mut removed: usize = 0;
        let zn = self.zettels.len();
        let mut i: usize = 0;
        while i < zn
            invariant
                zn == self.zettels@.len(),
                i <= zn,
                self@ == pre,
                kept@.map_values(|z: Zettel| z@) == pre.zettels.take(i as int).filter(
                    |z: ZettelModel| z.id != zettel_id@,
                ),
                removed <= i,
                removed == i - pre.zettels.take(i as int).filter(
                    |z: ZettelModel| z.id != zettel_id@,
                ).len(),
                (removed == 0) <==> (forall|j: int|
                    0 <= j < i ==> (#[trigger] pre.zettels[j]).id != zettel_id@),
            decreases zn - i,
        {
            let ghost tk = pre.zettels.take(i + 1);
            proof {
                reveal(Seq::filter);
                assert(tk.drop_last() =~= pre.zettels.take(i as int));
                assert(tk.last() == pre.zettels[i as int]);
                assert(pre.zettels[i as int] == self.zettels@[i as int]@);
                tk.drop_last().lemma_filter_len(|z: ZettelModel| z.id != zettel_id@);
            }
            if self.zettels[i].id.eq(zettel_id) {
                removed = removed + 1;
                proof {
                    reveal(Seq::filter);
                }
            } else {
                kept.push(self.zettels[i].duplicate());
                proof {
                    reveal(Seq::filter);
                    assert(kept@.map_values(|z: Zettel| z@) =~= tk.filter(
                        |z: ZettelModel| z.id != zettel_id@,
                    ));
                }
            }
            i = i + 1;
        }
        proof {
            assert(pre.zettels.take(zn as int) =~= pre.zettels);
        }
        self.zettels = kept;
        let mut kept_links: Vec<ZettelTag> = Vec::new();
        let ln = self.zettel_tags.len();
        let mut k: usize = 0;
        while k < ln
            invariant
                ln == self.zettel_tags@.len(),
                k <= ln,
                self.zettel_tags@.map_values(|l: ZettelTag| l@) == pre.links,
                kept_links@.map_values(|l: ZettelTag| l@) == pre.links.take(k as int).filter(
                    |l: ZettelTagModel| l.zettel_id != zettel_id@,
                ),
            decreases ln - k,
        {
            let ghost tk = pre.links.take(k + 1);
            proof {
                reveal(Seq::filter);
                assert(tk.drop_last() =~= pre.links.take(k as int));
                assert(tk.last() == pre.links[k as int]);
                assert(pre.links[k as int] == self.zettel_tags@[k as int]@);
            }
            if !self.zettel_tags[k].zettel_id.eq(zettel_id) {
                let l = &self.zettel_tags[k];
                kept_links.push(
                    ZettelTag { zettel_id: l.zettel_id.clone(), tag_id: l.tag_id.clone() },
                );
            }
            proof {
                reveal(Seq::filter);
                assert(kept_links@.map_values(|l: ZettelTag| l@) =~= tk.filter(
                    |l: ZettelTagModel| l.zettel_id != zettel_id@,
                ));
            }
            k = k + 1;
        }
        proof {
            assert(pre.links.take(ln as int) =~= pre.links);
        }
        self.zettel_tags = kept_links;
        proof {
            lemma_remove_zettel_wf(pre, self@, zettel_id@);
            if removed == 0 {
                lemma_find_zettel_none(pre.zettels, zettel_id@);
            } else {
                if find_zettel(pre.zettels, zettel_id@) is None {
                    lemma_find_zettel_some_from_exists(pre.zettels, zettel_id@);
                }
            }
        }
        if removed > 1 {
            proof {
                lemma_two_matches_contradict_wf(pre, zettel_id@);
            }
            1
        } else {
            removed
        }
    }
}

proof fn lemma_find_zettel_some_from_exists(zs: Seq<ZettelModel>, id: Seq<char>)
    requires
        exists|j: int| 0 <= j < zs.len() && (#[trigger] zs[j]).id == id,
    ensures
        find_zettel(zs, id) is Some,
    decreases zs.len(),
{
    if zs.len() > 0 && zs[0].id != id {
        let j = choose|j: int| 0 <= j < zs.len() && (#[trigger] zs[j]).id == id;
        assert(zs.drop_first()[j - 1] == zs[j]);
        lemma_find_zettel_some_from_exists(zs.drop_first(), id);
    }
}

proof fn lemma_two_matches_contradict_wf(pre: StoreModel, id: Seq<char>)
    requires
        pre.wf(),
    ensures
        pre.zettels.len() - pre.zettels.filter(|z: ZettelModel| z.id != id).len() <= 1,
{
    lemma_matches_le_one(pre.zettels, id);
}

proof fn lemma_matches_le_one(zs: Seq<ZettelModel>, id: Seq<char>)
    requires
        forall|i: int, j: int|
            0 <= i < j < zs.len() ==> (#[trigger] zs[i]).id != (#[trigger] zs[j]).id,
    ensures
        zs.len() - zs.filter(|z: ZettelModel| z.id != id).len() <= 1,
        (forall|j: int| 0 <= j < zs.len() ==> (#[trigger] zs[j]).id != id) ==> zs.len()
            == zs.filter(|z: ZettelModel| z.id != id).len(),
    decreases zs.len(),
{
    reveal(Seq::filter);
    if zs.len() > 0 {
        let zs0 = zs.drop_last();
        assert(forall|i: int, j: int|
            0 <= i < j < zs0.len() ==> (#[trigger] zs0[i]).id != (#[trigger] zs0[j]).id);
        lemma_matches_le_one(zs0, id);
        if zs.last().id == id {
            // every earlier record has a different id, so the prefix kept everything
            assert(forall|j: int| 0 <= j < zs0.len() ==> (#[trigger] zs0[j]).id != id);
        }
    }
}

proof fn lemma_remove_zettel_wf(pre: StoreModel, post: StoreModel, id: Seq<char>)
    requires
        pre.wf(),
        post.zettels == pre.zettels.filter(|z: ZettelModel| z.id != id),
        post.tags == pre.tags,
        post.links == pre.links.filter(|l: ZettelTagModel| l.zettel_id != id),
    ensures
        post.wf(),
        find_zettel(post.zettels, id) is None,
{
    broadcast use vstd::seq_lib::group_filter_ensures;

    let zp = |z: ZettelModel| z.id != id;
    let lp = |l: ZettelTagModel| l.zettel_id != id;
    lemma_filter_keeps_distinct_zettels(pre.zettels, zp);
    lemma_filter_keeps_distinct_links(pre.links, lp);
    assert forall|i: int| 0 <= i < post.zettels.len() implies (#[trigger] post.zettels[i]).wf()
        by {
        pre.zettels.lemma_filter_pred(zp, i);
        lemma_filter_elt_membership_zettels(pre.zettels, zp, i);
    }
    assert forall|i: int| 0 <= i < post.links.len() implies zettel_id_present(
        post.zettels,
        (#[trigger] post.links[i]).zettel_id,
    ) by {
        pre.links.lemma_filter_pred(lp, i);
        lemma_filter_elt_membership_links(pre.links, lp, i);
        let l = post.links[i];
        let w0 = choose|w0: int| 0 <= w0 < pre.links.len() && #[trigger] pre.links[w0] == l;
        assert(zettel_id_present(pre.zettels, l.zettel_id));
        let w = choose|w: int|
            0 <= w < pre.zettels.len() && (#[trigger] pre.zettels[w]).id == l.zettel_id;
        assert(zp(pre.zettels[w]));
        pre.zettels.lemma_filter_contains(zp, w);
        let w2 = choose|w2: int|
            0 <= w2 < post.zettels.len() && #[trigger] post.zettels[w2] == pre.zettels[w];
        assert(post.zettels[w2].id == l.zettel_id);
    }
    assert forall|i: int| 0 <= i < post.links.len() implies tag_id_present(
        post.tags,
        (#[trigger] post.links[i]).tag_id,
    ) by {
        lemma_filter_elt_membership_links(pre.links, lp, i);
        let l = post.links[i];
        let w0 = choose|w0: int| 0 <= w0 < pre.links.len() && #[trigger] pre.links[w0] == l;
        assert(tag_id_present(pre.tags, l.tag_id));
        let w = choose|w: int|
            0 <= w < pre.tags.len() && (#[trigger] pre.tags[w]).id == l.tag_id;
        assert(post.tags[w].id == l.tag_id);
    }
    assert forall|j: int| 0 <= j < post.zettels.len() implies (#[trigger] post.zettels[j]).id
        != id by {
        pre.zettels.lemma_filter_pred(zp, j);
    }
    lemma_find_zettel_none(post.zettels, id);
}

proof fn lemma_filter_elt_membership_zettels(
    zs: Seq<ZettelModel>,
    p: spec_fn(ZettelModel) -> bool,
    i: int,
)
    requires
        0 <= i < zs.filter(p).len(),
    ensures
        exists|j: int| 0 <= j < zs.len() && #[trigger] zs[j] == zs.filter(p)[i],
    decreases zs.len(),
{
    reveal(Seq::filter);
    if zs.len() > 0 {
        let zs0 = zs.drop_last();
        if p(zs.last()) && i == zs.filter(p).len() - 1 {
            assert(zs[zs.len() - 1] == zs.filter(p)[i]);
        } else {
            lemma_filter_elt_membership_zettels(zs0, p, i);
            let j = choose|j: int| 0 <= j < zs0.len() && #[trigger] zs0[j] == zs0.filter(p)[i];
            assert(zs[j] == zs0[j]);
        }
    }
}

proof fn lemma_filter_elt_membership_links(
    ls: Seq<ZettelTagModel>,
    p: spec_fn(ZettelTagModel) -> bool,
    i: int,
)
    requires
        0 <= i < ls.filter(p).len(),
    ensures
        exists|j: int| 0 <= j < ls.len() && #[trigger] ls[j] == ls.filter(p)[i],
    decreases ls.len(),
{
    reveal(Seq::filter);
    if ls.len() > 0 {
        let ls0 = ls.drop_last();
        if p(ls.last()) && i == ls.filter(p).len() - 1 {
            assert(ls[ls.len() - 1] == ls.filter(p)[i]);
        } else {
            lemma_filter_elt_membership_links(ls0, p, i);
            let j = choose|j: int| 0 <= j < ls0.len() && #[trigger] ls0[j] == ls0.filter(p)[i];
            assert(ls[j] == ls0[j]);
        }
    }
}

proof fn lemma_filter_keeps_distinct_zettels(zs: Seq<ZettelModel>, p: spec_fn(ZettelModel) -> bool)
    requires
        forall|i: int, j: int|
            0 <= i < j < zs.len() ==> (#[trigger] zs[i]).id != (#[trigger] zs[j]).id,
    ensures
        forall|i: int, j: int|
            0 <= i < j < zs.filter(p).len() ==> (#[trigger] zs.filter(p)[i]).id
                != (#[trigger] zs.filter(p)[j]).id,
    decreases zs.len(),
{
    reveal(Seq::filter);
    if zs.len() > 0 {
        let zs0 = zs.drop_last();
        assert(forall|i: int, j: int|
            0 <= i < j < zs0.len() ==> (#[trigger] zs0[i]).id != (#[trigger] zs0[j]).id);
        lemma_filter_keeps_distinct_zettels(zs0, p);
        if p(zs.last()) {
            assert forall|i: int, j: int| 0 <= i < j < zs.filter(p).len() implies (
            #[trigger] zs.filter(p)[i]).id != (#[trigger] zs.filter(p)[j]).id by {
                if j == zs.filter(p).len() - 1 {
                    assert(zs.filter(p)[j] == zs.last());
                    lemma_filter_elt_membership_zettels(zs0, p, i);
                    let w = choose|w: int|
                        0 <= w < zs0.len() && #[trigger] zs0[w] == zs0.filter(p)[i];
                    assert(zs[w] == zs0[w]);
                    assert(zs[w].id != zs[zs.len() - 1].id);
                } else {
                    assert(zs.filter(p)[i] == zs0.filter(p)[i]);
                    assert(zs.filter(p)[j] == zs0.filter(p)[j]);
                }
            }
        }
    }
}

proof fn lemma_filter_keeps_distinct_links(
    ls: Seq<ZettelTagModel>,
    p: spec_fn(ZettelTagModel) -> bool,
)
    requires
        forall|i: int, j: int|
            0 <= i < j < ls.len() ==> !((#[trigger] ls[i]).zettel_id == (#[trigger] ls[j]).zettel_id
                && ls[i].tag_id == ls[j].tag_id),
    ensures
        forall|i: int, j: int|
            0 <= i < j < ls.filter(p).len() ==> !((#[trigger] ls.filter(p)[i]).zettel_id == (
            #[trigger] ls.filter(p)[j]).zettel_id && ls.filter(p)[i].tag_id == ls.filter(
                p,
            )[j].tag_id),
    decreases ls.len(),
{
    reveal(Seq::filter);
    if ls.len() > 0 {
        let ls0 = ls.drop_last();
        assert(forall|i: int, j: int|
            0 <= i < j < ls0.len() ==> !((#[trigger] ls0[i]).zettel_id
                == (#[trigger] ls0[j]).zettel_id && ls0[i].tag_id == ls0[j].tag_id));
        lemma_filter_keeps_distinct_links(ls0, p);
        if p(ls.last()) {
            assert forall|i: int, j: int| 0 <= i < j < ls.filter(p).len() implies !((
            #[trigger] ls.filter(p)[i]).zettel_id == (#[trigger] ls.filter(p)[j]).zettel_id
                && ls.filter(p)[i].tag_id == ls.filter(p)[j].tag_id) by {
                if j == ls.filter(p).len() - 1 {
                    assert(ls.filter(p)[j] == ls.last());
                    lemma_filter_elt_membership_links(ls0, p, i);
                    let w = choose|w: int|
                        0 <= w < ls0.len() && #[trigger] ls0[w] == ls0.filter(p)[i];
                    assert(ls[w] == ls0[w]);
                } else {
                    assert(ls.filter(p)[i] == ls0.filter(p)[i]);
                    assert(ls.filter(p)[j] == ls0.filter(p)[j]);
                }
            }
        }
    }
}


// ---------------------------------------------------------------------------
// Tag id generation
// ---------------------------------------------------------------------------

proof fn lemma_digits_val_take_le(s: Seq<char>, i: int)
    requires
        0 <= i <= s.len(),
    ensures
        digits_val(s.take(i)) <= digits_val(s),
    decreases s.len(),
{
    if i == s.len() {
        assert(s.take(i) =~= s);
    } else {
        assert(s.drop_last().take(i) =~= s.take(i));
        lemma_digits_val_take_le(s.drop_last(), i);
    }
}

proof fn lemma_tag_num_le_max(ts: Seq<TagModel>, i: int)
    requires
        0 <= i < ts.len(),
        tag_num_of(ts[i].id) is Some,
    ensures
        tag_num_of(ts[i].id)->Some_0 <= max_tag_num(ts),
    decreases ts.len(),
{
    if i < ts.len() - 1 {
        assert(ts.drop_last()[i] == ts[i]);
        lemma_tag_num_le_max(ts.drop_last(), i);
    }
}

proof fn lemma_dec_digits(n: nat)
    ensures
        all_digits(crate::text::dec_chars(n)),
        digits_val(crate::text::dec_chars(n)) == n,
        crate::text::dec_chars(n).len() >= 1,
    decreases n,
{
    let d = crate::text::dec_chars(n);
    if n < 10 {
        assert(crate::text::digit_char(n as int) as int == 48 + n);
        assert(d =~= seq![crate::text::digit_char(n as int)]);
        assert(d.drop_last() =~= Seq::<char>::empty());
        assert(digits_val(d) == digits_val(d.drop_last()) * 10 + (d.last() as int - 48));
    } else {
        lemma_dec_digits(n / 10);
        let head = crate::text::dec_chars(n / 10);
        assert(d.drop_last() =~= head);
        assert(crate::text::digit_char((n % 10) as int) as int == 48 + n % 10);
        assert(d.last() == crate::text::digit_char((n % 10) as int));
        assert(digits_val(d) == digits_val(head) * 10 + (d.last() as int - 48));
        assert forall|i: int| 0 <= i < d.len() implies is_digit(#[trigger] d[i]) by {
            if i < head.len() {
                assert(d[i] == head[i]);
            } else {
                assert(d[i] == crate::text::digit_char((n % 10) as int));
            }
        }
    }
}

proof fn lemma_pad3_digits(n: nat)
    ensures
        all_digits(crate::text::pad3_chars(n)),
        digits_val(crate::text::pad3_chars(n)) == n,
        crate::text::pad3_chars(n).len() >= 1,
{
    let p = crate::text::pad3_chars(n);
    if n < 1000 {
        let a = crate::text::digit_char(n as int / 100);
        let b = crate::text::digit_char((n as int / 10) % 10);
        let c = crate::text::digit_char(n as int % 10);
        assert(a as int == 48 + n as int / 100);
        assert(b as int == 48 + (n as int / 10) % 10);
        assert(c as int == 48 + n as int % 10);
        assert(p =~= seq![a, b, c]);
        assert(p.drop_last() =~= seq![a, b]);
        assert(p.drop_last().drop_last() =~= seq![a]);
        assert(p.drop_last().drop_last().drop_last() =~= Seq::<char>::empty());
        assert(p.drop_last().drop_last().last() == a);
        assert(p.drop_last().last() == b);
        assert(p.last() == c);
        assert(digits_val(p.drop_last().drop_last().drop_last()) == 0);
        assert(digits_val(p.drop_last().drop_last()) == a as int - 48);
        assert(digits_val(p.drop_last()) == (a as int - 48) * 10 + (b as int - 48));
        assert(digits_val(p) == ((a as int - 48) * 10 + (b as int - 48)) * 10 + (c as int - 48));
        assert(((n as int / 100) * 10 + (n as int / 10) % 10) * 10 + n as int % 10 == n as int);
    } else {
        lemma_dec_digits(n);
    }
}

proof fn lemma_next_tag_id_parses(ts: Seq<TagModel>)
    ensures
        tag_num_of(next_tag_id_chars(ts)) == Some(max_tag_num(ts) + 1),
{
    reveal_strlit("t-");
    let n = max_tag_num(ts) + 1;
    let p = crate::text::pad3_chars(n);
    lemma_pad3_digits(n);
    let id = next_tag_id_chars(ts);
    assert(id[0] == 't' && id[1] == '-');
    assert(id.subrange(2, id.len() as int) =~= p);
}

proof fn lemma_next_tag_id_fresh(ts: Seq<TagModel>)
    ensures
        forall|j: int| 0 <= j < ts.len() ==> (#[trigger] ts[j]).id != next_tag_id_chars(ts),
{
    lemma_next_tag_id_parses(ts);
    assert forall|j: int| 0 <= j < ts.len() implies (#[trigger] ts[j]).id != next_tag_id_chars(
        ts,
    ) by {
        if ts[j].id == next_tag_id_chars(ts) {
            lemma_tag_num_le_max(ts, j);
        }
    }
}

proof fn lemma_max_tag_num_push(ts: Seq<TagModel>, t: TagModel)
    ensures
        max_tag_num(ts.push(t)) == (match tag_num_of(t.id) {
            Some(n) => if n > max_tag_num(ts) {
                n
            } else {
                max_tag_num(ts)
            },
            None => max_tag_num(ts),
        }),
{
    assert(ts.push(t).drop_last() =~= ts);
    assert(ts.push(t).last() == t);
}

proof fn lemma_find_tag_by_key_none_forall(ts: Seq<TagModel>, key: Seq<char>)
    requires
        find_tag_by_key(ts, key) is None,
    ensures
        forall|j: int| 0 <= j < ts.len() ==> lower_of((#[trigger] ts[j]).tag_name) != key,
    decreases ts.len(),
{
    if ts.len() > 0 {
        lemma_find_tag_by_key_none_forall(ts.drop_first(), key);
        assert forall|j: int| 0 <= j < ts.len() implies lower_of((#[trigger] ts[j]).tag_name)
            != key by {
            if j > 0 {
                assert(ts.drop_first()[j - 1] == ts[j]);
            }
        }
    }
}

proof fn lemma_find_tag_by_id_some_exists(ts: Seq<TagModel>, id: Seq<char>)
    requires
        find_tag_by_id(ts, id) is Some,
    ensures
        exists|j: int| 0 <= j < ts.len() && (#[trigger] ts[j]).id == id,
        find_tag_by_id(ts, id)->Some_0.id == id,
    decreases ts.len(),
{
    if ts.len() > 0 && ts[0].id != id {
        lemma_find_tag_by_id_some_exists(ts.drop_first(), id);
        let j = choose|j: int|
            0 <= j < ts.drop_first().len() && (#[trigger] ts.drop_first()[j]).id == id;
        assert(ts[j + 1] == ts.drop_first()[j]);
    }
}

proof fn lemma_find_tag_by_key_some_exists(ts: Seq<TagModel>, key: Seq<char>)
    requires
        find_tag_by_key(ts, key) is Some,
    ensures
        exists|j: int| 0 <= j < ts.len() && #[trigger] ts[j] == find_tag_by_key(ts, key)->Some_0,
        lower_of(find_tag_by_key(ts, key)->Some_0.tag_name) == key,
    decreases ts.len(),
{
    if ts.len() > 0 && lower_of(ts[0].tag_name) != key {
        lemma_find_tag_by_key_some_exists(ts.drop_first(), key);
        let j = choose|j: int|
            0 <= j < ts.drop_first().len() && #[trigger] ts.drop_first()[j] == find_tag_by_key(
                ts.drop_first(),
                key,
            )->Some_0;
        assert(ts[j + 1] == ts.drop_first()[j]);
    } else if ts.len() > 0 {
        assert(ts[0] == find_tag_by_key(ts, key)->Some_0);
    }
}

proof fn lemma_push_link_wf(pre: StoreModel, post: StoreModel, l: ZettelTagModel)
    requires
        pre.wf(),
        find_zettel(pre.zettels, l.zettel_id) is Some,
        find_tag_by_id(pre.tags, l.tag_id) is Some,
        !has_link(pre.links, l.zettel_id, l.tag_id),
        post.zettels == pre.zettels,
        post.tags == pre.tags,
        post.links == pre.links.push(l),
    ensures
        post.wf(),
{
    lemma_find_zettel_some(pre.zettels, l.zettel_id);
    lemma_find_tag_by_id_some_exists(pre.tags, l.tag_id);
    assert forall|i: int, j: int| 0 <= i < j < post.links.len() implies !((
    #[trigger] post.links[i]).zettel_id == (#[trigger] post.links[j]).zettel_id
        && post.links[i].tag_id == post.links[j].tag_id) by {
        if j == post.links.len() - 1 {
            assert(post.links[i] == pre.links[i]);
            assert(post.links[j] == l);
        }
    }
    assert forall|i: int| 0 <= i < post.links.len() implies zettel_id_present(
        post.zettels,
        (#[trigger] post.links[i]).zettel_id,
    ) by {
        if i < post.links.len() - 1 {
            assert(post.links[i] == pre.links[i]);
            assert(zettel_id_present(pre.zettels, pre.links[i].zettel_id));
        } else {
            assert(post.links[i] == l);
            let w = zettel_idx(pre.zettels, l.zettel_id);
            assert(post.zettels[w].id == l.zettel_id);
            assert(zettel_id_present(post.zettels, l.zettel_id));
        }
    }
    assert forall|i: int| 0 <= i < post.links.len() implies tag_id_present(
        post.tags,
        (#[trigger] post.links[i]).tag_id,
    ) by {
        if i < post.links.len() - 1 {
            assert(post.links[i] == pre.links[i]);
            assert(tag_id_present(pre.tags, pre.links[i].tag_id));
        } else {
            assert(post.links[i] == l);
            let w = choose|w: int|
                0 <= w < pre.tags.len() && (#[trigger] pre.tags[w]).id == l.tag_id;
            assert(post.tags[w].id == l.tag_id);
            assert(tag_id_present(post.tags, l.tag_id));
        }
    }
}

proof fn lemma_push_tag_wf(pre: StoreModel, post: StoreModel, t: TagModel)
    requires
        pre.wf(),
        find_tag_by_key(pre.tags, lower_of(t.tag_name)) is None,
        t.id == next_tag_id_chars(pre.tags),
        max_tag_num(pre.tags) + 1 < 1000000000,
        post.zettels == pre.zettels,
        post.links == pre.links,
        post.tags == pre.tags.push(t),
    ensures
        post.wf(),
{
    lemma_next_tag_id_fresh(pre.tags);
    lemma_next_tag_id_parses(pre.tags);
    lemma_max_tag_num_push(pre.tags, t);
    lemma_find_tag_by_key_none_forall(pre.tags, lower_of(t.tag_name));
    assert forall|i: int, j: int| 0 <= i < j < post.tags.len() implies (
    #[trigger] post.tags[i]).id != (#[trigger] post.tags[j]).id by {
        if j == post.tags.len() - 1 {
            assert(post.tags[i] == pre.tags[i]);
            assert(post.tags[j] == t);
        }
    }
    assert forall|i: int, j: int| 0 <= i < j < post.tags.len() implies lower_of(
        (#[trigger] post.tags[i]).tag_name,
    ) != lower_of((#[trigger] post.tags[j]).tag_name) by {
        if j == post.tags.len() - 1 {
            assert(post.tags[i] == pre.tags[i]);
            assert(post.tags[j] == t);
        }
    }
    assert forall|i: int| 0 <= i < post.links.len() implies tag_id_present(
        post.tags,
        (#[trigger] post.links[i]).tag_id,
    ) by {
        assert(tag_id_present(pre.tags, pre.links[i].tag_id));
        let w = choose|w: int|
            0 <= w < pre.tags.len() && (#[trigger] pre.tags[w]).id == pre.links[i].tag_id;
        assert(post.tags[w] == pre.tags[w]);
        assert(post.tags[w].id == post.links[i].tag_id);
    }
}

impl Store {
    /// The number a tag id carries, if it is a store-generated one.
    fn parse_tag_num(id: &String) -> (r: Option<u64>)
        requires
            tag_num_of(id@) matches Some(n) ==> n < 1000000000,
        ensures
            match r {
                Some(n) => tag_num_of(id@) == Some(n as nat),
                None => tag_num_of(id@) is None,
            },
    {
        let chars = crate::text::str_chars(id.as_str());
        let n = chars.len();
        if n < 3 {
            return None;
        }
        if chars[0] != 't' || chars[1] != '-' {
            return None;
        }
        let mut i: usize = 2;
        while i < n
            invariant
                2 <= i <= n,
                n == chars@.len(),
                chars@ == id@,
                forall|j: int| 2 <= j < i ==> is_digit(#[trigger] chars@[j]),
            decreases n - i,
        {
            let ch = chars[i];
            if ch < '0' || ch > '9' {
                proof {
                    assert(!is_digit(id@[i as int]));
                    assert(id@.subrange(2, n as int)[i - 2] == id@[i as int]);
                    assert(!all_digits(id@.subrange(2, n as int)));
                }
                return None;
            }
            i = i + 1;
        }
        let ghost digits = id@.subrange(2, n as int);
        proof {
            assert forall|j: int| 0 <= j < digits.len() implies is_digit(#[trigger] digits[j]) by {
                assert(digits[j] == id@[j + 2]);
            }
            assert(tag_num_of(id@) == Some(digits_val(digits)));
        }
        let mut val: u64 = 0;
        let mut k: usize = 2;
        while k < n
            invariant
                2 <= k <= n,
                n == chars@.len(),
                chars@ == id@,
                digits == id@.subrange(2, n as int),
                tag_num_of(id@) == Some(digits_val(digits)),
                digits_val(digits) < 1000000000,
                val as nat == digits_val(id@.subrange(2, k as int)),
            decreases n - k,
        {
            let ghost prefix = id@.subrange(2, k as int);
            let ghost prefix2 = id@.subrange(2, k + 1);
            proof {
                assert(prefix2.drop_last() =~= prefix);
                assert(prefix2.last() == id@[k as int]);
                assert(prefix2 =~= digits.take(k + 1 - 2));
                lemma_digits_val_take_le(digits, k + 1 - 2);
                assert(digits_val(prefix2) <= digits_val(digits));
                assert(is_digit(id@[k as int]));
            }
            let ch = chars[k];
            proof {
                assert(ch == digits[k - 2]);
                assert(is_digit(ch));
            }
            val = val * 10 + ((ch as u8) as u64 - 48);
            k = k + 1;
        }
        proof {
            assert(id@.subrange(2, n as int) =~= digits);
        }
        Some(val)
    }

    /// The largest number any tag id in the store carries.
    fn max_tag_num_exec(&self) -> (r: u64)
        requires
            self@.wf(),
        ensures
            r as nat == max_tag_num(self@.tags),
            r < 1000000000,
    {
        let mut m: u64 = 0;
        let mut i: usize = 0;
        while i < self.tags.len()
            invariant
                self@.wf(),
                i <= self.tags@.len(),
                m as nat == max_tag_num(self@.tags.take(i as int)),
                m as nat <= max_tag_num(self@.tags),
            decreases self.tags@.len() - i,
        {
            let ghost tk = self@.tags.take(i + 1);
            proof {
                assert(tk.drop_last() =~= self@.tags.take(i as int));
                assert(tk.last() == self@.tags[i as int]);
                assert(self@.tags[i as int] == self.tags@[i as int]@);
                if tag_num_of(self@.tags[i as int].id) is Some {
                    lemma_tag_num_le_max(self@.tags, i as int);
                }
            }
            match Self::parse_tag_num(&self.tags[i].id) {
                Some(v) => {
                    if v > m {
                        m = v;
                    }
                },
                None => {},
            }
            i = i + 1;
        }
        proof {
            assert(self@.tags.take(self.tags@.len() as int) =~= self@.tags);
        }
        m
    }

    /// The id the store will give its next tag.
    fn next_tag_id(&self) -> (r: String)
        requires
            self@.wf(),
        ensures
            r@ == next_tag_id_chars(self@.tags),
    {
        let m = self.max_tag_num_exec();
        let mut v: Vec<char> = Vec::new();
        v.push('t');
        v.push('-');
        crate::text::push_pad3(&mut v, (m + 1) as u32);
        proof {
            reveal_strlit("t-");
            assert(v@ =~= "t-"@ + crate::text::pad3_chars((m + 1) as nat));
        }
        crate::text::chars_to_string(&v)
    }

    /// Creates a tag named `tag_str` under a fresh store-assigned id. Fails
    /// with `StoreFailure` when a tag of that name (case-insensitively)
    /// already exists, or when the tag id space is exhausted.
    pub fn create_tag(&mut self, tag_str: &String) -> (r: Result<Tag, ZettariumError>)
        requires
            old(self)@.wf(),
        ensures
            final(self)@.wf(),
            match r {
                Ok(t) => find_tag_by_key(old(self)@.tags, lower_of(tag_str@)) is None
                    && max_tag_num(old(self)@.tags) + 1 < 1000000000 && t@ == (TagModel {
                    id: next_tag_id_chars(old(self)@.tags),
                    tag_name: tag_str@,
                }) && final(self)@.tags == old(self)@.tags.push(t@) && final(self)@.zettels == old(
                    self,
                )@.zettels && final(self)@.links == old(self)@.links,
                Err(e) => final(self)@ == old(self)@ && e is StoreFailure && (find_tag_by_key(
                    old(self)@.tags,
                    lower_of(tag_str@),
                ) is Some || max_tag_num(old(self)@.tags) + 1 >= 1000000000),
            },
    {
        let ghost pre = self@;
        if self.get_tag_name(tag_str).is_some() {
            return Err(ZettariumError::StoreFailure);
        }
        let m = self.max_tag_num_exec();
        if m + 1 >= 1000000000 {
            return Err(ZettariumError::StoreFailure);
        }
        let id = self.next_tag_id();
        let t = Tag { id, tag_name: tag_str.clone() };
        self.tags.push(t.duplicate());
        proof {
            assert(self@.tags =~= pre.tags.push(t@));
            assert(self@.zettels =~= pre.zettels);
            assert(self@.links =~= pre.links);
            lemma_push_tag_wf(pre, self@, t@);
        }
        Ok(t)
    }

    /// Relates a note to a tag: inserts the join row. Fails with
    /// `StoreFailure` when either side is absent or the pair already exists.
    pub fn create_zettel_tag(&mut self, zettel_id: &String, tag_id: &String) -> (r: Result<
        ZettelTag,
        ZettariumError,
    >)
        requires
            old(self)@.wf(),
        ensures
            final(self)@.wf(),
            match r {
                Ok(l) => find_zettel(old(self)@.zettels, zettel_id@) is Some && find_tag_by_id(
                    old(self)@.tags,
                    tag_id@,
                ) is Some && !has_link(old(self)@.links, zettel_id@, tag_id@) && l@ == (
                ZettelTagModel { zettel_id: zettel_id@, tag_id: tag_id@ }) && final(self)@.links
                    == old(self)@.links.push(l@) && final(self)@.zettels == old(self)@.zettels
                    && final(self)@.tags == old(self)@.tags,
                Err(e) => final(self)@ == old(self)@ && e is StoreFailure && (find_zettel(
                    old(self)@.zettels,
                    zettel_id@,
                ) is None || find_tag_by_id(old(self)@.tags, tag_id@) is None || has_link(
                    old(self)@.links,
                    zettel_id@,
                    tag_id@,
                )),
            },
    {
        let ghost pre = self@;
        if self.position_of_zettel(zettel_id).is_none() {
            return Err(ZettariumError::StoreFailure);
        }
        if self.tag_with_id(tag_id).is_none() {
            return Err(ZettariumError::StoreFailure);
        }
        if self.exists_zettel_tag(zettel_id, tag_id) {
            return Err(ZettariumError::StoreFailure);
        }
        let l = ZettelTag { zettel_id: zettel_id.clone(), tag_id: tag_id.clone() };
        self.zettel_tags.push(
            ZettelTag { zettel_id: l.zettel_id.clone(), tag_id: l.tag_id.clone() },
        );
        proof {
            assert(self@.links =~= pre.links.push(l@));
            assert(self@.zettels =~= pre.zettels);
            assert(self@.tags =~= pre.tags);
            lemma_push_link_wf(pre, self@, l@);
        }
        Ok(l)
    }
}


// ---------------------------------------------------------------------------
// Attaching tag names to a note
// ---------------------------------------------------------------------------

/// One tag name merged into the store for the note `zid`: a tag of that name
/// (case-insensitively) is reused if present, else created under the next
/// store-assigned id; the join row is added unless it is already there.
pub open spec fn attach_one(m: StoreModel, zid: Seq<char>, name: Seq<char>) -> StoreModel {
    match find_tag_by_key(m.tags, lower_of(name)) {
        Some(t) => if has_link(m.links, zid, t.id) {
            m
        } else {
            StoreModel {
                links: m.links.push(ZettelTagModel { zettel_id: zid, tag_id: t.id }),
                ..m
            }
        },
        None => {
            let tid = next_tag_id_chars(m.tags);
            StoreModel {
                tags: m.tags.push(TagModel { id: tid, tag_name: name }),
                links: m.links.push(ZettelTagModel { zettel_id: zid, tag_id: tid }),
                ..m
            }
        },
    }
}

/// The tag names merged one after the other, in order.
pub open spec fn attach_all(m: StoreModel, zid: Seq<char>, names: Seq<Seq<char>>) -> StoreModel
    decreases names.len(),
{
    if names.len() == 0 {
        m
    } else {
        attach_all(attach_one(m, zid, names[0]), zid, names.drop_first())
    }
}

proof fn lemma_find_tag_by_id_some_from_exists(ts: Seq<TagModel>, id: Seq<char>)
    requires
        exists|j: int| 0 <= j < ts.len() && (#[trigger] ts[j]).id == id,
    ensures
        find_tag_by_id(ts, id) is Some,
    decreases ts.len(),
{
    if ts.len() > 0 && ts[0].id != id {
        let j = choose|j: int| 0 <= j < ts.len() && (#[trigger] ts[j]).id == id;
        assert(ts.drop_first()[j - 1] == ts[j]);
        lemma_find_tag_by_id_some_from_exists(ts.drop_first(), id);
    }
}

impl Store {
    /// Merges the given tag names into the store and relates each to the
    /// note `zid`, in order: an existing tag (compared case-insensitively)
    /// is reused, a missing one is created, and the join row is added when
    /// it is not already there.
    fn attach_tags(&mut self, zid: &String, names: &Vec<String>)
        requires
            old(self)@.wf(),
            find_zettel(old(self)@.zettels, zid@) is Some,
            max_tag_num(old(self)@.tags) + names@.len() < 1000000000,
        ensures
            final(self)@.wf(),
            final(self)@ == attach_all(old(self)@, zid@, crate::tags::views_of(names@)),
            final(self)@.zettels == old(self)@.zettels,
    {
        let ghost orig = self@;
        let ghost views = crate::tags::views_of(names@);
        proof {
            assert(views.skip(0) =~= views);
        }
        let mut i: usize = 0;
        while i < names.len()
            invariant
                i <= names@.len(),
                views == crate::tags::views_of(names@),
                self@.wf(),
                self@.zettels == orig.zettels,
                find_zettel(self@.zettels, zid@) is Some,
                max_tag_num(self@.tags) <= max_tag_num(orig.tags) + i,
                max_tag_num(orig.tags) + names@.len() < 1000000000,
                attach_all(orig, zid@, views) == attach_all(self@, zid@, views.skip(i as int)),
            decreases names@.len() - i,
        {
            let ghost before = self@;
            let name = &names[i];
            proof {
                assert(views.skip(i as int)[0] == name@);
                assert(views.skip(i as int).drop_first() =~= views.skip(i + 1));
            }
            match self.get_tag_name(name) {
                Some(t) => {
                    proof {
                        lemma_find_tag_by_key_some_exists(before.tags, lower_of(name@));
                        let w = choose|w: int|
                            0 <= w < before.tags.len() && #[trigger] before.tags[w]
                                == find_tag_by_key(before.tags, lower_of(name@))->Some_0;
                        assert(before.tags[w].id == t@.id);
                        lemma_find_tag_by_id_some_from_exists(before.tags, t@.id);
                    }
                    if !self.exists_zettel_tag(zid, &t.id) {
                        let res = self.create_zettel_tag(zid, &t.id);
                        proof {
                            match res {
                                Ok(l) => {
                                    assert(self@ == attach_one(before, zid@, name@));
                                },
                                Err(_) => {
                                    assert(false);
                                },
                            }
                        }
                    } else {
                        proof {
                            assert(self@ == attach_one(before, zid@, name@));
                        }
                    }
                },
                None => {
                    let created = self.create_tag(name);
                    match created {
                        Ok(tag) => {
                            let ghost mid = self@;
                            proof {
                                assert(mid.tags == before.tags.push(tag@));
                                lemma_next_tag_id_fresh(before.tags);
                                lemma_next_tag_id_parses(before.tags);
                                lemma_max_tag_num_push(before.tags, tag@);
                                // the fresh id is in the tag table now, last
                                assert(mid.tags[mid.tags.len() - 1].id == tag@.id);
                                lemma_find_tag_by_id_some_from_exists(mid.tags, tag@.id);
                                // no join row can carry the fresh id
                                assert(!has_link(mid.links, zid@, tag@.id)) by {
                                    if has_link(mid.links, zid@, tag@.id) {
                                        let w = choose|w: int|
                                            0 <= w < mid.links.len() && mid.links[w].zettel_id
                                                == zid@ && mid.links[w].tag_id == tag@.id;
                                        assert(tag_id_present(before.tags, tag@.id));
                                        let v = choose|v: int|
                                            0 <= v < before.tags.len() && (
                                            #[trigger] before.tags[v]).id == tag@.id;
                                    }
                                }
                            }
                            let res = self.create_zettel_tag(zid, &tag.id);
                            proof {
                                match res {
                                    Ok(l) => {
                                        assert(self@.tags =~= attach_one(
                                            before,
                                            zid@,
                                            name@,
                                        ).tags);
                                        assert(self@.links =~= attach_one(
                                            before,
                                            zid@,
                                            name@,
                                        ).links);
                                        assert(self@ == attach_one(before, zid@, name@));
                                    },
                                    Err(_) => {
                                        assert(false);
                                    },
                                }
                            }
                        },
                        Err(_) => {
                            proof {
                                assert(max_tag_num(before.tags) + 1 < 1000000000);
                                assert(false);
                            }
                        },
                    }
                },
            }
            proof {
                assert(attach_all(before, zid@, views.skip(i as int)) == attach_all(
                    self@,
                    zid@,
                    views.skip(i + 1),
                ));
            }
            i = i + 1;
        }
        proof {
            assert(views.skip(names@.len() as int) =~= Seq::<Seq<char>>::empty());
        }
    }

    /// Creates a note titled `title` of the given type, stamped with `now`
    /// on both timestamps and identified by the time-derived id, and merges
    /// the given tag names into the store, relating each to the new note.
    /// Fails with `InvalidNoteType` when the type string is not recognized,
    /// and with `StoreFailure` when a note of the same time-derived id
    /// already exists or the tag id space would be exhausted; on failure
    /// nothing changes.
    pub fn create_zettel(
        &mut self,
        title: &str,
        note_type: &str,
        tags_name: &Vec<String>,
        now: Timestamp,
    ) -> (r: Result<Zettel, ZettariumError>)
        requires
            old(self)@.wf(),
            now.valid(),
        ensures
            final(self)@.wf(),
            match r {
                Ok(z) => ({
                    &&& note_type_of_chars(note_type@) == Some(z@.type_)
                    &&& z@.id == now.compact_chars()
                    &&& z@.title == title@
                    &&& z@.created_at == now
                    &&& z@.updated_at == now
                    &&& !z@.archived
                    &&& find_zettel(old(self)@.zettels, now.compact_chars()) is None
                    &&& max_tag_num(old(self)@.tags) + tags_name@.len() < 1000000000
                    &&& final(self)@ == attach_all(
                        StoreModel { zettels: old(self)@.zettels.push(z@), ..old(self)@ },
                        now.compact_chars(),
                        crate::tags::views_of(tags_name@),
                    )
                }),
                Err(e) => final(self)@ == old(self)@ && match e {
                    ZettariumError::InvalidNoteType(s) => note_type_of_chars(note_type@) is None
                        && s@ == note_type@,
                    ZettariumError::StoreFailure => note_type_of_chars(note_type@) is Some && (
                    find_zettel(old(self)@.zettels, now.compact_chars()) is Some || max_tag_num(
                        old(self)@.tags,
                    ) + tags_name@.len() >= 1000000000),
                    _ => false,
                },
            },
    {
        let ghost pre = self@;
        let type_ = match NoteType::parse(note_type) {
            Ok(t) => t,
            Err(e) => {
                return Err(e);
            },
        };
        let id = crate::time::generate_zettel_id(&now);
        if self.position_of_zettel(&id).is_some() {
            return Err(ZettariumError::StoreFailure);
        }
        let m = self.max_tag_num_exec();
        if tags_name.len() >= 1000000000 || m + (tags_name.len() as u64) >= 1000000000 {
            proof {
                assert(max_tag_num(pre.tags) + tags_name@.len() >= 1000000000);
            }
            return Err(ZettariumError::StoreFailure);
        }
        let z = Zettel {
            id,
            title: String::from_str(title),
            type_,
            created_at: now,
            updated_at: now,
            archived: false,
        };
        self.zettels.push(z.duplicate());
        proof {
            assert(self@.zettels =~= pre.zettels.push(z@));
            assert(self@.tags =~= pre.tags);
            assert(self@.links =~= pre.links);
            lemma_push_zettel_wf(pre, self@, z@);
            assert(self@.zettels[self@.zettels.len() - 1].id == z@.id);
            lemma_find_zettel_some_from_exists(self@.zettels, z@.id);
        }
        let zid = z.id.clone();
        self.attach_tags(&zid, tags_name);
        Ok(z)
    }
}

proof fn lemma_push_zettel_wf(pre: StoreModel, post: StoreModel, z: ZettelModel)
    requires
        pre.wf(),
        z.wf(),
        find_zettel(pre.zettels, z.id) is None,
        post.zettels == pre.zettels.push(z),
        post.tags == pre.tags,
        post.links == pre.links,
    ensures
        post.wf(),
{
    assert forall|j: int| 0 <= j < pre.zettels.len() implies (#[trigger] pre.zettels[j]).id
        != z.id by {
        if pre.zettels[j].id == z.id {
            lemma_find_zettel_some_from_exists(pre.zettels, z.id);
        }
    }
    assert forall|i: int, j: int| 0 <= i < j < post.zettels.len() implies (
    #[trigger] post.zettels[i]).id != (#[trigger] post.zettels[j]).id by {
        if j == post.zettels.len() - 1 {
            assert(post.zettels[i] == pre.zettels[i]);
            assert(post.zettels[j] == z);
        }
    }
    assert forall|i: int| 0 <= i < post.zettels.len() implies (#[trigger] post.zettels[i]).wf()
        by {
        if i < post.zettels.len() - 1 {
            assert(post.zettels[i] == pre.zettels[i]);
        } else {
            assert(post.zettels[i] == z);
        }
    }
    assert forall|i: int| 0 <= i < post.links.len() implies zettel_id_present(
        post.zettels,
        (#[trigger] post.links[i]).zettel_id,
    ) by {
        assert(zettel_id_present(pre.zettels, pre.links[i].zettel_id));
        let w = choose|w: int|
            0 <= w < pre.zettels.len() && (#[trigger] pre.zettels[w]).id
                == pre.links[i].zettel_id;
        assert(post.zettels[w] == pre.zettels[w]);
        assert(post.zettels[w].id == post.links[i].zettel_id);
    }
}


// ---------------------------------------------------------------------------
// Updating single records
// ---------------------------------------------------------------------------

/// The update timestamp a record receives: `now`, lifted to the record's
/// creation instant when the clock reports an earlier time, so that a record
/// is never updated before it was created.
pub open spec fn bump_updated(created: Timestamp, now: Timestamp) -> Timestamp {
    if created.le(now) {
        now
    } else {
        created
    }
}

proof fn lemma_update_zettel_wf(pre: StoreModel, post: StoreModel, i: int, z: ZettelModel)
    requires
        pre.wf(),
        0 <= i < pre.zettels.len(),
        z.wf(),
        z.id == pre.zettels[i].id,
        post.zettels == pre.zettels.update(i, z),
        post.tags == pre.tags,
        post.links == pre.links,
    ensures
        post.wf(),
{
    assert(forall|j: int|
        0 <= j < post.zettels.len() ==> (#[trigger] post.zettels[j]).id == pre.zettels[j].id);
    assert forall|a: int, b: int| 0 <= a < b < post.zettels.len() implies (
    #[trigger] post.zettels[a]).id != (#[trigger] post.zettels[b]).id by {
        assert(pre.zettels[a].id != pre.zettels[b].id);
    }
    assert forall|a: int| 0 <= a < post.zettels.len() implies (#[trigger] post.zettels[a]).wf()
        by {
        if a != i {
            assert(post.zettels[a] == pre.zettels[a]);
        }
    }
    assert forall|a: int| 0 <= a < post.links.len() implies zettel_id_present(
        post.zettels,
        (#[trigger] post.links[a]).zettel_id,
    ) by {
        assert(zettel_id_present(pre.zettels, pre.links[a].zettel_id));
        let w = choose|w: int|
            0 <= w < pre.zettels.len() && (#[trigger] pre.zettels[w]).id
                == pre.links[a].zettel_id;
        assert(post.zettels[w].id == post.links[a].zettel_id);
    }
}

impl Store {
    /// Sets the `archived` flag of the note carrying `zettel_id` and hands
    /// back the updated record. Fails fast with `AlreadyArchived` when the
    /// flag is already set — a second call never silently succeeds — and
    /// with `NotFound` when no record matches; on failure nothing changes.
    /// Files are not touched: moving the note's file is the caller's job.
    pub fn archive_zettel(&mut self, zettel_id: &String) -> (r: Result<Zettel, ZettariumError>)
        requires
            old(self)@.wf(),
        ensures
            final(self)@.wf(),
            match r {
                Ok(z) => ({
                    &&& find_zettel(old(self)@.zettels, zettel_id@) is Some
                    &&& ({
                        let pre = find_zettel(old(self)@.zettels, zettel_id@)->Some_0;
                        &&& !pre.archived
                        &&& z@ == ZettelModel { archived: true, ..pre }
                        &&& final(self)@.zettels == old(self)@.zettels.update(
                            zettel_idx(old(self)@.zettels, zettel_id@),
                            z@,
                        )
                    })
                    &&& final(self)@.tags == old(self)@.tags
                    &&& final(self)@.links == old(self)@.links
                }),
                Err(e) => final(self)@ == old(self)@ && match e {
                    ZettariumError::NotFound => find_zettel(old(self)@.zettels, zettel_id@)
                        is None,
                    ZettariumError::AlreadyArchived => find_zettel(old(self)@.zettels, zettel_id@)
                        matches Some(p) && p.archived,
                    _ => false,
                },
            },
    {
        let ghost pre = self@;
        let i = match self.position_of_zettel(zettel_id) {
            Some(i) => i,
            None => {
                return Err(ZettariumError::NotFound);
            },
        };
        if self.zettels[i].archived {
            return Err(ZettariumError::AlreadyArchived);
        }
        let mut z = self.zettels[i].duplicate();
        z.archived = true;
        self.zettels[i] = z.duplicate();
        proof {
            assert(self@.zettels =~= pre.zettels.update(i as int, z@));
            assert(self@.tags =~= pre.tags);
            assert(self@.links =~= pre.links);
            lemma_update_zettel_wf(pre, self@, i as int, z@);
        }
        Ok(z)
    }

    /// Sets only the update timestamp of the note carrying `zettel_id` to
    /// `now` and hands back the updated record, for reflecting an edit made
    /// outside the record store. Fails with `NotFound` when no record
    /// matches; on failure nothing changes.
    pub fn update_zettel_timestamp_only(&mut self, zettel_id: &String, now: Timestamp) -> (r:
        Result<Zettel, ZettariumError>)
        requires
            old(self)@.wf(),
            now.valid(),
        ensures
            final(self)@.wf(),
            match r {
                Ok(z) => ({
                    &&& find_zettel(old(self)@.zettels, zettel_id@) is Some
                    &&& ({
                        let pre = find_zettel(old(self)@.zettels, zettel_id@)->Some_0;
                        &&& z@ == ZettelModel {
                            updated_at: bump_updated(pre.created_at, now),
                            ..pre
                        }
                        &&& final(self)@.zettels == old(self)@.zettels.update(
                            zettel_idx(old(self)@.zettels, zettel_id@),
                            z@,
                        )
                    })
                    &&& final(self)@.tags == old(self)@.tags
                    &&& final(self)@.links == old(self)@.links
                }),
                Err(e) => final(self)@ == old(self)@ && e is NotFound && find_zettel(
                    old(self)@.zettels,
                    zettel_id@,
                ) is None,
            },
    {
        let ghost pre = self@;
        let i = match self.position_of_zettel(zettel_id) {
            Some(i) => i,
            None => {
                return Err(ZettariumError::NotFound);
            },
        };
        let mut z = self.zettels[i].duplicate();
        z.updated_at = if z.created_at.is_before_or_at(&now) {
            now
        } else {
            z.created_at
        };
        self.zettels[i] = z.duplicate();
        proof {
            assert(self@.zettels =~= pre.zettels.update(i as int, z@));
            assert(self@.tags =~= pre.tags);
            assert(self@.links =~= pre.links);
            lemma_update_zettel_wf(pre, self@, i as int, z@);
        }
        Ok(z)
    }

    /// Replaces the title and type of the note carrying `zettel_id`, bumps
    /// its update timestamp to `now`, and merges the given tag names into
    /// its tag set with the same reuse-or-create logic as creation — never
    /// removing existing relations. Fails with `InvalidNoteType` when the
    /// type string is not recognized, with `NotFound` when no record
    /// matches, and with `StoreFailure` when the tag id space would be
    /// exhausted; on failure nothing changes.
    pub fn update_zettel(
        &mut self,
        zettel_id: &String,
        title: &str,
        note_type: &str,
        tags_name: &Vec<String>,
        now: Timestamp,
    ) -> (r: Result<Zettel, ZettariumError>)
        requires
            old(self)@.wf(),
            now.valid(),
        ensures
            final(self)@.wf(),
            match r {
                Ok(z) => ({
                    let pre = find_zettel(old(self)@.zettels, zettel_id@)->Some_0;
                    &&& find_zettel(old(self)@.zettels, zettel_id@) is Some
                    &&& note_type_of_chars(note_type@) == Some(z@.type_)
                    &&& z@ == ZettelModel {
                        title: title@,
                        type_: z@.type_,
                        updated_at: bump_updated(pre.created_at, now),
                        ..pre
                    }
                    &&& z@.wf()
                    &&& max_tag_num(old(self)@.tags) + tags_name@.len() < 1000000000
                    &&& final(self)@ == attach_all(
                        StoreModel {
                            zettels: old(self)@.zettels.update(
                                zettel_idx(old(self)@.zettels, zettel_id@),
                                z@,
                            ),
                            ..old(self)@
                        },
                        zettel_id@,
                        crate::tags::views_of(tags_name@),
                    )
                }),
                Err(e) => final(self)@ == old(self)@ && match e {
                    ZettariumError::InvalidNoteType(s) => note_type_of_chars(note_type@) is None
                        && s@ == note_type@,
                    ZettariumError::NotFound => note_type_of_chars(note_type@) is Some
                        && find_zettel(old(self)@.zettels, zettel_id@) is None,
                    ZettariumError::StoreFailure => note_type_of_chars(note_type@) is Some
                        && find_zettel(old(self)@.zettels, zettel_id@) is Some && max_tag_num(
                        old(self)@.tags,
                    ) + tags_name@.len() >= 1000000000,
                    _ => false,
                },
            },
    {
        let ghost pre = self@;
        let type_ = match NoteType::parse(note_type) {
            Ok(t) => t,
            Err(e) => {
                return Err(e);
            },
        };
        let i = match self.position_of_zettel(zettel_id) {
            Some(i) => i,
            None => {
                return Err(ZettariumError::NotFound);
            },
        };
        let m = self.max_tag_num_exec();
        if tags_name.len() >= 1000000000 || m + (tags_name.len() as u64) >= 1000000000 {
            proof {
                assert(max_tag_num(pre.tags) + tags_name@.len() >= 1000000000);
            }
            return Err(ZettariumError::StoreFailure);
        }
        let mut z = self.zettels[i].duplicate();
        z.title = String::from_str(title);
        z.type_ = type_;
        z.updated_at = if z.created_at.is_before_or_at(&now) {
            now
        } else {
            z.created_at
        };
        self.zettels[i] = z.duplicate();
        proof {
            assert(self@.zettels =~= pre.zettels.update(i as int, z@));
            assert(self@.tags =~= pre.tags);
            assert(self@.links =~= pre.links);
            lemma_update_zettel_wf(pre, self@, i as int, z@);
            assert(self@.zettels[i as int].id == zettel_id@);
            lemma_find_zettel_some_from_exists(self@.zettels, zettel_id@);
        }
        self.attach_tags(zettel_id, tags_name);
        Ok(z)
    }
}


// ---------------------------------------------------------------------------
// Listing and searching
// ---------------------------------------------------------------------------

/// The note `zid` is joined to some tag whose name equals `name` under
/// case-insensitive comparison.
pub open spec fn joined_to_tag_named(m: StoreModel, zid: Seq<char>, name: Seq<char>) -> bool {
    exists|t: int|
        0 <= t < m.tags.len() && lower_of((#[trigger] m.tags[t]).tag_name) == lower_of(name)
            && has_link(m.links, zid, m.tags[t].id)
}

/// The note `zid` is joined to a tag named like at least one entry of
/// `names`.
pub open spec fn matches_any_tag(m: StoreModel, zid: Seq<char>, names: Seq<Seq<char>>) -> bool {
    exists|n: int| 0 <= n < names.len() && joined_to_tag_named(m, zid, #[trigger] names[n])
}

/// The view of an optional borrowed string filter.
pub open spec fn opt_chars(o: Option<&String>) -> Option<Seq<char>> {
    match o {
        Some(s) => Some(s@),
        None => None,
    }
}

/// Whether one note passes the list filters: id equality, type equality
/// against the stored type text, archived-state equality, and — when tag
/// filters are given — a join to at least one tag named like one of them.
pub open spec fn list_pred(
    m: StoreModel,
    z: ZettelModel,
    zettel_id: Option<Seq<char>>,
    note_type: Option<Seq<char>>,
    names: Seq<Seq<char>>,
    archived_only: bool,
) -> bool {
    &&& match zettel_id {
        Some(f) => z.id == f,
        None => true,
    }
    &&& match note_type {
        Some(f) => z.type_.stored_chars() == f,
        None => true,
    }
    &&& z.archived == archived_only
    &&& (names.len() == 0 || matches_any_tag(m, z.id, names))
}

/// What listing returns: the whole note table when `all` is set, else the
/// notes passing the filters, in table order, each note once.
pub open spec fn list_spec(
    m: StoreModel,
    zettel_id: Option<Seq<char>>,
    note_type: Option<Seq<char>>,
    names: Seq<Seq<char>>,
    all: bool,
    archived_only: bool,
) -> Seq<ZettelModel> {
    if all {
        m.zettels
    } else {
        m.zettels.filter(
            |z: ZettelModel| list_pred(m, z, zettel_id, note_type, names, archived_only),
        )
    }
}

/// Whether one note's title contains `keyword`, compared
/// ASCII-case-insensitively.
pub open spec fn title_matches(title: Seq<char>, keyword: Seq<char>) -> bool {
    crate::text::has_match(
        crate::text::ascii_lower_chars(title),
        crate::text::ascii_lower_chars(keyword),
    )
}

impl Store {
    fn matches_any_tag_exec(&self, zid: &String, names: &Vec<String>) -> (b: bool)
        requires
            self@.wf(),
        ensures
            b == matches_any_tag(self@, zid@, crate::tags::views_of(names@)),
    {
        let ghost views = crate::tags::views_of(names@);
        let mut n: usize = 0;
        while n < names.len()
            invariant
                self@.wf(),
                n <= names@.len(),
                views == crate::tags::views_of(names@),
                forall|k: int| 0 <= k < n ==> !joined_to_tag_named(self@, zid@, views[k]),
            decreases names@.len() - n,
        {
            let name = &names[n];
            match self.get_tag_name(name) {
                Some(t) => {
                    proof {
                        lemma_find_tag_by_key_some_exists(self@.tags, lower_of(name@));
                    }
                    if self.exists_zettel_tag(zid, &t.id) {
                        proof {
                            let u = choose|u: int|
                                0 <= u < self@.tags.len() && #[trigger] self@.tags[u]
                                    == find_tag_by_key(self@.tags, lower_of(name@))->Some_0;
                            assert(lower_of(self@.tags[u].tag_name) == lower_of(views[n as int]));
                            assert(has_link(self@.links, zid@, self@.tags[u].id));
                            assert(joined_to_tag_named(self@, zid@, views[n as int]));
                        }
                        return true;
                    }
                    proof {
                        if joined_to_tag_named(self@, zid@, views[n as int]) {
                            let v = choose|v: int|
                                0 <= v < self@.tags.len() && lower_of(
                                    (#[trigger] self@.tags[v]).tag_name,
                                ) == lower_of(views[n as int]) && has_link(
                                    self@.links,
                                    zid@,
                                    self@.tags[v].id,
                                );
                            let u = choose|u: int|
                                0 <= u < self@.tags.len() && #[trigger] self@.tags[u]
                                    == find_tag_by_key(self@.tags, lower_of(name@))->Some_0;
                            if v != u {
                                assert(lower_of(self@.tags[v].tag_name) == lower_of(
                                    self@.tags[u].tag_name,
                                ));
                                assert(false);
                            }
                            assert(self@.tags[v] == t@);
                        }
                    }
                },
                None => {
                    proof {
                        lemma_find_tag_by_key_none_forall(self@.tags, lower_of(name@));
                        if joined_to_tag_named(self@, zid@, views[n as int]) {
                            let v = choose|v: int|
                                0 <= v < self@.tags.len() && lower_of(
                                    (#[trigger] self@.tags[v]).tag_name,
                                ) == lower_of(views[n as int]) && has_link(
                                    self@.links,
                                    zid@,
                                    self@.tags[v].id,
                                );
                        }
                    }
                },
            }
            n = n + 1;
        }
        false
    }

    /// Lists notes. `all` short-circuits every filter and returns the whole
    /// table. Otherwise the filters compose conjunctively: id equality, type
    /// equality against the stored type text, archived-state equality
    /// (`archived_only` selects archived notes, its absence non-archived
    /// ones), and — when `tags_name` is non-empty — a join to at least one
    /// tag named like one of its entries, case-insensitively. Each matching
    /// note appears exactly once, in table order.
    pub fn list_zettels(
        &self,
        zettel_id: Option<&String>,
        note_type: Option<&String>,
        tags_name: &Vec<String>,
        all: bool,
        archived_only: bool,
    ) -> (r: Vec<Zettel>)
        requires
            self@.wf(),
        ensures
            r@.map_values(|z: Zettel| z@) == list_spec(
                self@,
                opt_chars(zettel_id),
                opt_chars(note_type),
                crate::tags::views_of(tags_name@),
                all,
                archived_only,
            ),
    {
        let ghost names = crate::tags::views_of(tags_name@);
        let ghost idf = opt_chars(zettel_id);
        let ghost tyf = opt_chars(note_type);
        let ghost pred = (|z: ZettelModel| list_pred(self@, z, idf, tyf, names, archived_only));
        let mut r: Vec<Zettel> = Vec::new();
        let mut i: usize = 0;
        while i < self.zettels.len()
            invariant
                self@.wf(),
                i <= self.zettels@.len(),
                names == crate::tags::views_of(tags_name@),
                idf == opt_chars(zettel_id),
                tyf == opt_chars(note_type),
                pred == (|z: ZettelModel| list_pred(self@, z, idf, tyf, names, archived_only)),
                r@.map_values(|z: Zettel| z@) == (if all {
                    self@.zettels.take(i as int)
                } else {
                    self@.zettels.take(i as int).filter(pred)
                }),
            decreases self.zettels@.len() - i,
        {
            let ghost tk = self@.zettels.take(i + 1);
            proof {
                reveal(Seq::filter);
                assert(tk.drop_last() =~= self@.zettels.take(i as int));
                assert(tk.last() == self@.zettels[i as int]);
                assert(self@.zettels[i as int] == self.zettels@[i as int]@);
            }
            let z = &self.zettels[i];
            if all {
                r.push(z.duplicate());
                proof {
                    assert(r@.map_values(|z: Zettel| z@) =~= tk);
                }
            } else {
                let id_ok = match zettel_id {
                    Some(f) => z.id.eq(f),
                    None => true,
                };
                let ty_ok = match note_type {
                    Some(f) => {
                        let stored = z.type_.stored_name();
                        stored.eq(f)
                    },
                    None => true,
                };
                let arch_ok = z.archived == archived_only;
                let tags_ok = if tags_name.len() == 0 {
                    true
                } else {
                    self.matches_any_tag_exec(&z.id, tags_name)
                };
                if id_ok && ty_ok && arch_ok && tags_ok {
                    r.push(z.duplicate());
                }
                proof {
                    reveal(Seq::filter);
                    assert((id_ok && ty_ok && arch_ok && tags_ok) == pred(
                        self@.zettels[i as int],
                    ));
                    assert(r@.map_values(|z: Zettel| z@) =~= tk.filter(pred));
                }
            }
            i = i + 1;
        }
        proof {
            assert(self@.zettels.take(self.zettels@.len() as int) =~= self@.zettels);
        }
        r
    }

    /// The notes whose title contains `keyword`, compared
    /// ASCII-case-insensitively, in table order.
    pub fn find_zettel_by_title(&self, keyword: &str) -> (r: Vec<Zettel>)
        requires
            self@.wf(),
        ensures
            r@.map_values(|z: Zettel| z@) == self@.zettels.filter(
                |z: ZettelModel| title_matches(z.title, keyword@),
            ),
    {
        let ghost pred = (|z: ZettelModel| title_matches(z.title, keyword@));
        let kw = crate::text::to_ascii_lower(&crate::text::str_chars(keyword));
        let mut r: Vec<Zettel> = Vec::new();
        let mut i: usize = 0;
        while i < self.zettels.len()
            invariant
                i <= self.zettels@.len(),
                kw@ == crate::text::ascii_lower_chars(keyword@),
                pred == (|z: ZettelModel| title_matches(z.title, keyword@)),
                r@.map_values(|z: Zettel| z@) == self@.zettels.take(i as int).filter(pred),
            decreases self.zettels@.len() - i,
        {
            let ghost tk = self@.zettels.take(i + 1);
            proof {
                reveal(Seq::filter);
                assert(tk.drop_last() =~= self@.zettels.take(i as int));
                assert(tk.last() == self@.zettels[i as int]);
                assert(self@.zettels[i as int] == self.zettels@[i as int]@);
            }
            let z = &self.zettels[i];
            let title_low = crate::text::to_ascii_lower(&crate::text::str_chars(z.title.as_str()));
            if crate::text::contains_chars(&title_low, &kw) {
                r.push(z.duplicate());
            }
            proof {
                reveal(Seq::filter);
                assert(r@.map_values(|z: Zettel| z@) =~= tk.filter(pred));
            }
            i = i + 1;
        }
        proof {
            assert(self@.zettels.take(self.zettels@.len() as int) =~= self@.zettels);
        }
        r
    }
}


// ---------------------------------------------------------------------------
// Laws of the store
// ---------------------------------------------------------------------------

proof fn lemma_find_zettel_none_forall(zs: Seq<ZettelModel>, id: Seq<char>)
    requires
        find_zettel(zs, id) is None,
    ensures
        forall|j: int| 0 <= j < zs.len() ==> (#[trigger] zs[j]).id != id,
    decreases zs.len(),
{
    if zs.len() > 0 {
        lemma_find_zettel_none_forall(zs.drop_first(), id);
        assert forall|j: int| 0 <= j < zs.len() implies (#[trigger] zs[j]).id != id by {
            if j > 0 {
                assert(zs.drop_first()[j - 1] == zs[j]);
            }
        }
    }
}

proof fn lemma_find_tag_by_id_none_forall(ts: Seq<TagModel>, id: Seq<char>)
    requires
        find_tag_by_id(ts, id) is None,
    ensures
        forall|j: int| 0 <= j < ts.len() ==> (#[trigger] ts[j]).id != id,
    decreases ts.len(),
{
    if ts.len() > 0 {
        lemma_find_tag_by_id_none_forall(ts.drop_first(), id);
        assert forall|j: int| 0 <= j < ts.len() implies (#[trigger] ts[j]).id != id by {
            if j > 0 {
                assert(ts.drop_first()[j - 1] == ts[j]);
            }
        }
    }
}

proof fn lemma_attach_one_zettels(m: StoreModel, zid: Seq<char>, name: Seq<char>)
    ensures
        attach_one(m, zid, name).zettels == m.zettels,
{
}

proof fn lemma_attach_all_zettels(m: StoreModel, zid: Seq<char>, names: Seq<Seq<char>>)
    ensures
        attach_all(m, zid, names).zettels == m.zettels,
    decreases names.len(),
{
    if names.len() > 0 {
        lemma_attach_one_zettels(m, zid, names[0]);
        lemma_attach_all_zettels(attach_one(m, zid, names[0]), zid, names.drop_first());
    }
}

/// Creation is immediately visible: in the store a successful
/// `create_zettel` leaves behind, looking the new record up by its id finds
/// exactly it — not archived, created and updated at the same instant.
pub proof fn lemma_create_then_exists(m: StoreModel, z: ZettelModel, names: Seq<Seq<char>>)
    requires
        find_zettel(m.zettels, z.id) is None,
        !z.archived,
        z.created_at == z.updated_at,
    ensures
        ({
            let after = attach_all(
                StoreModel { zettels: m.zettels.push(z), ..m },
                z.id,
                names,
            );
            &&& find_zettel(after.zettels, z.id) == Some(z)
            &&& find_zettel(after.zettels, z.id)->Some_0.archived == false
            &&& find_zettel(after.zettels, z.id)->Some_0.created_at == find_zettel(
                after.zettels,
                z.id,
            )->Some_0.updated_at
            &&& list_spec(after, None, None, Seq::empty(), false, false).contains(z)
        }),
{
    broadcast use vstd::seq_lib::group_filter_ensures;

    let pushed = StoreModel { zettels: m.zettels.push(z), ..m };
    lemma_attach_all_zettels(pushed, z.id, names);
    lemma_find_zettel_none_forall(m.zettels, z.id);
    assert forall|j: int| 0 <= j < m.zettels.len() implies (#[trigger] pushed.zettels[j]).id
        != z.id by {
        assert(pushed.zettels[j] == m.zettels[j]);
    }
    assert(pushed.zettels[m.zettels.len() as int] == z);
    lemma_find_zettel_at(pushed.zettels, z.id, m.zettels.len() as int);
    let after = attach_all(pushed, z.id, names);
    let pred = (|w: ZettelModel| list_pred(after, w, None, None, Seq::empty(), false));
    assert(pred(after.zettels[m.zettels.len() as int]));
    after.zettels.lemma_filter_contains(pred, m.zettels.len() as int);
}

/// Archiving is idempotent-detecting: in the store a successful
/// `archive_zettel` leaves behind, the same record is found with its
/// `archived` flag set, so a second `archive_zettel` on the same id reports
/// `AlreadyArchived` by that operation's contract rather than silently
/// succeeding.
pub proof fn lemma_archive_then_already_archived(m: StoreModel, zettel_id: Seq<char>)
    requires
        m.wf(),
        find_zettel(m.zettels, zettel_id) is Some,
        !find_zettel(m.zettels, zettel_id)->Some_0.archived,
    ensures
        ({
            let z2 = ZettelModel { archived: true, ..find_zettel(m.zettels, zettel_id)->Some_0 };
            let after = m.zettels.update(zettel_idx(m.zettels, zettel_id), z2);
            &&& find_zettel(after, zettel_id) is Some
            &&& find_zettel(after, zettel_id)->Some_0.archived
        }),
{
    lemma_find_zettel_some(m.zettels, zettel_id);
    let i = zettel_idx(m.zettels, zettel_id);
    let z2 = ZettelModel { archived: true, ..find_zettel(m.zettels, zettel_id)->Some_0 };
    let after = m.zettels.update(i, z2);
    assert(after[i] == z2);
    assert forall|j: int| 0 <= j < i implies (#[trigger] after[j]).id != zettel_id by {
        assert(after[j] == m.zettels[j]);
    }
    lemma_find_zettel_at(after, zettel_id, i);
}

/// After archiving, the archived record is listed among the archived notes
/// and no record with its id is listed among the active ones.
pub proof fn lemma_archive_moves_listing(m: StoreModel, zettel_id: Seq<char>)
    requires
        m.wf(),
        find_zettel(m.zettels, zettel_id) is Some,
        !find_zettel(m.zettels, zettel_id)->Some_0.archived,
    ensures
        ({
            let z2 = ZettelModel { archived: true, ..find_zettel(m.zettels, zettel_id)->Some_0 };
            let after = StoreModel {
                zettels: m.zettels.update(zettel_idx(m.zettels, zettel_id), z2),
                ..m
            };
            &&& list_spec(after, None, None, Seq::empty(), false, true).contains(z2)
            &&& forall|w: ZettelModel|
                list_spec(after, None, None, Seq::empty(), false, false).contains(w) ==> w.id
                    != zettel_id
        }),
{
    broadcast use vstd::seq_lib::group_filter_ensures;

    lemma_find_zettel_some(m.zettels, zettel_id);
    let i = zettel_idx(m.zettels, zettel_id);
    let z2 = ZettelModel { archived: true, ..find_zettel(m.zettels, zettel_id)->Some_0 };
    let after = StoreModel { zettels: m.zettels.update(i, z2), ..m };
    lemma_update_zettel_wf(m, after, i, z2);
    let archived_pred = (|w: ZettelModel| list_pred(after, w, None, None, Seq::empty(), true));
    assert(after.zettels[i] == z2);
    assert(archived_pred(after.zettels[i]));
    after.zettels.lemma_filter_contains(archived_pred, i);
    let active_pred = (|w: ZettelModel| list_pred(after, w, None, None, Seq::empty(), false));
    let active = after.zettels.filter(active_pred);
    assert forall|w: ZettelModel| active.contains(w) implies w.id != zettel_id by {
        let k = choose|k: int| 0 <= k < active.len() && active[k] == w;
        after.zettels.lemma_filter_pred(active_pred, k);
        lemma_filter_elt_membership_zettels(after.zettels, active_pred, k);
        let j = choose|j: int|
            0 <= j < after.zettels.len() && #[trigger] after.zettels[j] == active[k];
        if w.id == zettel_id {
            if j != i {
                assert(after.zettels[j].id != after.zettels[i].id);
            }
            assert(w == z2);
        }
    }
}

/// Listing by one tag name returns exactly the non-archived notes joined to
/// a tag of that name under case-insensitive comparison — and each such
/// note exactly once: the returned records carry pairwise distinct ids.
pub proof fn lemma_list_by_tag(m: StoreModel, name: Seq<char>)
    requires
        m.wf(),
    ensures
        forall|z: ZettelModel|
            list_spec(m, None, None, seq![name], false, false).contains(z) <==> (
            m.zettels.contains(z) && !z.archived && joined_to_tag_named(m, z.id, name)),
        forall|i: int, j: int|
            0 <= i < j < list_spec(m, None, None, seq![name], false, false).len() ==> list_spec(
                m,
                None,
                None,
                seq![name],
                false,
                false,
            )[i].id != list_spec(m, None, None, seq![name], false, false)[j].id,
{
    let names = seq![name];
    let pred = (|z: ZettelModel| list_pred(m, z, None, None, names, false));
    let r = list_spec(m, None, None, names, false, false);
    assert(r == m.zettels.filter(pred));
    lemma_filter_keeps_distinct_zettels(m.zettels, pred);
    assert forall|z: ZettelModel| r.contains(z) implies (m.zettels.contains(z) && !z.archived
        && joined_to_tag_named(m, z.id, name)) by {
        let i = choose|i: int| 0 <= i < r.len() && r[i] == z;
        m.zettels.lemma_filter_pred(pred, i);
        lemma_filter_elt_membership_zettels(m.zettels, pred, i);
        let j = choose|j: int| 0 <= j < m.zettels.len() && #[trigger] m.zettels[j] == r[i];
        assert(m.zettels.contains(z));
        assert(pred(z));
        assert(matches_any_tag(m, z.id, names));
        let n = choose|n: int|
            0 <= n < names.len() && joined_to_tag_named(m, z.id, #[trigger] names[n]);
        assert(names[n] == name);
    }
    assert forall|z: ZettelModel| (m.zettels.contains(z) && !z.archived && joined_to_tag_named(
        m,
        z.id,
        name,
    )) implies r.contains(z) by {
        let j = choose|j: int| 0 <= j < m.zettels.len() && m.zettels[j] == z;
        assert(names[0] == name);
        assert(matches_any_tag(m, z.id, names));
        assert(pred(m.zettels[j]));
        m.zettels.lemma_filter_contains(pred, j);
    }
}


// ---------------------------------------------------------------------------
// Validating a freshly loaded store
// ---------------------------------------------------------------------------

proof fn lemma_max_tag_num_from_bounds(ts: Seq<TagModel>)
    requires
        forall|i: int|
            0 <= i < ts.len() ==> (match tag_num_of((#[trigger] ts[i]).id) {
                Some(n) => n < 1000000000,
                None => true,
            }),
    ensures
        max_tag_num(ts) < 1000000000,
    decreases ts.len(),
{
    if ts.len() > 0 {
        assert(forall|i: int| 0 <= i < ts.len() - 1 ==> ts.drop_last()[i] == ts[i]);
        lemma_max_tag_num_from_bounds(ts.drop_last());
        assert(ts[ts.len() - 1] == ts.last());
    }
}

impl Store {
    /// Whether a tag id, if it is a store-generated one, carries a number
    /// below the id-space ceiling.
    fn tag_num_below_ceiling(id: &String) -> (b: bool)
        ensures
            b == (match tag_num_of(id@) {
                Some(n) => n < 1000000000,
                None => true,
            }),
    {
        let chars = crate::text::str_chars(id.as_str());
        let n = chars.len();
        if n < 3 {
            return true;
        }
        if chars[0] != 't' || chars[1] != '-' {
            return true;
        }
        let mut i: usize = 2;
        while i < n
            invariant
                2 <= i <= n,
                n == chars@.len(),
                chars@ == id@,
                forall|j: int| 2 <= j < i ==> is_digit(#[trigger] chars@[j]),
            decreases n - i,
        {
            let ch = chars[i];
            if ch < '0' || ch > '9' {
                proof {
                    assert(!is_digit(id@[i as int]));
                    assert(id@.subrange(2, n as int)[i - 2] == id@[i as int]);
                    assert(!all_digits(id@.subrange(2, n as int)));
                }
                return true;
            }
            i = i + 1;
        }
        let ghost digits = id@.subrange(2, n as int);
        proof {
            assert forall|j: int| 0 <= j < digits.len() implies is_digit(#[trigger] digits[j]) by {
                assert(digits[j] == id@[j + 2]);
            }
            assert(tag_num_of(id@) == Some(digits_val(digits)));
        }
        let mut val: u64 = 0;
        let mut k: usize = 2;
        while k < n
            invariant
                2 <= k <= n,
                n == chars@.len(),
                chars@ == id@,
                digits == id@.subrange(2, n as int),
                all_digits(digits),
                tag_num_of(id@) == Some(digits_val(digits)),
                val as nat == digits_val(id@.subrange(2, k as int)),
                val < 1000000000,
            decreases n - k,
        {
            let ghost prefix2 = id@.subrange(2, k + 1);
            proof {
                assert(prefix2.drop_last() =~= id@.subrange(2, k as int));
                assert(prefix2.last() == id@[k as int]);
                assert(prefix2 =~= digits.take(k + 1 - 2));
                assert(is_digit(id@[k as int]));
            }
            let ch = chars[k];
            proof {
                assert(ch == digits[k - 2]);
            }
            val = val * 10 + ((ch as u8) as u64 - 48);
            k = k + 1;
            if val >= 1000000000 {
                proof {
                    let done = id@.subrange(2, k as int);
                    assert(done.drop_last() =~= id@.subrange(2, k as int - 1));
                    assert(done.last() == id@[k as int - 1]);
                    assert(val as nat == digits_val(done));
                    lemma_digits_val_take_le(digits, k as int - 2);
                    assert(done =~= digits.take(k as int - 2));
                    assert(digits_val(digits) >= 1000000000);
                }
                return false;
            }
        }
        proof {
            assert(id@.subrange(2, n as int) =~= digits);
        }
        true
    }

    /// Checks a freshly loaded store against the store invariant: unique
    /// note ids, well-formed timestamps, unique tag ids and
    /// case-insensitively unique tag names, unique join pairs that refer
    /// only to existing notes and tags, and a tag id space below its
    /// ceiling. It answers `true` exactly when the invariant holds; every
    /// operation of the store may then be called.
    pub fn validate(&self) -> (b: bool)
        ensures
            b == self@.wf(),
    {
        // note ids pairwise distinct, records well formed
        let zn = self.zettels.len();
        let mut i: usize = 0;
        while i < zn
            invariant
                zn == self.zettels@.len(),
                i <= zn,
                forall|a: int, b: int|
                    0 <= a < b < i ==> (#[trigger] self@.zettels[a]).id != (
                    #[trigger] self@.zettels[b]).id,
                forall|a: int| 0 <= a < i ==> (#[trigger] self@.zettels[a]).wf(),
            decreases zn - i,
        {
            let z = &self.zettels[i];
            proof {
                assert(self@.zettels[i as int] == self.zettels@[i as int]@);
            }
            let t1 = z.created_at;
            let t2 = z.updated_at;
            let t1_ok = t1.year <= 9999 && 1 <= t1.month && t1.month <= 12 && 1 <= t1.day
                && t1.day <= 31 && t1.hour < 24 && t1.minute < 60 && t1.second < 60;
            let t2_ok = t2.year <= 9999 && 1 <= t2.month && t2.month <= 12 && 1 <= t2.day
                && t2.day <= 31 && t2.hour < 24 && t2.minute < 60 && t2.second < 60;
            if !(t1_ok && t2_ok && t1.is_before_or_at(&t2)) {
                proof {
                    assert(!self@.zettels[i as int].wf());
                }
                return false;
            }
            let mut j: usize = 0;
            while j < i
                invariant
                    i < zn == self.zettels@.len(),
                    j <= i,
                    forall|a: int|
                        0 <= a < j ==> (#[trigger] self@.zettels[a]).id != self@.zettels[i as int].id,
                decreases i - j,
            {
                proof {
                    assert(self@.zettels[j as int] == self.zettels@[j as int]@);
                }
                if self.zettels[j].id.eq(&self.zettels[i].id) {
                    proof {
                        assert(self@.zettels[j as int].id == self@.zettels[i as int].id);
                    }
                    return false;
                }
                j = j + 1;
            }
            i = i + 1;
        }
        // tag ids and case-folded names pairwise distinct, ids below ceiling
        let tn = self.tags.len();
        let mut i2: usize = 0;
        while i2 < tn
            invariant
                tn == self.tags@.len(),
                i2 <= tn,
                forall|a: int, b: int|
                    0 <= a < b < i2 ==> (#[trigger] self@.tags[a]).id != (#[trigger] self@.tags[b]).id,
                forall|a: int, b: int|
                    0 <= a < b < i2 ==> lower_of((#[trigger] self@.tags[a]).tag_name) != lower_of(
                        (#[trigger] self@.tags[b]).tag_name,
                    ),
                forall|a: int|
                    0 <= a < i2 ==> (match tag_num_of((#[trigger] self@.tags[a]).id) {
                        Some(n) => n < 1000000000,
                        None => true,
                    }),
            decreases tn - i2,
        {
            proof {
                assert(self@.tags[i2 as int] == self.tags@[i2 as int]@);
            }
            if !Self::tag_num_below_ceiling(&self.tags[i2].id) {
                proof {
                    lemma_tag_num_le_max(self@.tags, i2 as int);
                    assert(max_tag_num(self@.tags) >= 1000000000);
                }
                return false;
            }
            let key_i = lowercase(self.tags[i2].tag_name.as_str());
            let mut j: usize = 0;
            while j < i2
                invariant
                    i2 < tn == self.tags@.len(),
                    j <= i2,
                    key_i@ == lower_of(self@.tags[i2 as int].tag_name),
                    forall|a: int|
                        0 <= a < j ==> (#[trigger] self@.tags[a]).id != self@.tags[i2 as int].id,
                    forall|a: int|
                        0 <= a < j ==> lower_of((#[trigger] self@.tags[a]).tag_name) != lower_of(
                            self@.tags[i2 as int].tag_name,
                        ),
                decreases i2 - j,
            {
                proof {
                    assert(self@.tags[j as int] == self.tags@[j as int]@);
                }
                if self.tags[j].id.eq(&self.tags[i2].id) {
                    proof {
                        assert(self@.tags[j as int].id == self@.tags[i2 as int].id);
                    }
                    return false;
                }
                let key_j = lowercase(self.tags[j].tag_name.as_str());
                if key_j.eq(&key_i) {
                    proof {
                        assert(lower_of(self@.tags[j as int].tag_name) == lower_of(
                            self@.tags[i2 as int].tag_name,
                        ));
                    }
                    return false;
                }
                j = j + 1;
            }
            i2 = i2 + 1;
        }
        proof {
            lemma_max_tag_num_from_bounds(self@.tags);
        }
        // join rows: unique pairs over existing notes and tags
        let ln = self.zettel_tags.len();
        let mut i3: usize = 0;
        while i3 < ln
            invariant
                ln == self.zettel_tags@.len(),
                i3 <= ln,
                forall|a: int, b: int|
                    0 <= a < b < i3 ==> !((#[trigger] self@.links[a]).zettel_id == (
                    #[trigger] self@.links[b]).zettel_id && self@.links[a].tag_id == self@.links[b].tag_id),
                forall|a: int|
                    0 <= a < i3 ==> zettel_id_present(
                        self@.zettels,
                        (#[trigger] self@.links[a]).zettel_id,
                    ),
                forall|a: int|
                    0 <= a < i3 ==> tag_id_present(self@.tags, (#[trigger] self@.links[a]).tag_id),
            decreases ln - i3,
        {
            proof {
                assert(self@.links[i3 as int] == self.zettel_tags@[i3 as int]@);
            }
            if self.position_of_zettel(&self.zettel_tags[i3].zettel_id).is_none() {
                proof {
                    lemma_find_zettel_none_forall(self@.zettels, self@.links[i3 as int].zettel_id);
                    assert(!zettel_id_present(self@.zettels, self@.links[i3 as int].zettel_id)) by {
                        if zettel_id_present(self@.zettels, self@.links[i3 as int].zettel_id) {
                            let w = choose|w: int|
                                0 <= w < self@.zettels.len() && (#[trigger] self@.zettels[w]).id
                                    == self@.links[i3 as int].zettel_id;
                        }
                    }
                }
                return false;
            }
            proof {
                lemma_find_zettel_some(self@.zettels, self@.links[i3 as int].zettel_id);
            }
            if self.tag_with_id(&self.zettel_tags[i3].tag_id).is_none() {
                proof {
                    lemma_find_tag_by_id_none_forall(self@.tags, self@.links[i3 as int].tag_id);
                    assert(!tag_id_present(self@.tags, self@.links[i3 as int].tag_id)) by {
                        if tag_id_present(self@.tags, self@.links[i3 as int].tag_id) {
                            let w = choose|w: int|
                                0 <= w < self@.tags.len() && (#[trigger] self@.tags[w]).id
                                    == self@.links[i3 as int].tag_id;
                        }
                    }
                }
                return false;
            }
            proof {
                lemma_find_tag_by_id_some_exists(self@.tags, self@.links[i3 as int].tag_id);
            }
            let mut j: usize = 0;
            while j < i3
                invariant
                    i3 < ln == self.zettel_tags@.len(),
                    j <= i3,
                    forall|a: int|
                        0 <= a < j ==> !((#[trigger] self@.links[a]).zettel_id
                            == self@.links[i3 as int].zettel_id && self@.links[a].tag_id
                            == self@.links[i3 as int].tag_id),
                decreases i3 - j,
            {
                proof {
                    assert(self@.links[j as int] == self.zettel_tags@[j as int]@);
                }
                if self.zettel_tags[j].zettel_id.eq(&self.zettel_tags[i3].zettel_id)
                    && self.zettel_tags[j].tag_id.eq(&self.zettel_tags[i3].tag_id) {
                    proof {
                        assert(self@.links[j as int].zettel_id == self@.links[i3 as int].zettel_id
                            && self@.links[j as int].tag_id == self@.links[i3 as int].tag_id);
                    }
                    return false;
                }
                j = j + 1;
            }
            i3 = i3 + 1;
        }
        true
    }
}

} // verus!
