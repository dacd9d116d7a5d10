use vstd::prelude::*;
use crate::text::{lower_of, lowercase};

verus! {

/// The views of a sequence of strings.
pub open spec fn views_of(v: Seq<String>) -> Seq<Seq<char>> {
    v.map_values(|t: String| t@)
}

/// Some entry of `s` folds to the key `k` under case-insensitive comparison.
pub open spec fn has_tag_key(s: Seq<Seq<char>>, k: Seq<char>) -> bool {
    exists|i: int| 0 <= i < s.len() && lower_of(s[i]) == k
}

/// The tag list with case-insensitive duplicates removed: the first
/// occurrence of each key is kept, in its original casing and position.
pub open spec fn dedup_tags(s: Seq<Seq<char>>) -> Seq<Seq<char>>
    decreases s.len(),
{
    if s.len() == 0 {
        Seq::empty()
    } else {
        let kept = dedup_tags(s.drop_last());
        if has_tag_key(s.drop_last(), lower_of(s.last())) {
            kept
        } else {
            kept.push(s.last())
        }
    }
}

/// The entries that deduplication discards: every occurrence whose key was
/// already seen earlier in the list, in order, as the entries appeared.
pub open spec fn discarded_tags(s: Seq<Seq<char>>) -> Seq<Seq<char>>
    decreases s.len(),
{
    if s.len() == 0 {
        Seq::empty()
    } else {
        let dropped = discarded_tags(s.drop_last());
        if has_tag_key(s.drop_last(), lower_of(s.last())) {
            dropped.push(s.last())
        } else {
            dropped
        }
    }
}

/// The position of the first entry of `s` that folds to key `k`.
pub open spec fn first_key_idx(s: Seq<Seq<char>>, k: Seq<char>) -> int
    decreases s.len(),
{
    if s.len() == 0 {
        0
    } else if lower_of(s[0]) == k {
        0
    } else {
        1 + first_key_idx(s.drop_first(), k)
    }
}

proof fn lemma_has_tag_key_push(s: Seq<Seq<char>>, x: Seq<char>, k: Seq<char>)
    ensures
        has_tag_key(s.push(x), k) <==> (has_tag_key(s, k) || lower_of(x) == k),
{
    if has_tag_key(s, k) {
        let i = choose|i: int| 0 <= i < s.len() && lower_of(s[i]) == k;
        assert(s.push(x)[i] == s[i]);
        assert(has_tag_key(s.push(x), k));
    }
    if lower_of(x) == k {
        assert(s.push(x)[s.len() as int] == x);
        assert(has_tag_key(s.push(x), k));
    }
    if has_tag_key(s.push(x), k) {
        let i = choose|i: int| 0 <= i < s.push(x).len() && lower_of(s.push(x)[i]) == k;
        if i < s.len() {
            assert(s.push(x)[i] == s[i]);
            assert(has_tag_key(s, k));
        } else {
            assert(s.push(x)[i] == x);
        }
    }
}

proof fn lemma_first_key_idx(s: Seq<Seq<char>>, k: Seq<char>)
    requires
        has_tag_key(s, k),
    ensures
        0 <= first_key_idx(s, k) < s.len(),
        lower_of(s[first_key_idx(s, k)]) == k,
        forall|l: int| 0 <= l < first_key_idx(s, k) ==> lower_of(s[l]) != k,
    decreases s.len(),
{
    if lower_of(s[0]) == k {
    } else {
        let rest = s.drop_first();
        assert(has_tag_key(rest, k)) by {
            let i = choose|i: int| 0 <= i < s.len() && lower_of(s[i]) == k;
            assert(rest[i - 1] == s[i]);
        }
        lemma_first_key_idx(rest, k);
        let fi = first_key_idx(rest, k);
        assert(s[1 + fi] == rest[fi]);
        assert forall|l: int| 0 <= l < 1 + fi implies lower_of(s[l]) != k by {
            if l > 0 {
                assert(rest[l - 1] == s[l]);
            }
        }
    }
}

proof fn lemma_first_key_idx_push_present(s: Seq<Seq<char>>, x: Seq<char>, k: Seq<char>)
    requires
        has_tag_key(s, k),
    ensures
        first_key_idx(s.push(x), k) == first_key_idx(s, k),
    decreases s.len(),
{
    if s.len() == 0 {
        assert(false);
    } else if lower_of(s[0]) == k {
        assert(s.push(x)[0] == s[0]);
    } else {
        assert(s.push(x)[0] == s[0]);
        let rest = s.drop_first();
        assert(has_tag_key(rest, k)) by {
            let i = choose|i: int| 0 <= i < s.len() && lower_of(s[i]) == k;
            assert(rest[i - 1] == s[i]);
        }
        lemma_first_key_idx_push_present(rest, x, k);
        assert(s.push(x).drop_first() =~= rest.push(x));
    }
}

proof fn lemma_first_key_idx_push_fresh(s: Seq<Seq<char>>, x: Seq<char>, k: Seq<char>)
    requires
        !has_tag_key(s, k),
        lower_of(x) == k,
    ensures
        first_key_idx(s.push(x), k) == s.len(),
    decreases s.len(),
{
    if s.len() == 0 {
    } else {
        assert(s.push(x)[0] == s[0]);
        assert(lower_of(s[0]) != k);
        let rest = s.drop_first();
        assert(!has_tag_key(rest, k)) by {
            if has_tag_key(rest, k) {
                let i = choose|i: int| 0 <= i < rest.len() && lower_of(rest[i]) == k;
                assert(s[i + 1] == rest[i]);
            }
        }
        lemma_first_key_idx_push_fresh(rest, x, k);
        assert(s.push(x).drop_first() =~= rest.push(x));
    }
}

/// Normalization, stated of the deduplicated list `d = dedup_tags(s)`:
/// no two entries of `d` are equal under case-insensitive comparison; `d`
/// carries exactly the keys of `s`; each entry of `d` is the first entry of
/// `s` with its key, casing included; and `d` lists them in the order of
/// their first occurrences in `s`.
pub proof fn lemma_dedup_tags_normalizes(s: Seq<Seq<char>>)
    ensures
        forall|i: int, j: int|
            0 <= i < j < dedup_tags(s).len() ==> lower_of(dedup_tags(s)[i]) != lower_of(
                dedup_tags(s)[j],
            ),
        forall|k: Seq<char>| has_tag_key(dedup_tags(s), k) <==> has_tag_key(s, k),
        forall|i: int|
            0 <= i < dedup_tags(s).len() ==> 0 <= first_key_idx(
                s,
                lower_of(#[trigger] dedup_tags(s)[i]),
            ) < s.len() && s[first_key_idx(s, lower_of(dedup_tags(s)[i]))] == dedup_tags(s)[i],
        forall|i: int, j: int|
            0 <= i < j < dedup_tags(s).len() ==> first_key_idx(s, lower_of(dedup_tags(s)[i]))
                < first_key_idx(s, lower_of(dedup_tags(s)[j])),
        dedup_tags(s).len() <= s.len(),
    decreases s.len(),
{
    if s.len() == 0 {
    } else {
        let s0 = s.drop_last();
        let x = s.last();
        let kx = lower_of(x);
        lemma_dedup_tags_normalizes(s0);
        let d0 = dedup_tags(s0);
        let d = dedup_tags(s);
        assert(s0.push(x) =~= s);
        assert forall|k: Seq<char>| has_tag_key(s, k) <==> (has_tag_key(s0, k) || lower_of(x)
            == k) by {
            lemma_has_tag_key_push(s0, x, k);
        }
        if has_tag_key(s0, kx) {
            assert(d == d0);
            assert forall|i: int| 0 <= i < d.len() implies 0 <= first_key_idx(
                s,
                lower_of(#[trigger] d[i]),
            ) < s.len() && s[first_key_idx(s, lower_of(d[i]))] == d[i] by {
                let ki = lower_of(d[i]);
                assert(has_tag_key(d0, ki));
                lemma_first_key_idx_push_present(s0, x, ki);
                assert(s[first_key_idx(s0, ki)] == s0[first_key_idx(s0, ki)]);
            }
            assert forall|i: int, j: int| 0 <= i < j < d.len() implies first_key_idx(
                s,
                lower_of(d[i]),
            ) < first_key_idx(s, lower_of(d[j])) by {
                assert(has_tag_key(d0, lower_of(d[i])));
                assert(has_tag_key(d0, lower_of(d[j])));
                lemma_first_key_idx_push_present(s0, x, lower_of(d[i]));
                lemma_first_key_idx_push_present(s0, x, lower_of(d[j]));
            }
        } else {
            assert(d == d0.push(x));
            assert forall|i: int, j: int| 0 <= i < j < d.len() implies lower_of(d[i]) != lower_of(
                d[j],
            ) by {
                if j == d.len() - 1 {
                    assert(d[j] == x);
                    assert(d[i] == d0[i]);
                    assert(has_tag_key(d0, lower_of(d0[i])));
                } else {
                    assert(d[i] == d0[i] && d[j] == d0[j]);
                }
            }
            assert forall|k: Seq<char>| has_tag_key(d, k) <==> has_tag_key(s, k) by {
                lemma_has_tag_key_push(d0, x, k);
            }
            assert forall|i: int| 0 <= i < d.len() implies 0 <= first_key_idx(
                s,
                lower_of(#[trigger] d[i]),
            ) < s.len() && s[first_key_idx(s, lower_of(d[i]))] == d[i] by {
                if i == d.len() - 1 {
                    assert(d[i] == x);
                    lemma_first_key_idx_push_fresh(s0, x, kx);
                    assert(s[s0.len() as int] == x);
                } else {
                    assert(d[i] == d0[i]);
                    let ki = lower_of(d0[i]);
                    lemma_first_key_idx_push_present(s0, x, ki);
                    assert(s[first_key_idx(s0, ki)] == s0[first_key_idx(s0, ki)]);
                }
            }
            assert forall|i: int, j: int| 0 <= i < j < d.len() implies first_key_idx(
                s,
                lower_of(d[i]),
            ) < first_key_idx(s, lower_of(d[j])) by {
                if j == d.len() - 1 {
                    assert(d[i] == d0[i]);
                    let ki = lower_of(d0[i]);
                    lemma_first_key_idx_push_present(s0, x, ki);
                    lemma_first_key_idx_push_fresh(s0, x, kx);
                } else {
                    assert(d[i] == d0[i] && d[j] == d0[j]);
                    lemma_first_key_idx_push_present(s0, x, lower_of(d0[i]));
                    lemma_first_key_idx_push_present(s0, x, lower_of(d0[j]));
                }
            }
        }
    }
}

/// Keys survive deduplication: the deduplicated list folds to a key exactly
/// when the input does.
pub proof fn lemma_dedup_tags_keys(s: Seq<Seq<char>>, k: Seq<char>)
    ensures
        has_tag_key(dedup_tags(s), k) <==> has_tag_key(s, k),
{
    lemma_dedup_tags_normalizes(s);
}

fn key_seen(keys: &Vec<String>, low: &String) -> (b: bool)
    ensures
        b == exists|i: int| 0 <= i < keys@.len() && keys@[i]@ == low@,
{
    let mut i: usize = 0;
    while i < keys.len()
        invariant
            i <= keys@.len(),
            forall|j: int| 0 <= j < i ==> keys@[j]@ != low@,
        decreases keys@.len() - i,
    {
        if low.eq(&keys[i]) {
            return true;
        }
        i = i + 1;
    }
    false
}

/// Removes case-insensitive duplicates from a tag list — first occurrence
/// wins, its casing is kept — and also returns the discarded occurrences,
/// in order, for the caller's warning channel.
pub fn dedup_with_discards(tags: Vec<String>) -> (r: (Vec<String>, Vec<String>))
    ensures
        views_of(r.0@) == dedup_tags(views_of(tags@)),
        views_of(r.1@) == discarded_tags(views_of(tags@)),
{
    let mut kept: Vec<String> = Vec::new();
    let mut dropped: Vec<String> = Vec::new();
    let mut keys: Vec<String> = Vec::new();
    let mut i: usize = 0;
    while i < tags.len()
        invariant
            i <= tags@.len(),
            views_of(kept@) == dedup_tags(views_of(tags@.take(i as int))),
            views_of(dropped@) == discarded_tags(views_of(tags@.take(i as int))),
            keys@.len() == kept@.len(),
            forall|j: int| 0 <= j < keys@.len() ==> keys@[j]@ == lower_of(kept@[j]@),
        decreases tags@.len() - i,
    {
        let ghost prefix = views_of(tags@.take(i as int));
        let tag = tags[i].clone();
        let low = lowercase(tag.as_str());
        let seen = key_seen(&keys, &low);
        proof {
            assert(seen == has_tag_key(views_of(kept@), lower_of(tag@))) by {
                if seen {
                    let w = choose|w: int| 0 <= w < keys@.len() && keys@[w]@ == low@;
                    assert(views_of(kept@)[w] == kept@[w]@);
                    assert(lower_of(views_of(kept@)[w]) == lower_of(tag@));
                } else if has_tag_key(views_of(kept@), lower_of(tag@)) {
                    let w = choose|w: int|
                        0 <= w < views_of(kept@).len() && lower_of(views_of(kept@)[w]) == lower_of(
                            tag@,
                        );
                    assert(views_of(kept@)[w] == kept@[w]@);
                    assert(keys@[w]@ == low@);
                }
            }
            lemma_dedup_tags_keys(prefix, lower_of(tag@));
            assert(seen == has_tag_key(prefix, lower_of(tag@)));
            assert(views_of(tags@.take(i + 1)).drop_last() =~= prefix);
            assert(views_of(tags@.take(i + 1)).last() == tag@);
        }
        if seen {
            dropped.push(tag);
            proof {
                assert(views_of(dropped@) =~= discarded_tags(views_of(tags@.take(i + 1))));
                assert(views_of(kept@) =~= dedup_tags(views_of(tags@.take(i + 1))));
            }
        } else {
            kept.push(tag);
            keys.push(low);
            proof {
                assert(views_of(kept@) =~= dedup_tags(views_of(tags@.take(i + 1))));
                assert(views_of(dropped@) =~= discarded_tags(views_of(tags@.take(i + 1))));
            }
        }
        i = i + 1;
    }
    proof {
        assert(tags@.take(tags@.len() as int) =~= tags@);
    }
    (kept, dropped)
}

/// Removes case-insensitive duplicates from a tag list: the first occurrence
/// of each key is kept with its original casing, later occurrences are
/// dropped. The discarded occurrences are available to the caller through
/// [`dedup_with_discards`].
pub fn dedup_and_warn(tags: Vec<String>) -> (r: Vec<String>)
    ensures
        views_of(r@) == dedup_tags(views_of(tags@)),
{
    let (kept, _dropped) = dedup_with_discards(tags);
    kept
}

/// Merges newly given tag names into a note's existing tag list: with no new
/// names the list is unchanged; otherwise the concatenation is deduplicated
/// case-insensitively, so existing names keep their position and casing and
/// genuinely new names are appended in order.
pub fn merge_tags(existing: Vec<String>, incoming: Option<Vec<String>>) -> (r: Vec<String>)
    ensures
        match incoming {
            None => r@ == existing@,
            Some(inp) => views_of(r@) == dedup_tags(views_of(existing@) + views_of(inp@)),
        },
{
    match incoming {
        None => existing,
        Some(inp) => {
            let mut all = existing;
            let mut j: usize = 0;
            while j < inp.len()
                invariant
                    j <= inp@.len(),
                    all@ == existing@ + inp@.take(j as int),
                decreases inp@.len() - j,
            {
                all.push(inp[j].clone());
                proof {
                    assert(all@ =~= existing@ + inp@.take(j + 1));
                }
                j = j + 1;
            }
            proof {
                assert(inp@.take(inp@.len() as int) =~= inp@);
                assert(views_of(existing@ + inp@) =~= views_of(existing@) + views_of(inp@));
            }
            dedup_and_warn(all)
        },
    }
}

} // verus!
