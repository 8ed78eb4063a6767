use vstd::prelude::*;
use vstd::string::StrSliceExecFns;

use crate::text::{chars_of, split_on, string_from_chars};

verus! {

/// What `str::to_lowercase` makes of a string.
pub uninterp spec fn lower_of(s: Seq<char>) -> Seq<char>;

/// What `str::trim` makes of a string.
pub uninterp spec fn trim_of(s: Seq<char>) -> Seq<char>;

/// Relies on `str::to_lowercase`: the result depends on the characters alone,
/// and an empty string stays empty.
#[verifier::external_body]
pub(crate) fn lowercase(s: &str) -> (r: String)
    ensures
        r@ == lower_of(s@),
        s@.len() == 0 ==> r@.len() == 0,
{
    s.to_lowercase()
}

/// Relies on `str::trim`: leading and trailing whitespace removed; the result
/// depends on the characters alone.
#[verifier::external_body]
pub(crate) fn trimmed(s: &str) -> (r: &str)
    ensures
        r@ == trim_of(s@),
{
    s.trim()
}

/// The request that turns tag filtering off.
pub open spec fn is_no_filter(req: Seq<char>) -> bool {
    req == seq!['N', 'O', 'N', 'E']
}

/// One requested tag as it is compared: trimmed, then lower-cased.
pub open spec fn normalized(t: Seq<char>) -> Seq<char> {
    lower_of(trim_of(t))
}

/// The normalized pieces of `pieces`, in order, with the empty ones left out.
pub open spec fn kept_tags(pieces: Seq<Seq<char>>) -> Seq<Seq<char>>
    decreases pieces.len(),
{
    if pieces.len() == 0 {
        Seq::empty()
    } else if normalized(pieces.last()).len() == 0 {
        kept_tags(pieces.drop_last())
    } else {
        kept_tags(pieces.drop_last()).push(normalized(pieces.last()))
    }
}

/// The tags a request asks for: the comma-separated pieces, trimmed and
/// lower-cased; a piece that is empty after that asks for nothing.
pub open spec fn requested_tags(req: Seq<char>) -> Seq<Seq<char>> {
    kept_tags(split_on(req, ','))
}

/// Every tag of `wanted` is among `have`.
pub open spec fn has_all(wanted: Seq<Seq<char>>, have: Seq<Seq<char>>) -> bool {
    forall|i: int| 0 <= i < wanted.len() ==> #[trigger] have.contains(wanted[i])
}

/// The item tags `tags`, lower-cased.
pub open spec fn lowered_tags(tags: Seq<String>) -> Seq<Seq<char>> {
    tags.map_values(|t: String| lower_of(t@))
}

/// An item with tags `tags` passes the request `req`: the request is `NONE`,
/// or the item has, ignoring case, every requested tag.
pub open spec fn passes(tags: Seq<String>, req: Seq<char>) -> bool {
    is_no_filter(req) || has_all(requested_tags(req), lowered_tags(tags))
}

pub open spec fn views(v: Seq<String>) -> Seq<Seq<char>> {
    v.map_values(|t: String| t@)
}

/// Whether `req` is the request `NONE`.
pub fn is_none_request(req: &str) -> (r: bool)
    ensures
        r == is_no_filter(req@),
{
    let n = req.unicode_len();
    if n != 4 {
        return false;
    }
    let r = req.get_char(0) == 'N' && req.get_char(1) == 'O' && req.get_char(2) == 'N'
        && req.get_char(3) == 'E';
    proof {
        if r {
            assert(req@ =~= seq!['N', 'O', 'N', 'E']);
        }
    }
    r
}

/// The comma-separated pieces of `req`, each trimmed and lower-cased, empty
/// ones left out.
pub fn parse_tags(req: &str) -> (r: Vec<String>)
    ensures
        views(r@) == requested_tags(req@),
{
    let chars = chars_of(req);
    let mut r: Vec<String> = Vec::new();
    let mut piece: Vec<char> = Vec::new();
    let ghost mut done: Seq<Seq<char>> = Seq::empty();
    let mut i: usize = 0;
    while i < chars.len()
        invariant
            chars@ == req@,
            i <= chars@.len(),
            split_on(chars@.take(i as int), ',') == done.push(piece@),
            views(r@) == kept_tags(done),
        decreases chars@.len() - i,
    {
        proof {
            assert(chars@.take(i as int + 1).drop_last() =~= chars@.take(i as int));
            assert(done.push(piece@).drop_last() =~= done);
        }
        if chars[i] == ',' {
            push_tag(&mut r, &piece, Ghost(done));
            proof {
                done = done.push(piece@);
            }
            piece = Vec::new();
        } else {
            piece.push(chars[i]);
            proof {
                assert(done.push(piece@) =~= done.push(piece@.drop_last()).update(
                    done.len() as int,
                    piece@,
                ));
            }
        }
        i += 1;
    }
    proof {
        assert(chars@.take(i as int) =~= chars@);
        assert(done.push(piece@).drop_last() =~= done);
    }
    push_tag(&mut r, &piece, Ghost(done));
    r
}

/// Adds the piece `piece`, trimmed and lower-cased, unless that leaves it empty.
fn push_tag(r: &mut Vec<String>, piece: &Vec<char>, Ghost(done): Ghost<Seq<Seq<char>>>)
    requires
        views(old(r)@) == kept_tags(done),
    ensures
        views(final(r)@) == kept_tags(done.push(piece@)),
{
    let raw = string_from_chars(piece);
    let tag = lowercase(trimmed(raw.as_str()));
    proof {
        assert(done.push(piece@).drop_last() =~= done);
    }
    if tag.unicode_len() > 0 {
        r.push(tag);
        proof {
            assert(views(r@) =~= kept_tags(done).push(tag@));
        }
    }
}

/// The tags `tags`, lower-cased.
pub fn lower_tags(tags: &Vec<String>) -> (r: Vec<String>)
    ensures
        views(r@) == lowered_tags(tags@),
{
    let mut r: Vec<String> = Vec::new();
    let mut i: usize = 0;
    while i < tags.len()
        invariant
            i <= tags@.len(),
            r@.len() == i,
            forall|k: int| 0 <= k < i ==> #[trigger] r@[k]@ == lower_of(tags@[k]@),
        decreases tags@.len() - i,
    {
        r.push(lowercase(tags[i].as_str()));
        i += 1;
    }
    proof {
        assert(views(r@) =~= lowered_tags(tags@));
    }
    r
}

/// Whether every tag of `wanted` is among `have`, compared as they stand.
pub fn tags_match(wanted: &Vec<String>, have: &Vec<String>) -> (r: bool)
    ensures
        r == has_all(views(wanted@), views(have@)),
{
    let mut i: usize = 0;
    while i < wanted.len()
        invariant
            i <= wanted@.len(),
            forall|k: int| 0 <= k < i ==> #[trigger] views(have@).contains(views(wanted@)[k]),
        decreases wanted@.len() - i,
    {
        let mut found = false;
        let mut j: usize = 0;
        while j < have.len() && !found
            invariant
                i < wanted@.len(),
                j <= have@.len(),
                found ==> views(have@).contains(views(wanted@)[i as int]),
                !found ==> forall|m: int|
                    0 <= m < j ==> views(have@)[m] != views(wanted@)[i as int],
            decreases have@.len() - j + if found { 0int } else { 1int },
        {
            if have[j] == wanted[i] {
                found = true;
                proof {
                    assert(views(have@)[j as int] == views(wanted@)[i as int]);
                }
            } else {
                j += 1;
            }
        }
        if !found {
            proof {
                assert(!views(have@).contains(views(wanted@)[i as int]));
            }
            return false;
        }
        i += 1;
    }
    true
}

/// Whether an item with tags `tags` passes the request `req`.
pub fn through_filter(tags: &Vec<String>, req: &str) -> (r: bool)
    ensures
        r == passes(tags@, req@),
{
    if is_none_request(req) {
        return true;
    }
    let wanted = parse_tags(req);
    let have = lower_tags(tags);
    tags_match(&wanted, &have)
}

} // verus!
