//! Decoding of a mode token, one flag character at a time, into type tags
//! and permission tags.

use crate::text::same_text;
use vstd::prelude::*;
use vstd::std_specs::iter::IteratorSpec;

verus! {

/// The tag of a directory.
pub open spec fn directory() -> Seq<char> {
    "directory"@
}

/// The tag of an archive.
pub open spec fn archive() -> Seq<char> {
    "archive"@
}

/// The tag of a read-only entity.
pub open spec fn read_only() -> Seq<char> {
    "read-only"@
}

/// The tag of a hidden entity.
pub open spec fn hidden() -> Seq<char> {
    "hidden"@
}

/// The tag of a system entity.
pub open spec fn system() -> Seq<char> {
    "system"@
}

/// The tag of a reparse point or symbolic link.
pub open spec fn reparse_point_or_symlink() -> Seq<char> {
    "reparse-point-or-symlink"@
}

/// The permission tag that the flag character `c` stands for, if it stands for one.
pub open spec fn permission_tag(c: char) -> Option<Seq<char>> {
    if c == 'd' {
        Some(directory())
    } else if c == 'a' {
        Some(archive())
    } else if c == 'r' {
        Some(read_only())
    } else if c == 'h' {
        Some(hidden())
    } else if c == 's' {
        Some(system())
    } else if c == 'l' {
        Some(reparse_point_or_symlink())
    } else {
        None
    }
}

/// The type tag that the flag character `c` stands for, if it stands for one.
pub open spec fn type_tag(c: char) -> Option<Seq<char>> {
    if c == 'd' || c == 'a' || c == 'l' {
        permission_tag(c)
    } else {
        None
    }
}

/// The permission tags of a mode token: one for each flag character that
/// stands for one, in the order of the characters, repeats included.
pub open spec fn permission_tags(mode: Seq<char>) -> Seq<Seq<char>> {
    mode.filter_map(|c: char| permission_tag(c))
}

/// The type tag of each flag character that stands for one, in the order of
/// the characters, repeats included.
pub open spec fn type_flag_tags(mode: Seq<char>) -> Seq<Seq<char>> {
    mode.filter_map(|c: char| type_tag(c))
}

/// The tags, each at the place where it stands first: a tag that has stood
/// before is left out.
pub open spec fn first_occurrences(tags: Seq<Seq<char>>) -> Seq<Seq<char>>
    decreases tags.len(),
{
    if tags.len() == 0 {
        Seq::empty()
    } else {
        let before = first_occurrences(tags.drop_last());
        if before.contains(tags.last()) {
            before
        } else {
            before.push(tags.last())
        }
    }
}

/// The type tags of a mode token, as a set written down in order: each tag
/// whose flag character occurs in the token, once, at the place of the first
/// such character.
pub open spec fn type_tags(mode: Seq<char>) -> Seq<Seq<char>> {
    first_occurrences(type_flag_tags(mode))
}

/// Whether `tag` is one of the three type tags.
pub open spec fn is_type_tag(tag: Seq<char>) -> bool {
    tag == directory() || tag == archive() || tag == reparse_point_or_symlink()
}

/// The type tags among the given tags, in their order, repeats included.
pub open spec fn type_tags_among(tags: Seq<Seq<char>>) -> Seq<Seq<char>> {
    tags.filter(|tag: Seq<char>| is_type_tag(tag))
}

/// Leaving out repeats neither adds a tag nor loses one.
pub proof fn lemma_first_occurrences_members(tags: Seq<Seq<char>>, tag: Seq<char>)
    ensures
        first_occurrences(tags).contains(tag) <==> tags.contains(tag),
    decreases tags.len(),
{
    if tags.len() > 0 {
        let rest = tags.drop_last();
        let before = first_occurrences(rest);
        lemma_first_occurrences_members(rest, tag);
        lemma_first_occurrences_members(rest, tags.last());
        if rest.contains(tag) {
            let i = choose|i: int| 0 <= i < rest.len() && rest[i] == tag;
            assert(tags[i] == tag);
        }
        if tags.contains(tag) && tag != tags.last() {
            let i = choose|i: int| 0 <= i < tags.len() && tags[i] == tag;
            assert(rest[i] == tag);
        }
        if tag == tags.last() {
            assert(tags[tags.len() - 1] == tag);
        }
        if !before.contains(tags.last()) {
            let all = before.push(tags.last());
            assert(all[all.len() - 1] == tags.last());
            if before.contains(tag) {
                let i = choose|i: int| 0 <= i < before.len() && before[i] == tag;
                assert(all[i] == tag);
            }
            if all.contains(tag) && tag != tags.last() {
                let i = choose|i: int| 0 <= i < all.len() && all[i] == tag;
                assert(before[i] == tag);
            }
        }
    }
}

/// With the repeats left out, no tag stands twice.
pub proof fn lemma_first_occurrences_distinct(tags: Seq<Seq<char>>)
    ensures
        first_occurrences(tags).no_duplicates(),
    decreases tags.len(),
{
    if tags.len() > 0 {
        lemma_first_occurrences_distinct(tags.drop_last());
    }
}

/// Where no tag stands twice, there is nothing to leave out.
pub proof fn lemma_first_occurrences_fixed(tags: Seq<Seq<char>>)
    requires
        tags.no_duplicates(),
    ensures
        first_occurrences(tags) == tags,
    decreases tags.len(),
{
    if tags.len() > 0 {
        let rest = tags.drop_last();
        lemma_first_occurrences_fixed(rest);
        lemma_first_occurrences_members(rest, tags.last());
        if rest.contains(tags.last()) {
            let i = choose|i: int| 0 <= i < rest.len() && rest[i] == tags.last();
            assert(tags[i] == tags[tags.len() - 1]);
        }
        assert(rest.push(tags.last()) =~= tags);
    } else {
        assert(first_occurrences(tags) =~= tags);
    }
}

/// The first occurrences in two sequences put together are the first
/// occurrences of the first, followed by those of the second that the first
/// does not hold: a union that keeps the order.
pub proof fn lemma_first_occurrences_union(a: Seq<Seq<char>>, b: Seq<Seq<char>>)
    ensures
        first_occurrences(a + b) == first_occurrences(first_occurrences(a) + first_occurrences(b)),
    decreases b.len(),
{
    let first = first_occurrences(a);
    if b.len() == 0 {
        assert(a + b =~= a);
        assert(first + first_occurrences(b) =~= first);
        lemma_first_occurrences_distinct(a);
        lemma_first_occurrences_fixed(first);
    } else {
        let rest = b.drop_last();
        let last = b.last();
        let second = first_occurrences(rest);
        lemma_first_occurrences_union(a, rest);
        assert((a + b).drop_last() =~= a + rest);
        assert((a + b).last() == last);
        lemma_first_occurrences_members(rest, last);
        if second.contains(last) {
            lemma_first_occurrences_members(a + rest, last);
            let i = choose|i: int| 0 <= i < rest.len() && rest[i] == last;
            assert((a + rest)[a.len() + i] == last);
        } else {
            let joined = first + second.push(last);
            assert(joined.drop_last() =~= first + second);
            assert(joined.last() == last);
        }
    }
}

/// The tags decoded from one mode token.
pub struct Permissions<'a> {
    pub entity_types: Vec<&'a str>,
    pub permissions: Vec<&'a str>,
}

/// Whether `tag` is among `tags`.
fn holds(tags: &Vec<&str>, tag: &str) -> (found: bool)
    ensures
        found == tags.deep_view().contains(tag@),
{
    let mut i: usize = 0;
    while i < tags.len()
        invariant
            i <= tags.len(),
            forall|j: int| 0 <= j < i ==> tags.deep_view()[j] != tag@,
        decreases tags.len() - i,
    {
        if same_text(tags[i], tag) {
            assert(tags.deep_view()[i as int] == tag@);
            return true;
        }
        i += 1;
    }
    false
}

/// Adds `tag` to the type tags unless it is among them already.
fn add_type<'a>(types: &mut Vec<&'a str>, tag: &'a str)
    ensures
        final(types).deep_view() == if old(types).deep_view().contains(tag@) {
            old(types).deep_view()
        } else {
            old(types).deep_view().push(tag@)
        },
{
    let ghost before = types.deep_view();
    if !holds(types, tag) {
        types.push(tag);
        assert(types.deep_view() =~= before.push(tag@));
    }
}

/// Decodes a mode token. Each flag character adds its tag to the permission
/// tags; a type tag is added to the type tags once, when its flag is first
/// met. Characters that are no flag are passed over.
pub fn check_entity_permissions<'a>(perm_str: &'a str) -> (out: Permissions<'a>)
    ensures
        out.permissions.deep_view() == permission_tags(perm_str@),
        out.entity_types.deep_view() == type_tags(perm_str@),
        out.entity_types.deep_view().no_duplicates(),
        forall|i: int|
            0 <= i < out.entity_types.len() ==> is_type_tag(
                #[trigger] out.entity_types.deep_view()[i],
            ),
        out.entity_types.deep_view().contains(directory()) <==> perm_str@.contains('d'),
        out.entity_types.deep_view().contains(archive()) <==> perm_str@.contains('a'),
        out.entity_types.deep_view().contains(reparse_point_or_symlink()) <==> perm_str@.contains(
            'l',
        ),
{
    let mut entity_types: Vec<&'a str> = Vec::new();
    let mut all_permissions: Vec<&'a str> = Vec::new();
    let chars = perm_str.chars();
    for c in it: chars
        invariant
            it.seq() == perm_str@,
            it.history() =~= perm_str@.take(it.index()),
            all_permissions.deep_view() == permission_tags(it.history()),
            entity_types.deep_view() == type_tags(it.history()),
    {
        let ghost seen = it.history();
        let ghost types_before = entity_types.deep_view();
        let ghost permissions_before = all_permissions.deep_view();
        assert(seen.push(c).drop_last() =~= seen);
        match c {
            'd' => {
                add_type(&mut entity_types, "directory");
                all_permissions.push("directory");
            },
            'a' => {
                add_type(&mut entity_types, "archive");
                all_permissions.push("archive");
            },
            'r' => all_permissions.push("read-only"),
            'h' => all_permissions.push("hidden"),
            's' => all_permissions.push("system"),
            'l' => {
                add_type(&mut entity_types, "reparse-point-or-symlink");
                all_permissions.push("reparse-point-or-symlink");
            },
            _ => (),
        }
        proof {
            match type_tag(c) {
                Some(tag) => {
                    let met = type_flag_tags(seen.push(c));
                    assert(met =~= type_flag_tags(seen).push(tag));
                    assert(met.drop_last() =~= type_flag_tags(seen));
                },
                None => {},
            }
            match permission_tag(c) {
                Some(tag) => {
                    assert(all_permissions.deep_view() =~= permissions_before + seq![tag]);
                },
                None => {
                    assert(all_permissions.deep_view() =~= permissions_before);
                },
            }
        }
    }
    proof {
        assert(perm_str@.take(perm_str@.len() as int) =~= perm_str@);
        lemma_type_tags_distinct(perm_str@);
        lemma_type_tags_drawn(perm_str@);
        lemma_type_tag_present(perm_str@, 'd');
        lemma_type_tag_present(perm_str@, 'a');
        lemma_type_tag_present(perm_str@, 'l');
    }
    Permissions { entity_types, permissions: all_permissions }
}

/// Decoding is additive. The permission tags of two tokens written one after
/// the other are those of the first followed by those of the second, so they
/// come in the order of the characters that stand for them. The type tags
/// are the union: those of the first, followed by those of the second that
/// the first does not have.
pub proof fn lemma_tags_additive(a: Seq<char>, b: Seq<char>)
    ensures
        permission_tags(a + b) == permission_tags(a) + permission_tags(b),
        type_tags(a + b) == first_occurrences(type_tags(a) + type_tags(b)),
        forall|tag: Seq<char>|
            type_tags(a + b).contains(tag) <==> type_tags(a).contains(tag) || type_tags(
                b,
            ).contains(tag),
{
    lemma_flag_tags_additive(a, b);
    lemma_first_occurrences_union(type_flag_tags(a), type_flag_tags(b));
    assert forall|tag: Seq<char>|
        type_tags(a + b).contains(tag) <==> type_tags(a).contains(tag) || type_tags(b).contains(
            tag,
        ) by {
        let left = type_flag_tags(a);
        let right = type_flag_tags(b);
        lemma_first_occurrences_members(left + right, tag);
        lemma_first_occurrences_members(left, tag);
        lemma_first_occurrences_members(right, tag);
        if left.contains(tag) {
            let i = choose|i: int| 0 <= i < left.len() && left[i] == tag;
            assert((left + right)[i] == tag);
        }
        if right.contains(tag) {
            let i = choose|i: int| 0 <= i < right.len() && right[i] == tag;
            assert((left + right)[left.len() + i] == tag);
        }
        if (left + right).contains(tag) {
            let i = choose|i: int| 0 <= i < (left + right).len() && (left + right)[i] == tag;
            if i < left.len() {
                assert(left[i] == tag);
            } else {
                assert(right[i - left.len()] == tag);
            }
        }
    }
}

/// The tags with their repeats go token by token.
pub proof fn lemma_flag_tags_additive(a: Seq<char>, b: Seq<char>)
    ensures
        permission_tags(a + b) == permission_tags(a) + permission_tags(b),
        type_flag_tags(a + b) == type_flag_tags(a) + type_flag_tags(b),
    decreases b.len(),
{
    if b.len() == 0 {
        assert(a + b =~= a);
        assert(permission_tags(a) + permission_tags(b) =~= permission_tags(a));
        assert(type_flag_tags(a) + type_flag_tags(b) =~= type_flag_tags(a));
    } else {
        lemma_flag_tags_additive(a, b.drop_last());
        assert((a + b).drop_last() =~= a + b.drop_last());
        assert((a + b).last() == b.last());
        match permission_tag(b.last()) {
            Some(tag) => {
                assert(permission_tags(a + b) =~= permission_tags(a) + permission_tags(b));
            },
            None => {},
        }
        match type_tag(b.last()) {
            Some(tag) => {
                assert(type_flag_tags(a + b) =~= type_flag_tags(a) + type_flag_tags(b));
            },
            None => {},
        }
    }
}

/// A token of one character has the tag of that character, or none.
pub proof fn lemma_tags_of_one_flag(c: char)
    ensures
        permission_tags(seq![c]) == match permission_tag(c) {
            Some(tag) => seq![tag],
            None => Seq::empty(),
        },
        type_tags(seq![c]) == match type_tag(c) {
            Some(tag) => seq![tag],
            None => Seq::empty(),
        },
{
    Seq::lemma_filter_map_singleton(c, |c: char| permission_tag(c));
    Seq::lemma_filter_map_singleton(c, |c: char| type_tag(c));
    match type_tag(c) {
        Some(tag) => {
            assert(seq![tag].drop_last() =~= Seq::<Seq<char>>::empty());
            assert(first_occurrences(Seq::<Seq<char>>::empty()) =~= Seq::<Seq<char>>::empty());
            assert(first_occurrences(seq![tag]) =~= seq![tag]);
        },
        None => {},
    }
}

/// No type tag stands twice among the type tags of a token.
pub proof fn lemma_type_tags_distinct(mode: Seq<char>)
    ensures
        type_tags(mode).no_duplicates(),
{
    lemma_first_occurrences_distinct(type_flag_tags(mode));
}

/// The type tags of a token are drawn from the three type tags.
pub proof fn lemma_type_tags_drawn(mode: Seq<char>)
    ensures
        forall|i: int| 0 <= i < type_tags(mode).len() ==> is_type_tag(#[trigger] type_tags(mode)[i]),
{
    let tags = type_tags(mode);
    assert forall|i: int| 0 <= i < tags.len() implies is_type_tag(#[trigger] tags[i]) by {
        assert(tags.contains(tags[i]));
        lemma_first_occurrences_members(type_flag_tags(mode), tags[i]);
        mode.lemma_filter_map_contains(|c: char| type_tag(c), tags[i]);
    }
}

/// A token has a type tag if and only if it holds the flag character of that tag.
pub proof fn lemma_type_tag_present(mode: Seq<char>, c: char)
    requires
        c == 'd' || c == 'a' || c == 'l',
    ensures
        type_tags(mode).contains(type_tag(c)->0) <==> mode.contains(c),
{
    lemma_first_occurrences_members(type_flag_tags(mode), type_tag(c)->0);
    lemma_flag_tag_present(mode, c);
}

/// The tag of a flag character is met if and only if the character is.
pub proof fn lemma_flag_tag_present(mode: Seq<char>, c: char)
    requires
        c == 'd' || c == 'a' || c == 'l',
    ensures
        type_flag_tags(mode).contains(type_tag(c)->0) <==> mode.contains(c),
    decreases mode.len(),
{
    reveal_strlit("directory");
    reveal_strlit("archive");
    reveal_strlit("reparse-point-or-symlink");
    let tag = type_tag(c)->0;
    if mode.len() > 0 {
        let rest = mode.drop_last();
        lemma_flag_tag_present(rest, c);
        if type_flag_tags(rest).contains(tag) {
            let i = choose|i: int| 0 <= i < type_flag_tags(rest).len() && type_flag_tags(rest)[i]
                == tag;
            assert(type_flag_tags(mode)[i] == tag);
        }
        if rest.contains(c) {
            let i = choose|i: int| 0 <= i < rest.len() && rest[i] == c;
            assert(mode[i] == c);
        }
        match type_tag(mode.last()) {
            Some(found) => {
                let all = type_flag_tags(mode);
                assert(all == type_flag_tags(rest) + seq![found]);
                assert(all[all.len() - 1] == found);
                if mode.last() == c {
                    assert(mode[mode.len() - 1] == c);
                } else {
                    assert(found.len() != tag.len());
                    if all.contains(tag) {
                        let i = choose|i: int| 0 <= i < all.len() && all[i] == tag;
                        assert(type_flag_tags(rest)[i] == tag);
                    }
                    if mode.contains(c) {
                        let i = choose|i: int| 0 <= i < mode.len() && mode[i] == c;
                        assert(rest[i] == c);
                    }
                }
            },
            None => {
                if mode.contains(c) {
                    let i = choose|i: int| 0 <= i < mode.len() && mode[i] == c;
                    assert(rest[i] == c);
                }
            },
        }
    }
}

/// The type tags follow the order in which their flags are first met: of two
/// type tags, the one that comes first has a flag character in the token
/// before any flag character of the other.
pub proof fn lemma_type_tags_in_order_of_first_flag(mode: Seq<char>, i: int, j: int)
    requires
        0 <= i < j < type_tags(mode).len(),
    ensures
        exists|p: int, q: int|
            0 <= p < q < mode.len() && type_tag(mode[p]) == Some(type_tags(mode)[i]) && type_tag(
                mode[q],
            ) == Some(type_tags(mode)[j]) && forall|r: int|
                0 <= r < q ==> type_tag(#[trigger] mode[r]) != Some(type_tags(mode)[j]),
    decreases mode.len(),
{
    let tags = type_tags(mode);
    if mode.len() > 0 {
        let rest = mode.drop_last();
        let before = type_tags(rest);
        let met = type_flag_tags(mode);
        match type_tag(mode.last()) {
            Some(tag) => {
                assert(met =~= type_flag_tags(rest).push(tag));
                assert(met.drop_last() =~= type_flag_tags(rest));
            },
            None => {},
        }
        if j < before.len() {
            lemma_type_tags_in_order_of_first_flag(rest, i, j);
            let (p, q) = choose|p: int, q: int|
                0 <= p < q < rest.len() && type_tag(rest[p]) == Some(before[i]) && type_tag(rest[q])
                    == Some(before[j]) && forall|r: int|
                    0 <= r < q ==> type_tag(#[trigger] rest[r]) != Some(before[j]);
            assert(mode[p] == rest[p] && mode[q] == rest[q]);
            assert forall|r: int| 0 <= r < q implies type_tag(#[trigger] mode[r]) != Some(
                tags[j],
            ) by {
                assert(mode[r] == rest[r]);
            }
        } else {
            let tag = type_tag(mode.last())->0;
            let q = mode.len() - 1;
            assert(tags[j] == tag);
            assert(before.contains(before[i]));
            lemma_first_occurrences_members(type_flag_tags(rest), before[i]);
            rest.lemma_filter_map_contains(|c: char| type_tag(c), before[i]);
            let c = choose|c: char| #[trigger] rest.contains(c) && type_tag(c) == Some(before[i]);
            let p = choose|p: int| 0 <= p < rest.len() && rest[p] == c;
            assert(mode[p] == rest[p]);
            assert forall|r: int| 0 <= r < q implies type_tag(#[trigger] mode[r]) != Some(
                tag,
            ) by {
                if type_tag(mode[r]) == Some(tag) {
                    assert(rest[r] == mode[r]);
                    assert(rest.contains(rest[r]));
                    lemma_type_tag_of_flag_met(rest, r);
                    lemma_first_occurrences_members(type_flag_tags(rest), tag);
                }
            }
        }
    }
}

/// The tag of a flag character of the token is among the tags that are met.
pub proof fn lemma_type_tag_of_flag_met(mode: Seq<char>, r: int)
    requires
        0 <= r < mode.len(),
        type_tag(mode[r]) is Some,
    ensures
        type_flag_tags(mode).contains(type_tag(mode[r])->0),
    decreases mode.len(),
{
    let rest = mode.drop_last();
    let met = type_flag_tags(mode);
    if r == mode.len() - 1 {
        assert(met[met.len() - 1] == type_tag(mode[r])->0);
    } else {
        lemma_type_tag_of_flag_met(rest, r);
        let tag = type_tag(rest[r])->0;
        let i = choose|i: int| 0 <= i < type_flag_tags(rest).len() && type_flag_tags(rest)[i] == tag;
        assert(met[i] == tag);
    }
}

/// The type tags of a token are the type tags among its permission tags,
/// each where it stands first: they follow from the token alone.
pub proof fn lemma_types_among_permissions(mode: Seq<char>)
    ensures
        type_tags(mode) == first_occurrences(type_tags_among(permission_tags(mode))),
{
    lemma_flag_types_among_permissions(mode);
}

/// The type tag of each flag is the type tag among the permission tags.
pub proof fn lemma_flag_types_among_permissions(mode: Seq<char>)
    ensures
        type_flag_tags(mode) == type_tags_among(permission_tags(mode)),
    decreases mode.len(),
{
    let only_types = |tag: Seq<char>| is_type_tag(tag);
    if mode.len() == 0 {
        assert(permission_tags(mode).filter(only_types) =~= Seq::empty());
    } else {
        let rest = mode.drop_last();
        lemma_flag_types_among_permissions(rest);
        reveal_strlit("directory");
        reveal_strlit("archive");
        reveal_strlit("read-only");
        reveal_strlit("hidden");
        reveal_strlit("system");
        reveal_strlit("reparse-point-or-symlink");
        match permission_tag(mode.last()) {
            Some(tag) => {
                assert(permission_tags(mode) =~= permission_tags(rest).push(tag));
                permission_tags(rest).lemma_filter_push(tag, only_types);
                if type_tag(mode.last()) is None {
                    assert(tag[0] != directory()[0]);
                    assert(tag.len() != archive().len());
                    assert(tag.len() != reparse_point_or_symlink().len());
                    assert(!is_type_tag(tag));
                }
            },
            None => {},
        }
    }
}

} // verus!
