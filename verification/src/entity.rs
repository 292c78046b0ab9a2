//! The entity record and the predicates on its type tags.

use crate::flags::{
    archive,
    directory,
    first_occurrences,
    reparse_point_or_symlink,
    type_tags_among,
};
use vstd::prelude::*;
use vstd::string::StringExecFns;

verus! {

/// What an entity record holds, as plain mathematical values.
pub struct EntityView {
    pub mode: Seq<Seq<char>>,
    pub types: Seq<Seq<char>>,
    pub owner: Seq<char>,
    pub last_write_time: Seq<char>,
    pub name: Seq<char>,
    pub creation_time: Seq<char>,
    pub attributes: Seq<char>,
    pub last_access_time: Seq<char>,
    pub size: int,
    pub absolute_path: Seq<char>,
}

/// One file system entity: its permission tags (`mode`), its type tags
/// (`types`) and its properties as text, with `size` in bytes.
#[derive(Debug, Clone)]
pub struct WindowsEntity {
    pub mode: Vec<String>,
    pub types: Vec<String>,
    pub owner: String,
    pub last_write_time: String,
    pub name: String,
    pub creation_time: String,
    pub attributes: String,
    pub last_access_time: String,
    pub size: i32,
    pub absolute_path: String,
}

impl View for WindowsEntity {
    type V = EntityView;

    open spec fn view(&self) -> EntityView {
        EntityView {
            mode: self.mode.deep_view(),
            types: self.types.deep_view(),
            owner: self.owner@,
            last_write_time: self.last_write_time@,
            name: self.name@,
            creation_time: self.creation_time@,
            attributes: self.attributes@,
            last_access_time: self.last_access_time@,
            size: self.size as int,
            absolute_path: self.absolute_path@,
        }
    }
}

impl DeepView for WindowsEntity {
    type V = EntityView;

    open spec fn deep_view(&self) -> EntityView {
        self@
    }
}

/// One for a tag that is found, zero for one that is not.
pub open spec fn one_if(found: bool) -> nat {
    if found {
        1
    } else {
        0
    }
}

/// How many of the `wanted` tags are found among `tags`. A tag that stands
/// among `tags` more than once is found once.
pub open spec fn matched(tags: Seq<Seq<char>>, wanted: Seq<Seq<char>>) -> nat
    decreases wanted.len(),
{
    if wanted.len() == 0 {
        0
    } else {
        matched(tags, wanted.drop_last()) + one_if(tags.contains(wanted.last()))
    }
}

impl EntityView {
    /// Whether the type tags are those among the permission tags, each
    /// once and where it stands first, as they are where both come from one
    /// mode token.
    pub open spec fn well_formed(self) -> bool {
        self.types == first_occurrences(type_tags_among(self.mode))
    }

    /// The type tags as a set: which kinds apply to the entity.
    pub open spec fn type_tags(self) -> Set<Seq<char>> {
        self.types.to_set()
    }

    /// Whether the entity is a directory.
    pub open spec fn is_directory(self) -> bool {
        self.types.contains(directory())
    }

    /// Whether the entity is an archive.
    pub open spec fn is_archive(self) -> bool {
        self.types.contains(archive())
    }

    /// Whether the entity is a reparse point or a symbolic link.
    pub open spec fn is_reparse_point_or_symlink(self) -> bool {
        self.types.contains(reparse_point_or_symlink())
    }

    /// Whether, of the tags of a directory and of an archive, two are found.
    pub open spec fn is_directory_and_archive(self) -> bool {
        matched(self.types, seq![archive(), directory()]) == 2
    }

    /// Whether, of the tags of a directory and of a reparse point or
    /// symbolic link, two are found.
    pub open spec fn is_directory_and_reparse_point_or_symlink(self) -> bool {
        matched(self.types, seq![directory(), reparse_point_or_symlink()]) == 2
    }

    /// Whether, of the tags of an archive and of a reparse point or symbolic
    /// link, two are found.
    pub open spec fn is_archive_and_reparse_point_or_symlink(self) -> bool {
        matched(self.types, seq![archive(), reparse_point_or_symlink()]) == 2
    }

    /// Whether, of the three type tags, three are found.
    pub open spec fn is_directory_and_archive_and_reparse_point_or_symlink(self) -> bool {
        matched(self.types, seq![archive(), directory(), reparse_point_or_symlink()]) == 3
    }
}

/// The count over two wanted tags is the sum of what each contributes.
pub proof fn lemma_matched_two(tags: Seq<Seq<char>>, a: Seq<char>, b: Seq<char>)
    ensures
        matched(tags, seq![a, b]) == one_if(tags.contains(a)) + one_if(tags.contains(b)),
{
    let two = seq![a, b];
    assert(two.drop_last() =~= seq![a]);
    assert(seq![a].drop_last() =~= Seq::<Seq<char>>::empty());
    reveal_with_fuel(matched, 3);
}

/// The count over three wanted tags is the sum of what each contributes.
pub proof fn lemma_matched_three(
    tags: Seq<Seq<char>>,
    a: Seq<char>,
    b: Seq<char>,
    c: Seq<char>,
)
    ensures
        matched(tags, seq![a, b, c]) == one_if(tags.contains(a)) + one_if(tags.contains(b))
            + one_if(tags.contains(c)),
{
    let three = seq![a, b, c];
    assert(three.drop_last() =~= seq![a, b]);
    lemma_matched_two(tags, a, b);
}

/// A combination holds exactly when each of the tags it asks for is found:
/// tags that it does not ask for have no part in it.
pub proof fn lemma_combination_is_conjunction(e: EntityView)
    ensures
        e.is_directory_and_archive() == (e.is_directory() && e.is_archive()),
        e.is_directory_and_reparse_point_or_symlink() == (e.is_directory()
            && e.is_reparse_point_or_symlink()),
        e.is_archive_and_reparse_point_or_symlink() == (e.is_archive()
            && e.is_reparse_point_or_symlink()),
        e.is_directory_and_archive_and_reparse_point_or_symlink() == (e.is_directory()
            && e.is_archive() && e.is_reparse_point_or_symlink()),
{
    lemma_matched_two(e.types, archive(), directory());
    lemma_matched_two(e.types, directory(), reparse_point_or_symlink());
    lemma_matched_two(e.types, archive(), reparse_point_or_symlink());
    lemma_matched_three(e.types, archive(), directory(), reparse_point_or_symlink());
}

/// An entity that carries all three type tags satisfies the three-way
/// combination, and each two-way combination as well.
pub proof fn lemma_all_three_types(e: EntityView)
    requires
        e.type_tags() == set![directory(), archive(), reparse_point_or_symlink()],
    ensures
        e.is_directory_and_archive_and_reparse_point_or_symlink(),
        e.is_directory_and_archive(),
        e.is_directory_and_reparse_point_or_symlink(),
        e.is_archive_and_reparse_point_or_symlink(),
{
    assert(e.type_tags().contains(directory()));
    assert(e.type_tags().contains(archive()));
    assert(e.type_tags().contains(reparse_point_or_symlink()));
    lemma_combination_is_conjunction(e);
}

/// Whether `tag` is among `tags`.
pub fn has_tag(tags: &Vec<String>, tag: &str) -> (found: bool)
    ensures
        found == tags.deep_view().contains(tag@),
{
    let wanted = String::from_str(tag);
    let mut i: usize = 0;
    while i < tags.len()
        invariant
            wanted@ == tag@,
            i <= tags.len(),
            forall|j: int| 0 <= j < i ==> tags.deep_view()[j] != tag@,
        decreases tags.len() - i,
    {
        if tags[i] == wanted {
            assert(tags.deep_view()[i as int] == tag@);
            return true;
        }
        i += 1;
    }
    false
}

/// Whether the entity is a directory.
pub fn is_directory(entity: &WindowsEntity) -> (b: bool)
    ensures
        b == entity@.is_directory(),
{
    has_tag(&entity.types, "directory")
}

/// Whether the entity is an archive.
pub fn is_archive(entity: &WindowsEntity) -> (b: bool)
    ensures
        b == entity@.is_archive(),
{
    has_tag(&entity.types, "archive")
}

/// Whether the entity is a reparse point or a symbolic link.
pub fn is_reparse_point_or_symlink(entity: &WindowsEntity) -> (b: bool)
    ensures
        b == entity@.is_reparse_point_or_symlink(),
{
    has_tag(&entity.types, "reparse-point-or-symlink")
}

/// Whether the entity is both a directory and an archive, whatever else it is.
pub fn is_directory_and_archive(entity: &WindowsEntity) -> (b: bool)
    ensures
        b == entity@.is_directory_and_archive(),
        b == (entity@.is_directory() && entity@.is_archive()),
{
    let mut result_num: u8 = 0;
    if has_tag(&entity.types, "archive") {
        result_num = result_num + 1;
    }
    if has_tag(&entity.types, "directory") {
        result_num = result_num + 1;
    }
    proof {
        lemma_matched_two(entity@.types, archive(), directory());
    }
    result_num == 2
}

/// Whether the entity is both a directory and a reparse point or symbolic
/// link, whatever else it is.
pub fn is_directory_and_reparse_point_or_symlink(entity: &WindowsEntity) -> (b: bool)
    ensures
        b == entity@.is_directory_and_reparse_point_or_symlink(),
        b == (entity@.is_directory() && entity@.is_reparse_point_or_symlink()),
{
    let mut result_num: u8 = 0;
    if has_tag(&entity.types, "directory") {
        result_num = result_num + 1;
    }
    if has_tag(&entity.types, "reparse-point-or-symlink") {
        result_num = result_num + 1;
    }
    proof {
        lemma_matched_two(entity@.types, directory(), reparse_point_or_symlink());
    }
    result_num == 2
}

/// Whether the entity is both an archive and a reparse point or symbolic
/// link, whatever else it is.
pub fn is_archive_and_reparse_point_or_symlink(entity: &WindowsEntity) -> (b: bool)
    ensures
        b == entity@.is_archive_and_reparse_point_or_symlink(),
        b == (entity@.is_archive() && entity@.is_reparse_point_or_symlink()),
{
    let mut result_num: u8 = 0;
    if has_tag(&entity.types, "archive") {
        result_num = result_num + 1;
    }
    if has_tag(&entity.types, "reparse-point-or-symlink") {
        result_num = result_num + 1;
    }
    proof {
        lemma_matched_two(entity@.types, archive(), reparse_point_or_symlink());
    }
    result_num == 2
}

/// Whether the entity is a directory, an archive and a reparse point or
/// symbolic link at once.
pub fn is_directory_and_archive_and_reparse_point_or_symlink(entity: &WindowsEntity) -> (b: bool)
    ensures
        b == entity@.is_directory_and_archive_and_reparse_point_or_symlink(),
        b == (entity@.is_directory() && entity@.is_archive()
            && entity@.is_reparse_point_or_symlink()),
{
    let mut result_num: u8 = 0;
    if has_tag(&entity.types, "archive") {
        result_num = result_num + 1;
    }
    if has_tag(&entity.types, "directory") {
        result_num = result_num + 1;
    }
    if has_tag(&entity.types, "reparse-point-or-symlink") {
        result_num = result_num + 1;
    }
    proof {
        lemma_matched_three(entity@.types, archive(), directory(), reparse_point_or_symlink());
    }
    result_num == 3
}

} // verus!
