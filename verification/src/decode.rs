//! Decoding of assembled records into entities: each property line of a record
//! is recognised by its label, and its value is stored in the field of that label.

use crate::entity::{EntityView, WindowsEntity};
use crate::flags::{
    check_entity_permissions,
    lemma_type_tags_distinct,
    lemma_types_among_permissions,
    permission_tags,
    type_tags,
};
use crate::number::{parse_i32, parsed_i32};
use crate::split::{find, lemma_find_sound, lemma_pieces_nonempty, occurs_at, pieces, split};
use crate::text::{is_space, lemma_trimmed_is_part, same_text, substring, trim, trimmed};
use vstd::prelude::*;
use vstd::string::{StrSliceExecFns, StringExecFns};

verus! {

/// The labels of the property lines that are read.
#[derive(Clone, Copy, Debug, PartialEq, Eq, Structural)]
pub enum Label {
    Mode,
    Owner,
    LastWriteTime,
    Name,
    CreationTime,
    Attributes,
    LastAccessTime,
    Length,
    FullName,
}

impl Label {
    /// The label as it is written at the start of a line: the name, padded
    /// with blanks to fifteen characters, and a colon.
    pub open spec fn text(self) -> Seq<char> {
        match self {
            Label::Mode => "Mode           :"@,
            Label::Owner => "Owner          :"@,
            Label::LastWriteTime => "LastWriteTime  :"@,
            Label::Name => "Name           :"@,
            Label::CreationTime => "CreationTime   :"@,
            Label::Attributes => "Attributes     :"@,
            Label::LastAccessTime => "LastAccessTime :"@,
            Label::Length => "Length         :"@,
            Label::FullName => "FullName       :"@,
        }
    }
}

/// The first seventeen characters of a line, or all of a shorter line.
pub open spec fn head(line: Seq<char>) -> Seq<char> {
    if line.len() <= 17 {
        line
    } else {
        line.take(17)
    }
}

/// The label of a line: the one that the line's head is, white space around
/// it aside. A line whose head is no label has none.
pub open spec fn label_of(line: Seq<char>) -> Option<Label> {
    let start = trimmed(head(line));
    if start == Label::Mode.text() {
        Some(Label::Mode)
    } else if start == Label::Owner.text() {
        Some(Label::Owner)
    } else if start == Label::LastWriteTime.text() {
        Some(Label::LastWriteTime)
    } else if start == Label::Name.text() {
        Some(Label::Name)
    } else if start == Label::CreationTime.text() {
        Some(Label::CreationTime)
    } else if start == Label::Attributes.text() {
        Some(Label::Attributes)
    } else if start == Label::LastAccessTime.text() {
        Some(Label::LastAccessTime)
    } else if start == Label::Length.text() {
        Some(Label::Length)
    } else if start == Label::FullName.text() {
        Some(Label::FullName)
    } else {
        None
    }
}

/// The value of a property line: what stands between the first blank-and-colon
/// and the next one, or the end of the line, without the white space around it.
/// A line without a blank-and-colon has the empty value.
pub open spec fn value_of(line: Seq<char>) -> Seq<char> {
    let parts = pieces(line, " :"@);
    if parts.len() >= 2 {
        trimmed(parts[1])
    } else {
        Seq::empty()
    }
}

/// The value that the lines give to `label`: that of the last line with this
/// label, and the empty value where no line has it.
pub open spec fn field(lines: Seq<Seq<char>>, label: Label) -> Seq<char>
    decreases lines.len(),
{
    if lines.len() == 0 {
        Seq::empty()
    } else if label_of(lines.last()) == Some(label) {
        value_of(lines.last())
    } else {
        field(lines.drop_last(), label)
    }
}

/// The size that a length value gives: the number it writes, and 0 where it
/// writes none that fits in 32 bits.
pub open spec fn size_of(value: Seq<char>) -> int {
    match parsed_i32(value) {
        Some(size) => size as int,
        None => 0,
    }
}

/// The entity that the property lines of one record describe.
pub open spec fn decoded(lines: Seq<Seq<char>>) -> EntityView {
    EntityView {
        mode: permission_tags(field(lines, Label::Mode)),
        types: type_tags(field(lines, Label::Mode)),
        owner: field(lines, Label::Owner),
        last_write_time: field(lines, Label::LastWriteTime),
        name: field(lines, Label::Name),
        creation_time: field(lines, Label::CreationTime),
        attributes: field(lines, Label::Attributes),
        last_access_time: field(lines, Label::LastAccessTime),
        size: size_of(field(lines, Label::Length)),
        absolute_path: field(lines, Label::FullName),
    }
}

/// The entities that assembled records describe, one for each record.
pub open spec fn decoded_records(records: Seq<Seq<char>>) -> Seq<EntityView> {
    records.map_values(|record: Seq<char>| decoded(pieces(record, "&*&"@)))
}

/// The label of a line, if it has one.
pub fn classify(line: &str) -> (out: Option<Label>)
    ensures
        out == label_of(line@),
{
    let start = if line.unicode_len() <= 17 {
        line
    } else {
        substring(line, 0, 17)
    };
    let start = trim(start);
    if same_text(start, "Mode           :") {
        Some(Label::Mode)
    } else if same_text(start, "Owner          :") {
        Some(Label::Owner)
    } else if same_text(start, "LastWriteTime  :") {
        Some(Label::LastWriteTime)
    } else if same_text(start, "Name           :") {
        Some(Label::Name)
    } else if same_text(start, "CreationTime   :") {
        Some(Label::CreationTime)
    } else if same_text(start, "Attributes     :") {
        Some(Label::Attributes)
    } else if same_text(start, "LastAccessTime :") {
        Some(Label::LastAccessTime)
    } else if same_text(start, "Length         :") {
        Some(Label::Length)
    } else if same_text(start, "FullName       :") {
        Some(Label::FullName)
    } else {
        None
    }
}

/// The value of a property line.
pub fn field_value<'a>(line: &'a str) -> (out: &'a str)
    ensures
        out@ == value_of(line@),
{
    let parts = split(line, " :");
    if parts.len() >= 2 {
        trim(parts[1])
    } else {
        proof {
            reveal_strlit("");
        }
        let nothing = "";
        assert(nothing@ =~= Seq::<char>::empty());
        nothing
    }
}

/// Owned copies of the given texts.
fn owned_texts(texts: &Vec<&str>) -> (out: Vec<String>)
    ensures
        out.deep_view() == texts.deep_view(),
{
    let mut out: Vec<String> = Vec::new();
    let mut i: usize = 0;
    while i < texts.len()
        invariant
            i <= texts.len(),
            out.deep_view() == texts.deep_view().take(i as int),
        decreases texts.len() - i,
    {
        let ghost before = out.deep_view();
        out.push(String::from_str(texts[i]));
        assert(out.deep_view() =~= before.push(texts[i as int]@));
        assert(texts.deep_view().take(i + 1) =~= before.push(texts[i as int]@));
        i += 1;
    }
    assert(texts.deep_view().take(texts.len() as int) =~= texts.deep_view());
    out
}

/// Builds the entity that the property lines of one record describe. A line
/// with a label that is not known is passed over; a label that no line has
/// leaves its field empty, or 0; a length that is no number gives the size 0.
pub fn create_windows_entity(lines: Vec<&str>) -> (entity: WindowsEntity)
    ensures
        entity@ == decoded(lines.deep_view()),
        entity@.well_formed(),
        entity@.types.no_duplicates(),
{
    proof {
        lemma_decoded_well_formed(lines.deep_view());
        lemma_type_tags_distinct(field(lines.deep_view(), Label::Mode));
    }
    let mut mode = String::new();
    let mut owner = String::new();
    let mut last_write_time = String::new();
    let mut name = String::new();
    let mut creation_time = String::new();
    let mut attributes = String::new();
    let mut last_access_time = String::new();
    let mut size: i32 = 0;
    let mut full_name = String::new();
    let mut i: usize = 0;
    while i < lines.len()
        invariant
            i <= lines.len(),
            mode@ == field(lines.deep_view().take(i as int), Label::Mode),
            owner@ == field(lines.deep_view().take(i as int), Label::Owner),
            last_write_time@ == field(lines.deep_view().take(i as int), Label::LastWriteTime),
            name@ == field(lines.deep_view().take(i as int), Label::Name),
            creation_time@ == field(lines.deep_view().take(i as int), Label::CreationTime),
            attributes@ == field(lines.deep_view().take(i as int), Label::Attributes),
            last_access_time@ == field(lines.deep_view().take(i as int), Label::LastAccessTime),
            size == size_of(field(lines.deep_view().take(i as int), Label::Length)),
            full_name@ == field(lines.deep_view().take(i as int), Label::FullName),
        decreases lines.len() - i,
    {
        let line = lines[i];
        proof {
            let read = lines.deep_view().take(i + 1);
            assert(read.drop_last() =~= lines.deep_view().take(i as int));
            assert(read.last() == line@);
        }
        match classify(line) {
            Some(Label::Mode) => {
                mode = String::from_str(field_value(line));
            },
            Some(Label::Owner) => {
                owner = String::from_str(field_value(line));
            },
            Some(Label::LastWriteTime) => {
                last_write_time = String::from_str(field_value(line));
            },
            Some(Label::Name) => {
                name = String::from_str(field_value(line));
            },
            Some(Label::CreationTime) => {
                creation_time = String::from_str(field_value(line));
            },
            Some(Label::Attributes) => {
                attributes = String::from_str(field_value(line));
            },
            Some(Label::LastAccessTime) => {
                last_access_time = String::from_str(field_value(line));
            },
            Some(Label::Length) => {
                size =
                match parse_i32(field_value(line)) {
                    Some(number) => number,
                    None => 0,
                };
            },
            Some(Label::FullName) => {
                full_name = String::from_str(field_value(line));
            },
            None => {},
        }
        i += 1;
    }
    assert(lines.deep_view().take(lines.len() as int) =~= lines.deep_view());
    let entity_permissions = check_entity_permissions(mode.as_str());
    WindowsEntity {
        mode: owned_texts(&entity_permissions.permissions),
        types: owned_texts(&entity_permissions.entity_types),
        owner,
        last_write_time,
        name,
        creation_time,
        attributes,
        last_access_time,
        size,
        absolute_path: full_name,
    }
}

/// Decodes each assembled record into its entity.
pub fn split_the_formatted_output(formatted_output: Vec<String>) -> (out: Vec<WindowsEntity>)
    ensures
        out.deep_view() == decoded_records(formatted_output.deep_view()),
        forall|i: int| 0 <= i < out.len() ==> (#[trigger] out[i])@.well_formed(),
{
    let mut final_vector: Vec<WindowsEntity> = Vec::new();
    let mut i: usize = 0;
    while i < formatted_output.len()
        invariant
            i <= formatted_output.len(),
            final_vector.deep_view() == decoded_records(formatted_output.deep_view()).take(
                i as int,
            ),
            forall|j: int|
                0 <= j < final_vector.len() ==> (#[trigger] final_vector[j])@.well_formed(),
        decreases formatted_output.len() - i,
    {
        let ghost before = final_vector.deep_view();
        let split_the_line = split(formatted_output[i].as_str(), "&*&");
        let windows_entity = create_windows_entity(split_the_line);
        final_vector.push(windows_entity);
        proof {
            let all = decoded_records(formatted_output.deep_view());
            assert(final_vector.deep_view() =~= before.push(windows_entity@));
            assert(all.take(i + 1) =~= all.take(i as int).push(windows_entity@));
        }
        i += 1;
    }
    proof {
        let all = decoded_records(formatted_output.deep_view());
        assert(all.take(formatted_output.len() as int) =~= all);
    }
    final_vector
}

/// In a decoded entity the type tags are those among the permission tags.
pub proof fn lemma_decoded_well_formed(lines: Seq<Seq<char>>)
    ensures
        decoded(lines).well_formed(),
{
    lemma_types_among_permissions(field(lines, Label::Mode));
}

/// A length value that writes no number of 32 bits gives the size 0, and so
/// does a record without a length.
pub proof fn lemma_unreadable_length_is_zero(lines: Seq<Seq<char>>)
    requires
        parsed_i32(field(lines, Label::Length)) is None,
    ensures
        decoded(lines).size == 0,
{
}

/// Each entity is decoded from its own record alone: the entities of two
/// batches put together are those of the first followed by those of the second.
pub proof fn lemma_records_decoded_apart(first: Seq<Seq<char>>, second: Seq<Seq<char>>)
    ensures
        decoded_records(first + second) == decoded_records(first) + decoded_records(second),
{
    assert(decoded_records(first + second) =~= decoded_records(first) + decoded_records(second));
}

/// A line with a label has a value part, since the label itself ends in a
/// blank and a colon: its value is what follows them.
pub proof fn lemma_labelled_line_has_value(line: Seq<char>)
    requires
        label_of(line) is Some,
    ensures
        pieces(line, " :"@).len() >= 2,
        value_of(line) == trimmed(pieces(line, " :"@)[1]),
{
    reveal_strlit(" :");
    reveal_strlit("Mode           :");
    reveal_strlit("Owner          :");
    reveal_strlit("LastWriteTime  :");
    reveal_strlit("Name           :");
    reveal_strlit("CreationTime   :");
    reveal_strlit("Attributes     :");
    reveal_strlit("LastAccessTime :");
    reveal_strlit("Length         :");
    reveal_strlit("FullName       :");
    let mark = " :"@;
    let label = label_of(line)->0.text();
    let start = head(line);
    let (from, to) = lemma_trimmed_is_part(start);
    assert(start.subrange(from, to) == label);
    assert(label.len() == 16 && label[14] == ' ' && label[15] == ':');
    assert(start.subrange(from, to)[14] == line[from + 14]);
    assert(start.subrange(from, to)[15] == line[from + 15]);
    assert(line.subrange(from + 14, from + 16) =~= mark);
    assert(occurs_at(line, mark, from + 14));
    lemma_find_sound(line, mark);
    let at = find(line, mark)->0;
    lemma_pieces_nonempty(line.skip(at + 2), mark);
}

/// What every label is made of: sixteen characters, of which the first is a
/// letter, the last two are a blank and the colon, and none before the last
/// is a colon or an ampersand.
pub proof fn lemma_label_characters(label: Label, k: int)
    requires
        0 <= k < 16,
    ensures
        label.text().len() == 16,
        !is_space(label.text()[0]),
        label.text()[14] == ' ',
        label.text()[15] == ':',
        label.text()[k] != '&',
        k < 15 ==> label.text()[k] != ':',
{
    reveal_strlit("Mode           :");
    reveal_strlit("Owner          :");
    reveal_strlit("LastWriteTime  :");
    reveal_strlit("Name           :");
    reveal_strlit("CreationTime   :");
    reveal_strlit("Attributes     :");
    reveal_strlit("LastAccessTime :");
    reveal_strlit("Length         :");
    reveal_strlit("FullName       :");
    assert(k == 0 || k == 1 || k == 2 || k == 3 || k == 4 || k == 5 || k == 6 || k == 7 || k == 8
        || k == 9 || k == 10 || k == 11 || k == 12 || k == 13 || k == 14 || k == 15);
}

/// No two labels are written alike.
pub proof fn lemma_labels_differ(a: Label, b: Label)
    requires
        a != b,
    ensures
        a.text() != b.text(),
{
    reveal_strlit("Mode           :");
    reveal_strlit("Owner          :");
    reveal_strlit("LastWriteTime  :");
    reveal_strlit("Name           :");
    reveal_strlit("CreationTime   :");
    reveal_strlit("Attributes     :");
    reveal_strlit("LastAccessTime :");
    reveal_strlit("Length         :");
    reveal_strlit("FullName       :");
    assert(a.text()[0] != b.text()[0] || a.text()[4] != b.text()[4]);
}

/// A line whose head, white space aside, is a label has that label.
pub proof fn lemma_label_of_head(line: Seq<char>, label: Label)
    requires
        trimmed(head(line)) == label.text(),
    ensures
        label_of(line) == Some(label),
{
    assert forall|other: Label| other != label implies other.text() != label.text() by {
        lemma_labels_differ(other, label);
    }
}

} // verus!
