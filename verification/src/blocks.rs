//! What well-formed text decodes to: a block of nine property lines, each a
//! label, a blank and a value, gives an entity that holds the values.

use crate::decode::{
    decoded,
    decoded_records,
    field,
    head,
    label_of,
    lemma_label_characters,
    lemma_label_of_head,
    size_of,
    value_of,
    Label,
};
use crate::entity::EntityView;
use crate::flags::{
    directory,
    lemma_first_occurrences_fixed,
    lemma_tags_additive,
    lemma_tags_of_one_flag,
    lemma_type_tags_distinct,
    permission_tags,
    type_tags,
};
use crate::number::{all_digits, digits_value, is_digit, lemma_digits_value_nonnegative};
use crate::records::{
    assembled,
    lemma_assembled_empty_line,
    lemma_assembled_group,
    lemma_cleanup_changes_no_record,
    non_empty,
    record,
    separator,
};
use crate::split::{lemma_find_absent, lemma_find_leftmost, occurs_at, pieces};
use crate::text::{
    lemma_trimmed_end_is_take,
    lemma_trimmed_ignores_blanks,
    lemma_trimmed_start_is_skip,
    trimmed,
};
use vstd::prelude::*;

verus! {

/// Whether `pat` stands nowhere in `s`.
pub open spec fn free_of(s: Seq<char>, pat: Seq<char>) -> bool {
    forall|j: int| !occurs_at(s, pat, j)
}

/// The blank that stands before every piece of a record but the first.
pub open spec fn blank() -> Seq<char> {
    seq![' ']
}

/// The pieces into which a record of the given lines falls at the separator
/// mark, where `first` stands before the record: each line with a blank
/// after it and, but for the first, a blank before it; and one last piece
/// without a line.
pub open spec fn padded_pieces(first: Seq<char>, lines: Seq<Seq<char>>) -> Seq<Seq<char>> {
    Seq::new(
        lines.len() + 1,
        |i: int|
            {
                let before = if i == 0 {
                    first
                } else {
                    blank()
                };
                if i < lines.len() {
                    before + lines[i] + blank()
                } else {
                    before
                }
            },
    )
}

/// A record starts with its first line and the separator.
pub proof fn lemma_record_first(line: Seq<char>, rest: Seq<Seq<char>>)
    ensures
        record(seq![line] + rest) == line + separator() + record(rest),
    decreases rest.len(),
{
    let all = seq![line] + rest;
    if rest.len() == 0 {
        assert(all.drop_last() =~= Seq::<Seq<char>>::empty());
        assert(record(Seq::<Seq<char>>::empty()) =~= Seq::<char>::empty());
        assert(record(all) =~= line + separator() + record(rest));
    } else {
        lemma_record_first(line, rest.drop_last());
        assert(all.drop_last() =~= seq![line] + rest.drop_last());
        assert(all.last() == rest.last());
        assert(record(all) =~= line + separator() + record(rest));
    }
}

/// Splitting a record at the separator mark gives its lines back, each with
/// the blanks of the separator around it, where no line holds the mark itself.
pub proof fn lemma_pieces_of_record(first: Seq<char>, lines: Seq<Seq<char>>)
    requires
        forall|k: int| 0 <= k < first.len() ==> first[k] == ' ',
        forall|i: int| 0 <= i < lines.len() ==> free_of(#[trigger] lines[i], "&*&"@),
    ensures
        pieces(first + record(lines), "&*&"@) == padded_pieces(first, lines),
    decreases lines.len(),
{
    reveal_strlit("&*&");
    reveal_strlit(" &*& ");
    let mark = "&*&"@;
    if lines.len() == 0 {
        let text = first + record(lines);
        assert(text =~= first);
        assert forall|j: int| 0 <= j <= text.len() implies !occurs_at(text, mark, j) by {
            if occurs_at(text, mark, j) {
                assert(text.subrange(j, j + 3)[0] == text[j]);
            }
        }
        lemma_find_absent(text, mark);
        assert(padded_pieces(first, lines) =~= seq![first]);
    } else {
        let line = lines[0];
        let rest = lines.drop_first();
        assert(seq![line] + rest =~= lines);
        lemma_record_first(line, rest);
        let text = first + record(lines);
        let end = (first.len() + line.len()) as int;
        let at = end + 1;
        assert(text =~= first + line + separator() + record(rest));
        assert(text.subrange(at, at + 3) =~= mark);
        assert forall|j: int| 0 <= j < at implies !occurs_at(text, mark, j) by {
            if occurs_at(text, mark, j) {
                let part = text.subrange(j, j + 3);
                assert(part[0] == text[j] && part[1] == text[j + 1] && part[2] == text[j + 2]);
                if j < first.len() {
                    assert(text[j] == first[j]);
                } else if j + 3 <= end {
                    assert(line.subrange(j - first.len(), j - first.len() + 3) =~= part);
                    assert(free_of(lines[0], mark));
                    assert(occurs_at(lines[0], mark, j - first.len()));
                } else {
                    assert(text[end] == ' ');
                }
            }
        }
        lemma_find_leftmost(text, mark, at);
        assert(text.take(at) =~= first + line + blank());
        assert(text.skip(at + 3) =~= blank() + record(rest));
        assert forall|i: int| 0 <= i < rest.len() implies free_of(#[trigger] rest[i], mark) by {
            assert(rest[i] == lines[i + 1]);
        }
        lemma_pieces_of_record(blank(), rest);
        assert(seq![first + line + blank()] + padded_pieces(blank(), rest) =~= padded_pieces(
            first,
            lines,
        ));
    }
}

/// A property line: the label, a blank, and the value.
pub open spec fn property_line(label: Label, value: Seq<char>) -> Seq<char> {
    label.text() + blank() + value
}

/// Whether a value can be read back from a record: it holds the separator
/// mark nowhere, and between the blanks around it there is no blank followed
/// by a colon.
pub open spec fn plain(value: Seq<char>) -> bool {
    free_of(value, "&*&"@) && free_of(blank() + value + blank(), " :"@)
}

/// A property line holds the separator mark nowhere, where its value holds
/// it nowhere.
pub proof fn lemma_property_line_free(label: Label, value: Seq<char>)
    requires
        free_of(value, "&*&"@),
    ensures
        free_of(property_line(label, value), "&*&"@),
{
    reveal_strlit("&*&");
    let mark = "&*&"@;
    let line = property_line(label, value);
    lemma_label_characters(label, 0);
    assert forall|j: int| !occurs_at(line, mark, j) by {
        if occurs_at(line, mark, j) {
            let part = line.subrange(j, j + 3);
            assert(part[0] == line[j]);
            if j < 16 {
                lemma_label_characters(label, j);
                assert(line[j] == label.text()[j]);
            } else if j == 16 {
                assert(line[j] == ' ');
            } else {
                assert(value.subrange(j - 17, j - 17 + 3) =~= part);
                assert(occurs_at(value, mark, j - 17));
            }
        }
    }
}

/// A property line inside a record, with the blank of the separator after it
/// and perhaps one before it, has its label, and its value without the white
/// space around it.
pub proof fn lemma_padded_line(before: Seq<char>, label: Label, value: Seq<char>)
    requires
        before == Seq::<char>::empty() || before == blank(),
        free_of(blank() + value + blank(), " :"@),
    ensures
        label_of(before + property_line(label, value) + blank()) == Some(label),
        value_of(before + property_line(label, value) + blank()) == trimmed(value),
{
    reveal_strlit(" :");
    let mark = " :"@;
    let text = label.text();
    let piece = before + property_line(label, value) + blank();
    lemma_label_characters(label, 0);
    assert(piece.len() == before.len() + 18 + value.len());
    let start = head(piece);
    assert(start == piece.take(17));
    if before.len() == 0 {
        assert(start =~= text + blank());
        lemma_trimmed_start_is_skip(start, 0);
        assert(start.skip(0) =~= start);
        lemma_trimmed_end_is_take(start, 16);
        assert(start.take(16) =~= text);
    } else {
        assert(start =~= blank() + text);
        lemma_trimmed_start_is_skip(start, 1);
        assert(start.skip(1) =~= text);
        lemma_trimmed_end_is_take(text, 16);
        assert(text.take(16) =~= text);
    }
    lemma_label_of_head(piece, label);
    let at = before.len() as int + 14;
    assert(piece.subrange(at, at + 2) =~= mark);
    assert forall|j: int| 0 <= j < at implies !occurs_at(piece, mark, j) by {
        if occurs_at(piece, mark, j) {
            let part = piece.subrange(j, j + 2);
            assert(part[1] == piece[j + 1]);
            if j + 1 < before.len() {
                assert(piece[j + 1] == ' ');
            } else {
                lemma_label_characters(label, j + 1 - before.len());
                assert(piece[j + 1] == text[j + 1 - before.len()]);
            }
        }
    }
    lemma_find_leftmost(piece, mark, at);
    let wide = blank() + value + blank();
    assert(piece.skip(at + 2) =~= wide);
    assert forall|j: int| 0 <= j <= wide.len() implies !occurs_at(wide, mark, j) by {}
    lemma_find_absent(wide, mark);
    assert(pieces(wide, mark) =~= seq![wide]);
    assert(pieces(piece, mark) =~= seq![piece.take(at), wide]);
    lemma_trimmed_ignores_blanks(value);
}

/// A lone blank is no property line.
pub proof fn lemma_blank_has_no_label()
    ensures
        label_of(blank()) is None,
{
    let text = blank();
    assert(head(text) == text);
    lemma_trimmed_start_is_skip(text, 1);
    assert(text.skip(1) =~= Seq::<char>::empty());
    assert forall|label: Label| trimmed(head(text)) != label.text() by {
        lemma_label_characters(label, 0);
    }
}

/// Where one line has a label and no later line has it, that line gives the
/// label its value.
pub proof fn lemma_field_of_last(lines: Seq<Seq<char>>, i: int, label: Label)
    requires
        0 <= i < lines.len(),
        label_of(lines[i]) == Some(label),
        forall|j: int| i < j < lines.len() ==> label_of(#[trigger] lines[j]) != Some(label),
    ensures
        field(lines, label) == value_of(lines[i]),
    decreases lines.len(),
{
    if i < lines.len() - 1 {
        let rest = lines.drop_last();
        assert(lines.last() == lines[lines.len() - 1]);
        assert forall|j: int| i < j < rest.len() implies label_of(#[trigger] rest[j]) != Some(
            label,
        ) by {
            assert(rest[j] == lines[j]);
        }
        lemma_field_of_last(rest, i, label);
    }
}

/// The nine values of one entity, as they stand in the text.
pub struct Properties {
    pub mode: Seq<char>,
    pub owner: Seq<char>,
    pub last_write_time: Seq<char>,
    pub name: Seq<char>,
    pub creation_time: Seq<char>,
    pub attributes: Seq<char>,
    pub last_access_time: Seq<char>,
    pub length: Seq<char>,
    pub full_name: Seq<char>,
}

impl Properties {
    /// The block of the nine property lines, in the order of the text.
    pub open spec fn lines(self) -> Seq<Seq<char>> {
        seq![
            property_line(Label::Mode, self.mode),
            property_line(Label::Owner, self.owner),
            property_line(Label::LastWriteTime, self.last_write_time),
            property_line(Label::Name, self.name),
            property_line(Label::CreationTime, self.creation_time),
            property_line(Label::Attributes, self.attributes),
            property_line(Label::LastAccessTime, self.last_access_time),
            property_line(Label::Length, self.length),
            property_line(Label::FullName, self.full_name),
        ]
    }

    /// Whether each of the nine values can be read back from a record.
    pub open spec fn plain(self) -> bool {
        &&& plain(self.mode)
        &&& plain(self.owner)
        &&& plain(self.last_write_time)
        &&& plain(self.name)
        &&& plain(self.creation_time)
        &&& plain(self.attributes)
        &&& plain(self.last_access_time)
        &&& plain(self.length)
        &&& plain(self.full_name)
    }

    /// The entity that holds the values: each text without the white space
    /// around it, the tags of the mode, and the number of the length.
    pub open spec fn entity(self) -> EntityView {
        EntityView {
            mode: permission_tags(trimmed(self.mode)),
            types: type_tags(trimmed(self.mode)),
            owner: trimmed(self.owner),
            last_write_time: trimmed(self.last_write_time),
            name: trimmed(self.name),
            creation_time: trimmed(self.creation_time),
            attributes: trimmed(self.attributes),
            last_access_time: trimmed(self.last_access_time),
            size: size_of(trimmed(self.length)),
            absolute_path: trimmed(self.full_name),
        }
    }
}

/// The pieces of the record of a block: the nine lines with their labels and
/// values, and a last piece without a label.
pub proof fn lemma_block_pieces(values: Properties)
    requires
        values.plain(),
    ensures
        ({
            let got = pieces(record(values.lines()), "&*&"@);
            &&& got.len() == 10
            &&& label_of(got[0]) == Some(Label::Mode)
            &&& label_of(got[1]) == Some(Label::Owner)
            &&& label_of(got[2]) == Some(Label::LastWriteTime)
            &&& label_of(got[3]) == Some(Label::Name)
            &&& label_of(got[4]) == Some(Label::CreationTime)
            &&& label_of(got[5]) == Some(Label::Attributes)
            &&& label_of(got[6]) == Some(Label::LastAccessTime)
            &&& label_of(got[7]) == Some(Label::Length)
            &&& label_of(got[8]) == Some(Label::FullName)
            &&& label_of(got[9]) is None
            &&& value_of(got[0]) == trimmed(values.mode)
            &&& value_of(got[1]) == trimmed(values.owner)
            &&& value_of(got[2]) == trimmed(values.last_write_time)
            &&& value_of(got[3]) == trimmed(values.name)
            &&& value_of(got[4]) == trimmed(values.creation_time)
            &&& value_of(got[5]) == trimmed(values.attributes)
            &&& value_of(got[6]) == trimmed(values.last_access_time)
            &&& value_of(got[7]) == trimmed(values.length)
            &&& value_of(got[8]) == trimmed(values.full_name)
        }),
{
    let lines = values.lines();
    let none = Seq::<char>::empty();
    lemma_property_line_free(Label::Mode, values.mode);
    lemma_property_line_free(Label::Owner, values.owner);
    lemma_property_line_free(Label::LastWriteTime, values.last_write_time);
    lemma_property_line_free(Label::Name, values.name);
    lemma_property_line_free(Label::CreationTime, values.creation_time);
    lemma_property_line_free(Label::Attributes, values.attributes);
    lemma_property_line_free(Label::LastAccessTime, values.last_access_time);
    lemma_property_line_free(Label::Length, values.length);
    lemma_property_line_free(Label::FullName, values.full_name);
    lemma_pieces_of_record(none, lines);
    assert(none + record(lines) =~= record(lines));
    lemma_padded_line(none, Label::Mode, values.mode);
    lemma_padded_line(blank(), Label::Owner, values.owner);
    lemma_padded_line(blank(), Label::LastWriteTime, values.last_write_time);
    lemma_padded_line(blank(), Label::Name, values.name);
    lemma_padded_line(blank(), Label::CreationTime, values.creation_time);
    lemma_padded_line(blank(), Label::Attributes, values.attributes);
    lemma_padded_line(blank(), Label::LastAccessTime, values.last_access_time);
    lemma_padded_line(blank(), Label::Length, values.length);
    lemma_padded_line(blank(), Label::FullName, values.full_name);
    lemma_blank_has_no_label();
}

/// A block of nine property lines with plain values, assembled into a record
/// and decoded, gives the entity that holds the values.
pub proof fn lemma_block_decoded(values: Properties)
    requires
        values.plain(),
    ensures
        decoded(pieces(record(values.lines()), "&*&"@)) == values.entity(),
{
    let got = pieces(record(values.lines()), "&*&"@);
    lemma_block_pieces(values);
    lemma_field_of_last(got, 0, Label::Mode);
    lemma_field_of_last(got, 1, Label::Owner);
    lemma_field_of_last(got, 2, Label::LastWriteTime);
    lemma_field_of_last(got, 3, Label::Name);
    lemma_field_of_last(got, 4, Label::CreationTime);
    lemma_field_of_last(got, 5, Label::Attributes);
    lemma_field_of_last(got, 6, Label::LastAccessTime);
    lemma_field_of_last(got, 7, Label::Length);
    lemma_field_of_last(got, 8, Label::FullName);
}

/// Every line of a block has its label, so none is empty.
pub proof fn lemma_block_lines(values: Properties)
    ensures
        values.lines().len() == 9,
        forall|i: int| 0 <= i < 9 ==> (#[trigger] values.lines()[i]).len() > 0,
{
    lemma_label_characters(Label::Mode, 0);
    lemma_label_characters(Label::Owner, 0);
    lemma_label_characters(Label::LastWriteTime, 0);
    lemma_label_characters(Label::Name, 0);
    lemma_label_characters(Label::CreationTime, 0);
    lemma_label_characters(Label::Attributes, 0);
    lemma_label_characters(Label::LastAccessTime, 0);
    lemma_label_characters(Label::Length, 0);
    lemma_label_characters(Label::FullName, 0);
}

/// The lines of the given blocks, with an empty line after each block.
pub open spec fn block_lines(blocks: Seq<Properties>) -> Seq<Seq<char>>
    decreases blocks.len(),
{
    if blocks.len() == 0 {
        Seq::empty()
    } else {
        block_lines(blocks.drop_last()) + blocks.last().lines() + seq![Seq::<char>::empty()]
    }
}

/// Blocks with plain values, each followed by an empty line, are decoded
/// into one entity for each block, in order, and each entity holds the
/// values of its own block.
pub proof fn lemma_blocks_decoded(blocks: Seq<Properties>)
    requires
        forall|i: int| 0 <= i < blocks.len() ==> (#[trigger] blocks[i]).plain(),
    ensures
        decoded_records(assembled(block_lines(blocks))) == blocks.map_values(
            |values: Properties| values.entity(),
        ),
        non_empty(block_lines(blocks)).len() == 9 * blocks.len(),
    decreases blocks.len(),
{
    let entities = blocks.map_values(|values: Properties| values.entity());
    if blocks.len() == 0 {
        assert(non_empty(block_lines(blocks)) =~= Seq::empty());
        assert(decoded_records(assembled(block_lines(blocks))) =~= entities);
    } else {
        let rest = blocks.drop_last();
        let last = blocks.last();
        let before = block_lines(rest);
        assert forall|i: int| 0 <= i < rest.len() implies (#[trigger] rest[i]).plain() by {
            assert(rest[i] == blocks[i]);
        }
        lemma_blocks_decoded(rest);
        lemma_block_lines(last);
        lemma_assembled_group(before, last.lines());
        lemma_assembled_empty_line(before + last.lines());
        lemma_block_decoded(last);
        let records = assembled(before);
        assert(assembled(block_lines(blocks)) == records.push(record(last.lines())));
        assert(decoded_records(records.push(record(last.lines()))) =~= decoded_records(
            records,
        ).push(last.entity()));
        assert(entities =~= rest.map_values(|values: Properties| values.entity()).push(
            last.entity(),
        ));
    }
}

/// Two blocks with plain values and an empty line between them are decoded
/// into two entities, each holding the values of its own block.
pub proof fn lemma_two_blocks_decoded(first: Properties, second: Properties)
    requires
        first.plain(),
        second.plain(),
    ensures
        decoded_records(
            assembled(non_empty(first.lines() + seq![Seq::<char>::empty()] + second.lines())),
        ) == seq![first.entity(), second.entity()],
{
    let none = Seq::<Seq<char>>::empty();
    let lines = first.lines() + seq![Seq::<char>::empty()] + second.lines();
    lemma_block_lines(first);
    lemma_block_lines(second);
    assert(non_empty(none) =~= none);
    assert(assembled(none) =~= none);
    lemma_assembled_group(none, first.lines());
    assert(none + first.lines() =~= first.lines());
    lemma_assembled_empty_line(first.lines());
    lemma_assembled_group(first.lines() + seq![Seq::<char>::empty()], second.lines());
    lemma_cleanup_changes_no_record(lines);
    lemma_block_decoded(first);
    lemma_block_decoded(second);
    let records = seq![record(first.lines()), record(second.lines())];
    assert(assembled(lines) =~= records);
    assert(decoded_records(records) =~= seq![first.entity(), second.entity()]);
}

/// Whether the text writes a size: decimal digits, at least one, for a
/// number that fits in 32 bits.
pub open spec fn decimal(text: Seq<char>) -> bool {
    text.len() > 0 && all_digits(text) && digits_value(text) <= i32::MAX
}

/// A length written in decimal digits gives its number as the size, and is
/// a plain value.
pub proof fn lemma_decimal_length(text: Seq<char>)
    requires
        decimal(text),
    ensures
        size_of(trimmed(text)) == digits_value(text),
        plain(text),
{
    reveal_strlit("&*&");
    reveal_strlit(" :");
    assert(is_digit(text[0]) && is_digit(text[text.len() - 1]));
    lemma_trimmed_start_is_skip(text, 0);
    assert(text.skip(0) =~= text);
    lemma_trimmed_end_is_take(text, text.len() as int);
    assert(text.take(text.len() as int) =~= text);
    lemma_digits_value_nonnegative(text);
    assert forall|j: int| !occurs_at(text, "&*&"@, j) by {
        if occurs_at(text, "&*&"@, j) {
            assert(text.subrange(j, j + 3)[0] == text[j]);
            assert(is_digit(text[j]));
        }
    }
    let wide = blank() + text + blank();
    assert forall|j: int| !occurs_at(wide, " :"@, j) by {
        if occurs_at(wide, " :"@, j) {
            assert(wide.subrange(j, j + 2)[1] == wide[j + 1]);
            if 0 < j + 1 <= text.len() {
                assert(wide[j + 1] == text[j]);
                assert(is_digit(text[j]));
            }
        }
    }
}

/// The mode of a plain directory is a plain value, and its only tag is that
/// of a directory.
pub proof fn lemma_directory_mode()
    ensures
        plain("d-----"@),
        permission_tags(trimmed("d-----"@)) == seq![directory()],
        type_tags(trimmed("d-----"@)) == seq![directory()],
{
    reveal_strlit("d-----");
    reveal_strlit("&*&");
    reveal_strlit(" :");
    let mode = "d-----"@;
    lemma_trimmed_start_is_skip(mode, 0);
    assert(mode.skip(0) =~= mode);
    lemma_trimmed_end_is_take(mode, 6);
    assert(mode.take(6) =~= mode);
    let dashes = seq!['-', '-', '-', '-', '-'];
    assert(mode =~= seq!['d'] + dashes);
    lemma_tags_of_one_flag('d');
    lemma_no_tags_of_dashes(dashes);
    lemma_tags_additive(seq!['d'], dashes);
    assert(permission_tags(mode) =~= seq![directory()]);
    assert(type_tags(seq!['d']) + type_tags(dashes) =~= seq![directory()]);
    lemma_type_tags_distinct(seq!['d']);
    lemma_first_occurrences_fixed(seq![directory()]);
    assert forall|j: int| !occurs_at(mode, "&*&"@, j) by {
        if occurs_at(mode, "&*&"@, j) {
            assert(mode.subrange(j, j + 3)[0] == mode[j]);
        }
    }
    let wide = blank() + mode + blank();
    assert forall|j: int| !occurs_at(wide, " :"@, j) by {
        if occurs_at(wide, " :"@, j) {
            assert(wide.subrange(j, j + 2)[1] == wide[j + 1]);
            if 0 < j + 1 <= mode.len() {
                assert(wide[j + 1] == mode[j]);
            }
        }
    }
}

/// A token of dashes has no tag.
pub proof fn lemma_no_tags_of_dashes(token: Seq<char>)
    requires
        forall|i: int| 0 <= i < token.len() ==> token[i] == '-',
    ensures
        permission_tags(token) == Seq::<Seq<char>>::empty(),
        type_tags(token) == Seq::<Seq<char>>::empty(),
    decreases token.len(),
{
    if token.len() > 0 {
        lemma_no_tags_of_dashes(token.drop_last());
    }
}

/// Two blocks with an empty line between them, each with plain values, the
/// mode of a plain directory and a length in decimal digits, are decoded into
/// two entities: each is a directory and nothing else, has the number of its
/// length as its size, and holds the other values of its own block.
pub proof fn lemma_two_directory_blocks(first: Properties, second: Properties)
    requires
        first.plain(),
        second.plain(),
        first.mode == "d-----"@,
        second.mode == "d-----"@,
        decimal(first.length),
        decimal(second.length),
    ensures
        ({
            let got = decoded_records(
                assembled(non_empty(first.lines() + seq![Seq::<char>::empty()] + second.lines())),
            );
            &&& got == seq![first.entity(), second.entity()]
            &&& got[0].types == seq![directory()] && got[1].types == seq![directory()]
            &&& got[0].mode == seq![directory()] && got[1].mode == seq![directory()]
            &&& got[0].type_tags() == set![directory()] && got[1].type_tags() == set![directory()]
            &&& got[0].size == digits_value(first.length)
            &&& got[1].size == digits_value(second.length)
        }),
{
    lemma_two_blocks_decoded(first, second);
    lemma_directory_mode();
    lemma_decimal_length(first.length);
    lemma_decimal_length(second.length);
    let one = seq![directory()];
    assert(one[0] == directory());
    assert(one.contains(directory()));
    assert(one.to_set() =~= set![directory()]);
}

} // verus!
