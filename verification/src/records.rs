//! From the captured text to assembled records: the header is dropped, empty
//! lines are removed, and every nine property lines are joined into one record.

use crate::split::{lines, lines_of};
use vstd::prelude::*;
use vstd::string::StringExecFns;

verus! {

/// The number of lines at the start of the text that describe no entity.
pub const HEADER_LINES: usize = 2;

/// The number of lines in one window of the text after the header.
pub const WINDOW_LINES: usize = 8;

/// The number of property lines that describe one entity.
pub const PROPERTIES_PER_ENTITY: usize = 9;

/// The lines that follow the header, all of them and in their order. There
/// are none where the text is shorter than its header.
pub open spec fn segmented(lines: Seq<Seq<char>>) -> Seq<Seq<char>> {
    if lines.len() < HEADER_LINES {
        Seq::empty()
    } else {
        lines.skip(HEADER_LINES as int)
    }
}

/// The lines that are not empty, in their order.
pub open spec fn non_empty(lines: Seq<Seq<char>>) -> Seq<Seq<char>> {
    lines.filter(|line: Seq<char>| line.len() > 0)
}

/// The token that ends each property line inside a record.
pub open spec fn separator() -> Seq<char> {
    " &*& "@
}

/// The record made of the given lines: each line followed by the separator.
pub open spec fn record(lines: Seq<Seq<char>>) -> Seq<char>
    decreases lines.len(),
{
    if lines.len() == 0 {
        Seq::empty()
    } else {
        record(lines.drop_last()) + lines.last() + separator()
    }
}

/// The records assembled from the lines: one for every full group of nine
/// lines that are not empty, in order. Lines left over after the last full
/// group belong to no record.
pub open spec fn assembled(lines: Seq<Seq<char>>) -> Seq<Seq<char>> {
    let kept = non_empty(lines);
    Seq::new(
        kept.len() / (PROPERTIES_PER_ENTITY as nat),
        |k: int|
            record(
                kept.subrange(
                    PROPERTIES_PER_ENTITY * k,
                    PROPERTIES_PER_ENTITY * k + PROPERTIES_PER_ENTITY,
                ),
            ),
    )
}

/// The lines of the captured text that follow its header. They are walked
/// window by window, eight lines at a time and fewer in the last window; the
/// windows follow one another without a gap, so every line after the header
/// is kept, the empty ones too, in the order of the text.
pub fn extract_the_output<'a>(output: &'a str) -> (individual_lines: Vec<&'a str>)
    ensures
        individual_lines.deep_view() == segmented(lines_of(output@)),
        lines_of(output@).len() < HEADER_LINES ==> individual_lines.len() == 0,
{
    let all = lines(output);
    let count = all.len();
    let mut individual_lines: Vec<&'a str> = Vec::new();
    if count < HEADER_LINES {
        assert(individual_lines.deep_view() =~= Seq::empty());
        return individual_lines;
    }
    let mut window_start: usize = HEADER_LINES;
    assert(individual_lines.deep_view() =~= all.deep_view().subrange(
        HEADER_LINES as int,
        window_start as int,
    ));
    while window_start < count
        invariant
            count == all.len(),
            HEADER_LINES <= window_start <= count,
            individual_lines.deep_view() == all.deep_view().subrange(
                HEADER_LINES as int,
                window_start as int,
            ),
        decreases count - window_start,
    {
        let window_end = if count - window_start > WINDOW_LINES {
            window_start + WINDOW_LINES
        } else {
            count
        };
        let mut index: usize = window_start;
        while index < window_end
            invariant
                count == all.len(),
                HEADER_LINES <= window_start <= index <= window_end <= count,
                individual_lines.deep_view() == all.deep_view().subrange(
                    HEADER_LINES as int,
                    index as int,
                ),
            decreases window_end - index,
        {
            let ghost before = individual_lines.deep_view();
            individual_lines.push(all[index]);
            assert(individual_lines.deep_view() =~= before.push(all[index as int]@));
            assert(all.deep_view().subrange(HEADER_LINES as int, index + 1) =~= before.push(
                all[index as int]@,
            ));
            index += 1;
        }
        window_start = window_end;
    }
    assert(all.deep_view().subrange(HEADER_LINES as int, count as int) =~= all.deep_view().skip(
        HEADER_LINES as int,
    ));
    individual_lines
}

/// The lines that are not empty, in their order.
pub fn empty_lines_cleanup<'a>(lines_of_output: Vec<&'a str>) -> (kept: Vec<&'a str>)
    ensures
        kept.deep_view() == non_empty(lines_of_output.deep_view()),
{
    let mut kept: Vec<&'a str> = Vec::new();
    let mut i: usize = 0;
    assert(lines_of_output.deep_view().take(0) =~= Seq::empty());
    while i < lines_of_output.len()
        invariant
            i <= lines_of_output.len(),
            kept.deep_view() == non_empty(lines_of_output.deep_view().take(i as int)),
        decreases lines_of_output.len() - i,
    {
        let line = lines_of_output[i];
        let ghost before = kept.deep_view();
        proof {
            let read = lines_of_output.deep_view().take(i as int);
            assert(lines_of_output.deep_view().take(i + 1) =~= read.push(line@));
            read.lemma_filter_push(line@, |line: Seq<char>| line.len() > 0);
        }
        if !line.is_empty() {
            kept.push(line);
            assert(kept.deep_view() =~= before.push(line@));
        }
        i += 1;
    }
    assert(lines_of_output.deep_view().take(lines_of_output.len() as int)
        =~= lines_of_output.deep_view());
    kept
}

/// What one more line does to the assembled records: an empty line, or one
/// that does not complete a group of nine, changes nothing; a line that
/// completes a group adds the record of that group.
pub proof fn lemma_assembled_push(lines: Seq<Seq<char>>, line: Seq<char>)
    ensures
        ({
            let kept = non_empty(lines);
            let more = non_empty(lines.push(line));
            &&& more == if line.len() > 0 {
                kept.push(line)
            } else {
                kept
            }
            &&& assembled(lines.push(line)) == if line.len() > 0 && more.len()
                % (PROPERTIES_PER_ENTITY as nat) == 0 {
                assembled(lines).push(record(more.skip(more.len() - PROPERTIES_PER_ENTITY)))
            } else {
                assembled(lines)
            }
        }),
{
    let kept = non_empty(lines);
    let more = non_empty(lines.push(line));
    lines.lemma_filter_push(line, |line: Seq<char>| line.len() > 0);
    if line.len() > 0 {
        let before = assembled(lines);
        let after = assembled(lines.push(line));
        assert forall|k: int| 0 <= k < before.len() implies #[trigger] after[k] == before[k] by {
            assert(more.subrange(9 * k, 9 * k + 9) =~= kept.subrange(9 * k, 9 * k + 9));
        }
        if more.len() % 9 == 0 {
            let last = before.len() as int;
            assert(more.subrange(9 * last, 9 * last + 9) =~= more.skip(more.len() - 9));
            assert(after =~= before.push(record(more.skip(more.len() - 9))));
        } else {
            assert(after =~= before);
        }
    }
}

/// The record of the last lines of a group grows by the line that is added
/// and the separator.
pub proof fn lemma_record_push(kept: Seq<Seq<char>>, count: int, line: Seq<char>)
    requires
        0 <= count <= kept.len(),
    ensures
        record(kept.push(line).skip(kept.len() - count)) == record(kept.skip(kept.len() - count))
            + line + separator(),
{
    let tail = kept.push(line).skip(kept.len() - count);
    assert(tail.drop_last() =~= kept.skip(kept.len() - count));
    assert(tail.last() == line);
}

/// Joins every nine lines that are not empty into one record, each line
/// followed by the separator. Empty lines are passed over, and lines left
/// over after the last full group are dropped.
pub fn format_the_output(lines_of_output: Vec<&str>) -> (final_vector: Vec<String>)
    ensures
        final_vector.deep_view() == assembled(lines_of_output.deep_view()),
        final_vector.len() == non_empty(lines_of_output.deep_view()).len() / (
        PROPERTIES_PER_ENTITY as nat),
{
    let mut entity_strings_collector = String::new();
    let mut final_vector: Vec<String> = Vec::new();
    let mut concatenation_num: usize = 0;
    let mut i: usize = 0;
    proof {
        let read = lines_of_output.deep_view().take(0);
        assert(read =~= Seq::empty());
        assert(non_empty(read) =~= Seq::empty());
        assert(non_empty(read).skip(0) =~= Seq::empty());
        assert(final_vector.deep_view() =~= assembled(read));
    }
    while i < lines_of_output.len()
        invariant
            i <= lines_of_output.len(),
            concatenation_num < PROPERTIES_PER_ENTITY,
            ({
                let kept = non_empty(lines_of_output.deep_view().take(i as int));
                &&& concatenation_num == kept.len() % (PROPERTIES_PER_ENTITY as nat)
                &&& entity_strings_collector@ == record(kept.skip(kept.len() - concatenation_num))
                &&& final_vector.deep_view() == assembled(lines_of_output.deep_view().take(i as int))
            }),
        decreases lines_of_output.len() - i,
    {
        let line = lines_of_output[i];
        let ghost read = lines_of_output.deep_view().take(i as int);
        let ghost kept = non_empty(read);
        let ghost more = non_empty(read.push(line@));
        let ghost before = final_vector.deep_view();
        proof {
            assert(lines_of_output.deep_view().take(i + 1) =~= read.push(line@));
            lemma_assembled_push(read, line@);
        }
        if !line.is_empty() {
            entity_strings_collector.append(line);
            entity_strings_collector.append(" &*& ");
            proof {
                lemma_record_push(kept, concatenation_num as int, line@);
            }
            concatenation_num = concatenation_num + 1;
        }
        if concatenation_num == PROPERTIES_PER_ENTITY {
            final_vector.push(entity_strings_collector);
            proof {
                assert(final_vector.deep_view() =~= before.push(
                    record(more.skip(more.len() - PROPERTIES_PER_ENTITY)),
                ));
                assert(more.skip(more.len() - 0) =~= Seq::empty());
            }
            entity_strings_collector = String::new();
            concatenation_num = 0;
        }
        i += 1;
    }
    assert(lines_of_output.deep_view().take(lines_of_output.len() as int)
        =~= lines_of_output.deep_view());
    final_vector
}

/// Lines of which none is empty are all kept.
pub proof fn lemma_non_empty_keeps_all(lines: Seq<Seq<char>>)
    requires
        forall|i: int| 0 <= i < lines.len() ==> (#[trigger] lines[i]).len() > 0,
    ensures
        non_empty(lines) == lines,
    decreases lines.len(),
{
    if lines.len() == 0 {
        assert(non_empty(lines) =~= lines);
    } else {
        let rest = lines.drop_last();
        lemma_non_empty_keeps_all(rest);
        rest.lemma_filter_push(lines.last(), |line: Seq<char>| line.len() > 0);
        assert(rest.push(lines.last()) =~= lines);
    }
}

/// The lines that are left over after the last full group of nine are
/// dropped: the records are those of the lines that fill whole groups.
pub proof fn lemma_partial_group_dropped(lines: Seq<Seq<char>>)
    ensures
        ({
            let kept = non_empty(lines);
            let whole = PROPERTIES_PER_ENTITY * (kept.len() / (PROPERTIES_PER_ENTITY as nat));
            &&& assembled(lines).len() == kept.len() / (PROPERTIES_PER_ENTITY as nat)
            &&& assembled(lines) == assembled(kept.take(whole))
        }),
{
    let kept = non_empty(lines);
    let whole = (9 * (kept.len() / 9)) as int;
    let filled = kept.take(whole);
    assert forall|i: int| 0 <= i < filled.len() implies (#[trigger] filled[i]).len() > 0 by {
        lines.lemma_filter_pred(|line: Seq<char>| line.len() > 0, i);
    }
    lemma_non_empty_keeps_all(filled);
    assert forall|k: int| 0 <= k < assembled(lines).len() implies #[trigger] assembled(lines)[k]
        == assembled(filled)[k] by {
        assert(filled.subrange(9 * k, 9 * k + 9) =~= kept.subrange(9 * k, 9 * k + 9));
    }
    assert(assembled(lines) =~= assembled(filled));
}

/// Removing the empty lines first changes no record, since assembling passes
/// over them.
pub proof fn lemma_cleanup_changes_no_record(lines: Seq<Seq<char>>)
    ensures
        assembled(non_empty(lines)) == assembled(lines),
{
    let kept = non_empty(lines);
    assert forall|i: int| 0 <= i < kept.len() implies (#[trigger] kept[i]).len() > 0 by {
        lines.lemma_filter_pred(|line: Seq<char>| line.len() > 0, i);
    }
    lemma_non_empty_keeps_all(kept);
}

/// Nine lines of which none is empty, after lines that fill whole groups,
/// add the record of the nine.
pub proof fn lemma_assembled_group(lines: Seq<Seq<char>>, group: Seq<Seq<char>>)
    requires
        non_empty(lines).len() % (PROPERTIES_PER_ENTITY as nat) == 0,
        group.len() == PROPERTIES_PER_ENTITY,
        forall|i: int| 0 <= i < group.len() ==> (#[trigger] group[i]).len() > 0,
    ensures
        assembled(lines + group) == assembled(lines).push(record(group)),
        non_empty(lines + group) == non_empty(lines) + group,
{
    let kept = non_empty(lines);
    let more = non_empty(lines + group);
    Seq::filter_distributes_over_add(lines, group, |line: Seq<char>| line.len() > 0);
    lemma_non_empty_keeps_all(group);
    assert(more == kept + group);
    let before = assembled(lines);
    let after = assembled(lines + group);
    assert forall|k: int| 0 <= k < before.len() implies #[trigger] after[k] == before[k] by {
        assert(more.subrange(9 * k, 9 * k + 9) =~= kept.subrange(9 * k, 9 * k + 9));
    }
    let last = before.len() as int;
    assert(more.subrange(9 * last, 9 * last + 9) =~= group);
    assert(after =~= before.push(record(group)));
}

/// An empty line among the lines changes no record.
pub proof fn lemma_assembled_empty_line(lines: Seq<Seq<char>>)
    ensures
        assembled(lines + seq![Seq::<char>::empty()]) == assembled(lines),
        non_empty(lines + seq![Seq::<char>::empty()]) == non_empty(lines),
{
    assert(lines + seq![Seq::<char>::empty()] =~= lines.push(Seq::<char>::empty()));
    lemma_assembled_push(lines, Seq::<char>::empty());
}

} // verus!
