//! The queries on captured text: all entities of a folder, or the one entity of a path.

use crate::decode::{decoded_records, split_the_formatted_output};
use crate::entity::{EntityView, WindowsEntity};
use crate::flags::{first_occurrences, type_tags_among};
use crate::records::{
    assembled,
    empty_lines_cleanup,
    extract_the_output,
    format_the_output,
    non_empty,
    segmented,
};
use crate::split::lines_of;
use vstd::prelude::*;
use vstd::string::StringExecFns;

verus! {

/// Why a query for one entity gives none.
#[derive(Clone, Copy, Debug, PartialEq, Eq, Structural)]
pub enum QueryError {
    /// The text describes more than one entity.
    Ambiguous,
}

/// The entities that the captured text describes: its lines after the
/// header, without the empty ones, assembled into records and decoded.
pub open spec fn decoded_output(output: Seq<char>) -> Seq<EntityView> {
    decoded_records(assembled(non_empty(segmented(lines_of(output)))))
}

/// The entity of which only the path is known.
pub open spec fn path_only(path: Seq<char>) -> EntityView {
    EntityView {
        mode: Seq::empty(),
        types: Seq::empty(),
        owner: Seq::empty(),
        last_write_time: Seq::empty(),
        name: Seq::empty(),
        creation_time: Seq::empty(),
        attributes: Seq::empty(),
        last_access_time: Seq::empty(),
        size: 0,
        absolute_path: path,
    }
}

/// The entities that the captured text of a folder query describes, in the
/// order of the text.
pub fn folder_info(output: &str) -> (entities: Vec<WindowsEntity>)
    ensures
        entities.deep_view() == decoded_output(output@),
        forall|i: int| 0 <= i < entities.len() ==> (#[trigger] entities[i])@.well_formed(),
{
    let extracted_output = extract_the_output(output);
    let output_cleanup = empty_lines_cleanup(extracted_output);
    let formatting_output = format_the_output(output_cleanup);
    split_the_formatted_output(formatting_output)
}

/// The entity that the captured text of a query for `path` describes. Where
/// the text describes none, the result holds the path and nothing else; where
/// it describes more than one, the query is ambiguous.
pub fn entity_info(path: &str, output: &str) -> (out: Result<WindowsEntity, QueryError>)
    ensures
        decoded_output(output@).len() == 0 ==> out is Ok && out->Ok_0@ == path_only(path@),
        decoded_output(output@).len() == 1 ==> out is Ok && out->Ok_0@ == decoded_output(
            output@,
        )[0],
        decoded_output(output@).len() >= 2 ==> out == Err::<WindowsEntity, QueryError>(
            QueryError::Ambiguous,
        ),
        out matches Ok(entity) ==> entity@.well_formed(),
{
    let mut get_results = folder_info(output);
    if get_results.len() >= 2 {
        return Err(QueryError::Ambiguous);
    }
    let ghost found = get_results@;
    match get_results.pop() {
        Some(entity) => {
            assert(entity == found[0]);
            Ok(entity)
        },
        None => {
            let entity = WindowsEntity {
                mode: Vec::new(),
                types: Vec::new(),
                owner: String::new(),
                last_write_time: String::new(),
                last_access_time: String::new(),
                name: String::new(),
                creation_time: String::new(),
                attributes: String::new(),
                size: 0,
                absolute_path: String::from_str(path),
            };
            assert(entity.mode.deep_view() =~= Seq::empty());
            assert(entity.types.deep_view() =~= Seq::empty());
            assert(type_tags_among(Seq::empty()) =~= Seq::empty());
            assert(first_occurrences(Seq::empty()) =~= Seq::empty());
            Ok(entity)
        },
    }
}

} // verus!
