//! The command dispatcher's decisions: for each command of the tool, how the
//! loaded store changes and what must be written or shown afterwards.

use vstd::prelude::*;
use crate::store::{
    Food, FoodView, Foods, spec_next_id, is_ordered_export, export_of, search_result_ok,
    food_views,
};
use crate::codec::{serialization, serialize_foods};

verus! {

/// One invocation's command, as the surrounding tool hands it over.
pub enum Command {
    Add { name: String, stock: i32, price: i32 },
    Edit { id: i64, name: String, stock: i32, price: i32 },
    List,
    Remove { id: i64 },
    Search { query: String },
}

/// What the surrounding tool must do after the store work: persist the new
/// file content, or show records.
pub enum Effect {
    /// Rewrite the data file with this full content.
    Save(String),
    /// Show all records, in id order.
    Listing(Vec<Food>),
    /// Show the matching records, or that none were found when empty.
    Matches(Vec<Food>),
}

/// `text` is the saved form of the store `m`: the header, then `m`'s
/// records in ascending id order.
pub open spec fn saves_map(text: Seq<char>, m: Map<int, FoodView>) -> bool {
    &&& is_ordered_export(export_of(m), m)
    &&& text == serialization(export_of(m))
}

/// Runs one command against the loaded store: mutating commands yield the
/// text to save, the others the records to show.
pub fn dispatch(foods: Foods, cmd: Command) -> (e: Effect)
    requires
        foods.wf(),
    ensures
        match cmd {
            Command::Add { name, stock, price } => e matches Effect::Save(text) && saves_map(
                text@,
                foods@.insert(
                    spec_next_id(foods@),
                    (FoodView {
                        id: spec_next_id(foods@),
                        name: name@,
                        stock: stock as int,
                        price: price as int,
                    }),
                ),
            ),
            Command::Edit { id, name, stock, price } => e matches Effect::Save(text) && saves_map(
                text@,
                foods@.insert(
                    id as int,
                    (FoodView {
                        id: id as int,
                        name: name@,
                        stock: stock as int,
                        price: price as int,
                    }),
                ),
            ),
            Command::List => e matches Effect::Listing(v) && is_ordered_export(
                food_views(v@),
                foods@,
            ),
            Command::Remove { id } => e matches Effect::Save(text) && saves_map(
                text@,
                foods@.remove(id as int),
            ),
            Command::Search { query } => e matches Effect::Matches(v) && search_result_ok(
                food_views(v@),
                foods@,
                query@,
            ),
        },
{
    match cmd {
        Command::Add { name, stock, price } => {
            let mut fds = foods;
            let nid = fds.next_id();
            fds.add(Food { id: nid, name, stock, price });
            Effect::Save(serialize_foods(fds))
        },
        Command::Edit { id, name, stock, price } => {
            let mut fds = foods;
            fds.edit(id, name.as_str(), stock, price);
            Effect::Save(serialize_foods(fds))
        },
        Command::List => Effect::Listing(foods.into_vec()),
        Command::Remove { id } => {
            let mut fds = foods;
            fds.remove(id);
            Effect::Save(serialize_foods(fds))
        },
        Command::Search { query } => Effect::Matches(foods.search(query.as_str())),
    }
}

} // verus!
