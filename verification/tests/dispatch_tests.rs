use food_inventory::codec::parse_foods;
use food_inventory::dispatch::{dispatch, Command, Effect};

#[test]
fn add_command_assigns_the_next_id_and_keeps_the_rest() {
    let (store, _) = parse_foods("id,name,stock,price\n1,Soup,10,5000\n");
    let effect = dispatch(
        store,
        Command::Add { name: String::from("NewDish"), stock: 5, price: 3000 },
    );
    match effect {
        Effect::Save(text) => {
            assert_eq!(text, "id,name,stock,price\n1,Soup,10,5000\n2,NewDish,5,3000\n");
        },
        _ => panic!("add must ask for a save"),
    }
}

#[test]
fn edit_command_overwrites_the_record() {
    let (store, _) = parse_foods("1,Soup,10,5000\n2,Rice,20,15000\n");
    let effect = dispatch(
        store,
        Command::Edit { id: 1, name: String::from("Broth"), stock: 3, price: 4500 },
    );
    match effect {
        Effect::Save(text) => {
            assert_eq!(text, "id,name,stock,price\n1,Broth,3,4500\n2,Rice,20,15000\n");
        },
        _ => panic!("edit must ask for a save"),
    }
}

#[test]
fn remove_command_drops_the_record() {
    let (store, _) = parse_foods("1,Soup,10,5000\n2,Rice,20,15000\n");
    let effect = dispatch(store, Command::Remove { id: 1 });
    match effect {
        Effect::Save(text) => {
            assert_eq!(text, "id,name,stock,price\n2,Rice,20,15000\n");
        },
        _ => panic!("remove must ask for a save"),
    }
}

#[test]
fn remove_command_with_missing_id_saves_the_store_unchanged() {
    let (store, _) = parse_foods("1,Soup,10,5000\n");
    let effect = dispatch(store, Command::Remove { id: 99 });
    match effect {
        Effect::Save(text) => {
            assert_eq!(text, "id,name,stock,price\n1,Soup,10,5000\n");
        },
        _ => panic!("remove must ask for a save"),
    }
}

#[test]
fn list_command_shows_records_in_id_order() {
    let (store, _) = parse_foods("2,Rice,20,15000\n1,Soup,10,5000\n");
    let effect = dispatch(store, Command::List);
    match effect {
        Effect::Listing(all) => {
            assert_eq!(all.len(), 2);
            assert_eq!(all[0].id, 1);
            assert_eq!(all[1].id, 2);
        },
        _ => panic!("list must show records"),
    }
}

#[test]
fn search_command_matches_case_insensitively() {
    let (store, _) = parse_foods("1,Fried Rice,20,15000\n2,Noodles,15,12000\n");
    let effect = dispatch(store, Command::Search { query: String::from("RICE") });
    match effect {
        Effect::Matches(hits) => {
            assert_eq!(hits.len(), 1);
            assert_eq!(hits[0].name, "Fried Rice");
        },
        _ => panic!("search must show matches"),
    }
}

#[test]
fn search_command_without_match_reports_none() {
    let (store, _) = parse_foods("1,Fried Rice,20,15000\n");
    let effect = dispatch(store, Command::Search { query: String::from("pizza") });
    match effect {
        Effect::Matches(hits) => assert!(hits.is_empty()),
        _ => panic!("search must show matches"),
    }
}
