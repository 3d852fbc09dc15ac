//! Tests of the catalog, sector, and overlay-data parsers.

use demonax_mapper::floors::{calculate_global_bounds, parse_floor_range};
use demonax_mapper::layers::select_sprite_layers;
use demonax_mapper::monsters::{parse_mon_entry, parse_monster_db, parse_monster_names,
    spawns_on_floors, MonsterSpawn};
use demonax_mapper::npcs::{parse_npc_csv, parse_npc_row};
use demonax_mapper::objects::{parse_objects, ObjectCatalog};
use demonax_mapper::quests::{extract_chest_object_id, extract_quest_number, parse_quest_csv,
    parse_questchest_line, parse_questchests_from_sectors};
use demonax_mapper::sectors::{matches_pattern, parse_content_line, parse_sector_coords,
    parse_sector_file_stacks, parse_sprite_map, sort_tiles, SectorFile, TileStack};
use std::collections::HashMap;

fn catalog_from(text: &str) -> ObjectCatalog {
    parse_objects(&text.as_bytes().to_vec()).expect("catalog should parse")
}

#[test]
fn catalog_parses_fields() {
    let cat = catalog_from(
        "TypeID = 100 # a comment\n\
         Name = \"Stone Wall\"\n\
         Flags = {Unpass,Unmove}\n\
         Attributes = {Waypoints=3,DisguiseTarget=55}\n",
    );
    let o = cat.get(100).expect("object 100 should be there");
    assert_eq!(o.id, 100);
    assert_eq!(o.name, b"Stone Wall".to_vec());
    assert_eq!(o.flags, vec![b"Unpass".to_vec(), b"Unmove".to_vec()]);
    assert_eq!(o.waypoints, 3);
    assert_eq!(o.disguise_target, Some(55));
    assert!(!o.is_ground);
    assert!(o.is_impassable);
}

#[test]
fn catalog_rejects_bad_type_id() {
    let r = parse_objects(&b"TypeID = abc\n".to_vec());
    assert!(r.is_err());
}

#[test]
fn catalog_later_definition_wins() {
    let cat = catalog_from(
        "TypeID = 7\nName = \"old\"\nTypeID = 7\nName = \"new\"\n",
    );
    let o = cat.get(7).expect("object 7 should be there");
    assert_eq!(o.name, b"new".to_vec());
}

#[test]
fn unpass_is_impassable_with_waypoints() {
    // the flag wins over any waypoint count
    let cat = catalog_from("TypeID = 1\nFlags = {Unpass}\nAttributes = {Waypoints=9}\n");
    let o = cat.get(1).unwrap();
    assert!(o.is_impassable);
    assert!(!o.is_ground);
}

#[test]
fn scenario_unpass_object_and_sector_line() {
    // catalog object 100 with {Unpass} and no waypoints
    let cat = catalog_from("TypeID = 100\nFlags = {Unpass}\n");
    let o = cat.get(100).unwrap();
    assert!(!o.is_ground);
    assert!(o.is_impassable);

    // the sector line puts it at world (3, 4)
    let stacks = parse_sector_file_stacks(
        &b"0000-0000-07.sec".to_vec(),
        &b"3-4:Content={100}\n".to_vec(),
        0,
        0,
    )
    .expect("sector should parse");
    assert_eq!(stacks.len(), 1);
    assert_eq!(stacks[0].x, 3);
    assert_eq!(stacks[0].y, 4);
    assert_eq!(stacks[0].object_ids, vec![100]);

    // no layer flag puts it in the Normal layer, alone
    let order = select_sprite_layers(&stacks[0].object_ids, &cat);
    assert_eq!(order, vec![100]);
}

#[test]
fn layer_order_is_ground_clip_bottom_normal_top() {
    let cat = catalog_from(
        "TypeID = 1\nAttributes = {Waypoints=2}\n\
         TypeID = 2\nFlags = {Clip}\n\
         TypeID = 3\nFlags = {Bottom}\n\
         TypeID = 4\nFlags = {Top}\n\
         TypeID = 5\n\
         TypeID = 6\nFlags = {Take}\n\
         TypeID = 2543\nFlags = {Take}\n\
         TypeID = 7\nFlags = {Take,Chest}\n",
    );
    let ids = vec![5, 4, 3, 2, 1, 6, 2543, 7, 999];
    let order = select_sprite_layers(&ids, &cat);
    // 6 is takeable and dropped, 2543 and 7 are chests and stay,
    // 999 is unknown and dropped
    assert_eq!(order, vec![1, 2, 3, 5, 2543, 7, 4]);
}

#[test]
fn ground_flower_lands_in_clip_layer() {
    let cat = catalog_from(
        "TypeID = 10\nName = \"Red Flower\"\nFlags = {Unmove}\n\
         TypeID = 11\nName = \"blossom bed\"\nFlags = {Unmove,Avoid}\n\
         TypeID = 12\nName = \"flowery wall\"\nFlags = {Unmove,Hang}\n\
         TypeID = 13\n",
    );
    let order = select_sprite_layers(&vec![13, 12, 11, 10], &cat);
    // 10 and 11 are ground flowers (Clip); 12 has an extra flag and
    // stays Normal with 13
    assert_eq!(order, vec![11, 10, 13, 12]);
}

#[test]
fn sector_coords_and_pattern() {
    assert_eq!(parse_sector_coords(&b"0002-0010-07.sec".to_vec()), Some((2, 10, 7)));
    assert_eq!(parse_sector_coords(&b"bad.sec".to_vec()), None);
    assert!(matches_pattern(&b"0002-0010-07.sec".to_vec(), 7));
    assert!(!matches_pattern(&b"0002-0010-07.sec".to_vec(), 8));
    assert!(matches_pattern(&b"0002-0010-112.sec".to_vec(), 112));
}

#[test]
fn content_line_reads_leading_id_tokens() {
    let r = parse_content_line(&b"3-4:Content={100,4644 Amount=5,abc,7}".to_vec());
    let (x, y, ids) = r.expect("line should parse");
    assert_eq!((x, y), (3, 4));
    assert_eq!(ids, vec![100, 4644, 7]);
}

#[test]
fn content_line_with_inverted_braces_is_skipped() {
    assert!(parse_content_line(&b"3-4:Content=}{100}".to_vec()).is_none());
    assert!(parse_content_line(&b"34:Content={100}".to_vec()).is_none());
}

#[test]
fn bad_sector_file_name_is_an_error() {
    assert!(parse_sector_file_stacks(&b"foo.txt".to_vec(), &b"".to_vec(), 0, 0).is_err());
}

#[test]
fn sprite_map_is_sorted_by_y_then_x() {
    let files = vec![
        SectorFile {
            name: b"0001-0000-07.sec".to_vec(),
            content: b"0-0:Content={1}\n".to_vec(),
        },
        SectorFile {
            name: b"0000-0000-07.sec".to_vec(),
            content: b"5-0:Content={2}\n1-0:Content={3}\n2-1:Content={4}\n".to_vec(),
        },
        SectorFile { name: b"0000-0000-08.sec".to_vec(), content: b"9-9:Content={9}\n".to_vec() },
    ];
    let m = parse_sprite_map(&files, 7, 0, 0, 1, 0);
    assert_eq!(m.floor, 7);
    assert_eq!(m.version, 2);
    let coords: Vec<(u32, u32)> = m.tiles.iter().map(|t| (t.y, t.x)).collect();
    assert_eq!(coords, vec![(0, 1), (0, 5), (0, 32), (1, 2)]);
}

#[test]
fn sort_keeps_equal_positions_in_order() {
    let tiles = vec![
        TileStack { x: 1, y: 1, object_ids: vec![9] },
        TileStack { x: 0, y: 0, object_ids: vec![1] },
        TileStack { x: 1, y: 1, object_ids: vec![8] },
    ];
    let sorted = sort_tiles(tiles);
    assert_eq!(sorted[0].object_ids, vec![1]);
    assert_eq!(sorted[1].object_ids, vec![9]);
    assert_eq!(sorted[2].object_ids, vec![8]);
}

#[test]
fn monster_db_rows_and_end_marker() {
    let content = b"# spawns\n5000 100 200 7 3 5 60\n\n0\n99 1 1 1 1 1 1\n".to_vec();
    let rows = parse_monster_db(&content).expect("db should parse");
    assert_eq!(rows.len(), 1);
    assert_eq!(
        rows[0],
        MonsterSpawn { race: 5000, x: 100, y: 200, z: 7, radius: 3, amount: 5, regen: 60 }
    );
}

#[test]
fn monster_db_bad_row_is_an_error() {
    assert!(parse_monster_db(&b"5000 xx 200 7 3 5 60\n".to_vec()).is_err());
}

#[test]
fn mon_entry_reads_race_and_name() {
    let e = parse_mon_entry(&b"RaceNumber = 17\nName = \"Dragon\"\n".to_vec());
    assert_eq!(e, Some((17, b"Dragon".to_vec())));
    assert_eq!(parse_mon_entry(&b"Name = \"Dragon\"\n".to_vec()), None);
}

#[test]
fn monster_names_later_file_wins() {
    let files = vec![
        b"RaceNumber = 1\nName = \"A\"\n".to_vec(),
        b"RaceNumber = 1\nName = \"B\"\n".to_vec(),
    ];
    let names = parse_monster_names(&files);
    assert_eq!(names.get(&1), Some(&b"B".to_vec()));
}

#[test]
fn spawns_filter_by_floor() {
    let spawns = vec![
        MonsterSpawn { race: 1, x: 0, y: 0, z: 7, radius: 1, amount: 1, regen: 1 },
        MonsterSpawn { race: 2, x: 0, y: 0, z: 8, radius: 1, amount: 1, regen: 1 },
    ];
    let kept = spawns_on_floors(&spawns, &vec![7]);
    assert_eq!(kept.len(), 1);
    assert_eq!(kept[0].race, 1);
}

#[test]
fn npc_csv_rows() {
    let content =
        b"id,file,name,x,y,z\n1,\"guard.npc\",\"Bob\",100,200,7\nbad line\n2,a,b,3,4,9\n".to_vec();
    let npcs = parse_npc_csv(&content);
    assert_eq!(npcs.len(), 2);
    assert_eq!(npcs[0].id, 1);
    assert_eq!(npcs[0].file_name, b"guard.npc".to_vec());
    assert_eq!(npcs[0].npc_name, b"Bob".to_vec());
    assert_eq!((npcs[0].x, npcs[0].y, npcs[0].z), (100, 200, 7));
    assert_eq!(npcs[1].z, 9);
}

#[test]
fn npc_row_with_bad_number_is_skipped() {
    assert!(parse_npc_row(&b"x,a,b,1,2,3".to_vec()).is_none());
    assert!(parse_npc_row(&b"1,a,b,1,2".to_vec()).is_none());
}

#[test]
fn quest_csv_names() {
    let names = parse_quest_csv(&b"quest,name\n12,Lost Crown,ignored\nbad\n".to_vec());
    assert_eq!(names.get(&12), Some(&b"Lost Crown".to_vec()));
    assert_eq!(names.len(), 1);
}

#[test]
fn quest_number_and_chest_id() {
    let line = b"ChestQuestNumber=123,Rest".to_vec();
    assert_eq!(extract_quest_number(&line), Some(123));
    assert_eq!(extract_quest_number(&b"nothing here".to_vec()), None);

    assert_eq!(extract_chest_object_id(&b"Content={2543,100}".to_vec()), Some(2543));
    assert_eq!(extract_chest_object_id(&b"Content={100,200,300,2543}".to_vec()), None);
    assert_eq!(extract_chest_object_id(&b"Content={,2543}".to_vec()), None);
}

#[test]
fn questchest_line_builds_world_coordinates() {
    let mut names: HashMap<u32, Vec<u8>> = HashMap::new();
    names.insert(12, b"Lost Crown".to_vec());
    let line = b"5-6:ChestQuestNumber=12,Content={2550}".to_vec();
    let r = parse_questchest_line(&line, 2, 3, 7, &names);
    let chest = r.expect("grammar should hold").expect("line should be a chest");
    assert_eq!(chest.quest_number, 12);
    assert_eq!((chest.x, chest.y, chest.z), (2 * 32 + 5, 3 * 32 + 6, 7));
    assert_eq!(chest.chest_object_id, 2550);
    assert_eq!(chest.quest_name, Some(b"Lost Crown".to_vec()));
}

#[test]
fn questchests_from_sector_files() {
    let names: HashMap<u32, Vec<u8>> = HashMap::new();
    let files = vec![
        SectorFile {
            name: b"0001-0001-07.sec".to_vec(),
            content: b"0-0:Content={1}\n2-3:ChestQuestNumber=9,Content={2546}\n".to_vec(),
        },
        SectorFile {
            name: b"0001-0001-08.sec".to_vec(),
            content: b"1-1:ChestQuestNumber=4,Content={2546}\n".to_vec(),
        },
    ];
    let chests = parse_questchests_from_sectors(&files, &vec![7], &names);
    assert_eq!(chests.len(), 1);
    assert_eq!(chests[0].quest_number, 9);
    assert_eq!((chests[0].x, chests[0].y), (34, 35));
    assert_eq!(chests[0].quest_name, None);
}

#[test]
fn floor_range_forms() {
    assert_eq!(parse_floor_range(&b"0-3".to_vec()), Ok(vec![0, 1, 2, 3]));
    assert_eq!(parse_floor_range(&b"7".to_vec()), Ok(vec![7]));
    assert!(parse_floor_range(&b"a".to_vec()).is_err());
    assert!(parse_floor_range(&b"1-2-3".to_vec()).is_err());
}

#[test]
fn global_bounds_over_chosen_floors() {
    let names = vec![
        b"0002-0003-07.sec".to_vec(),
        b"0001-0005-07.sec".to_vec(),
        b"0009-0001-03.sec".to_vec(),
        b"junk".to_vec(),
    ];
    let b = calculate_global_bounds(&names, &vec![7]).expect("bounds should exist");
    assert_eq!(b, (1, 2, 3, 5));
    assert!(calculate_global_bounds(&names, &vec![11]).is_err());
}
