use ah_delivery::date::{weekday_number, add_days, Date, TimeOfDay};
use ah_delivery::grid::{parse_blocks, Block, BlockKind, RelKind, Relationship};
use ah_delivery::models::{Planning, Shift, WhatsappMedia, WhatsappMessage, WhatsappPayload};
use ah_delivery::parse::{parse_metadata, parse_schedule, parse_shifts, parse_time, select_shift};

fn word(id: &str, text: &str) -> Block {
    Block {
        id: Some(id.to_string()),
        kind: BlockKind::Word,
        row_index: None,
        column_index: None,
        text: Some(text.to_string()),
        relationships: Vec::new(),
    }
}

fn cell(id: &str, row: u32, col: u32, child_ids: Vec<&str>) -> Block {
    Block {
        id: Some(id.to_string()),
        kind: BlockKind::Cell,
        row_index: Some(row),
        column_index: Some(col),
        text: None,
        relationships: vec![Relationship {
            kind: RelKind::Child,
            ids: child_ids.iter().map(|s| s.to_string()).collect(),
        }],
    }
}

fn message(body: &str, media: Option<(&str, &str)>) -> WhatsappMessage {
    WhatsappMessage {
        payload: WhatsappPayload {
            body: body.to_string(),
            media: media.map(|(url, mime)| WhatsappMedia {
                url: url.to_string(),
                mimetype: mime.to_string(),
            }),
        },
    }
}

fn grid_strings(blocks: &Vec<Block>) -> Vec<Vec<String>> {
    parse_blocks(blocks)
}

#[test]
fn metadata_matches_and_parses() {
    let r = parse_metadata("Planning MAPA 05-01-2025");
    let (date, planning) = r.expect("should match");
    assert_eq!(date, Date { year: 2025, month: 1, day: 5 });
    assert!(matches!(planning, Planning::PA));
}

#[test]
fn metadata_rejects_bad_day_code() {
    assert!(parse_metadata("Planning XXPA 05-01-2025").is_none());
}

#[test]
fn metadata_rejects_nonexistent_date() {
    assert!(parse_metadata("Planning MAPA 31-02-2025").is_none());
    assert!(parse_metadata("Planning MAPA 29-02-2024").is_some());
    assert!(parse_metadata("Planning MAPA 29-02-2025").is_none());
}

#[test]
fn metadata_rejects_shape_errors() {
    assert!(parse_metadata("Planning MAPO 5-01-2025").is_none());
    assert!(parse_metadata("Planning MAPA 05-01-2025 ").is_none());
    assert!(parse_metadata("planning MAPA 05-01-2025").is_none());
    assert!(parse_metadata("Planning MAXX 05-01-2025").is_none());
    assert!(parse_metadata("Planning MAPA 00-01-2025").is_none());
    assert!(parse_metadata("Planning MAPA 05-13-2025").is_none());
}

#[test]
fn metadata_po_category() {
    let (_, planning) = parse_metadata("Planning ZOPO 05-01-2025").unwrap();
    assert!(matches!(planning, Planning::PO));
}

#[test]
fn gate_requires_pattern_and_jpeg_media() {
    let good = message("Planning MAPA 05-01-2025", Some(("http://localhost/x", "image/jpeg")));
    assert!(parse_schedule(&good));
    let no_media = message("Planning MAPA 05-01-2025", None);
    assert!(!parse_schedule(&no_media));
    let wrong_mime = message("Planning MAPA 05-01-2025", Some(("http://localhost/x", "image/png")));
    assert!(!parse_schedule(&wrong_mime));
    let wrong_body = message("hello there", Some(("http://localhost/x", "image/jpeg")));
    assert!(!parse_schedule(&wrong_body));
}

#[test]
fn grid_two_cells_one_row() {
    let blocks = vec![
        cell("c1", 1, 1, vec!["w1"]),
        cell("c2", 1, 2, vec!["w2"]),
        word("w1", "A"),
        word("w2", "B"),
    ];
    let grid = grid_strings(&blocks);
    assert_eq!(grid, vec![vec!["A".to_string(), "B".to_string()]]);
}

#[test]
fn grid_is_order_independent() {
    let a = vec![
        cell("c1", 1, 1, vec!["w1"]),
        cell("c2", 1, 2, vec!["w2"]),
        word("w1", "A"),
        word("w2", "B"),
    ];
    let b = vec![
        word("w2", "B"),
        cell("c2", 1, 2, vec!["w2"]),
        word("w1", "A"),
        cell("c1", 1, 1, vec!["w1"]),
    ];
    assert_eq!(grid_strings(&a), grid_strings(&b));
}

#[test]
fn grid_joins_words_with_spaces() {
    let blocks = vec![
        cell("c1", 1, 1, vec!["w1", "w2", "w3"]),
        word("w1", "one"),
        word("w2", "two"),
        word("w3", "three"),
    ];
    let grid = grid_strings(&blocks);
    assert_eq!(grid[0][0], "one two three");
}

#[test]
fn grid_skips_non_word_children_and_unknown_ids() {
    let mut marker = word("sel", "X");
    marker.kind = BlockKind::Other;
    let blocks = vec![cell("c1", 1, 1, vec!["sel", "missing", "w1"]), marker, word("w1", "ok")];
    let grid = grid_strings(&blocks);
    assert_eq!(grid[0][0], "ok");
}

#[test]
fn grid_empty_without_cells() {
    let blocks = vec![word("w1", "A")];
    assert_eq!(grid_strings(&blocks).len(), 0);
    assert_eq!(grid_strings(&Vec::new()).len(), 0);
}

#[test]
fn grid_unfilled_cells_are_empty() {
    let blocks = vec![cell("c1", 2, 2, vec!["w1"]), word("w1", "A")];
    let grid = grid_strings(&blocks);
    assert_eq!(grid.len(), 2);
    assert_eq!(grid[0], vec!["".to_string(), "".to_string()]);
    assert_eq!(grid[1], vec!["".to_string(), "A".to_string()]);
}

#[test]
fn time_parsing_accepts_short_and_padded_forms() {
    assert_eq!(parse_time("09:05"), Some(TimeOfDay { hour: 9, minute: 5 }));
    assert_eq!(parse_time("9:05"), Some(TimeOfDay { hour: 9, minute: 5 }));
    assert_eq!(parse_time("9:5"), Some(TimeOfDay { hour: 9, minute: 5 }));
    assert_eq!(parse_time("23:59"), Some(TimeOfDay { hour: 23, minute: 59 }));
    assert_eq!(parse_time("24:00"), None);
    assert_eq!(parse_time("12:60"), None);
    assert_eq!(parse_time("aa:bb"), None);
    assert_eq!(parse_time(""), None);
    assert_eq!(parse_time("12:345"), None);
    assert_eq!(parse_time(" 12:34"), None);
}

fn row(cells: Vec<&str>) -> Vec<String> {
    cells.iter().map(|s| s.to_string()).collect()
}

#[test]
fn shift_rows_default_end_and_dropped_rows() {
    let meta = (Date { year: 2025, month: 1, day: 5 }, Planning::PA);
    let data = vec![
        row(vec!["w1", "Worker One", "", "15:30", ""]),
        row(vec!["w2", "Worker Two", "note", "xx", "22:00"]),
        row(vec!["w3", "Worker Three", "  ", "16:00", "21:3"]),
    ];
    let shifts = parse_shifts(meta, data);
    assert_eq!(shifts.len(), 2);
    assert_eq!(shifts[0].boff_id, "w1");
    assert_eq!(shifts[0].start, TimeOfDay { hour: 15, minute: 30 });
    assert_eq!(shifts[0].end, TimeOfDay { hour: 21, minute: 0 });
    assert_eq!(shifts[0].info, None);
    assert_eq!(shifts[1].boff_id, "w3");
    assert_eq!(shifts[1].end, TimeOfDay { hour: 21, minute: 3 });
    assert_eq!(shifts[1].info, None);
}

#[test]
fn shift_rows_keep_notes_untrimmed() {
    let meta = (Date { year: 2025, month: 1, day: 5 }, Planning::PO);
    let data = vec![row(vec!["w1", "Worker One", " till close ", "15:00", "22:00"])];
    let shifts = parse_shifts(meta, data);
    assert_eq!(shifts[0].info.as_deref(), Some(" till close "));
    assert!(matches!(shifts[0].planning, Planning::PO));
    assert_eq!(shifts[0].date, Date { year: 2025, month: 1, day: 5 });
}

#[test]
fn select_shift_picks_configured_worker() {
    let meta = (Date { year: 2025, month: 1, day: 5 }, Planning::PA);
    let data = vec![
        row(vec!["w1", "One", "", "15:00", "22:00"]),
        row(vec!["w2", "Two", "", "16:00", "21:00"]),
    ];
    let shifts = parse_shifts(meta, data);
    let picked = select_shift(shifts, &"w2".to_string()).expect("w2 scheduled");
    assert_eq!(picked.name, "Two");
    let meta = (Date { year: 2025, month: 1, day: 5 }, Planning::PA);
    let data = vec![row(vec!["w1", "One", "", "15:00", "22:00"])];
    let shifts = parse_shifts(meta, data);
    assert!(select_shift(shifts, &"w9".to_string()).is_none());
}

#[test]
fn weekday_numbers_match_known_dates() {
    assert_eq!(weekday_number(&Date { year: 2025, month: 1, day: 6 }), 1);
    assert_eq!(weekday_number(&Date { year: 2025, month: 1, day: 5 }), 7);
    assert_eq!(weekday_number(&Date { year: 2024, month: 2, day: 29 }), 4);
    assert_eq!(weekday_number(&Date { year: 2000, month: 1, day: 1 }), 6);
}

#[test]
fn adding_days_crosses_month_and_year_ends() {
    let d = add_days(&Date { year: 2024, month: 12, day: 30 }, 3);
    assert_eq!(d, Date { year: 2025, month: 1, day: 2 });
    let d = add_days(&Date { year: 2024, month: 2, day: 28 }, 1);
    assert_eq!(d, Date { year: 2024, month: 2, day: 29 });
    let d = add_days(&Date { year: 2025, month: 2, day: 28 }, 1);
    assert_eq!(d, Date { year: 2025, month: 3, day: 1 });
}
