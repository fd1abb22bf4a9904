use tablecopy::parser::parse_tables;

#[test]
fn test_light_box_table() {
    let input = "\
┌──────────┬────────────┐
│ コマンド │ 動作       │
├──────────┼────────────┤
│ cla -r   │ 直接起動   │
│ cla -auto│ 自動モード │
└──────────┴────────────┘";

    let tables = parse_tables(input).unwrap();
    assert_eq!(tables.len(), 1);
    assert_eq!(tables[0].headers, vec!["コマンド", "動作"]);
    assert_eq!(tables[0].rows.len(), 2);
    assert_eq!(tables[0].rows[0], vec!["cla -r", "直接起動"]);
    assert_eq!(tables[0].rows[1], vec!["cla -auto", "自動モード"]);
}

#[test]
fn test_heavy_box_table() {
    let input = "\
┏━━━━━┳━━━━━┓
┃ A   ┃ B   ┃
┣━━━━━╋━━━━━┫
┃ 1   ┃ 2   ┃
┗━━━━━┻━━━━━┛";

    let tables = parse_tables(input).unwrap();
    assert_eq!(tables[0].headers, vec!["A", "B"]);
    assert_eq!(tables[0].rows[0], vec!["1", "2"]);
}

#[test]
fn test_double_box_table() {
    let input = "\
╔═════╦═════╗
║ X   ║ Y   ║
╠═════╬═════╣
║ 10  ║ 20  ║
╚═════╩═════╝";

    let tables = parse_tables(input).unwrap();
    assert_eq!(tables[0].headers, vec!["X", "Y"]);
    assert_eq!(tables[0].rows[0], vec!["10", "20"]);
}

#[test]
fn test_no_table() {
    let input = "This is just plain text\nwith no table at all.";
    assert!(parse_tables(input).is_none());
}

#[test]
fn test_empty_cells() {
    let input = "\
┌─────┬─────┐
│ A   │     │
├─────┼─────┤
│     │ B   │
└─────┴─────┘";

    let tables = parse_tables(input).unwrap();
    assert_eq!(tables[0].headers, vec!["A", ""]);
    assert_eq!(tables[0].rows[0], vec!["", "B"]);
}

#[test]
fn test_single_column() {
    let input = "\
┌───────┐
│ Items │
├───────┤
│ one   │
│ two   │
└───────┘";

    let tables = parse_tables(input).unwrap();
    assert_eq!(tables[0].headers, vec!["Items"]);
    assert_eq!(tables[0].rows.len(), 2);
}

#[test]
fn test_header_only() {
    let input = "\
┌─────┬─────┐
│ A   │ B   │
└─────┴─────┘";

    let tables = parse_tables(input).unwrap();
    assert_eq!(tables[0].headers, vec!["A", "B"]);
    assert_eq!(tables[0].rows.len(), 0);
}

#[test]
fn test_japanese_content() {
    let input = "\
┌────────────────┬──────────────────────────┐
│ 機能           │ 説明                     │
├────────────────┼──────────────────────────┤
│ テーブル変換   │ Unicode罫線→Markdown     │
│ クリップボード │ 自動読み書き             │
└────────────────┴──────────────────────────┘";

    let tables = parse_tables(input).unwrap();
    assert_eq!(tables[0].headers, vec!["機能", "説明"]);
    assert_eq!(tables[0].rows.len(), 2);
    assert_eq!(tables[0].rows[0][0], "テーブル変換");
}
