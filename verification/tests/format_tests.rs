use tablecopy::converter::convert_to_markdown;
use tablecopy::format::format_markdown;
use tablecopy::parser::Table;

#[test]
fn test_markdown_format() {
    let table = Table {
        headers: vec![
            "コマンド".to_string(),
            "動作".to_string(),
            "備考".to_string(),
        ],
        rows: vec![
            vec![
                "cla -r".to_string(),
                "直接起動".to_string(),
                "基本".to_string(),
            ],
            vec![
                "cla -r -auto".to_string(),
                "自動モード".to_string(),
                "推奨".to_string(),
            ],
        ],
    };
    let output = format_markdown(&table);
    let lines: Vec<&str> = output.lines().collect();
    assert_eq!(lines[0], "| コマンド | 動作 | 備考 |");
    assert_eq!(lines[1], "| --- | --- | --- |");
    assert_eq!(lines[2], "| cla -r | 直接起動 | 基本 |");
    assert_eq!(lines[3], "| cla -r -auto | 自動モード | 推奨 |");
}

#[test]
fn test_empty_rows() {
    let table = Table {
        headers: vec!["A".to_string(), "B".to_string()],
        rows: vec![],
    };
    let output = format_markdown(&table);
    assert_eq!(output.lines().count(), 2);
}

#[test]
fn test_convert_simple_table() {
    let input = "\
┌──────┬──────┐
│ Name │ Age  │
├──────┼──────┤
│ Alice│ 30   │
│ Bob  │ 25   │
└──────┴──────┘";

    let result = convert_to_markdown(input).unwrap();
    assert!(result.contains("| Name | Age |"));
    assert!(result.contains("| --- | --- |"));
    assert!(result.contains("| Alice | 30 |"));
    assert!(result.contains("| Bob | 25 |"));
}

#[test]
fn test_convert_returns_none_for_plain_text() {
    let input = "Hello world\nNo tables here";
    assert!(convert_to_markdown(input).is_none());
}
