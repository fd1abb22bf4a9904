use tablecopy::config::{config_value, is_hud_enabled, updated_config};
use tablecopy::converter::convert_to_markdown;
use tablecopy::cycle::{
    data_row_count, format_at, parse_timestamp, parse_uint, plan_cycle, restore_state,
    to_decimal, within_cycle, CycleFormat, CycleStep, SavedState,
};
use tablecopy::format::format_markdown;
use tablecopy::hud::{hud_switch, hud_title, notice_to_show, PressOutcome};
use tablecopy::image::{column_widths, escape_svg, has_emoji, is_emoji, split_text_runs, table_layout, PlacedCell};
use tablecopy::parser::{has_unicode_table, parse_tables, Table};

const SIMPLE: &str = "\
┌──────┬──────┐
│ Name │ Age  │
├──────┼──────┤
│ Alice│ 30   │
│ Bob  │ 25   │
└──────┴──────┘";

#[test]
fn markdown_of_simple_table_is_exact() {
    let md = convert_to_markdown(SIMPLE).unwrap();
    assert_eq!(md, "| Name | Age |\n| --- | --- |\n| Alice | 30 |\n| Bob | 25 |");
}

#[test]
fn markdown_output_is_not_a_table() {
    let md = convert_to_markdown(SIMPLE).unwrap();
    assert!(!has_unicode_table(&md));
    assert!(parse_tables(&md).is_none());
}

#[test]
fn two_tables_are_separated_by_a_blank_line() {
    let input = "┌───┐\n│ A │\n└───┘\ntext between\n┌───┐\n│ B │\n│ 1 │\n└───┘";
    let tables = parse_tables(input).unwrap();
    assert_eq!(tables.len(), 2);
    assert_eq!(tables[1].rows[0], vec!["1"]);
    let md = convert_to_markdown(input).unwrap();
    assert_eq!(md, "| A |\n| --- |\n\n| B |\n| --- |\n| 1 |");
}

#[test]
fn pipes_in_cells_are_escaped() {
    let table = Table { headers: vec!["a|b".to_string()], rows: vec![vec!["|".to_string()]] };
    assert_eq!(format_markdown(&table), "| a\\|b |\n| --- |\n| \\| |");
}

#[test]
fn empty_header_row_formats_bars_only() {
    let table = Table { headers: vec![], rows: vec![] };
    assert_eq!(format_markdown(&table), "|  |\n|  |");
}

#[test]
fn crlf_lines_and_ragged_rows() {
    let input = "│ a │ b │\r\n│ c │\r\n";
    let tables = parse_tables(input).unwrap();
    assert_eq!(tables[0].headers, vec!["a", "b"]);
    assert_eq!(tables[0].rows[0], vec!["c"]);
}

#[test]
fn trailing_text_after_last_separator_is_a_cell() {
    let input = "a │ b │ c";
    let tables = parse_tables(input).unwrap();
    assert_eq!(tables[0].headers, vec!["a", "b", "c"]);
}

#[test]
fn border_lines_alone_make_no_table() {
    assert!(parse_tables("┌──┐\n└──┘").is_none());
    assert!(parse_tables("").is_none());
    assert_eq!(parse_tables("│ │").unwrap()[0].headers, vec![""]);
}

#[test]
fn config_reads_first_matching_line_trimmed() {
    assert_eq!(config_value(" hud = off \nhud=on", "hud"), Some("off".to_string()));
    assert_eq!(config_value("other=1", "hud"), None);
    assert_eq!(config_value("a=b=c", "a"), Some("b=c".to_string()));
}

#[test]
fn config_write_then_read() {
    let updated = updated_config(Some("a=1\nhud=on\nb = 2"), "hud", "off");
    assert_eq!(updated, "a=1\nhud=off\nb=2");
    assert_eq!(config_value(&updated, "hud"), Some("off".to_string()));
    assert_eq!(config_value(&updated, "b"), Some("2".to_string()));
    assert_eq!(updated_config(None, "hud", "on"), "hud=on");
    assert_eq!(updated_config(Some("x=1\nx=2"), "y", "3"), "x=2\ny=3");
}

#[test]
fn hud_setting_switches() {
    assert!(is_hud_enabled(None));
    assert!(is_hud_enabled(Some("")));
    assert!(!is_hud_enabled(Some("hud = off")));
    assert!(is_hud_enabled(Some("hud=on")));
    let off = updated_config(Some("hud=on"), "hud", "off");
    assert!(!is_hud_enabled(Some(&off)));
    let on = updated_config(Some(&off), "hud", "on");
    assert!(is_hud_enabled(Some(&on)));
    assert_eq!(hud_switch("on"), Some(true));
    assert_eq!(hud_switch("off"), Some(false));
    assert_eq!(hud_switch("yes"), None);
}

#[test]
fn cycle_alternates_formats() {
    let first = plan_cycle(Some(SIMPLE.to_string()), None);
    let (original, index) = match first {
        CycleStep::Convert { original, format_index } => (original, format_index),
        CycleStep::NoTable => panic!("expected a table"),
    };
    assert_eq!(index, 0);
    assert_eq!(format_at(index), CycleFormat::Markdown);
    let md = convert_to_markdown(&original).unwrap();
    match plan_cycle(Some(md), Some((original.clone(), index))) {
        CycleStep::Convert { original: o, format_index } => {
            assert_eq!(o, SIMPLE);
            assert_eq!(format_index, 1);
            assert_eq!(format_at(format_index), CycleFormat::Image);
        }
        CycleStep::NoTable => panic!("expected a step"),
    }
    match plan_cycle(None, Some((original.clone(), 1))) {
        CycleStep::Convert { format_index, .. } => assert_eq!(format_index, 0),
        CycleStep::NoTable => panic!("expected a step"),
    }
    match plan_cycle(None, Some((original, usize::MAX))) {
        CycleStep::Convert { format_index, .. } => assert_eq!(format_index, 0),
        CycleStep::NoTable => panic!("expected a step"),
    }
}

#[test]
fn cycle_restarts_on_new_table_and_reports_none() {
    let other = "│ X │\n│ 1 │";
    match plan_cycle(Some(other.to_string()), Some((SIMPLE.to_string(), 0))) {
        CycleStep::Convert { original, format_index } => {
            assert_eq!(original, other);
            assert_eq!(format_index, 0);
        }
        CycleStep::NoTable => panic!("expected a step"),
    }
    assert!(matches!(plan_cycle(Some("plain".to_string()), None), CycleStep::NoTable));
    assert!(matches!(plan_cycle(None, None), CycleStep::NoTable));
}

#[test]
fn saved_state_is_read_back() {
    assert!(within_cycle(130, 100));
    assert!(!within_cycle(131, 100));
    assert!(matches!(restore_state(None, 10, Some("x".to_string()), Some("1")), SavedState::Missing));
    assert!(matches!(restore_state(Some("100"), 131, Some("x".to_string()), Some("1")), SavedState::Expired));
    match restore_state(Some("100\n"), 120, Some("x".to_string()), Some(" 1\n")) {
        SavedState::Found(o, i) => {
            assert_eq!(o, "x");
            assert_eq!(i, 1);
        }
        _ => panic!("expected a state"),
    }
    assert!(matches!(restore_state(Some("junk"), 5, Some("x".to_string()), Some("0")), SavedState::Missing));
    assert!(matches!(restore_state(Some("1"), 5, None, Some("0")), SavedState::Missing));
    assert!(matches!(restore_state(Some("1"), 5, Some("x".to_string()), Some("-1")), SavedState::Missing));
}

#[test]
fn numbers_parse_as_std_does() {
    let chars = |s: &str| s.chars().collect::<Vec<char>>();
    assert_eq!(parse_uint(&chars("+12"), u64::MAX), Some(12));
    assert_eq!(parse_uint(&chars(""), u64::MAX), None);
    assert_eq!(parse_uint(&chars("+"), u64::MAX), None);
    assert_eq!(parse_uint(&chars("12a"), u64::MAX), None);
    assert_eq!(parse_uint(&chars("18446744073709551615"), u64::MAX), Some(u64::MAX));
    assert_eq!(parse_uint(&chars("18446744073709551616"), u64::MAX), None);
    assert_eq!(parse_uint(&chars("300"), 255), None);
    assert_eq!(parse_timestamp(" 42\n"), Some(42));
    for s in ["0", "007", "+5", "-5", "9 9", "99999999999999999999"] {
        assert_eq!(parse_uint(&chars(s), u64::MAX), s.parse::<u64>().ok());
    }
}

#[test]
fn markdown_row_count() {
    assert_eq!(data_row_count("| a |\n| --- |\n| 1 |\n| 2 |"), 2);
    assert_eq!(data_row_count("| a |"), 0);
}

#[test]
fn emoji_detection() {
    assert!(is_emoji('😀'));
    assert!(is_emoji('☀'));
    assert!(is_emoji('\u{200D}'));
    assert!(!is_emoji('a'));
    assert!(!is_emoji('表'));
    assert!(has_emoji("ok ✅"));
    assert!(!has_emoji("plain"));
}

#[test]
fn svg_escaping() {
    assert_eq!(escape_svg("a<b>&\"c'"), "a&lt;b&gt;&amp;&quot;c'");
    assert_eq!(escape_svg(""), "");
}

#[test]
fn column_widths_follow_the_widest_cell() {
    let table = parse_tables(SIMPLE).unwrap().remove(0);
    assert_eq!(column_widths(&table), vec![72, 60]);
    let wide = Table {
        headers: vec!["機能".to_string(), "x".to_string()],
        rows: vec![vec!["テーブル変換".to_string()]],
    };
    assert_eq!(column_widths(&wide), vec![12 * 8 + 32, 60]);
}

#[test]
fn text_runs_split_by_font() {
    let runs = split_text_runs("ab😀c");
    assert_eq!(runs.len(), 3);
    assert_eq!(runs[0].text, "ab");
    assert!(!runs[0].is_emoji);
    assert_eq!((runs[0].end_units, runs[0].width_units), (2, 2));
    assert_eq!(runs[1].text, "😀");
    assert!(runs[1].is_emoji);
    assert_eq!((runs[1].end_units, runs[1].width_units), (4, 2));
    assert_eq!(runs[2].text, "c");
    assert_eq!((runs[2].end_units, runs[2].width_units), (5, 1));
    assert!(split_text_runs("").is_empty());
}

#[test]
fn hud_titles() {
    assert_eq!(hud_title("No Table"), "⚠ No Table");
    assert_eq!(hud_title("Error"), "⚠ Error");
    assert_eq!(hud_title("Markdown"), "✓ Markdown");
}

#[test]
fn markdown_has_two_more_lines_than_rows() {
    let table = parse_tables(SIMPLE).unwrap().remove(0);
    let md = format_markdown(&table);
    assert_eq!(md.lines().count(), table.rows.len() + 2);
    assert_eq!(data_row_count(&md), table.rows.len());
}

#[test]
fn notices_follow_the_hud_setting() {
    assert_eq!(notice_to_show(PressOutcome::NoTable, true), Some("No Table".to_string()));
    assert_eq!(notice_to_show(PressOutcome::Markdown, true), Some("Markdown".to_string()));
    assert_eq!(notice_to_show(PressOutcome::Image, true), Some("Image".to_string()));
    assert_eq!(notice_to_show(PressOutcome::RenderError, true), Some("Error".to_string()));
    assert_eq!(notice_to_show(PressOutcome::NoTable, false), None);
    assert_eq!(notice_to_show(PressOutcome::Markdown, false), None);
}

#[test]
fn svg_escape_reads_back() {
    let text = "a<b>&\"c&amp;";
    let escaped = escape_svg(text);
    assert!(!escaped.contains('<') && !escaped.contains('>') && !escaped.contains('"'));
    let back = escaped
        .replace("&quot;", "\"")
        .replace("&gt;", ">")
        .replace("&lt;", "<")
        .replace("&amp;", "&");
    assert_eq!(back, text);
}

fn unescaped_bars(line: &str) -> usize {
    let cs: Vec<char> = line.chars().collect();
    (0..cs.len()).filter(|&i| cs[i] == '|' && (i == 0 || cs[i - 1] != '\\')).count()
}

#[test]
fn markdown_lines_have_one_border_more_than_cells() {
    let table = Table {
        headers: vec!["a|b".to_string(), "c\\".to_string()],
        rows: vec![vec!["x|".to_string()], vec!["1".to_string(), "|2|".to_string(), "3".to_string()]],
    };
    let md = format_markdown(&table);
    let counts: Vec<usize> = md.lines().map(unescaped_bars).collect();
    assert_eq!(counts, vec![3, 3, 2, 4]);
    let empty = Table { headers: vec![], rows: vec![vec![]] };
    let counts: Vec<usize> = format_markdown(&empty).lines().map(unescaped_bars).collect();
    assert_eq!(counts, vec![2, 2, 2]);
}

#[test]
fn plain_line_separates_tables() {
    let a = "│ A │\n│ 1 │";
    let b = "│ B │";
    let joined = format!("{a}\nplain text\n{b}");
    let mut expected = parse_tables(a).unwrap();
    expected.extend(parse_tables(b).unwrap());
    assert_eq!(parse_tables(&joined).unwrap(), expected);
    assert!(parse_tables("x\n\ny").is_none());
    let with_cr = format!("{a}\nplain\r\n{b}");
    assert_eq!(parse_tables(&with_cr).unwrap(), expected);
}

#[test]
fn saved_numbers_read_back() {
    assert_eq!(to_decimal(0), "0");
    assert_eq!(to_decimal(1725029869), "1725029869");
    assert_eq!(to_decimal(u64::MAX), u64::MAX.to_string());
    let ts = to_decimal(1000);
    let idx = to_decimal(1);
    match restore_state(Some(&ts), 1030, Some("orig".to_string()), Some(&idx)) {
        SavedState::Found(o, i) => {
            assert_eq!(o, "orig");
            assert_eq!(i, 1);
        }
        _ => panic!("expected the saved state"),
    }
    assert!(matches!(restore_state(Some(&ts), 1031, Some("orig".to_string()), Some(&idx)), SavedState::Expired));
}

#[test]
fn settings_read_back_trimmed_and_keep_other_keys() {
    let updated = updated_config(Some("a = 1\nhud=on"), "hud", "  off \r");
    assert_eq!(config_value(&updated, "hud"), Some("off".to_string()));
    assert_eq!(config_value(&updated, "a"), Some("1".to_string()));
    assert!(!is_hud_enabled(Some(&updated)));
    let shouting = updated_config(None, "hud", "OFF");
    assert!(is_hud_enabled(Some(&shouting)));
    let last = updated_config(Some("x=1\ny=2\n"), "x", "5 ");
    assert_eq!(config_value(&last, "x"), Some("5".to_string()));
    assert_eq!(config_value(&last, "y"), Some("2".to_string()));
}

#[test]
fn layout_places_non_empty_cells() {
    let table = Table {
        headers: vec!["A".to_string(), "\u{1F600}x".to_string()],
        rows: vec![vec!["".to_string(), "b".to_string(), "extra".to_string()], vec!["c".to_string()]],
    };
    let widths = column_widths(&table);
    assert_eq!(widths, vec![60, 60]);
    let layout = table_layout(&table).unwrap();
    assert_eq!(layout.edges, vec![0, 60, 120]);
    let cell = |row: usize, col: usize, left_px: u128, emoji: bool| PlacedCell {
        row,
        col,
        left_px,
        bold: row == 0,
        emoji,
    };
    assert_eq!(
        layout.cells,
        vec![cell(0, 0, 0, false), cell(0, 1, 60, true), cell(1, 1, 60, false), cell(2, 0, 0, false)]
    );
}
