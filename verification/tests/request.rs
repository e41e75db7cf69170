use catalog_diagram::error::ExitCode;
use catalog_diagram::layout::LayoutMode;
use catalog_diagram::render_svg::Theme;
use catalog_diagram::request::{
    command_text, extension, resolve_output, table_list, theme_for, variant_plan, written_counts,
    OutputFormat, OutputTarget,
};
use catalog_diagram::timestamp::{civil_from_days, timestamp};

#[test]
fn table_lists_are_trimmed_and_empty_entries_dropped() {
    assert_eq!(table_list(" A, B ,,C,"), vec!["A", "B", "C"]);
    assert!(table_list("").is_empty());
    assert_eq!(table_list("single"), vec!["single"]);
}

#[test]
fn output_targets() {
    assert_eq!(resolve_output(OutputFormat::Svg, true, true, false).unwrap(), OutputTarget::Stdout);
    let e = resolve_output(OutputFormat::Png, true, true, false).unwrap_err();
    assert_eq!(e.exit_code(), ExitCode::Usage);
    assert_eq!(e.message(), "PNG output cannot be written to stdout; pass -o <path>");
    assert_eq!(resolve_output(OutputFormat::Png, true, false, true).unwrap(), OutputTarget::Given);
    assert_eq!(resolve_output(OutputFormat::Html, false, false, false).unwrap(), OutputTarget::NextToInput);
    let e = resolve_output(OutputFormat::Html, false, false, true).unwrap_err();
    assert_eq!(e.message(), "reading from stdin requires an explicit -o/--output path");
    assert_eq!(extension(OutputFormat::Html), "html");
}

#[test]
fn variant_plans() {
    assert_eq!(
        variant_plan(5, true, LayoutMode::Auto, true),
        vec![
            (LayoutMode::AsDesigned, false),
            (LayoutMode::AsDesigned, true),
            (LayoutMode::Auto, false),
            (LayoutMode::Auto, true)
        ]
    );
    assert_eq!(
        variant_plan(5, false, LayoutMode::Auto, true),
        vec![(LayoutMode::AsDesigned, true), (LayoutMode::Auto, true)]
    );
    assert_eq!(variant_plan(121, true, LayoutMode::Auto, false), vec![(LayoutMode::Auto, false)]);
}

#[test]
fn command_lines_quote_arguments_with_spaces() {
    let args = vec!["render".to_string(), "my file.xml".to_string(), "--depth".to_string(), "2".to_string()];
    assert_eq!(command_text(&args), "render \"my file.xml\" --depth 2");
    assert_eq!(command_text(&Vec::new()), "");
}

#[test]
fn civil_dates_and_timestamps() {
    assert_eq!(civil_from_days(0), (1970, 1, 1));
    assert_eq!(civil_from_days(-1), (1969, 12, 31));
    assert_eq!(civil_from_days(11_016), (2000, 2, 29));
    assert_eq!(civil_from_days(19_723), (2024, 1, 1));
    assert_eq!(civil_from_days(-719_468), (0, 3, 1));
    assert_eq!(timestamp(0), "Generated 1970-01-01 00:00:00 UTC");
    assert_eq!(timestamp(1_700_000_000), "Generated 2023-11-14 22:13:20 UTC");
}

#[test]
fn layout_mode_names_parse_back() {
    assert_eq!(LayoutMode::parse("as-designed"), Some(LayoutMode::AsDesigned));
    assert_eq!(LayoutMode::parse("auto"), Some(LayoutMode::Auto));
    assert_eq!(LayoutMode::parse("grid"), None);
    assert_eq!(LayoutMode::AsDesigned.as_str(), "as-designed");
    assert_eq!(LayoutMode::Auto.as_str(), "auto");
}

#[test]
fn html_follows_the_reader_and_static_formats_are_light() {
    assert_eq!(theme_for(OutputFormat::Html, None), Theme::Auto);
    assert_eq!(theme_for(OutputFormat::Svg, None), Theme::Light);
    assert_eq!(theme_for(OutputFormat::Png, None), Theme::Light);
    assert_eq!(theme_for(OutputFormat::Svg, Some(Theme::Dark)), Theme::Dark);
}

#[test]
fn written_counts_use_singular_for_one() {
    assert_eq!(written_counts(1, 1), "1 table, 1 relation");
    assert_eq!(written_counts(0, 12), "0 tables, 12 relations");
}
