use linguist_termcolor::error::Error;
use linguist_termcolor::hex::hex_string;
use linguist_termcolor::nearest::{find_nearest_color, parse_metric, Metric};
use linguist_termcolor::palette::xterm_palette;

#[test]
fn palette_has_256_entries() {
    let p = xterm_palette();
    assert_eq!(p.len(), 256);
    assert_eq!(p[0], 0x000000);
    assert_eq!(p[15], 0xffffff);
    assert_eq!(p[180], 0xd7af87);
    assert_eq!(p[255], 0xeeeeee);
}

#[test]
fn palette_entry_is_nearest_to_itself() {
    let p = xterm_palette();
    for metric in [Metric::Rgb, Metric::Cmyk, Metric::Lab] {
        // 0x5f5faf first occurs at index 61
        let (i, c) = find_nearest_color(0x5f5faf, &p, metric);
        assert_eq!((i, c), (61, 0x5f5faf));
    }
}

#[test]
fn tie_breaks_to_the_lower_index() {
    // the palette repeats 0x000000 at indexes 0 and 16; the first wins
    let (i, c) = find_nearest_color(0x000000, &xterm_palette(), Metric::Rgb);
    assert_eq!((i, c), (0, 0x000000));

    let two = vec![0x102030, 0x102030];
    let (i, _) = find_nearest_color(0x102030, &two, Metric::Lab);
    assert_eq!(i, 0);
}

#[test]
fn metrics_disagree_on_python_blue() {
    // the stored color of "python", #3572a5, lands on different xterm
    // entries depending on the distance metric
    let p = xterm_palette();
    let color = 0x3572a5;
    let (rgb_i, _) = find_nearest_color(color, &p, Metric::Rgb);
    let (cmyk_i, _) = find_nearest_color(color, &p, Metric::Cmyk);
    let (lab_i, _) = find_nearest_color(color, &p, Metric::Lab);
    assert_eq!(rgb_i, 61);
    assert_eq!(cmyk_i, 67);
    assert_eq!(lab_i, 24);
    assert_ne!(rgb_i, lab_i);
}

#[test]
fn rust_orange_lands_on_xterm_180() {
    let p = xterm_palette();
    let (i, c) = find_nearest_color(0xdea584, &p, Metric::Rgb);
    assert_eq!(i, 180);
    assert_eq!(hex_string(c), "#d7af87");
}

#[test]
fn nearest_works_on_small_palettes() {
    let p = vec![0xff0000, 0x00ff00, 0x0000ff];
    let (i, c) = find_nearest_color(0xfe0101, &p, Metric::Rgb);
    assert_eq!((i, c), (0, 0xff0000));
}

#[test]
fn metric_identifiers_parse_case_insensitively() {
    assert_eq!(parse_metric("rgb"), Ok(Metric::Rgb));
    assert_eq!(parse_metric("RGB"), Ok(Metric::Rgb));
    assert_eq!(parse_metric("cmyk"), Ok(Metric::Cmyk));
    assert_eq!(parse_metric("CMYK"), Ok(Metric::Cmyk));
    assert_eq!(parse_metric("lab"), Ok(Metric::Lab));
    assert_eq!(parse_metric("Lab"), Ok(Metric::Lab));
}

#[test]
fn unknown_metric_is_a_configuration_error() {
    assert_eq!(parse_metric("hsl"), Err(Error::MetricConfiguration));
    assert_eq!(parse_metric(""), Err(Error::MetricConfiguration));
    assert_eq!(parse_metric("rgb "), Err(Error::MetricConfiguration));
}

#[test]
fn error_descriptions_differ() {
    assert_eq!(Error::MetricConfiguration.describe(), "unknown distance metric");
    assert_eq!(Error::DatasetParse.describe(), "malformed color in dataset");
}
