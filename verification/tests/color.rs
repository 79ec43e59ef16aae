use qu_interp::color::{colour_table, edit_distance, from_rgb, from_rgba, named_colour, nearest_name, resolve_hex};

#[test]
fn from_rgb_writes_two_lowercase_hex_digits_per_channel() {
    assert_eq!(from_rgb(65, 105, 225), "#4169e1");
    assert_eq!(from_rgb(0, 0, 0), "#000000");
    assert_eq!(from_rgb(255, 255, 255), "#ffffff");
}

#[test]
fn from_rgba_appends_the_alpha_byte() {
    assert_eq!(from_rgba(255, 0, 0, 128), "#ff000080");
    assert_eq!(from_rgba(255, 0, 0, 255), "#ff0000ff");
}

#[test]
fn the_table_is_sorted_so_the_binary_search_is_valid() {
    let table = colour_table();
    for w in table.windows(2) {
        assert!(w[0].0 < w[1].0, "{} then {}", w[0].0, w[1].0);
    }
}

#[test]
fn the_table_holds_the_browser_names() {
    assert_eq!(colour_table().len(), 148);
    assert_eq!(named_colour("royalblue").unwrap(), "#4169e1");
    assert_eq!(named_colour("cornflowerblue").unwrap(), "#6495ed");
    assert_eq!(named_colour("RoyalBlue"), None);
    assert_eq!(named_colour("notacolour"), None);
}

#[test]
fn hex_text_passes_through_lower_cased_and_the_shorthand_expands() {
    assert_eq!(resolve_hex("#4169E1", "4169E1").unwrap(), "#4169e1");
    assert_eq!(resolve_hex("#abc", "abc").unwrap(), "#aabbcc");
    assert_eq!(resolve_hex("#4169e180", "4169e180").unwrap(), "#4169e180");
    let e = resolve_hex("#12345", "12345").unwrap_err();
    assert!(e.contains("found 5"), "got {e}");
    assert!(resolve_hex("#ggg", "ggg").is_err());
}

#[test]
fn edit_distance_counts_single_character_edits() {
    assert_eq!(edit_distance("royalbleu", "royalblue"), 2);
    assert_eq!(edit_distance("kitten", "sitting"), 3);
    assert_eq!(edit_distance("", "abc"), 3);
    assert_eq!(edit_distance("same", "same"), 0);
    assert_eq!(edit_distance("a", "abcde"), usize::MAX);
}

#[test]
fn the_nearest_name_is_the_first_closest_within_three_edits() {
    assert_eq!(nearest_name("royalbleu"), Some("royalblue"));
    assert_eq!(nearest_name("gren"), Some("green"));
}
