use color_palette::cli::{is_image, parse_args, parse_usize, PathFact};

fn fact(exists: bool, is_file: bool, ext: Option<&str>) -> PathFact {
    PathFact { exists, is_file, extension: ext.map(|s| s.to_string()) }
}

fn image_fact() -> PathFact {
    fact(true, true, Some("png"))
}

fn plain_fact() -> PathFact {
    fact(true, true, None)
}

fn s(v: &[&str]) -> Vec<String> {
    v.iter().map(|x| x.to_string()).collect()
}

#[test]
fn no_arguments_is_an_error() {
    let r = parse_args(vec![], vec![]);
    let e = r.err().unwrap();
    assert_eq!(e.errors, vec!["Missing required image path".to_string()]);
}

#[test]
fn image_path_alone_defaults_to_rgb_and_five_colors() {
    let r = parse_args(s(&["photo.png"]), vec![image_fact()]).unwrap();
    assert_eq!(r.img_path, "photo.png");
    assert!(r.rgb);
    assert!(!r.hex && !r.silent && !r.time);
    assert_eq!(r.num_colors, 5);
    assert!(r.output_path.is_none());
}

#[test]
fn missing_image_path_is_reported() {
    let e = parse_args(s(&["gone.png"]), vec![fact(false, false, Some("png"))]).err().unwrap();
    assert_eq!(e.errors, vec!["Image path 'gone.png' does not exist".to_string()]);
}

#[test]
fn directory_as_image_path_is_reported() {
    let e = parse_args(s(&["dir.png"]), vec![fact(true, false, Some("png"))]).err().unwrap();
    assert_eq!(e.errors, vec!["Image path 'dir.png' is not a file".to_string()]);
}

#[test]
fn unsupported_extension_is_reported() {
    let e = parse_args(s(&["notes.txt"]), vec![fact(true, true, Some("txt"))]).err().unwrap();
    assert_eq!(e.errors, vec!["File 'notes.txt' is not a supported image format".to_string()]);
}

#[test]
fn explicit_flags_are_set() {
    let args = s(&["photo.png", "-hx", "-time"]);
    let facts = vec![image_fact(), plain_fact(), plain_fact()];
    let r = parse_args(args, facts).unwrap();
    assert!(r.hex && r.time);
    assert!(!r.rgb && !r.silent);
}

#[test]
fn num_flag_sets_color_count_and_consumes_its_value() {
    let args = s(&["photo.png", "-num", "7"]);
    let facts = vec![image_fact(), plain_fact(), fact(false, false, None)];
    let r = parse_args(args, facts).unwrap();
    assert_eq!(r.num_colors, 7);
    assert!(r.output_path.is_none());
}

#[test]
fn invalid_num_value_is_reported() {
    let args = s(&["photo.png", "-num", "many"]);
    let facts = vec![image_fact(), plain_fact(), fact(false, false, None)];
    let e = parse_args(args, facts).err().unwrap();
    assert_eq!(
        e.errors,
        vec!["Invalid use of -num, it requires a valid number (1-12)".to_string()],
    );
}

#[test]
fn num_flag_without_value_is_reported() {
    let args = s(&["photo.png", "-num"]);
    let facts = vec![image_fact(), plain_fact()];
    let e = parse_args(args, facts).err().unwrap();
    assert_eq!(e.errors, vec!["-num flag requires a number argument".to_string()]);
}

#[test]
fn silent_conflicts_with_color_flags() {
    let args = s(&["photo.png", "-silent", "-rgb"]);
    let facts = vec![image_fact(), plain_fact(), plain_fact()];
    let e = parse_args(args, facts).err().unwrap();
    assert_eq!(
        e.errors,
        vec!["Silent flag cannot be used with RGB or hex flags".to_string()],
    );
}

#[test]
fn existing_path_becomes_output_and_extras_are_unknown() {
    let args = s(&["photo.png", "out", "extra"]);
    let facts = vec![image_fact(), fact(true, false, None), plain_fact()];
    let e = parse_args(args, facts).err().unwrap();
    assert_eq!(e.errors, vec!["Unknown argument: 'extra'".to_string()]);
}

#[test]
fn output_path_is_accepted_when_it_exists() {
    let args = s(&["photo.png", "out"]);
    let facts = vec![image_fact(), fact(true, false, None)];
    let r = parse_args(args, facts).unwrap();
    assert_eq!(r.output_path, Some("out".to_string()));
}

#[test]
fn nonexistent_output_path_is_reported() {
    let args = s(&["photo.png", "out"]);
    let facts = vec![image_fact(), fact(false, false, None)];
    let e = parse_args(args, facts).err().unwrap();
    assert_eq!(e.errors, vec!["Path 'out' does not exist".to_string()]);
}

#[test]
fn repeated_num_keeps_last_parse_and_reports_earlier_failure() {
    let args = s(&["photo.png", "-num", "-num", "5"]);
    let facts = vec![image_fact(), plain_fact(), plain_fact(), fact(false, false, None)];
    let e = parse_args(args, facts).err().unwrap();
    assert_eq!(
        e.errors,
        vec!["Invalid use of -num, it requires a valid number (1-12)".to_string()],
    );
}

#[test]
fn extension_check_ignores_ascii_case() {
    assert!(is_image(&Some("PNG".to_string())));
    assert!(is_image(&Some("JPeG".to_string())));
    assert!(is_image(&Some("webp".to_string())));
    assert!(!is_image(&Some("txt".to_string())));
    assert!(!is_image(&Some("pngx".to_string())));
    assert!(!is_image(&None));
}

#[test]
fn parse_usize_accepts_digits_and_a_leading_plus() {
    assert_eq!(parse_usize(&"7".to_string()), Some(7));
    assert_eq!(parse_usize(&"+42".to_string()), Some(42));
    assert_eq!(parse_usize(&"0".to_string()), Some(0));
    assert_eq!(parse_usize(&"18446744073709551615".to_string()), Some(usize::MAX));
}

#[test]
fn parse_usize_rejects_everything_else() {
    assert_eq!(parse_usize(&"".to_string()), None);
    assert_eq!(parse_usize(&"+".to_string()), None);
    assert_eq!(parse_usize(&"-3".to_string()), None);
    assert_eq!(parse_usize(&"4.5".to_string()), None);
    assert_eq!(parse_usize(&"many".to_string()), None);
    assert_eq!(parse_usize(&"18446744073709551616".to_string()), None);
}

#[test]
fn several_errors_come_back_in_detection_order() {
    let args = s(&["gone.png", "nowhere", "-silent", "-rgb"]);
    let facts = vec![
        fact(false, false, Some("png")),
        fact(false, false, None),
        plain_fact(),
        plain_fact(),
    ];
    let e = parse_args(args, facts).err().unwrap();
    assert_eq!(
        e.errors,
        vec![
            "Image path 'gone.png' does not exist".to_string(),
            "Path 'nowhere' does not exist".to_string(),
            "Silent flag cannot be used with RGB or hex flags".to_string(),
        ],
    );
}
