use fractal_worker::options_grid::get_edited_options;

fn entries(v: &[(&str, &str)]) -> Vec<(String, String)> {
    v.iter().map(|(k, v)| (k.to_string(), v.to_string())).collect()
}

#[test]
fn nothing_edited_is_none() {
    let live = entries(&[("max_iter", "1024"), ("center", "0+0i")]);
    let pending = entries(&[("center", "0+0i"), ("max_iter", "1024")]);
    assert_eq!(get_edited_options(&pending, &live), None);
    assert_eq!(get_edited_options(&Vec::new(), &live), None);
}

#[test]
fn changed_values_are_returned() {
    let live = entries(&[("max_iter", "1024"), ("center", "0+0i")]);
    let pending = entries(&[("max_iter", "2048"), ("center", "0+0i")]);
    assert_eq!(get_edited_options(&pending, &live), Some(entries(&[("max_iter", "2048")])));
}

#[test]
fn options_missing_from_live_count_as_edited() {
    let live = entries(&[("max_iter", "1024")]);
    let pending = entries(&[("zoom", "2"), ("max_iter", "1024")]);
    assert_eq!(get_edited_options(&pending, &live), Some(entries(&[("zoom", "2")])));
}
