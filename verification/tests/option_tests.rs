use fractal_worker::option_setter::OptionSetter;

#[derive(Debug, Clone, PartialEq)]
struct Settings {
    iterations: u32,
    scale: i64,
}

fn parse_u32(s: &str) -> Result<u32, String> {
    s.parse::<u32>().map_err(|e| e.to_string())
}

fn parse_i64(s: &str) -> Result<i64, String> {
    s.parse::<i64>().map_err(|e| e.to_string())
}

fn start() -> Settings {
    Settings { iterations: 10, scale: 1 }
}

fn set_iterations(mut t: Settings, v: u32) -> Settings {
    t.iterations = v;
    t
}

fn set_scale(mut t: Settings, v: i64) -> Settings {
    t.scale = v;
    t
}

#[test]
fn matching_option_is_applied() {
    let s = start();
    let r = OptionSetter::new(&s, "iterations", "250")
        .option("scale", parse_i64, set_scale)
        .option("iterations", parse_u32, set_iterations)
        .finish();
    assert_eq!(r, Ok(Settings { iterations: 250, scale: 1 }));
    assert_eq!(s, start());
}

#[test]
fn first_matching_setter_wins() {
    let s = start();
    let r = OptionSetter::new(&s, "scale", "7")
        .option("scale", parse_i64, set_scale)
        .option("scale", parse_i64, |mut t: Settings, _v: i64| {
            t.scale = -1;
            t
        })
        .finish();
    assert_eq!(r, Ok(Settings { iterations: 10, scale: 7 }));
}

#[test]
fn unknown_option_is_not_found() {
    let s = start();
    let r = OptionSetter::new(&s, "zoom", "2")
        .option("scale", parse_i64, set_scale)
        .finish();
    assert_eq!(r, Err("field not found: zoom".to_owned()));
}

#[test]
fn unparsable_value_is_a_parse_error() {
    let s = start();
    let r = OptionSetter::new(&s, "iterations", "many")
        .option("iterations", parse_u32, set_iterations)
        .finish();
    assert_eq!(
        r,
        Err("error parsing option iterations: invalid digit found in string".to_owned())
    );
}

#[test]
fn try_option_error_is_the_outcome() {
    let s = start();
    let r = OptionSetter::new(&s, "iterations", "0")
        .try_option("iterations", parse_u32, |t: Settings, v: u32| {
            if v == 0 {
                Err("iterations must be positive".to_owned())
            } else {
                Ok(set_iterations(t, v))
            }
        })
        .finish();
    assert_eq!(r, Err("iterations must be positive".to_owned()));
}

#[test]
fn try_option_success_sets_value() {
    let s = start();
    let r = OptionSetter::new(&s, "iterations", "5")
        .try_option("iterations", parse_u32, |t: Settings, v: u32| Ok(set_iterations(t, v)))
        .finish();
    assert_eq!(r, Ok(Settings { iterations: 5, scale: 1 }));
}

#[test]
fn mutate_applies_only_after_success() {
    let s = start();
    let r = OptionSetter::new(&s, "scale", "3")
        .option("scale", parse_i64, set_scale)
        .mutate(|mut t: Settings| {
            t.iterations += 1;
            t
        })
        .finish();
    assert_eq!(r, Ok(Settings { iterations: 11, scale: 3 }));

    let r2 = OptionSetter::new(&s, "other", "3")
        .mutate(|mut t: Settings| {
            t.iterations += 1;
            t
        })
        .finish();
    assert_eq!(r2, Err("field not found: other".to_owned()));
}

#[test]
fn names_differing_in_case_do_not_match() {
    let s = start();
    let r = OptionSetter::new(&s, "Scale", "3")
        .option("scale", parse_i64, set_scale)
        .finish();
    assert_eq!(r, Err("field not found: Scale".to_owned()));
}
