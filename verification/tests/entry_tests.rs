use lift_log::entry::{dec_string, format_down, format_max, format_myo, format_set, triangular};

#[test]
fn decimal_rendering() {
    assert_eq!(dec_string(0), "0");
    assert_eq!(dec_string(7), "7");
    assert_eq!(dec_string(10), "10");
    assert_eq!(dec_string(255), "255");
    assert_eq!(dec_string(65535), "65535");
    assert_eq!(dec_string(2147450880), "2147450880");
}

#[test]
fn triangular_numbers() {
    assert_eq!(triangular(5), 15);
    assert_eq!(triangular(1), 1);
    assert_eq!(triangular(0), 0);
    assert_eq!(triangular(10), 55);
    // The widest starting rep count still totals without wrapping.
    assert_eq!(triangular(65535), 2147450880);
}

#[test]
fn set_line_template() {
    assert_eq!(
        format_set("bench", 3, 8, 135, 2),
        "    #set bench: 3x8 [135lbs] (2 RIR)"
    );
}

#[test]
fn max_line_template() {
    assert_eq!(format_max("deadlift", 225), "    #max deadlift: [225lbs]");
}

#[test]
fn myo_line_template() {
    assert_eq!(
        format_myo("curl", 3, 20, 4, 25),
        "    #myo curl: 3x20 [25lbs] (4 rests)"
    );
}

#[test]
fn down_line_totals_the_ladder() {
    assert_eq!(
        format_down("squat", 5, 135),
        "    #down squat: 15 => 5 [135lbs]"
    );
}
