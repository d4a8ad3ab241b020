use dominant_colours::{hex_to_rgb, rgb_to_hex};

#[test]
fn test_rgb_to_hex() {
    assert_eq!(rgb_to_hex([255, 255, 255]), "#ffffff");
    assert_eq!(rgb_to_hex([0, 0, 0]), "#000000");
    assert_eq!(rgb_to_hex([255, 0, 0]), "#ff0000");
    assert_eq!(rgb_to_hex([0, 255, 0]), "#00ff00");
    assert_eq!(rgb_to_hex([0, 0, 255]), "#0000ff");
    assert_eq!(rgb_to_hex([85, 85, 85]), "#555555");
}

#[test]
fn hex_pads_small_channels_with_zero() {
    assert_eq!(rgb_to_hex([1, 2, 3]), "#010203");
    assert_eq!(rgb_to_hex([10, 11, 12]), "#0a0b0c");
    assert_eq!(rgb_to_hex([16, 160, 171]), "#10a0ab");
}

#[test]
fn hex_round_trip_over_a_grid_of_colours() {
    let steps: [u8; 9] = [0, 1, 9, 10, 15, 16, 127, 254, 255];
    for r in steps {
        for g in steps {
            for b in steps {
                let hex = rgb_to_hex([r, g, b]);
                assert_eq!(hex.len(), 7);
                assert_eq!(hex_to_rgb(&hex), Some([r, g, b]));
            }
        }
    }
}

#[test]
fn hex_round_trip_over_every_channel_value() {
    for v in 0..=255u8 {
        assert_eq!(hex_to_rgb(&rgb_to_hex([v, 0, 255 - v])), Some([v, 0, 255 - v]));
    }
}

#[test]
fn hex_reads_upper_case_digits() {
    assert_eq!(hex_to_rgb("#FFA07A"), Some([255, 160, 122]));
    assert_eq!(hex_to_rgb("#fFa07A"), Some([255, 160, 122]));
}

#[test]
fn hex_refuses_other_text() {
    assert_eq!(hex_to_rgb(""), None);
    assert_eq!(hex_to_rgb("ff0000"), None);
    assert_eq!(hex_to_rgb("#ff000"), None);
    assert_eq!(hex_to_rgb("#ff00000"), None);
    assert_eq!(hex_to_rgb("#gg0000"), None);
    assert_eq!(hex_to_rgb("#ff00 0"), None);
    assert_eq!(hex_to_rgb("0ff0000"), None);
    assert_eq!(hex_to_rgb("#ff00é"), None);
}
