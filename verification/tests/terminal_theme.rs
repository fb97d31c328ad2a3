use herdr::terminal_theme::{
    host_palette_query_sequence, osc_reset_default_color_sequence,
    osc_set_default_color_sequence, parse_default_color_response, parse_hex_component,
    parse_palette_color_response, DefaultColorKind, HostAppearance, RgbColor, TerminalTheme,
    HOST_ANSI_PALETTE_LEN, rgb_color_would_panic, default_color_response_would_panic,
    palette_color_response_would_panic,
};

#[test]
fn parses_st_terminated_rgb_response() {
    let parsed = parse_default_color_response("\x1b]10;rgb:cccc/dddd/eeee\x1b\\");
    assert_eq!(
        parsed,
        Some((
            DefaultColorKind::Foreground,
            RgbColor {
                r: 0xcc,
                g: 0xdd,
                b: 0xee,
            },
        ))
    );
}

#[test]
fn parses_bel_terminated_hash_response() {
    let parsed = parse_default_color_response("\x1b]11;#123456\u{7}");
    assert_eq!(
        parsed,
        Some((
            DefaultColorKind::Background,
            RgbColor {
                r: 0x12,
                g: 0x34,
                b: 0x56,
            },
        ))
    );
}

#[test]
fn default_color_reset_sequences_use_xterm_osc_numbers() {
    assert_eq!(
        osc_reset_default_color_sequence(DefaultColorKind::Foreground),
        "\x1b]110\x1b\\"
    );
    assert_eq!(
        osc_reset_default_color_sequence(DefaultColorKind::Background),
        "\x1b]111\x1b\\"
    );
}

#[test]
fn parses_palette_color_response() {
    let parsed = parse_palette_color_response("\x1b]4;4;rgb:8989/b4b4/fafa\x1b\\");
    assert_eq!(
        parsed,
        Some((
            4,
            RgbColor {
                r: 0x89,
                g: 0xb4,
                b: 0xfa,
            },
        ))
    );
    // Out-of-range indices (256-color cube/grayscale) are ignored.
    assert_eq!(
        parse_palette_color_response("\x1b]4;200;rgb:1111/2222/3333\x1b\\"),
        None
    );
    // OSC 10/11 default-color responses are not palette responses.
    assert_eq!(
        parse_palette_color_response("\x1b]11;rgb:1111/2222/3333\x1b\\"),
        None
    );
}

#[test]
fn palette_query_sequence_covers_sixteen_ansi_colors() {
    let seq = host_palette_query_sequence();
    assert!(seq.starts_with("\x1b]4;0;?\x1b\\"));
    assert!(seq.contains("\x1b]4;15;?\x1b\\"));
    assert_eq!(seq.matches("\x1b]4;").count(), HOST_ANSI_PALETTE_LEN);
}

#[test]
fn scales_short_hex_components() {
    assert_eq!(parse_hex_component("f"), Some(255));
    assert_eq!(parse_hex_component("80"), Some(128));
    assert_eq!(parse_hex_component("800"), Some(128));
    assert_eq!(parse_hex_component("8000"), Some(128));
}

#[test]
fn set_sequence_reads_back_as_the_same_color() {
    let color = RgbColor { r: 0x0a, g: 0xff, b: 0x00 };
    let seq = osc_set_default_color_sequence(DefaultColorKind::Background, color);
    assert_eq!(seq, "\x1b]11;rgb:0a/ff/00\x1b\\");
    assert_eq!(
        parse_default_color_response(&seq),
        Some((DefaultColorKind::Background, color))
    );
    let seq = osc_set_default_color_sequence(DefaultColorKind::Foreground, color);
    assert_eq!(seq, "\x1b]10;rgb:0a/ff/00\x1b\\");
}

#[test]
fn palette_query_sequence_is_exact() {
    let mut expected = String::new();
    for index in 0..16 {
        expected.push_str(&format!("\x1b]4;{index};?\x1b\\"));
    }
    assert_eq!(host_palette_query_sequence(), expected);
}

#[test]
fn rejects_malformed_color_values() {
    // Wrong number of components, empty or overlong components, non-hex digits.
    assert_eq!(parse_default_color_response("\x1b]10;rgb:11/22\x1b\\"), None);
    assert_eq!(parse_default_color_response("\x1b]10;rgb:11/22/33/\x1b\\"), None);
    assert_eq!(parse_default_color_response("\x1b]10;rgb:11//33\x1b\\"), None);
    assert_eq!(parse_default_color_response("\x1b]10;rgb:11111/22/33\x1b\\"), None);
    assert_eq!(parse_default_color_response("\x1b]10;rgb:1g/22/33\x1b\\"), None);
    // `#` forms need three equal runs of one to four digits.
    assert_eq!(parse_default_color_response("\x1b]10;#12345\x1b\\"), None);
    assert_eq!(parse_default_color_response("\x1b]10;#1234567890abc\x1b\\"), None);
    assert_eq!(
        parse_default_color_response("\x1b]10;#fff\x1b\\"),
        Some((DefaultColorKind::Foreground, RgbColor { r: 255, g: 255, b: 255 }))
    );
    // Framing and command numbers.
    assert_eq!(parse_default_color_response("\x1b]12;rgb:11/22/33\x1b\\"), None);
    assert_eq!(parse_default_color_response("\x1b]10;rgb:11/22/33"), None);
    assert_eq!(parse_default_color_response("]10;rgb:11/22/33\x1b\\"), None);
    assert_eq!(parse_default_color_response("\x1b]10rgb:11/22/33\x1b\\"), None);
    assert_eq!(parse_default_color_response("\x1b]10;red\x1b\\"), None);
}

#[test]
fn palette_index_follows_integer_parsing() {
    let color = Some(RgbColor { r: 0x11, g: 0x22, b: 0x33 });
    assert_eq!(
        parse_palette_color_response("\x1b]4;+15;rgb:11/22/33\x07"),
        Some((15, color.unwrap()))
    );
    assert_eq!(
        parse_palette_color_response("\x1b]4;007;rgb:11/22/33\x07"),
        Some((7, color.unwrap()))
    );
    assert_eq!(parse_palette_color_response("\x1b]4;16;rgb:11/22/33\x07"), None);
    assert_eq!(parse_palette_color_response("\x1b]4;256;rgb:11/22/33\x07"), None);
    assert_eq!(parse_palette_color_response("\x1b]4;-1;rgb:11/22/33\x07"), None);
    assert_eq!(parse_palette_color_response("\x1b]4;;rgb:11/22/33\x07"), None);
    assert_eq!(parse_palette_color_response("\x1b]4;+;rgb:11/22/33\x07"), None);
}

#[test]
fn hex_components_round_to_nearest() {
    assert_eq!(parse_hex_component("0"), Some(0));
    assert_eq!(parse_hex_component("8"), Some(136));
    assert_eq!(parse_hex_component("7f"), Some(127));
    assert_eq!(parse_hex_component("FFFF"), Some(255));
    assert_eq!(parse_hex_component(""), None);
    assert_eq!(parse_hex_component("12345"), None);
    assert_eq!(parse_hex_component("x"), None);
}

#[test]
fn appearance_follows_luminance_threshold() {
    assert_eq!(RgbColor { r: 255, g: 255, b: 255 }.inferred_appearance(), HostAppearance::Light);
    assert_eq!(RgbColor { r: 0, g: 0, b: 0 }.inferred_appearance(), HostAppearance::Dark);
    // 128 * 1000 = 128000 exactly: light.
    assert_eq!(RgbColor { r: 128, g: 128, b: 128 }.inferred_appearance(), HostAppearance::Light);
    assert_eq!(RgbColor { r: 127, g: 128, b: 128 }.inferred_appearance(), HostAppearance::Dark);
}

#[test]
fn theme_records_default_colors() {
    let theme = TerminalTheme::default();
    assert!(theme.is_empty());
    let color = RgbColor { r: 1, g: 2, b: 3 };
    let theme = theme.with_color(DefaultColorKind::Background, color);
    assert!(!theme.is_empty());
    assert_eq!(theme.background, Some(color));
    assert_eq!(theme.foreground, None);
    let theme = theme.with_color(DefaultColorKind::Foreground, color);
    assert_eq!(theme.foreground, Some(color));
}

#[test]
fn hash_values_that_fail_before_the_second_cut_do_not_panic() {
    assert!(!rgb_color_would_panic("#zzaéb"));
    assert!(!rgb_color_would_panic("#zé"));
    assert!(rgb_color_would_panic("#éa"));
    assert!(rgb_color_would_panic("#fé"));
    assert!(!rgb_color_would_panic("rgb:é/é/é"));
    assert!(!rgb_color_would_panic("#123456"));
    assert!(!default_color_response_would_panic("\x1b]10;#zzaéb\x1b\\"));
    assert_eq!(parse_default_color_response("\x1b]10;#zzaéb\x1b\\"), None);
    assert!(default_color_response_would_panic("\x1b]11;#fé\x1b\\"));
    assert!(!default_color_response_would_panic("\x1b]12;#fé\x1b\\"));
    assert!(palette_color_response_would_panic("\x1b]4;3;#éa\x07"));
    assert!(!palette_color_response_would_panic("\x1b]4;16;#éa\x07"));
    assert_eq!(parse_palette_color_response("\x1b]4;3;#zzaéb\x07"), None);
}

#[test]
fn short_hash_colors_scale_each_third() {
    assert_eq!(
        parse_default_color_response("\x1b]10;#f80\x1b\\"),
        Some((DefaultColorKind::Foreground, RgbColor { r: 255, g: 136, b: 0 }))
    );
    assert_eq!(parse_default_color_response("\x1b]10;#f8\x1b\\"), None);
    assert_eq!(parse_default_color_response("\x1b]10;rgb:f/8/0/0\x1b\\"), None);
}

#[test]
fn palette_replies_read_back_for_every_ansi_entry() {
    for i in 0..16u8 {
        let reply = format!("\x1b]4;{i};rgb:{:02x}/{:02x}/{:02x}\x1b\\", 1, 2 * i, 255 - i);
        assert_eq!(
            parse_palette_color_response(&reply),
            Some((i, RgbColor { r: 1, g: 2 * i, b: 255 - i }))
        );
    }
}
