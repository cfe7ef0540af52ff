use flash_font::ass::{decode_text_auto, extract_fonts, scan_inline_tags};
use flash_font::font_set::FontSet;

#[test]
fn test_extract_fonts_lucky_star() {
    let ass = r"
        [Script Info]
        Title:lucky star
        Original Script:CASO&I.G
        Synch Point:0
        ScriptType:v4.00+
        Collisions:Normal
        PlayResX:704
        PlayResY:396
        Timer:100.0000

        [V4+ Styles]
        Format: Name, Fontname, Fontsize, PrimaryColour, SecondaryColour, OutlineColour, BackColour, Bold, Italic, Underline, StrikeOut, ScaleX, ScaleY, Spacing, Angle, BorderStyle, Outline, Shadow, Alignment, MarginL, MarginR, MarginV, Encoding
        Style: zhengwen,方正准圆_GBK,26,&H00FFFFFF,&H004080FF,&H20B71082,&H99B71082,-1,0,0,0,100,100,0,0.00,0,3,1,2,30,30,8,134
        Style: zhushi,方正准圆_GBK,19,&H00FFFFFF,&H004080FF,&H20E22E1B,&H99E22E1B,-1,0,0,0,100,100,0,0.00,0,3,1,8,30,30,8,134
        Style: jinggao,方正准圆_GBK,17,&H00FFFFFF,&H00FFFFFF,&H00000000,&HFF000000,-1,0,0,0,100,100,0,0.00,1,3,1,8,15,15,5,134
        Style: staff,@DFGKanTeiRyu-XB,18,&H00FFFFFF,&H00000000,&H407A0748,&HA0FFFFFF,0,0,0,0,105,105,1,0.00,1,3,0,7,30,30,10,128
        Style: OPJ,DFGKanTeiRyu-XB,18,&H00FFFFFF,&H00000000,&H208B0C66,&H66666666,0,0,0,0,100,105,2,0.00,1,3,1,8,30,30,10,128
        Style: OPC,方正少儿_GBK,24,&H00FFFFFF,&H00000000,&H208B0C66,&H66666666,0,0,0,0,100,100,0,0.00,1,3,1,2,30,30,7,134
        Style: EDJ,MS Gothic,21,&H00EEEEEE,&H90FFFFFF,&H12333333,&H20000000,-1,0,0,0,100,100,1,0.00,0,3,0,8,30,30,8,128
        Style: EDC,方正黑体_GBK,19,&H00EEEEEE,&HFF000000,&H12333333,&H20000000,0,0,0,0,100,100,2,0.00,0,3,0,8,30,30,12,134

        [Events]
        Format: Layer, Start, End, Style, Actor, MarginL, MarginR, MarginV, Effect, Text
        Dialogue: 0,0:00:06.08,0:00:08.78,OPJ,NTP,0000,0000,0000,,曖昧３センチ　そりゃぷにってコトかい？　ちょっ！
        Dialogue: 0,0:00:08.95,0:00:11.97,OPJ,NTP,0000,0000,0000,,らっぴんぐが制服…だぁぁ不利ってことない　ぷ。
        Dialogue: 0,0:00:12.20,0:00:13.55,OPJ,NTP,0000,0000,0000,,がんばっちゃ　やっちゃっちゃ
        ";
    let fonts_extracted = extract_fonts(ass);
    let mut fonts_expected = vec![
        "DFGKanTeiRyu-XB",
        "MS Gothic",
        "方正少儿_GBK",
        "方正准圆_GBK",
        "方正黑体_GBK",
    ];
    fonts_expected.sort();
    assert_eq!(fonts_extracted, fonts_expected);
}

#[test]
fn test_extract_fonts_make_heroine_ga_oosugiru() {
    let ass = r"
        [Script Info]
        ; Script generated by Aegisub 9706-cibuilds-20caaabc0
        ; http://www.aegisub.org/
        Title: [KitaujiSub] Make Heroine ga Oosugiru! - 12
        ScriptType: v4.00+
        WrapStyle: 2
        ScaledBorderAndShadow: yes
        YCbCr Matrix: TV.709
        PlayResX: 1920
        PlayResY: 1080
        LayoutResX: 1920
        LayoutResY: 1080

        [V4+ Styles]
        Format: Name, Fontname, Fontsize, PrimaryColour, SecondaryColour, OutlineColour, BackColour, Bold, Italic, Underline, StrikeOut, ScaleX, ScaleY, Spacing, Angle, BorderStyle, Outline, Shadow, Alignment, MarginL, MarginR, MarginV, Encoding
        Style: Text - CN,Source Han Sans TC Medium,80,&H00F5F5F5,&H000000FF,&H00252525,&H00000000,0,0,0,0,100,100,1,0,1,2.5,0,2,10,10,52,1
        Style: Text - JP,Source Han Sans Medium,52,&H00F5F5F5,&H000000FF,&H00252525,&H00000000,0,0,0,0,100,100,1,0,1,2.2,0,2,10,10,10,1
        Style: Text - CN - UP,Source Han Sans TC Medium,80,&H00F5F5F5,&H000000FF,&H00252525,&H00000000,0,0,0,0,100,100,1,0,1,2.5,0,8,10,10,10,1
        Style: Text - JP - UP,Source Han Sans Medium,52,&H00F5F5F5,&H000000FF,&H00252525,&H00000000,0,0,0,0,100,100,1,0,1,2.2,0,8,10,10,80,1
        Style: Screen,Source Han Sans TC Medium,80,&H00F5F5F5,&H000000FF,&H00252525,&H00000000,0,0,0,0,100,100,1,0,1,2.5,0,2,10,10,53,1
        Style: Title,华康翩翩体W5-A,72,&H00B9B9B9,&H000000FF,&H00B99A57,&H00B99A57,0,0,0,0,100,100,5,0,1,0,0,2,10,10,285,1
        Style: Ruby,Source Han Sans TC Medium,45,&H00F5F5F5,&H000000FF,&H00252525,&H00000000,0,0,0,0,100,100,2,0,1,2.2,0,2,10,10,115,1
        Style: Staff,华康翩翩体W5-A,60,&H00B9B9B9,&H000000FF,&H00B99A57,&H00B99A57,0,0,0,0,100,100,0,0,1,0,0,8,10,10,30,1

        [Events]
        Format: Layer, Start, End, Style, Name, MarginL, MarginR, MarginV, Effect, Text
        Comment: 0,0:00:00.00,0:00:00.00,Note,,0,0,0,,--------------- Subtitle Staff&Title ---------------
        Comment: 0,0:05:41.45,0:05:47.37,Screen,,0,0,0,,# 參見這裡 https://www.nonhoi.jp/amusement/
        Dialogue: 0,0:05:41.44,0:05:41.48,Screen,,0,0,0,,{=0}{\alpha&H00&\an4\fs70\bord0\c&H312C33&\pos(455,330)}兒童列車
        Dialogue: 0,0:05:41.48,0:05:41.52,Screen,,0,0,0,,{=0}{\alpha&H00&\an4\fs70\bord0\c&H312C33&\pos(457.06,310)}兒童列車
        Dialogue: 0,0:05:41.52,0:05:41.57,Screen,,0,0,0,,{=0}{\alpha&H00&\an4\fs70\bord0\c&H312C33&\pos(459.13,290.16)}兒童列車
        Dialogue: 0,0:05:42.78,0:05:42.82,Screen,,0,0,0,,{=2}{\alpha&H00&\an4\fnSource Han Sans TC\fs40\bord0\fsp0\c&H38434A&\pos(175.71,1125.35)}隨著「嘟嘟—」的汽笛聲前進！乘上列車沿著遊樂場內鋪設的軌道周遊，好好探險吧。
        Dialogue: 0,0:05:42.82,0:05:42.86,Screen,,0,0,0,,{=2}{\alpha&H00&\an4\fnSource Han Sans TC\fs40\bord0\fsp0\c&H38434A&\pos(177.77,1105.37)}隨著「嘟嘟—」的汽笛聲前進！乘上列車沿著遊樂場內鋪設的軌道周遊，好好探險吧。
        Dialogue: 0,0:05:42.86,0:05:42.90,Screen,,0,0,0,,{=2}{\alpha&H00&\an4\fnSource Han Sans TC\fs40\bord0\fsp0\c&H38434A&\pos(179.85,1085.56)}隨著「嘟嘟—」的汽笛聲前進！乘上列車沿著遊樂場內鋪設的軌道周遊，好好探險吧。
        Dialogue: 0,0:05:42.90,0:05:42.94,Screen,,0,0,0,,{=2}{\alpha&H00&\an4\fnSource Han Sans TC\fs40\bord0\fsp0\c&H38434A&\pos(181.98,1065.73)}隨著「嘟嘟—」的汽笛聲前進！乘上列車沿著遊樂場內鋪設的軌道周遊，好好探險吧。
        Dialogue: 0,0:05:42.94,0:05:42.98,Screen,,0,0,0,,{=2}{\alpha&H00&\an4\fnSource Han Sans TC\fs40\bord0\fsp0\c&H38434A&\pos(184.07,1045.73)}隨著「嘟嘟—」的汽笛聲前進！乘上列車沿著遊樂場內鋪設的軌道周遊，好好探險吧。
        Dialogue: 0,0:05:42.98,0:05:43.03,Screen,,0,0,0,,{=2}{\alpha&H00&\an4\fnSource Han Sans TC\fs40\bord0\fsp0\c&H38434A&\pos(186.17,1025.88)}隨著「嘟嘟—」的汽笛聲前進！乘上列車沿著遊樂場內鋪設的軌道周遊，好好探險吧。
        Dialogue: 0,0:05:43.03,0:05:43.07,Screen,,0,0,0,,{=2}{\alpha&H00&\an4\fnSource Han Sans TC\fs40\bord0\fsp0\c&H38434A&\pos(188.31,1006.03)}隨著「嘟嘟—」的汽笛聲前進！乘上列車沿著遊樂場內鋪設的軌道周遊，好好探險吧。
        Dialogue: 0,0:05:43.07,0:05:43.11,Screen,,0,0,0,,{=2}{\alpha&H00&\an4\fnSource Han Sans TC\fs40\bord0\fsp0\c&H38434A&\pos(190.43,986.13)}隨著「嘟嘟—」的汽笛聲前進！乘上列車沿著遊樂場內鋪設的軌道周遊，好好探險吧。
";
    let fonts_extracted = extract_fonts(ass);
    let mut fonts_expected = vec![
        "Source Han Sans TC",
        "Source Han Sans Medium",
        "华康翩翩体W5-A",
        "Source Han Sans TC Medium",
    ];
    fonts_expected.sort();
    assert_eq!(fonts_extracted, fonts_expected);
}

#[test]
fn test_scan_inline_tags() {
    let mut fonts = FontSet::new();
    scan_inline_tags("{\\", &mut fonts);
    scan_inline_tags("{fn", &mut fonts);
    scan_inline_tags("{\\fn}", &mut fonts);
    scan_inline_tags("{\\fn\\}", &mut fonts);
    assert!(fonts.is_empty());

    let mut fonts = FontSet::new();
    scan_inline_tags("{\\fnSource Han Sans TC\\b2e}", &mut fonts);
    assert_eq!(fonts.to_vec(), vec!["Source Han Sans TC".to_string()]);

    let mut fonts = FontSet::new();
    scan_inline_tags("{{\\fnArial}text}", &mut fonts);
    assert_eq!(fonts.to_vec(), vec!["Arial".to_string()]);
}

#[test]
fn readme_example_lists_style_and_inline_fonts() {
    let ass_content = r#"
[V4+ Styles]
Format: Name, Fontname, Fontsize
Style: Default,Arial,20

[Events]
Format: Layer, Start, End, Style, Text
Dialogue: 0,0:00:00.00,0:00:05.00,Default,{\fnOpen Sans}This is a test.
"#;
    let fonts = extract_fonts(ass_content);
    assert_eq!(fonts, vec!["Arial", "Open Sans"]);
}

#[test]
fn empty_text_has_no_fonts() {
    assert!(extract_fonts("").is_empty());
    assert!(extract_fonts("\n\n  \r\n").is_empty());
}

#[test]
fn format_line_moves_the_font_column() {
    let ass = "[V4+ Styles]\nFormat: Fontname, Name\nStyle: Gothic,Main\n";
    assert_eq!(extract_fonts(ass), vec!["Gothic"]);
}

#[test]
fn format_line_without_fontname_uses_last_column() {
    let ass = "[V4+ Styles]\nFormat: Name, Size, Face\nStyle: Main,20,Mincho\n";
    assert_eq!(extract_fonts(ass), vec!["Mincho"]);
}

#[test]
fn fontname_column_is_found_ignoring_ascii_case() {
    let ass = "[V4 Styles]\nFormat: name,  FONTNAME ,size\nStyle: Main, Meiryo ,20\n";
    assert_eq!(extract_fonts(ass), vec!["Meiryo"]);
}

#[test]
fn style_line_too_short_adds_nothing() {
    let ass = "[V4++ Styles]\nStyle: OnlyName\n";
    assert!(extract_fonts(ass).is_empty());
}

#[test]
fn vertical_marker_and_whitespace_are_removed_and_duplicates_merged() {
    let ass = "[V4+ Styles]\nStyle: A, @Yu Gothic ,20\nStyle: B,Yu Gothic,20\nStyle: C, @ ,20\n";
    assert_eq!(extract_fonts(ass), vec!["Yu Gothic"]);
}

#[test]
fn styles_outside_a_styles_section_are_ignored() {
    let ass = "[Script Info]\nStyle: A,Arial,20\n[Fonts]\nStyle: B,Verdana,20\n";
    assert!(extract_fonts(ass).is_empty());
}

#[test]
fn comment_events_are_ignored() {
    let ass = "[Events]\nComment: 0,0:00:00.00,0:00:01.00,S,,0,0,0,,{\\fnHidden}x\nDialogue: 0,0:00:00.00,0:00:01.00,S,,0,0,0,,{\\fnShown}x\n";
    assert_eq!(extract_fonts(ass), vec!["Shown"]);
}

#[test]
fn dialogue_text_keeps_its_commas() {
    let ass = "[Events]\nDialogue: 0,0:00:00.00,0:00:01.00,S,,0,0,0,,a, b, {\\fnComma Sans}c\n";
    assert_eq!(extract_fonts(ass), vec!["Comma Sans"]);
}

#[test]
fn dialogue_needs_the_exact_event_name() {
    let ass = "[Events]\nDialogue2: 0,0:00:00.00,0:00:01.00,S,,0,0,0,,{\\fnNo}x\n";
    assert!(extract_fonts(ass).is_empty());
}

#[test]
fn crlf_line_endings_are_read_like_lf() {
    let lf = "[V4+ Styles]\nStyle: A,Arial,20\n[Events]\nDialogue: 0,0,0,S,,0,0,0,,{\\fnB}x\n";
    let crlf = lf.replace('\n', "\r\n");
    assert_eq!(extract_fonts(lf), extract_fonts(&crlf));
    assert_eq!(extract_fonts(&crlf), vec!["Arial", "B"]);
}

#[test]
fn output_is_sorted_by_code_point() {
    let ass = "[V4+ Styles]\nStyle: A,b,1\nStyle: B,B,1\nStyle: C,方正,1\nStyle: D,a,1\n";
    assert_eq!(extract_fonts(ass), vec!["B", "a", "b", "方正"]);
}

#[test]
fn several_tags_in_one_block_and_several_blocks() {
    let mut fonts = FontSet::new();
    scan_inline_tags("{\\b1\\fnOne\\i1}x{\\fn Two }y{\\fn@Three}", &mut fonts);
    assert_eq!(fonts.to_vec(), vec!["One", "Three", "Two"]);
    assert_eq!(fonts.len(), 3);
}

#[test]
fn unclosed_block_ends_the_scan() {
    let mut fonts = FontSet::new();
    scan_inline_tags("{\\fnA}{\\fnB", &mut fonts);
    assert_eq!(fonts.to_vec(), vec!["A"]);
}

#[test]
fn font_set_insert_reports_new_names() {
    let mut fonts = FontSet::new();
    assert!(fonts.insert("Arial".chars().collect()));
    assert!(!fonts.insert("Arial".chars().collect()));
    assert!(fonts.insert("Alpha".chars().collect()));
    assert_eq!(fonts.to_vec(), vec!["Alpha", "Arial"]);
    assert!(!fonts.is_empty());
}

#[test]
fn decode_text_auto_reads_gbk_and_bom_utf8() {
    let gbk: Vec<u8> = vec![
        0x5B, 0x56, 0x34, 0x2B, 0x20, 0x53, 0x74, 0x79, 0x6C, 0x65, 0x73, 0x5D, 0x0A, 0x53, 0x74, 0x79,
        0x6C, 0x65, 0x3A, 0x20, 0x41, 0x2C, 0xB7, 0xBD, 0xD5, 0xFD, 0xD7, 0xBC, 0xD4, 0xB2, 0x2C, 0x32,
        0x30, 0x0A, 0x5B, 0x45, 0x76, 0x65, 0x6E, 0x74, 0x73, 0x5D, 0x0A, 0x44, 0x69, 0x61, 0x6C, 0x6F,
        0x67, 0x75, 0x65, 0x3A, 0x20, 0x30, 0x2C, 0x30, 0x3A, 0x30, 0x30, 0x3A, 0x30, 0x30, 0x2E, 0x30,
        0x30, 0x2C, 0x30, 0x3A, 0x30, 0x30, 0x3A, 0x30, 0x31, 0x2E, 0x30, 0x30, 0x2C, 0x41, 0x2C, 0x2C,
        0x30, 0x2C, 0x30, 0x2C, 0x30, 0x2C, 0x2C, 0xD5, 0xE2, 0xCA, 0xC7, 0xD2, 0xBB, 0xB8, 0xF6, 0xB2,
        0xE2, 0xCA, 0xD4, 0xD7, 0xD6, 0xC4, 0xBB, 0xCE, 0xC4, 0xBC, 0xFE, 0xA3, 0xAC, 0xCE, 0xD2, 0xC3,
        0xC7, 0xD0, 0xE8, 0xD2, 0xAA, 0xD5, 0xFD, 0xC8, 0xB7, 0xCA, 0xB6, 0xB1, 0xF0, 0xCB, 0xFC, 0xB5,
        0xC4, 0xB1, 0xE0, 0xC2, 0xEB, 0xA3, 0xAC, 0xC8, 0xBB, 0xBA, 0xF3, 0xB6, 0xC1, 0xB3, 0xF6, 0xCB,
        0xF9, 0xD3, 0xD0, 0xB5, 0xC4, 0xD7, 0xD6, 0xCC, 0xE5, 0xC3, 0xFB, 0xB3, 0xC6, 0xA1, 0xA3, 0x0A,
    ];
    let text = decode_text_auto(&gbk);
    assert!(text.contains("方正准圆"));
    assert_eq!(extract_fonts(&text), vec!["方正准圆"]);

    let mut bom = vec![0xEF, 0xBB, 0xBF];
    bom.extend_from_slice("Style: x".as_bytes());
    assert_eq!(decode_text_auto(&bom), "Style: x");
}

#[test]
fn fonts_found_earlier_survive_later_lines() {
    let ass = "[V4+ Styles]\nStyle: A,Early,1\n[Events]\nFormat: Text\nDialogue: {\\fnLate}\n[V4+ Styles]\nFormat: Name\nStyle: B\n";
    assert_eq!(extract_fonts(ass), vec!["B", "Early", "Late"]);
}

#[test]
fn spaces_and_tabs_around_lines_do_not_matter() {
    let plain = "[V4+ Styles]\nStyle: A,Arial,20\n[Events]\nDialogue: 0,0,0,S,,0,0,0,,{\\fnB}x\n";
    let padded = "  [V4+ Styles]\t\n\tStyle: A,Arial,20  \n [Events] \n\t Dialogue: 0,0,0,S,,0,0,0,,{\\fnB}x\t\n";
    assert_eq!(extract_fonts(padded), extract_fonts(plain));
    assert_eq!(extract_fonts(padded), vec!["Arial", "B"]);
}

#[test]
fn a_leading_other_section_does_not_matter() {
    let ass = "[V4+ Styles]\nStyle: A,Arial,20\n[Events]\nDialogue: 0,0,0,S,,0,0,0,,{\\fnB}x\n";
    let junk = "Title: x\nStyle: Z,Hidden,20\nDialogue: 0,0,0,S,,0,0,0,,{\\fnNo}x";
    let with_junk = format!("[Script Info]\n{}\n{}", junk, ass);
    assert_eq!(extract_fonts(&with_junk), extract_fonts(ass));
}

#[test]
fn decode_text_auto_keeps_plain_utf8() {
    assert_eq!(decode_text_auto(b"[Events]\nDialogue: x"), "[Events]\nDialogue: x");
    let text = "Style: A,方正少儿_GBK,20";
    assert_eq!(decode_text_auto(text.as_bytes()), text);
    assert_eq!(decode_text_auto(b""), "");
}

#[test]
fn format_lines_always_leave_a_wanted_column() {
    let needle: Vec<char> = "Fontname".chars().collect();
    for line in ["", "Name", "Name, Fontname, Fontsize", ",,,", "Fontname"] {
        let mut fmt = flash_font::ass::ColFormat::style_default();
        let text: Vec<char> = line.chars().collect();
        fmt.update_from_format_line(&text, &needle);
        assert!(fmt.columns_count >= 1);
        assert!(fmt.target_index < fmt.columns_count);
    }
    let mut fmt = flash_font::ass::ColFormat::event_default();
    fmt.update_from_format_line(&Vec::new(), &needle);
    assert_eq!((fmt.columns_count, fmt.target_index), (1, 0));
}

#[test]
fn vertical_name_with_whitespace_is_the_plain_name() {
    let mut plain = FontSet::new();
    let mut vertical = FontSet::new();
    flash_font::ass::add_font(&mut plain, &"Yu Gothic".chars().collect());
    flash_font::ass::add_font(&mut vertical, &" \t@Yu Gothic \t".chars().collect());
    assert_eq!(plain.to_vec(), vertical.to_vec());
    assert_eq!(plain.to_vec(), vec!["Yu Gothic"]);
}
