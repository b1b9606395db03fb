use nomadnet::micron::{MicronBuilder, TableAlign};

#[test]
fn test_heading() {
    let mut b = MicronBuilder::new();
    b.heading(1, "Server Info");
    assert!(b.build().contains("> Server Info\n"));
}

#[test]
fn test_nested_heading() {
    let mut b = MicronBuilder::new();
    b.heading(2, "Sub");
    assert!(b.build().contains(">> Sub\n"));
}

#[test]
fn test_divider() {
    let mut b = MicronBuilder::new();
    b.divider();
    assert!(b.build().contains("-\n"));
}

#[test]
fn test_bold() {
    let mut b = MicronBuilder::new();
    b.bold("hello");
    assert!(b.build().contains("`!hello!"));
}

#[test]
fn test_italic() {
    let mut b = MicronBuilder::new();
    b.italic("hello");
    assert!(b.build().contains("`*hello*"));
}

#[test]
fn test_underline() {
    let mut b = MicronBuilder::new();
    b.underline("hello");
    assert!(b.build().contains("`_hello_"));
}

#[test]
fn test_link() {
    let mut b = MicronBuilder::new();
    b.link("Go", "abc123:/page/index.mu");
    assert!(b.build().contains("`[Go`abc123:/page/index.mu]"));
}

#[test]
fn test_lxmf_link() {
    let mut b = MicronBuilder::new();
    b.lxmf_link("Chat", "deadbeef12345678deadbeef12345678");
    assert!(b
        .build()
        .contains("`[Chat`@lxmf:deadbeef12345678deadbeef12345678]"));
}

#[test]
fn test_field() {
    let mut b = MicronBuilder::new();
    b.field("username", "");
    assert!(b.build().contains("`<username`>"));
}

#[test]
fn test_checkbox() {
    let mut b = MicronBuilder::new();
    b.checkbox("agree", "yes", "I agree", false);
    assert!(b.build().contains("`<?|agree|yes|> I agree"));
}

#[test]
fn test_checkbox_checked() {
    let mut b = MicronBuilder::new();
    b.checkbox("agree", "yes", "I agree", true);
    assert!(b.build().contains("`<?|agree|yes|*> I agree"));
}

#[test]
fn test_submit_link() {
    let mut b = MicronBuilder::new();
    b.submit_link("Send", "abc123:/page/index.mu");
    assert!(b.build().contains("`[Send`abc123:/page/index.mu`*]"));
}

#[test]
fn test_cache_directive() {
    let mut b = MicronBuilder::new();
    b.cache_directive(0);
    assert!(b.build().starts_with("#!c=0\n"));
}

#[test]
fn test_color_directives() {
    let mut b = MicronBuilder::new();
    b.bg_color_directive("222");
    b.fg_color_directive("eee");
    let s = b.build();
    assert!(s.contains("#!bg=222\n"));
    assert!(s.contains("#!fg=eee\n"));
}

#[test]
fn test_color_inline() {
    let mut b = MicronBuilder::new();
    b.color_fg("f00");
    assert!(b.build().contains("`Ff00"));
}

#[test]
fn test_escape() {
    assert_eq!(MicronBuilder::escape("hello `world`"), "hello ``world``");
}

#[test]
fn test_escape_empty() {
    assert_eq!(MicronBuilder::escape(""), "");
}

#[test]
fn test_comment() {
    let mut b = MicronBuilder::new();
    b.comment("this is hidden");
    assert!(b.build().contains("# this is hidden\n"));
}

#[test]
fn test_literal() {
    let mut b = MicronBuilder::new();
    b.literal("`!not bold!`");
    assert!(b.build().contains("`=`!not bold!`\n"));
}

#[test]
fn test_blank_line() {
    let mut b = MicronBuilder::new();
    b.text("hello");
    b.blank_line();
    b.text("world");
    assert_eq!(b.build(), "hello\n\nworld\n");
}

#[test]
fn test_full_page() {
    let mut b = MicronBuilder::new();
    b.cache_directive(3600);
    b.bg_color_directive("111");
    b.heading(1, "LXIRC Server");
    b.divider();
    b.bold("Users online: ");
    b.text("3");
    b.blank_line();
    b.heading(2, "Channels");
    b.link("#general", "abc123:/page/channels/general.mu");
    b.blank_line();
    let page = b.build();
    assert!(page.starts_with("#!c=3600\n#!bg=111\n"));
    assert!(page.contains("> LXIRC Server\n"));
    assert!(page.contains("-\n"));
    assert!(page.contains("`!Users online: !"));
    assert!(page.contains("3\n"));
    assert!(page.contains(">> Channels\n"));
}

#[test]
fn test_display_impl() {
    let mut b = MicronBuilder::new();
    b.heading(1, "Test");
    let display = b.build();
    assert_eq!(display, "> Test\n");
}

#[test]
fn test_table_start_plain() {
    let mut b = MicronBuilder::new();
    b.table_start(None, None);
    assert_eq!(b.build(), "`t\n");
}

#[test]
fn test_table_start_with_align() {
    let mut b = MicronBuilder::new();
    b.table_start(Some(TableAlign::Center), None);
    assert_eq!(b.build(), "`tc\n");
}

#[test]
fn test_table_start_with_align_and_width() {
    let mut b = MicronBuilder::new();
    b.table_start(Some(TableAlign::Right), Some(40));
    assert_eq!(b.build(), "`tr40\n");
}

#[test]
fn test_table_start_width_only() {
    let mut b = MicronBuilder::new();
    b.table_start(None, Some(80));
    assert_eq!(b.build(), "`t80\n");
}

#[test]
fn test_table_row() {
    let mut b = MicronBuilder::new();
    b.table_row(&["Name", "Price", "Qty"]);
    assert_eq!(b.build(), "|Name|Price|Qty|\n");
}

#[test]
fn test_table_row_with_alignment_hints() {
    let mut b = MicronBuilder::new();
    b.table_row(&[" ---- ", " :---: ", " --: "]);
    assert_eq!(b.build(), "| ---- | :---: | --: |\n");
}

#[test]
fn test_table_full() {
    let mut b = MicronBuilder::new();
    b.table_start(Some(TableAlign::Center), Some(30));
    b.table_row(&["Name", "Price", "Qty"]);
    b.table_row(&[" ---- ", " :---: ", " --: "]);
    b.table_row(&["Apple", "Free", "5"]);
    b.table_end();
    let s = b.build();
    assert!(s.starts_with("`tc30\n"));
    assert!(s.contains("|Name|Price|Qty|\n"));
    assert!(s.contains("|Apple|Free|5|\n"));
    assert!(s.ends_with("`t\n"));
}

#[test]
fn test_partial_url_only() {
    let mut b = MicronBuilder::new();
    b.partial("abc123:/page/stats.mu", None, "");
    assert_eq!(b.build(), "`{abc123:/page/stats.mu}\n");
}

#[test]
fn test_partial_with_refresh() {
    let mut b = MicronBuilder::new();
    let secs = format!("{}", 5.0f64);
    b.partial("abc123:/page/stats.mu", Some(secs.as_str()), "");
    assert_eq!(b.build(), "`{abc123:/page/stats.mu`5}\n");
}

#[test]
fn test_partial_with_refresh_and_fields() {
    let mut b = MicronBuilder::new();
    let secs = format!("{}", 10.0f64);
    b.partial("abc123:/page/stats.mu", Some(secs.as_str()), "channel|user");
    assert_eq!(b.build(), "`{abc123:/page/stats.mu`10`channel|user}\n");
}

#[test]
fn test_truecolor_fg() {
    let mut b = MicronBuilder::new();
    b.truecolor_fg("ff5500");
    assert!(b.build().contains("`Fff5500"));
}

#[test]
fn test_truecolor_bg() {
    let mut b = MicronBuilder::new();
    b.truecolor_bg("1a2b3c");
    assert!(b.build().contains("`B1a2b3c"));
}

#[test]
fn test_table_align_chars() {
    assert_eq!(TableAlign::Left.as_char(), 'l');
    assert_eq!(TableAlign::Center.as_char(), 'c');
    assert_eq!(TableAlign::Right.as_char(), 'r');
}

#[test]
fn heading_level_is_capped_at_eight() {
    let mut b = MicronBuilder::new();
    b.heading(12, "Deep");
    assert_eq!(b.build(), ">>>>>>>> Deep\n");
}

#[test]
fn text_escapes_backticks_but_raw_line_does_not() {
    let mut b = MicronBuilder::new();
    b.text("a`b");
    b.text_raw_line("c`d");
    assert_eq!(b.build(), "a``b\nc`d\n");
}

#[test]
fn escape_keeps_non_ascii() {
    assert_eq!(MicronBuilder::escape("\u{e9}`\u{2014}"), "\u{e9}``\u{2014}");
}

#[test]
fn link_with_fields_joins_with_pipes() {
    let mut b = MicronBuilder::new();
    b.link_with_fields("L", "u", &["a", "b"]);
    b.link_with_fields("M", "v", &[]);
    assert_eq!(b.build(), "`[L`u`a|b]`[M`v]");
}

#[test]
fn fields_and_inline_formatting() {
    let mut b = MicronBuilder::new();
    b.field_with_width(12, "name", "x");
    b.masked_field("pw", "");
    b.custom_divider('=');
    b.reset_depth();
    b.reset_fg();
    b.reset_bg();
    b.reset_formatting();
    b.center("c");
    b.left_align("l");
    b.right_align("r");
    b.color_bg("0f0");
    b.raw("RAW");
    assert_eq!(
        b.build(),
        "`<12|name`x>`<!pw`>-=\n<\n`f`b` `cc`ll`rr`B0f0RAW"
    );
}

#[test]
fn default_builder_is_empty() {
    let b = MicronBuilder::default();
    assert_eq!(b.build(), "");
}
