use apicase::style::{pad, width, ColorWhen, Style};

#[test]
fn color_follows_the_flag_then_the_terminal() {
    for no_color in [false, true] {
        assert!(Style::resolve(ColorWhen::Always, false, no_color).on, "显式 always 压过非终端");
        assert!(!Style::resolve(ColorWhen::Never, true, no_color).on);
        assert!(Style::resolve(ColorWhen::Auto, true, no_color).on || no_color);
        assert!(!Style::resolve(ColorWhen::Auto, false, no_color).on, "管道里不着色");
    }
    assert!(!Style::resolve(ColorWhen::Auto, true, true).on);
}

#[test]
fn painting_is_a_noop_when_off() {
    let off = Style { on: false };
    assert_eq!(off.pass("✓"), "✓");
    let on = Style { on: true };
    assert_eq!(on.pass("✓"), "\x1b[32m✓\x1b[0m");
}

#[test]
fn width_counts_east_asian_chars_as_two_columns() {
    assert_eq!(width("abc"), 3);
    assert_eq!(width("登录"), 4);
    assert_eq!(width("01-登录/a.yml"), 3 + 4 + 6);
    assert_eq!(pad("登录", 6), "登录  ");
    assert_eq!(pad("abcdef", 3), "abcdef", "超宽不截断");
}

#[test]
fn each_style_has_its_own_code() {
    let on = Style { on: true };
    let all = [on.pass("x"), on.fail("x"), on.error("x"), on.skip("x"), on.dim("x"), on.bold("x"), on.warn("x")];
    for s in &all {
        assert!(s.starts_with("\x1b[") && s.ends_with("x\x1b[0m"), "{s:?}");
    }
    assert_eq!(on.fail("x"), "\x1b[31mx\x1b[0m");
}

#[test]
fn padded_columns_line_up() {
    for s in ["", "a", "登录", "登录a.yml"] {
        assert_eq!(width(&pad(s, 12)), 12);
    }
}
